use rnpm::fetch::{AttemptOutcome, FetchFailure, FetchRetry, FetchStep, MetadataCache};
use rnpm::registry::PackageMetadata;
use rnpm::strmap::StrMap;

#[test]
fn failures_are_retried_three_times_with_backoff() {
    let mut f = FetchRetry::new();
    assert!(f.record(AttemptOutcome::RequestFailed) == FetchStep::RetryAfter(500));
    assert!(f.record(AttemptOutcome::BodyUnreadable) == FetchStep::RetryAfter(1000));
    assert!(f.record(AttemptOutcome::RequestFailed) == FetchStep::RetryAfter(2000));
    assert!(f.record(AttemptOutcome::RequestFailed) == FetchStep::Fail(FetchFailure::RequestFailed));
}

#[test]
fn last_unreadable_body_fails() {
    let mut f = FetchRetry::new();
    for _ in 0..3 {
        assert!(matches!(f.record(AttemptOutcome::BodyUnreadable), FetchStep::RetryAfter(_)));
    }
    assert!(f.record(AttemptOutcome::BodyUnreadable) == FetchStep::Fail(FetchFailure::BodyUnreadable));
}

#[test]
fn error_status_is_not_retried() {
    let mut f = FetchRetry::new();
    assert!(f.record(AttemptOutcome::Status(404)) == FetchStep::Fail(FetchFailure::NotFound(404)));
}

#[test]
fn parsed_body_is_done() {
    let mut f = FetchRetry::new();
    assert!(f.record(AttemptOutcome::RequestFailed) == FetchStep::RetryAfter(500));
    assert!(f.record(AttemptOutcome::Parsed) == FetchStep::Done);
}

#[test]
fn cached_metadata_is_returned() {
    let mut c = MetadataCache::new();
    assert!(c.get("left-pad").is_none());
    let mut tags = StrMap::new();
    tags.insert("latest".to_string(), "1.3.0".to_string());
    c.insert("left-pad".to_string(), PackageMetadata { name: "left-pad".to_string(), versions: StrMap::new(), dist_tags: tags });
    let m = c.get("left-pad").unwrap();
    assert_eq!(m.name, "left-pad");
    assert_eq!(m.dist_tags.get("latest").unwrap(), "1.3.0");
    assert!(c.get("right-pad").is_none());
}
