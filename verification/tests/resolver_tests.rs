use rnpm::registry::{Dist, VersionMetadata};
use rnpm::resolver::Resolver;
use rnpm::strmap::StrMap;

fn meta(name: &str, version: &str, deps: &[(&str, &str)]) -> VersionMetadata {
    let dependencies = if deps.is_empty() {
        None
    } else {
        let mut m = StrMap::new();
        for (k, v) in deps {
            m.insert(k.to_string(), v.to_string());
        }
        Some(m)
    };
    VersionMetadata {
        name: name.to_string(),
        version: version.to_string(),
        dist: Dist { tarball: format!("t/{name}"), shasum: String::new() },
        dependencies,
    }
}

fn roots(list: &[(&str, &str)]) -> Vec<(String, String)> {
    list.iter().map(|(a, b)| (a.to_string(), b.to_string())).collect()
}

#[test]
fn resolves_a_dependency_tree_once_per_package() {
    let mut r = Resolver::new();
    r.start(roots(&[("a", "^1.0.0"), ("b", "^2.0.0")]));
    let mut fetched = Vec::new();
    while let Some((name, range)) = r.next_task() {
        fetched.push((name.clone(), range.clone()));
        let m = match name.as_str() {
            "a" => meta("a", "1.0.0", &[("c", "^3.0.0"), ("b", "^2.0.0")]),
            "b" => meta("b", "2.0.0", &[("c", "^3.1.0")]),
            "c" => meta("c", "3.1.0", &[("a", "^1.0.0")]),
            _ => panic!("unexpected request"),
        };
        r.complete_task(name, m);
    }
    assert_eq!(
        fetched,
        vec![
            ("a".to_string(), "^1.0.0".to_string()),
            ("b".to_string(), "^2.0.0".to_string()),
            ("c".to_string(), "^3.0.0".to_string()),
        ]
    );
    assert_eq!(r.resolved_count(), 3);
    assert!(r.is_idle());
    assert_eq!(r.resolved().get("c").unwrap().version, "3.1.0");
}

#[test]
fn a_resolved_root_is_not_handed_out_again() {
    let mut r = Resolver::new();
    r.start(roots(&[("a", "1.0.0")]));
    let (n, _) = r.next_task().unwrap();
    r.complete_task(n, meta("a", "1.0.0", &[]));
    r.start(roots(&[("a", "1.0.0"), ("a", "2.0.0")]));
    assert!(r.next_task().is_none());
    assert_eq!(r.resolved_count(), 1);
}

#[test]
fn queued_dependencies_are_not_queued_twice() {
    let mut r = Resolver::new();
    r.start(roots(&[("x", "1")]));
    let (n, _) = r.next_task().unwrap();
    r.complete_task(n, meta("x", "1.0.0", &[("y", "1"), ("z", "1")]));
    // y is still queued when another package asks for it.
    r.complete_task("w".to_string(), meta("w", "1.0.0", &[("y", "2"), ("x", "9"), ("v", "1")]));
    let mut order = Vec::new();
    while let Some((name, range)) = r.next_task() {
        order.push(format!("{name}@{range}"));
    }
    assert_eq!(order, vec!["y@1", "z@1", "v@1"]);
}

#[test]
fn a_self_dependency_is_ignored() {
    let mut r = Resolver::new();
    r.start(roots(&[("s", "1")]));
    let (n, _) = r.next_task().unwrap();
    r.complete_task(n, meta("s", "1.0.0", &[("s", "1")]));
    assert!(r.is_idle());
    assert!(r.next_task().is_none());
}

#[test]
fn an_empty_start_resolves_nothing() {
    let mut r = Resolver::new();
    r.start(Vec::new());
    assert!(r.next_task().is_none());
    assert_eq!(r.resolved_count(), 0);
}

#[test]
fn a_dependency_being_fetched_is_not_handed_out_again() {
    let mut r = Resolver::new();
    r.start(roots(&[("a", "1"), ("b", "1")]));
    let (a, _) = r.next_task().unwrap();
    let (b, _) = r.next_task().unwrap();
    assert_eq!((a.as_str(), b.as_str()), ("a", "b"));
    // b's fetch is still running when a turns out to need it.
    r.complete_task(a, meta("a", "1.0.0", &[("b", "1")]));
    assert!(r.is_idle());
    assert!(r.next_task().is_none());
    r.complete_task(b, meta("b", "1.0.0", &[]));
    assert_eq!(r.resolved_count(), 2);
}
