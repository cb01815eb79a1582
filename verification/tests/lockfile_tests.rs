use rnpm::lockfile::{LockedPackage, Lockfile};
use rnpm::registry::{Dist, VersionMetadata};
use rnpm::strmap::StrMap;

fn locked(v: &str) -> LockedPackage {
    LockedPackage { version: v.to_string(), tarball: format!("t-{v}"), shasum: format!("s-{v}"), dependencies: None }
}

#[test]
fn new_lockfile_is_empty() {
    assert_eq!(Lockfile::new().packages.len(), 0);
}

#[test]
fn from_resolved_records_each_package() {
    let mut deps = StrMap::new();
    deps.insert("b".to_string(), "^1.0.0".to_string());
    let mut resolved = StrMap::new();
    resolved.insert(
        "a".to_string(),
        VersionMetadata {
            name: "a".to_string(),
            version: "2.0.0".to_string(),
            dist: Dist { tarball: "https://x/a-2.0.0.tgz".to_string(), shasum: "abc".to_string() },
            dependencies: Some(deps),
        },
    );
    resolved.insert(
        "b".to_string(),
        VersionMetadata {
            name: "b".to_string(),
            version: "1.1.0".to_string(),
            dist: Dist { tarball: "https://x/b-1.1.0.tgz".to_string(), shasum: "def".to_string() },
            dependencies: None,
        },
    );
    let l = Lockfile::from_resolved(&resolved);
    assert_eq!(l.packages.len(), 2);
    let a = l.packages.get("a").unwrap();
    assert_eq!(a.version, "2.0.0");
    assert_eq!(a.tarball, "https://x/a-2.0.0.tgz");
    assert_eq!(a.shasum, "abc");
    assert_eq!(a.dependencies.as_ref().unwrap().get("b").unwrap(), "^1.0.0");
    assert!(l.packages.get("b").unwrap().dependencies.is_none());
}

#[test]
fn merge_prefers_the_new_entries() {
    let mut old = Lockfile::new();
    old.packages.insert("a".to_string(), locked("1.0.0"));
    old.packages.insert("b".to_string(), locked("1.0.0"));
    let mut new = Lockfile::new();
    new.packages.insert("b".to_string(), locked("2.0.0"));
    new.packages.insert("c".to_string(), locked("3.0.0"));
    old.merge(new);
    assert_eq!(old.packages.len(), 3);
    assert_eq!(old.packages.get("a").unwrap().version, "1.0.0");
    assert_eq!(old.packages.get("b").unwrap().version, "2.0.0");
    assert_eq!(old.packages.get("c").unwrap().tarball, "t-3.0.0");
}

#[test]
fn remove_package_drops_only_that_entry() {
    let mut l = Lockfile::new();
    l.packages.insert("a".to_string(), locked("1.0.0"));
    l.packages.insert("b".to_string(), locked("1.0.0"));
    l.remove_package("a");
    l.remove_package("missing");
    assert_eq!(l.packages.len(), 1);
    assert!(l.packages.get("a").is_none());
    assert!(l.packages.get("b").is_some());
}
