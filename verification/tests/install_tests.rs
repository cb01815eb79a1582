use rnpm::install::{bin_links, install_dir, is_hidden_entry, plan_lock_install, plan_meta_downloads, plan_unpacked, UnpackPlan};
use rnpm::lockfile::LockedPackage;
use rnpm::registry::{Dist, VersionMetadata};
use rnpm::strmap::StrMap;
use rnpm::value::JsonValue;

#[test]
fn packages_install_under_node_modules() {
    assert_eq!(install_dir("lodash"), "node_modules/lodash");
    assert_eq!(install_dir("@babel/core"), "node_modules/@babel/core");
}

#[test]
fn unpacked_layouts() {
    assert!(plan_unpacked(true, &vec![false, true]) == UnpackPlan::MovePackageDir);
    assert!(plan_unpacked(false, &vec![true]) == UnpackPlan::MoveSingleDir);
    assert!(plan_unpacked(false, &vec![false]) == UnpackPlan::CopyEntries);
    assert!(plan_unpacked(false, &vec![true, true]) == UnpackPlan::CopyEntries);
    assert!(plan_unpacked(false, &vec![]) == UnpackPlan::CopyEntries);
}

#[test]
fn only_missing_resolved_packages_are_downloaded() {
    let mut m = StrMap::new();
    for n in ["a", "b", "c"] {
        m.insert(
            n.to_string(),
            VersionMetadata {
                name: n.to_string(),
                version: "1.0.0".to_string(),
                dist: Dist { tarball: format!("t/{n}"), shasum: String::new() },
                dependencies: None,
            },
        );
    }
    let d = plan_meta_downloads(&m, &vec![false, true, false]);
    assert_eq!(d, vec![("a".to_string(), "t/a".to_string()), ("c".to_string(), "t/c".to_string())]);
}

#[test]
fn lock_install_plans_downloads_and_relinks() {
    let mut m = StrMap::new();
    for n in ["a", "b", "c"] {
        m.insert(
            n.to_string(),
            LockedPackage { version: "1.0.0".to_string(), tarball: format!("t/{n}"), shasum: String::new(), dependencies: None },
        );
    }
    let p = plan_lock_install(&m, &vec![true, false, true], &vec![true, true, false]);
    assert_eq!(p.to_download, vec![("b".to_string(), "t/b".to_string())]);
    assert_eq!(p.missing_bins, vec!["a".to_string()]);
    assert!(!p.is_noop());
    let p = plan_lock_install(&m, &vec![true, true, true], &vec![false, false, false]);
    assert!(p.is_noop());
}

fn obj(entries: Vec<(&str, JsonValue)>) -> JsonValue {
    let mut m = StrMap::new();
    for (k, v) in entries {
        m.insert(k.to_string(), v);
    }
    JsonValue::Object(m)
}

#[test]
fn manifest_bins() {
    let single = obj(vec![("name", JsonValue::String("tsc-wrap".to_string())), ("bin", JsonValue::String("./bin/run.js".to_string()))]);
    let l = bin_links("dir", &single);
    assert_eq!(l.len(), 1);
    assert_eq!(l[0].name, "tsc-wrap");
    assert_eq!(l[0].target, "./bin/run.js");

    let unnamed = obj(vec![("bin", JsonValue::String("cli.js".to_string()))]);
    let l = bin_links("dir", &unnamed);
    assert_eq!(l[0].name, "dir");

    let many = obj(vec![(
        "bin",
        obj(vec![("a", JsonValue::String("a.js".to_string())), ("b", JsonValue::Number("3".to_string()))]),
    )]);
    let l = bin_links("dir", &many);
    assert_eq!(l.len(), 2);
    assert_eq!(l[0].name, "a");
    assert_eq!(l[0].target, "a.js");
    assert_eq!(l[1].name, "b");
    assert_eq!(l[1].target, "");

    assert!(bin_links("dir", &obj(vec![("bin", JsonValue::Bool(true))])).is_empty());
    assert!(bin_links("dir", &JsonValue::Null).is_empty());
}

#[test]
fn hidden_entries() {
    assert!(is_hidden_entry(".bin"));
    assert!(is_hidden_entry(".cache"));
    assert!(!is_hidden_entry("lodash"));
    assert!(!is_hidden_entry(""));
}
