use rnpm::registry::{Dist, PackageMetadata, RegistryClient, ResolveError, VersionMetadata};
use rnpm::strmap::StrMap;

fn meta(name: &str, version: &str, deps: &[(&str, &str)]) -> VersionMetadata {
    let dependencies = if deps.is_empty() {
        None
    } else {
        let mut m = StrMap::new();
        for (k, v) in deps {
            m.insert(k.to_string(), v.to_string());
        }
        Some(m)
    };
    VersionMetadata {
        name: name.to_string(),
        version: version.to_string(),
        dist: Dist {
            tarball: format!("https://registry.npmjs.org/{name}/-/{name}-{version}.tgz"),
            shasum: format!("sha-{version}"),
        },
        dependencies,
    }
}

fn package(name: &str, versions: &[&str], tags: &[(&str, &str)]) -> PackageMetadata {
    let mut vs = StrMap::new();
    for v in versions {
        vs.insert(v.to_string(), meta(name, v, &[]));
    }
    let mut ts = StrMap::new();
    for (t, v) in tags {
        ts.insert(t.to_string(), v.to_string());
    }
    PackageMetadata { name: name.to_string(), versions: vs, dist_tags: ts }
}

#[test]
fn dist_tag_is_used_first() {
    let p = package("lodash", &["4.17.20", "4.17.21", "5.0.0-beta.1"], &[("latest", "4.17.21"), ("next", "5.0.0-beta.1")]);
    let c = RegistryClient::new();
    let r = c.resolve_version(&p, "next").ok().unwrap();
    assert_eq!(r.version, "5.0.0-beta.1");
    let r = c.resolve_version(&p, "latest").ok().unwrap();
    assert_eq!(r.version, "4.17.21");
}

#[test]
fn dist_tag_to_missing_version_is_an_error() {
    let p = package("left-pad", &["1.0.0"], &[("latest", "2.0.0")]);
    let c = RegistryClient::new();
    assert!(matches!(c.resolve_version(&p, "latest"), Err(ResolveError::InvalidDistTag)));
}

#[test]
fn exact_version_is_used() {
    let p = package("react", &["17.0.2", "18.2.0"], &[("latest", "18.2.0")]);
    let c = RegistryClient::new();
    let r = c.resolve_version(&p, "17.0.2").ok().unwrap();
    assert_eq!(r.version, "17.0.2");
    assert_eq!(r.dist.shasum, "sha-17.0.2");
}

#[test]
fn caret_range_picks_the_highest_match() {
    let p = package("chalk", &["4.0.0", "4.1.2", "4.1.0", "5.0.0", "3.9.9"], &[("latest", "5.0.0")]);
    let c = RegistryClient::new();
    let r = c.resolve_version(&p, "^4.0.0").ok().unwrap();
    assert_eq!(r.version, "4.1.2");
    let r = c.resolve_version(&p, "~4.1.0").ok().unwrap();
    assert_eq!(r.version, "4.1.2");
    let r = c.resolve_version(&p, ">=3.0.0, <4.0.0").ok().unwrap();
    assert_eq!(r.version, "3.9.9");
}

#[test]
fn unparsable_range_means_any_release() {
    let p = package("debug", &["2.6.9", "4.3.4", "5.0.0-rc.1"], &[]);
    let c = RegistryClient::new();
    let r = c.resolve_version(&p, "not a range").ok().unwrap();
    // `*` matches no pre-release, so the highest release wins.
    assert_eq!(r.version, "4.3.4");
}

#[test]
fn unmatched_range_falls_back_to_latest() {
    let p = package("ms", &["2.1.2", "2.1.3"], &[("latest", "2.1.3")]);
    let c = RegistryClient::new();
    let r = c.resolve_version(&p, "^9.0.0").ok().unwrap();
    assert_eq!(r.version, "2.1.3");
}

#[test]
fn nothing_to_choose_is_an_error() {
    let p = package("ms", &["2.1.2", "not-semver"], &[]);
    let c = RegistryClient::new();
    assert!(matches!(c.resolve_version(&p, "^9.0.0"), Err(ResolveError::NoMatchingVersion)));
}

#[test]
fn unparsable_versions_are_skipped() {
    let p = package("odd", &["v1.0.0", "1.0.01", "1.2.0"], &[]);
    let c = RegistryClient::new();
    let r = c.resolve_version(&p, "^1.0.0").ok().unwrap();
    assert_eq!(r.version, "1.2.0");
}

#[test]
fn resolved_copy_keeps_dependencies() {
    let mut vs = StrMap::new();
    vs.insert("1.0.0".to_string(), meta("a", "1.0.0", &[("b", "^2.0.0"), ("c", "1.x")]));
    let p = PackageMetadata { name: "a".to_string(), versions: vs, dist_tags: StrMap::new() };
    let c = RegistryClient::new();
    let r = c.resolve_version(&p, "^1.0.0").ok().unwrap();
    let deps = r.dependencies.unwrap();
    assert_eq!(deps.len(), 2);
    assert_eq!(deps.get("b").unwrap(), "^2.0.0");
    assert_eq!(deps.key_at(1), "c");
}

#[test]
fn metadata_url_escapes_scopes() {
    let c = RegistryClient::new();
    assert_eq!(c.base_url, "https://registry.npmjs.org");
    assert_eq!(c.metadata_url("express"), "https://registry.npmjs.org/express");
    assert_eq!(c.metadata_url("@types/node"), "https://registry.npmjs.org/@types%2fnode");
}

#[test]
fn highest_match_is_found_in_any_order() {
    let c = RegistryClient::new();
    let p = package("m", &["1.9.0", "1.10.0", "1.2.0", "1.10.0-beta.1", "1.10.0+build.5"], &[]);
    let r = c.resolve_version(&p, ">=1.0.0").ok().unwrap();
    assert_eq!(r.version, "1.10.0+build.5");
    // A pre-release matches only a range that names one, so `<1.10.0` gives 1.9.0.
    let r = c.resolve_version(&p, "<1.10.0").ok().unwrap();
    assert_eq!(r.version, "1.9.0");
    let r = c.resolve_version(&p, ">=1.10.0-beta.0, <1.10.0").ok().unwrap();
    assert_eq!(r.version, "1.10.0-beta.1");
}
