use rnpm::config::{detection_candidates, is_affirmative, RnpmConfig};

fn cfg(m: Option<&str>) -> RnpmConfig {
    RnpmConfig { use_lockfile: m.map(|s| s.to_string()) }
}

#[test]
fn configured_managers_map_to_their_lock_files() {
    assert_eq!(cfg(Some("npm")).get_lockfile_path(false).unwrap(), "package-lock.json");
    assert_eq!(cfg(Some("yarn")).get_lockfile_path(false).unwrap(), "yarn.lock");
    assert_eq!(cfg(Some("pnpm")).get_lockfile_path(true).unwrap(), "pnpm-lock.yaml");
    assert_eq!(cfg(Some("bun")).get_lockfile_path(true).unwrap(), "bun.lock");
    assert_eq!(cfg(Some("bun")).get_lockfile_path(false).unwrap(), "bun.lockb");
    assert!(cfg(Some("cargo")).get_lockfile_path(false).is_none());
    assert!(cfg(None).get_lockfile_path(true).is_none());
}

#[test]
fn default_config_uses_own_lock_file() {
    assert!(RnpmConfig::default().use_lockfile.is_none());
}

#[test]
fn answers_that_accept() {
    assert!(is_affirmative("y"));
    assert!(is_affirmative("Y\n"));
    assert!(is_affirmative("  yes \r\n"));
    assert!(is_affirmative("YeS"));
    assert!(!is_affirmative("n"));
    assert!(!is_affirmative(""));
    assert!(!is_affirmative("\n"));
    assert!(!is_affirmative("yess"));
    assert!(!is_affirmative("y es"));
}

#[test]
fn detection_offers_lockb_only_when_asked() {
    let c = detection_candidates(false);
    assert_eq!(c.len(), 4);
    assert_eq!(c[0], ("npm".to_string(), "package-lock.json".to_string()));
    assert_eq!(c[3], ("bun".to_string(), "bun.lock".to_string()));
    let c = detection_candidates(true);
    assert_eq!(c.len(), 5);
    assert_eq!(c[4], ("bun".to_string(), "bun.lockb".to_string()));
}
