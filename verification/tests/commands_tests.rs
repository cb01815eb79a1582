use rnpm::commands::{
    default_import_path, kind_for_configured_path, kind_for_import_path, next_install_step, path_with_bin, split_command,
    InstallStage, InstallStep, LockfileKind,
};

#[test]
fn configured_paths_choose_importers_by_name() {
    assert!(kind_for_configured_path("package-lock.json") == Some(LockfileKind::Npm));
    assert!(kind_for_configured_path("yarn.lock") == Some(LockfileKind::Yarn));
    assert!(kind_for_configured_path("pnpm-lock.yaml") == Some(LockfileKind::Pnpm));
    assert!(kind_for_configured_path("bun.lock") == Some(LockfileKind::Bun));
    assert!(kind_for_configured_path("bun.lockb") == Some(LockfileKind::Bun));
    assert!(kind_for_configured_path("./yarn.lock").is_none());
}

#[test]
fn command_line_paths_choose_importers_by_ending() {
    assert!(kind_for_import_path("sub/package-lock.json") == Some(LockfileKind::Npm));
    assert!(kind_for_import_path("../yarn.lock") == Some(LockfileKind::Yarn));
    assert!(kind_for_import_path("x/pnpm-lock.yaml") == Some(LockfileKind::Pnpm));
    assert!(kind_for_import_path("x/bun.lockb") == Some(LockfileKind::Bun));
    assert!(kind_for_import_path("Cargo.lock").is_none());
}

#[test]
fn default_import_prefers_npm_then_yarn_then_pnpm() {
    assert_eq!(default_import_path(true, true, true), "package-lock.json");
    assert_eq!(default_import_path(false, true, true), "yarn.lock");
    assert_eq!(default_import_path(false, false, true), "pnpm-lock.yaml");
    assert_eq!(default_import_path(false, false, false), "package-lock.json");
}

#[test]
fn script_commands_split_at_whitespace() {
    let (p, a) = split_command("  jest --ci\t--runInBand ").unwrap();
    assert_eq!(p, "jest");
    assert_eq!(a, vec!["--ci".to_string(), "--runInBand".to_string()]);
    let (p, a) = split_command("node").unwrap();
    assert_eq!(p, "node");
    assert!(a.is_empty());
    assert!(split_command("   ").is_none());
}

#[test]
fn bin_directory_goes_in_front_of_path() {
    assert_eq!(path_with_bin("/p/node_modules/.bin", true, "/usr/bin"), "/p/node_modules/.bin:/usr/bin");
    assert_eq!(path_with_bin("/p/node_modules/.bin", false, "/usr/bin"), "/usr/bin");
}

#[test]
fn install_takes_the_configured_lock_file_first() {
    assert_eq!(next_install_step(InstallStage::Start, true, true), InstallStep::ImportConfigured);
    assert_eq!(next_install_step(InstallStage::Start, true, false), InstallStep::ImportConfigured);
}

#[test]
fn install_offers_detected_lock_files_only_without_rnpm_lock() {
    assert_eq!(next_install_step(InstallStage::Start, false, false), InstallStep::OfferDetected);
    assert_eq!(next_install_step(InstallStage::Start, false, true), InstallStep::RnpmLock);
    assert_eq!(next_install_step(InstallStage::ConfiguredFailed, true, false), InstallStep::OfferDetected);
    assert_eq!(next_install_step(InstallStage::ConfiguredFailed, true, true), InstallStep::RnpmLock);
}

#[test]
fn install_falls_back_to_rnpm_lock_then_package_json() {
    assert_eq!(next_install_step(InstallStage::OfferFailed, false, true), InstallStep::RnpmLock);
    assert_eq!(next_install_step(InstallStage::OfferFailed, false, false), InstallStep::PackageJson);
    assert_eq!(next_install_step(InstallStage::OfferFailed, true, false), InstallStep::PackageJson);
}
