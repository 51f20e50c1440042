use toolup::lock::{
    expected_version, resolve_version, synced_version, version_target, LockModel, LockPackage,
    SyncOverrides, VersionTarget,
};
use toolup::model::Error;
use toolup::version::{render_version, Version};

fn bv(s: &str) -> Vec<u8> {
    s.as_bytes().to_vec()
}

fn lock_with(entries: &[(&str, &str)]) -> LockModel {
    let mut packages = Vec::new();
    for (name, version) in entries {
        packages.push(LockPackage { name: bv(name), version: bv(version) });
    }
    LockModel { packages, unused_patches: None }
}

#[test]
fn test_resolve_version_unique_entry() {
    let lock = lock_with(&[("serde", "1.0.0"), ("cairo-lang-compiler", "2.6.3")]);
    let v = resolve_version(&lock, &bv("cairo-lang-compiler")).unwrap();
    assert_eq!(v.core, bv("2.6.3"));
    assert_eq!(v.pre, bv(""));
    assert_eq!(v.build, bv(""));
}

#[test]
fn test_resolve_version_absent_entry_fails() {
    let lock = lock_with(&[("serde", "1.0.0")]);
    let r = resolve_version(&lock, &bv("cairo-lang-compiler"));
    assert_eq!(r.unwrap_err(), Error::LockResolution);
}

#[test]
fn test_resolve_version_duplicate_entry_fails() {
    let lock = lock_with(&[("cairo-lang-compiler", "1.0.0"), ("cairo-lang-compiler", "2.0.0")]);
    let r = resolve_version(&lock, &bv("cairo-lang-compiler"));
    assert_eq!(r.unwrap_err(), Error::LockResolution);
}

#[test]
fn test_resolve_version_malformed_version_fails() {
    let lock = lock_with(&[("cairo-lang-compiler", "not-a-version")]);
    let r = resolve_version(&lock, &bv("cairo-lang-compiler"));
    assert_eq!(r.unwrap_err(), Error::VersionParse);
}

#[test]
fn test_resolve_version_parses_pre_release_and_build() {
    let lock = lock_with(&[("cairo-lang-compiler", "2.3.0-rc.1+build5")]);
    let v = resolve_version(&lock, &bv("cairo-lang-compiler")).unwrap();
    assert_eq!(v.core, bv("2.3.0"));
    assert_eq!(v.pre, bv("rc.1"));
    assert_eq!(v.build, bv("build5"));
}

#[test]
fn test_expected_version_reads_anchor_crate() {
    let lock = lock_with(&[("cairo-lang-utils", "9.9.9"), ("cairo-lang-compiler", "2.6.3")]);
    let v = expected_version(&lock).unwrap();
    assert_eq!(v.core, bv("2.6.3"));
}

#[test]
fn test_synced_version_clears_pre_release() {
    let lock = lock_with(&[("cairo-lang-compiler", "2.3.0-rc.1+build5")]);
    let overrides = SyncOverrides { build: None, no_pre_release: true };
    let text = synced_version(&lock, &overrides).unwrap();
    assert_eq!(text, bv("2.3.0+build5"));
}

#[test]
fn test_synced_version_sets_build_metadata() {
    let lock = lock_with(&[("cairo-lang-compiler", "2.3.0-rc.1+build5")]);
    let overrides = SyncOverrides { build: Some(bv("nightly7")), no_pre_release: false };
    let text = synced_version(&lock, &overrides).unwrap();
    assert_eq!(text, bv("2.3.0-rc.1+nightly7"));
}

#[test]
fn test_synced_version_rejects_bad_build_metadata() {
    let lock = lock_with(&[("cairo-lang-compiler", "2.3.0")]);
    let overrides = SyncOverrides { build: Some(bv("no spaces allowed")), no_pre_release: false };
    let r = synced_version(&lock, &overrides);
    assert_eq!(r.unwrap_err(), Error::BuildMetadataParse);
}

#[test]
fn test_render_version_round_trip() {
    let v = Version { core: bv("1.2.3"), pre: bv("rc.1"), build: bv("b5") };
    assert_eq!(render_version(&v), bv("1.2.3-rc.1+b5"));
    let plain = Version { core: bv("1.2.3"), pre: bv(""), build: bv("") };
    assert_eq!(render_version(&plain), bv("1.2.3"));
}

#[test]
fn test_version_target_prefers_workspace() {
    assert_eq!(version_target(true, true).unwrap(), VersionTarget::WorkspacePackage);
    assert_eq!(version_target(true, false).unwrap(), VersionTarget::WorkspacePackage);
    assert_eq!(version_target(false, true).unwrap(), VersionTarget::Package);
    assert_eq!(version_target(false, false).unwrap_err(), Error::MissingVersionTable);
}
