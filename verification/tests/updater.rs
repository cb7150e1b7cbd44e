use luminatti::updater::{is_newer_version, select_release, ReleaseAsset};

#[test]
fn compares_semantic_versions_without_a_new_dependency() {
    assert!(is_newer_version("0.2.0", "0.1.9"));
    assert!(is_newer_version("1.0.0", "0.99.99"));
    assert!(!is_newer_version("0.1.9", "0.2.0"));
    assert!(!is_newer_version("not-a-version", "0.2.0"));
}

#[test]
fn equal_and_partial_versions_are_not_newer() {
    assert!(!is_newer_version("1.2.3", "1.2.3"));
    assert!(!is_newer_version("1.2", "1.1.0"));
    assert!(is_newer_version("1.2.4.9", "1.2.3"));
    assert!(is_newer_version("+1.0.0", "0.9.9"));
    assert!(!is_newer_version("18446744073709551616.0.0", "0.0.1"));
    assert!(is_newer_version("18446744073709551615.0.0", "0.0.1"));
}

fn asset(name: &str, url: &str) -> ReleaseAsset {
    ReleaseAsset { name: name.into(), browser_download_url: url.into() }
}

#[test]
fn selects_a_newer_release_with_both_files_from_the_release_host() {
    let prefix = "https://github.com/jteso/luminatti/releases/download/v0.3.0/";
    let assets = vec![
        asset("Luminatti-macos-arm64.zip", &format!("{prefix}a.zip")),
        asset("Luminatti-macos-arm64.zip.sha256", &format!("{prefix}a.sha256")),
    ];
    let release = select_release("v0.3.0", &assets, "0.2.9", "arm64").unwrap();
    assert_eq!(release.version, "0.3.0");
    assert_eq!(release.archive_url, format!("{prefix}a.zip"));
    assert_eq!(release.checksum_url, format!("{prefix}a.sha256"));
    assert!(select_release("v0.3.0", &assets, "0.3.0", "arm64").is_none());
    assert!(select_release("v0.3.0", &assets, "0.2.9", "x64").is_none());
    let foreign = vec![
        asset("Luminatti-macos-arm64.zip", "https://example.com/a.zip"),
        asset("Luminatti-macos-arm64.zip.sha256", &format!("{prefix}a.sha256")),
    ];
    assert!(select_release("v0.3.0", &foreign, "0.2.9", "arm64").is_none());
}
