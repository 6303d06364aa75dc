use cove_image_viewer::updater::{
    evaluate_release, install_request, parse_sidecar, parse_version, sha256_hex, staging_name,
    verify_download, version_newer, InstallStatus, ReleaseAsset, ReleaseData, UpdateInfo, Updater,
};

#[test]
fn version_compare() {
    assert!(version_newer("1.3.0", "1.2.9"));
    assert!(version_newer("2.0.0", "1.9.9"));
    assert!(!version_newer("1.2.0", "1.2.0"));
    assert!(!version_newer("1.2", "1.2.1"));
    assert!(version_newer("v1.3.0", "1.2.2"));
}

#[test]
fn parse_version_reads_three_fields() {
    assert_eq!(parse_version("1.2.3"), (1, 2, 3));
    assert_eq!(parse_version("  v10.20.30  "), (10, 20, 30));
    assert_eq!(parse_version("V2"), (2, 0, 0));
    assert_eq!(parse_version("1.2.3-beta"), (1, 2, 3));
    assert_eq!(parse_version("1.x.4"), (1, 0, 4));
    assert_eq!(parse_version(""), (0, 0, 0));
    assert_eq!(parse_version("1.2.3.4"), (1, 2, 3));
    assert_eq!(parse_version("99999999999999999999.1.1"), (0, 1, 1));
}

#[test]
fn sidecar_takes_first_hash() {
    let hash = "A".repeat(64);
    let text = format!("\n  {hash}  cove.AppImage\nsomething else\n");
    assert_eq!(parse_sidecar(&text), Ok("a".repeat(64)));
}

#[test]
fn sidecar_rejects_other_contents() {
    assert_eq!(
        parse_sidecar("not a hash\n"),
        Err("unrecognized sidecar contents: \"not a hash\"".to_string())
    );
    assert_eq!(parse_sidecar(""), Err("empty sidecar".to_string()));
    assert_eq!(parse_sidecar("   \n\t\n"), Err("empty sidecar".to_string()));
    let short = "ab".repeat(31);
    assert_eq!(
        parse_sidecar(&short),
        Err(format!("unrecognized sidecar contents: \"{short}\""))
    );
}

#[test]
fn sha256_of_abc() {
    assert_eq!(
        sha256_hex(b"abc"),
        "ba7816bf8f01cfea414140de5dae2223b00361a396177a9cb410ff61f20015ad"
    );
}

#[test]
fn download_check_compares_hashes() {
    let good = "ba7816bf8f01cfea414140de5dae2223b00361a396177a9cb410ff61f20015ad";
    assert_eq!(verify_download(b"abc", good), Ok(()));
    let bad = "0".repeat(64);
    assert_eq!(
        verify_download(b"abc", &bad),
        Err(format!("sha256 mismatch: expected {bad}, got {good}"))
    );
}

fn asset(name: &str, url: &str) -> ReleaseAsset {
    ReleaseAsset { name: Some(name.to_string()), download_url: Some(url.to_string()) }
}

#[test]
fn release_with_appimage_offers_install() {
    let rel = ReleaseData {
        tag_name: Some("v1.5.0".to_string()),
        html_url: Some("https://example.invalid/rel".to_string()),
        assets: Some(vec![
            asset("cove.tar.gz", "u0"),
            asset("Cove-1.5.0.AppImage", "u1"),
            asset("cove-1.5.0.appimage.SHA256", "u2"),
        ]),
    };
    let info = evaluate_release(&rel, "1.1.0", true).expect("newer release");
    assert_eq!(info.latest_version, "1.5.0");
    assert_eq!(info.release_url, "https://example.invalid/rel");
    assert_eq!(info.asset_name.as_deref(), Some("Cove-1.5.0.AppImage"));
    assert_eq!(info.asset_url.as_deref(), Some("u1"));
    assert_eq!(info.sha256_url.as_deref(), Some("u2"));
    assert!(info.can_auto_install);
    let not_appimage = evaluate_release(&rel, "1.1.0", false).expect("newer release");
    assert!(!not_appimage.can_auto_install);
}

#[test]
fn release_not_newer_is_ignored() {
    let rel = ReleaseData { tag_name: Some("v1.1.0".to_string()), html_url: None, assets: None };
    assert!(evaluate_release(&rel, "1.1.0", true).is_none());
    let empty = ReleaseData { tag_name: Some("vv".to_string()), html_url: None, assets: None };
    assert!(evaluate_release(&empty, "0.0.0", true).is_none());
    let missing = ReleaseData { tag_name: None, html_url: None, assets: None };
    assert!(evaluate_release(&missing, "0.0.0", true).is_none());
}

#[test]
fn release_without_page_gets_tag_url() {
    let rel = ReleaseData { tag_name: Some("v2.0.0".to_string()), html_url: None, assets: None };
    let info = evaluate_release(&rel, "1.0.0", true).expect("newer");
    assert_eq!(info.release_url, "https://github.com/Sin213/cove-image-viewer/releases/tag/v2.0.0");
    assert!(info.asset_name.is_none());
    assert!(!info.can_auto_install);
}

fn info_with(name: Option<&str>, url: Option<&str>, sha: Option<&str>) -> UpdateInfo {
    UpdateInfo {
        latest_version: "9.9.9".to_string(),
        release_url: "r".to_string(),
        asset_name: name.map(str::to_string),
        asset_url: url.map(str::to_string),
        sha256_url: sha.map(str::to_string),
        can_auto_install: true,
    }
}

#[test]
fn install_needs_all_three_fields() {
    let full = info_with(Some("a.AppImage"), Some("u"), Some("s"));
    assert_eq!(
        install_request(&full),
        Some(("a.AppImage".to_string(), "u".to_string(), "s".to_string()))
    );
    assert!(install_request(&info_with(Some("a"), None, Some("s"))).is_none());
}

#[test]
fn updater_state_follows_install() {
    let mut u = Updater::start();
    assert!(u.info.is_none());
    assert!(matches!(u.status, InstallStatus::Idle));
    assert!(u.install(&info_with(None, Some("u"), Some("s"))).is_none());
    assert!(matches!(u.status, InstallStatus::Idle));
    let req = u.install(&info_with(Some("n"), Some("u"), Some("s")));
    assert_eq!(req, Some(("n".to_string(), "u".to_string(), "s".to_string())));
    assert!(matches!(u.status, InstallStatus::Busy));
    u.install_failed("boom".to_string());
    assert!(matches!(&u.status, InstallStatus::Failed(e) if e == "boom"));
    u.release_found(info_with(None, None, None));
    assert!(u.info.is_some());
    u.dismiss();
    assert!(u.dismissed);
}

#[test]
fn staging_name_is_hidden_part_file() {
    assert_eq!(staging_name("Cove-1.5.0.AppImage"), ".Cove-1.5.0.AppImage.part");
}
