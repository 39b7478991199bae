use addonforge::selfupdate::{build, check, check_download, is_newer, is_newer_than, semver, update_filename, version, Latest};

fn latest(version: &str, build: u32) -> Latest {
    Latest { version: version.into(), build, url: "https://u".into(), filename: String::new(), notes: String::new(), size: 0 }
}

#[test]
fn versions_compare_numerically() {
    assert_eq!(version(), "0.2.0");
    assert_eq!(build(None), 0);
    assert_eq!(build(Some("42")), 42);
    assert_eq!(build(Some("+7")), 7);
    assert_eq!(build(Some("x")), 0);
    assert_eq!(build(Some("4294967296")), 0);
    assert_eq!(semver(" v1.10.2 "), (1, 10, 2));
    assert_eq!(semver("2.x"), (2, 0, 0));
    assert_eq!(semver("1.2.3.4"), (1, 2, 3));
    assert!(is_newer_than(&latest("1.10.0", 0), "1.9.9", 5));
    assert!(!is_newer_than(&latest("1.2.0", 3), "1.2.0", 3));
    assert!(is_newer_than(&latest("1.2.0", 4), "v1.2", 3));
    assert!(is_newer(&latest("0.2.1", 0), 0));
    assert!(!is_newer(&latest("0.2.0", 0), 0));
    assert!(is_newer(&latest("0.2.0", 1), 0));
}

#[test]
fn update_checks() {
    let u = check(Ok(latest("0.3.0", 7)), 0);
    assert!(u.available);
    assert_eq!(u.tag, "v0.3.0-b7");
    assert_eq!(u.current_version, "0.2.0");
    let empty = check(Ok(Latest { version: String::new(), ..latest("", 0) }), 0);
    assert_eq!(empty.error.as_deref(), Some("latest.json was empty"));
    assert!(!empty.available);
    let failed = check(Err("offline".into()), 0);
    assert_eq!(failed.error.as_deref(), Some("offline"));
    assert!(failed.latest.is_none());
}

#[test]
fn update_files() {
    assert_eq!(update_filename(&latest("0.3.0", 7)), Ok("AddonForge-v0.3.0-b7.exe".to_string()));
    let mut l = latest("0.3.0", 7);
    l.filename = "x/AddonForge.exe".into();
    assert_eq!(update_filename(&l), Err("refusing odd update filename x/AddonForge.exe".to_string()));
    l.filename = "AddonForge.EXE".into();
    assert_eq!(update_filename(&l), Ok("AddonForge.EXE".to_string()));
    l.filename = "AddonForge.zip".into();
    assert!(update_filename(&l).is_err());
    assert_eq!(check_download(999_999, 0), Err("downloaded file is too small to be AddonForge (999999 bytes)".to_string()));
    assert_eq!(check_download(2_000_000, 0), Ok(()));
    assert_eq!(check_download(2_000_000, 2_000_001), Err("downloaded size 2000000 does not match the release's 2000001".to_string()));
}

#[test]
fn update_checks_use_this_build_number() {
    assert!(!check(Ok(latest("0.2.0", 5)), 5).available);
    assert!(check(Ok(latest("0.2.0", 5)), 4).available);
    assert_eq!(check(Ok(latest("0.2.0", 5)), 4).current_build, 4);
}
