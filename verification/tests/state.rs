use addonforge::state::{secs_or_zero, AppState, Installed, InstalledMap};

fn rec(v: &str) -> Installed {
    Installed { source: "github".into(), source_id: "o/r".into(), version: v.into(), folders: vec!["A".into()], installed_at: 1 }
}

#[test]
fn installed_map_reads_back_writes() {
    let mut m = InstalledMap::new();
    assert!(m.insert("k1".into(), rec("1")).is_none());
    assert!(m.insert("k2".into(), rec("2")).is_none());
    assert_eq!(m.get("k1").map(|r| r.version.clone()).as_deref(), Some("1"));
    let old = m.insert("k1".into(), rec("3"));
    assert_eq!(old.map(|r| r.version).as_deref(), Some("1"));
    assert_eq!(m.get("k1").map(|r| r.version.clone()).as_deref(), Some("3"));
    assert_eq!(m.get("k2").map(|r| r.version.clone()).as_deref(), Some("2"));
    assert_eq!(m.len(), 2);
    assert_eq!(m.remove("k1").map(|r| r.version).as_deref(), Some("3"));
    assert!(m.get("k1").is_none());
    assert_eq!(m.get("k2").map(|r| r.version.clone()).as_deref(), Some("2"));
    assert!(m.remove("nope").is_none());
}

#[test]
fn wago_key_is_trimmed() {
    let mut st = AppState::default();
    assert!(!st.has_wago_key());
    assert!(st.set_wago_key("  abc  "));
    assert_eq!(st.wago_key.as_deref(), Some("abc"));
    assert!(st.has_wago_key());
    assert!(!st.set_wago_key("   "));
    assert_eq!(st.wago_key, None);
}

#[test]
fn clock_before_the_epoch_reads_zero() {
    assert_eq!(secs_or_zero(Some(1_700_000_000)), 1_700_000_000);
    assert_eq!(secs_or_zero(None), 0);
}
