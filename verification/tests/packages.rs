use addonforge::catalog::{Catalog, CatalogEntry};
use addonforge::packages::build_packages;
use addonforge::state::{AppState, Installed};
use addonforge::wow::AddonFolder;

fn folder(name: &str, deps: &[&str], part_of: Option<&str>) -> AddonFolder {
    AddonFolder {
        folder: name.into(),
        title: name.into(),
        version: Some("1.0".into()),
        dependencies: deps.iter().map(|s| s.to_string()).collect(),
        part_of: part_of.map(|s| s.to_string()),
        interfaces: vec![16001],
        forever_interface: true,
        ..Default::default()
    }
}

#[test]
fn modules_group_under_their_core_without_catalogue() {
    let st = AppState::default();
    let cat = Catalog::default();
    let folders = vec![
        folder("DBM-Core", &[], None),
        folder("DBM-GUI", &["DBM-Core"], None),
        folder("DBM-StatusBarTimers", &["DBM-Core"], None),
        folder("BigWigs", &[], None),
        folder("BigWigs_Core", &["BigWigs"], None),
        folder("BigWigs_Sporefall", &["BigWigs_Core"], None),
        folder("Plater", &[], None),
        folder("LibStub", &[], None),
        folder("SomeAddon", &["LibStub"], None),
        folder("ModuleX", &[], Some("Plater")),
    ];
    let pkgs = build_packages(&st, &cat, &folders);
    let names: Vec<(String, usize)> = pkgs.iter().map(|p| (p.name.clone(), p.folders.len())).collect();
    assert!(names.contains(&("DBM-Core".into(), 3)), "{names:?}");
    assert!(names.contains(&("BigWigs".into(), 3)), "{names:?}");
    assert!(names.contains(&("Plater".into(), 2)), "{names:?}");
    assert!(names.contains(&("LibStub".into(), 1)), "{names:?}");
    assert!(names.contains(&("SomeAddon".into(), 1)), "{names:?}");
    assert_eq!(pkgs.len(), 5);
}

#[test]
fn managed_folders_stay_with_their_package() {
    let mut st = AppState::default();
    st.installed.insert(
        "cat:bigwigs".into(),
        Installed { source: "github".into(), source_id: "x".into(), version: "v1".into(), folders: vec!["BigWigs".into(), "BigWigs_Zone".into()], installed_at: 0 },
    );
    let mut entry = CatalogEntry::new("bigwigs".into(), "BigWigs".into());
    entry.github = Some("a/b".into());
    entry.folders = vec!["BigWigs".into()];
    let mut cat = Catalog::default();
    cat.addons.push(entry);
    let folders = vec![folder("BigWigs", &[], None), folder("BigWigs_Zone", &[], None)];
    let pkgs = build_packages(&st, &cat, &folders);
    assert_eq!(pkgs.len(), 1);
    assert_eq!(pkgs[0].folders.len(), 2);
    assert_eq!(pkgs[0].installed_version.as_deref(), Some("v1"));
    assert!(pkgs[0].managed);
}

#[test]
fn packages_are_sorted_by_name_and_folders_sorted() {
    let st = AppState::default();
    let cat = Catalog::default();
    let folders = vec![
        folder("zeta", &[], None),
        folder("Alpha_B", &["Alpha"], None),
        folder("Alpha", &[], None),
    ];
    let pkgs = build_packages(&st, &cat, &folders);
    assert_eq!(pkgs.len(), 2);
    assert_eq!(pkgs[0].name, "Alpha");
    assert_eq!(pkgs[0].folders, vec!["Alpha".to_string(), "Alpha_B".to_string()]);
    assert_eq!(pkgs[1].name, "zeta");
    assert_eq!(pkgs[1].status, "no-source");
    assert_eq!(pkgs[1].key, "folder:zeta");
}

#[test]
fn curse_only_package_links_out() {
    let st = AppState::default();
    let cat = Catalog::default();
    let mut f = folder("Thing", &[], None);
    f.curse = Some(42);
    let pkgs = build_packages(&st, &cat, &[f]);
    assert_eq!(pkgs[0].key, "curse:42");
    assert_eq!(pkgs[0].status, "curse-only");
    assert_eq!(pkgs[0].source_url.as_deref(), Some("https://www.curseforge.com/projects/42"));
}

#[test]
fn wago_without_key_says_so() {
    let st = AppState::default();
    let cat = Catalog::default();
    let mut f = folder("Thing", &[], None);
    f.wago = Some("abc".into());
    let pkgs = build_packages(&st, &cat, &[f]);
    assert_eq!(pkgs[0].key, "wago:abc");
    assert_eq!(pkgs[0].status, "no-key");
    assert_eq!(pkgs[0].source_label, "Wago");
}

#[test]
fn github_website_becomes_source() {
    let st = AppState::default();
    let cat = Catalog::default();
    let mut f = folder("Thing", &[], None);
    f.website = Some(" https://github.com/o/r/ ".into());
    let pkgs = build_packages(&st, &cat, &[f]);
    assert_eq!(pkgs[0].status, "unknown");
    assert_eq!(pkgs[0].source_label, "GitHub \u{b7} o/r");
    assert_eq!(pkgs[0].source_url.as_deref(), Some("https://github.com/o/r/releases/latest"));
}

#[test]
fn update_sources_are_picked_in_order() {
    let mut f = AddonFolder::new("X".into());
    f.website = Some(" https://github.com/o/r/ ".into());
    assert_eq!(addonforge::packages::pick_source(None, &f, false), Some(addonforge::sources::Source::Github("o/r".into())));
    f.wowi = Some(3);
    assert_eq!(addonforge::packages::pick_source(None, &f, false), Some(addonforge::sources::Source::Wowi(3)));
    let mut e = CatalogEntry::new("x".into(), "X".into());
    e.wago = Some("w".into());
    e.tukui = Some("t".into());
    assert_eq!(addonforge::packages::pick_source(Some(&e), &f, false), Some(addonforge::sources::Source::Tukui("t".into())));
    assert_eq!(addonforge::packages::pick_source(Some(&e), &f, true), Some(addonforge::sources::Source::Wago("w".into())));
    let mut g = AddonFolder::new("Y".into());
    g.website = Some("https://github.com/o/r/tree/main".into());
    assert_eq!(addonforge::packages::pick_source(None, &g, false), None);
}

#[test]
fn resolving_a_package_records_the_outcome() {
    let st = AppState::default();
    let cat = Catalog::default();
    let mut f = folder("Solo", &[], None);
    f.version = Some("v1.2".into());
    f.wago = Some("abc".into());
    let mut pkgs = build_packages(&st, &cat, &[f]);
    let p = &mut pkgs[0];
    assert!(!addonforge::packages::should_resolve(p, None));
    assert!(!addonforge::packages::should_resolve(p, Some("  ")));
    assert!(addonforge::packages::should_resolve(p, Some("key")));
    let same = addonforge::sources::Remote {
        version: "1.2".into(),
        download_url: "u".into(),
        filename: "f".into(),
        forever: Some(false),
        prerelease: false,
    };
    addonforge::packages::resolve_into(p, None, Ok(same));
    assert_eq!(p.status, "ok");
    assert!(!p.update_available);
    assert_eq!(p.note, "Latest release does not list a Forever build");
    let newer = addonforge::sources::Remote {
        version: "1.3".into(),
        download_url: "u".into(),
        filename: "f".into(),
        forever: Some(false),
        prerelease: false,
    };
    addonforge::packages::resolve_into(p, Some(true), Ok(newer));
    assert_eq!(p.status, "update");
    assert!(p.update_available);
    assert_eq!(p.remote_forever, None);
    assert_eq!(p.note, "");
    addonforge::packages::resolve_into(p, None, Err("boom".into()));
    assert_eq!((p.status.as_str(), p.note.as_str()), ("error", "boom"));
}
