use addonforge::catalog::CatalogEntry;
use addonforge::commands::{
    auto_pick_install, catalog_install_source, check_forever, installed_record, package_index,
    parse_cli, resolve_row, resolve_targets, sort_rows, update_source, CliCommand,
};
use addonforge::sources::Remote;
use addonforge::sources::Source;
use addonforge::wow::WowInstall;

fn install(path: &str, flavor: &str) -> WowInstall {
    WowInstall { path: path.into(), product: "wow".into(), flavor: flavor.into(), label: "x".into() }
}

#[test]
fn non_forever_builds_need_confirmation() {
    assert_eq!(check_forever(Some(false), false, None), Err("NOT_FOREVER".to_string()));
    assert_eq!(check_forever(Some(false), true, None), Ok(()));
    assert_eq!(check_forever(Some(false), false, Some(true)), Ok(()));
    assert_eq!(check_forever(None, false, None), Ok(()));
    assert_eq!(check_forever(Some(true), false, Some(false)), Ok(()));
}

#[test]
fn install_records() {
    let r = installed_record(&Source::Wowi(42), "1.0", vec!["A".into()], 7);
    assert_eq!(r.source, "wowi");
    assert_eq!(r.source_id, "42");
    assert_eq!(r.version, "1.0");
    assert_eq!(r.folders, vec!["A".to_string()]);
    assert_eq!(r.installed_at, 7);
}

#[test]
fn catalogue_install_sources() {
    let mut e = CatalogEntry::new("x".into(), "X".into());
    assert_eq!(catalog_install_source(&e, true), Err("This catalogue entry has no downloadable source".to_string()));
    e.wago = Some("w1".into());
    assert_eq!(
        catalog_install_source(&e, false),
        Err("This addon is on Wago: add your free Wago API key in Settings first".to_string())
    );
    assert_eq!(catalog_install_source(&e, true), Ok(Source::Wago("w1".into())));
    e.wowi = Some(9);
    assert_eq!(catalog_install_source(&e, false), Ok(Source::Wowi(9)));
    e.github = Some("o/r".into());
    assert_eq!(catalog_install_source(&e, false), Ok(Source::Github("o/r".into())));
}

#[test]
fn first_forever_install_is_picked() {
    let found = vec![install("a", "other"), install("b", "forever"), install("c", "forever")];
    assert_eq!(auto_pick_install(None, &found).as_deref(), Some("b"));
    assert_eq!(auto_pick_install(Some("z"), &found), None);
    assert_eq!(auto_pick_install(None, &vec![install("a", "other")]), None);
}

#[test]
fn update_source_needs_a_source() {
    let pkgs = addonforge::packages::build_packages(
        &addonforge::state::AppState::default(),
        &addonforge::catalog::Catalog::default(),
        &[addonforge::wow::AddonFolder::new("Solo".into())],
    );
    assert_eq!(package_index(&pkgs, "folder:Solo"), Some(0));
    assert_eq!(package_index(&pkgs, "Other"), None);
    assert_eq!(update_source(&pkgs[0]), Err("This addon has no update source".to_string()));
}

#[test]
fn command_lines() {
    let a = |v: &[&str]| v.iter().map(|s| s.to_string()).collect::<Vec<String>>();
    assert!(matches!(parse_cli(&a(&["scan"])), Ok(CliCommand::Scan)));
    assert!(matches!(parse_cli(&a(&["installs"])), Ok(CliCommand::Installs)));
    assert!(matches!(parse_cli(&a(&["resolve", "all"])), Ok(CliCommand::ResolveAll)));
    match parse_cli(&a(&["resolve", "x", "y"])) {
        Ok(CliCommand::Resolve(ids)) => assert_eq!(ids, a(&["x", "y"])),
        other => panic!("{other:?}"),
    }
    match parse_cli(&a(&["update", "cat:x", "--force"])) {
        Ok(CliCommand::Update { key, force }) => {
            assert_eq!(key, "cat:x");
            assert!(force);
        },
        other => panic!("{other:?}"),
    }
    match parse_cli(&a(&["install", "bigwigs"])) {
        Ok(CliCommand::Install { id, force }) => {
            assert_eq!(id, "bigwigs");
            assert!(!force);
        },
        other => panic!("{other:?}"),
    }
    assert_eq!(parse_cli(&a(&["use"])).err().as_deref(), Some("usage: use <product folder>"));
    assert_eq!(parse_cli(&a(&["update"])).err().as_deref(), Some("usage: update <package key>"));
    assert!(parse_cli(&a(&[])).err().unwrap().starts_with("usage: addonforge --cli"));
    assert!(parse_cli(&a(&["bogus"])).err().unwrap().starts_with("usage: addonforge --cli"));
}

#[test]
fn dry_run_targets_rows_and_order() {
    let addons = vec![
        CatalogEntry::new("b".into(), "B".into()),
        CatalogEntry::new("a".into(), "A".into()),
        CatalogEntry::new("c".into(), "C".into()),
    ];
    assert_eq!(resolve_targets(&addons, None), vec![0, 1, 2]);
    let ids = vec!["c".to_string(), "b".to_string(), "zz".to_string()];
    assert_eq!(resolve_targets(&addons, Some(&ids)), vec![0, 2]);

    let remote = Remote {
        version: "1.0".into(),
        download_url: "u".into(),
        filename: "f.zip".into(),
        forever: Some(true),
        prerelease: false,
    };
    let ok = resolve_row("b", Some(&Source::Wowi(1)), Ok(remote));
    assert!(ok.ok);
    assert_eq!(ok.source.as_deref(), Some("WoWInterface"));
    assert_eq!(ok.file.as_deref(), Some("f.zip"));
    assert_eq!(ok.error, None);
    let link = resolve_row("a", None, Err("ignored".into()));
    assert!(!link.ok);
    assert_eq!(link.source, None);
    assert_eq!(link.error.as_deref(), Some("link-only"));
    let failed = resolve_row("c", Some(&Source::Tukui("x".into())), Err("TukUI has no addon 'x'".into()));
    assert_eq!(failed.error.as_deref(), Some("TukUI has no addon 'x'"));

    let sorted = sort_rows(vec![ok, link, failed]);
    let order: Vec<&str> = sorted.iter().map(|r| r.id.as_str()).collect();
    assert_eq!(order, vec!["a", "b", "c"]);
}

#[test]
fn pinned_and_ignored_packages() {
    let folders = [addonforge::wow::AddonFolder::new("A".into()), addonforge::wow::AddonFolder::new("B".into()), addonforge::wow::AddonFolder::new("C".into())];
    let mut pkgs = addonforge::packages::build_packages(
        &addonforge::state::AppState::default(),
        &addonforge::catalog::Catalog::default(),
        &folders,
    );
    for p in pkgs.iter_mut() {
        p.update_available = true;
    }
    let shown = addonforge::commands::apply_user_choices(pkgs, &vec!["folder:A".to_string()], &vec!["folder:B".to_string()]);
    let keys: Vec<&str> = shown.iter().map(|p| p.key.as_str()).collect();
    assert_eq!(keys, vec!["folder:A", "folder:C"]);
    assert!(!shown[0].update_available);
    assert!(shown[1].update_available);
}

#[test]
fn more_command_lines() {
    let a = |v: &[&str]| v.iter().map(|s| s.to_string()).collect::<Vec<String>>();
    let p = addonforge::commands::parse_extra;
    assert!(p(&a(&["scan"])).is_none());
    assert!(p(&a(&[])).is_none());
    assert!(matches!(p(&a(&["pin", "k"])), Some(Ok(addonforge::commands::ExtraCommand::Pin(ref k, true))) if k == "k"));
    assert!(matches!(p(&a(&["unignore", "k"])), Some(Ok(addonforge::commands::ExtraCommand::Ignore(ref k, false))) if k == "k"));
    assert_eq!(p(&a(&["unpin"])).unwrap().err().as_deref(), Some("usage: unpin <package key>"));
    assert!(matches!(p(&a(&["log", "7"])), Some(Ok(addonforge::commands::ExtraCommand::Log(7)))));
    assert!(matches!(p(&a(&["log", "x"])), Some(Ok(addonforge::commands::ExtraCommand::Log(50)))));
    assert!(matches!(p(&a(&["details", "https://github.com/o/r"])), Some(Ok(addonforge::commands::ExtraCommand::Details(ref r))) if r == "o/r"));
    assert_eq!(p(&a(&["details", "nope"])).unwrap().err().as_deref(), Some("usage: details <owner/repo>"));
    assert!(matches!(p(&a(&["wago-key"])), Some(Ok(addonforge::commands::ExtraCommand::WagoKey(ref k))) if k.is_empty()));
}
