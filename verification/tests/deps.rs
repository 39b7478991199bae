use addonforge::catalog::CatalogEntry;
use addonforge::deps::missing_dependencies;
use addonforge::wow::AddonFolder;

fn folder(name: &str, deps: &[&str]) -> AddonFolder {
    let mut f = AddonFolder::new(name.into());
    f.dependencies = deps.iter().map(|s| s.to_string()).collect();
    f
}

#[test]
fn reports_each_missing_dependency_once() {
    let mut entry = CatalogEntry::new("ace3".into(), "Ace3".into());
    entry.folders = vec!["Ace3".into()];
    let cat = vec![entry];
    let folders = vec![
        folder("A", &["ace3", "B"]),
        folder("B", &[]),
        folder("C", &["Ace3", "LibStub"]),
    ];
    let m = missing_dependencies(&cat, &folders);
    assert_eq!(m.len(), 2);
    assert_eq!(m[0].name, "ace3");
    assert_eq!(m[0].needed_by, "A");
    assert_eq!(m[0].catalog_id.as_deref(), Some("ace3"));
    assert_eq!(m[1].name, "LibStub");
    assert_eq!(m[1].needed_by, "C");
    assert_eq!(m[1].catalog_id, None);
}

#[test]
fn nothing_missing_when_all_present() {
    let folders = vec![folder("A", &["b"]), folder("B", &[])];
    assert!(missing_dependencies(&vec![], &folders).is_empty());
}
