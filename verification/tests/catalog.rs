use addonforge::catalog::{catalog_key, catalog_rows, load, Catalog, CatalogEntry};

fn cat(updated: &str, ids: &[&str]) -> Catalog {
    let mut c = Catalog::default();
    c.updated = updated.into();
    for id in ids {
        c.addons.push(CatalogEntry::new(id.to_string(), id.to_uppercase()));
    }
    c
}

#[test]
fn newer_copy_of_the_catalogue_wins() {
    let (c, from) = load(Some(cat("2025-02-01", &["a"])), cat("2025-01-01", &["b"]));
    assert_eq!((c.addons[0].id.as_str(), from), ("a", "remote"));
    let (c, from) = load(Some(cat("2025-01-01", &["a"])), cat("2025-01-01", &["b"]));
    assert_eq!((c.addons[0].id.as_str(), from), ("a", "remote"));
    let (c, from) = load(Some(cat("2024-12-31", &["a"])), cat("2025-01-01", &["b"]));
    assert_eq!((c.addons[0].id.as_str(), from), ("b", "bundled (newer)"));
    let (_, from) = load(Some(cat("2026-01-01", &[])), cat("2025-01-01", &["b"]));
    assert_eq!(from, "bundled (newer)");
    let (_, from) = load(None, cat("2025-01-01", &["b"]));
    assert_eq!(from, "bundled");
}

#[test]
fn catalogue_lookups() {
    let mut c = cat("x", &["a", "b"]);
    c.addons[1].forever = Some(true);
    c.addons[1].asset_hint = Some("-forever".into());
    assert_eq!(c.find("b").map(|e| e.name.as_str()), Some("B"));
    assert!(c.find("z").is_none());
    assert_eq!(c.asset_hint_for(Some("b")).as_deref(), Some("-forever"));
    assert_eq!(c.asset_hint_for(None), None);
    assert_eq!(c.forever_for(Some("b")), Some(true));
    assert_eq!(c.vouched_forever("cat:b"), Some(true));
    assert_eq!(c.vouched_forever("wago:b"), None);
    assert_eq!(catalog_key("b"), "cat:b");
    let rows = catalog_rows(c, &vec!["cat:a".to_string()]);
    assert_eq!(rows.len(), 2);
    assert!(rows[0].installed && !rows[1].installed);
    assert_eq!(rows[1].key, "cat:b");
}
