use addonforge::wow::{
    addon_from_tocs, clean_title, describe_install, finish_addon, flavor_from_info, forever_toc_file_names, generic_toc_file_name,
    is_addon_dir_name, is_forever_interface, is_toc_file_name, order_installs, parse_toc, product_flavor, sort_addons,
    toc_stem_is_forever, AddonFolder, WowInstall,
};

#[test]
fn strips_colour_codes() {
    assert_eq!(clean_title("|cff33ff99BigWigs|r Boss Mods"), "BigWigs Boss Mods");
    assert_eq!(clean_title("Plain"), "Plain");
    assert_eq!(clean_title("|TInterface\\Icons\\x:16|t Name"), "Name");
}

#[test]
fn double_bar_is_a_literal_bar() {
    assert_eq!(clean_title("a || b"), "a | b");
    assert_eq!(clean_title("  spaced \t out  "), "spaced out");
}

#[test]
fn product_flavours() {
    assert_eq!(product_flavor("wow_classic_beta"), ("forever", "WoW: Forever (beta)".to_string()));
    assert_eq!(product_flavor("wow"), ("other", "Retail".to_string()));
    assert_eq!(product_flavor("wow_x"), ("other", "wow_x".to_string()));
}

#[test]
fn describes_install_from_folder_name() {
    let w = describe_install("C:\\WoW\\_classic_beta_", Some("_classic_beta_"), true, None).unwrap();
    assert_eq!(w.product, "wow_classic_beta");
    assert_eq!(w.flavor, "forever");
    assert!(describe_install("C:\\x", Some("x"), false, None).is_none());
    let w = describe_install("C:\\x", Some("x"), false, Some("Product Flavor!STRING:0\nwow\n")).unwrap();
    assert_eq!(w.label, "Retail");
}

#[test]
fn reads_toc_fields() {
    let mut af = AddonFolder::new("Foo".into());
    let text = "\u{feff}## Title: |cffff0000Foo|r Bar\r\n## Interface: 11507, 16001,x\n## Version: 1.2\n## X-Wago-ID: abc\n## X-Curse-Project-ID: 99\n## Dependencies: A, ,B\n# comment\n## Notes:   \n";
    assert!(parse_toc(Some(text), &mut af));
    assert_eq!(af.title, "Foo Bar");
    assert_eq!(af.interfaces, vec![11507, 16001]);
    assert_eq!(af.version.as_deref(), Some("1.2"));
    assert_eq!(af.wago.as_deref(), Some("abc"));
    assert_eq!(af.curse, Some(99));
    assert_eq!(af.dependencies, vec!["A".to_string(), "B".to_string()]);
    assert_eq!(af.notes, None);
    assert!(!parse_toc(None, &mut af));
}

#[test]
fn reads_part_of() {
    let mut af = AddonFolder::new("Plater_Options".into());
    assert!(parse_toc(Some("## Title: Plater Options\n## X-Part-Of: Plater\n## X-Part-Of: Other\n"), &mut af));
    assert_eq!(af.part_of.as_deref(), Some("Plater"));
    let mut plain = AddonFolder::new("Solo".into());
    assert!(parse_toc(Some("## Title: Solo\n"), &mut plain));
    assert_eq!(plain.part_of, None);
}

#[test]
fn scanning_helpers() {
    assert!(is_addon_dir_name("BigWigs"));
    assert!(!is_addon_dir_name(".git"));
    assert!(!is_addon_dir_name("Blizzard_Auth"));
    assert_eq!(
        forever_toc_file_names("Foo"),
        vec!["Foo_Forever.toc", "Foo-Forever.toc", "Foo_Camelot.toc", "Foo-Camelot.toc"]
    );
    assert_eq!(generic_toc_file_name("Foo"), "Foo.toc");
    assert!(is_toc_file_name("foo.TOC"));
    assert!(!is_toc_file_name("foo.toc.bak"));
    assert!(toc_stem_is_forever("Foo_Camelot.toc"));
    assert!(toc_stem_is_forever("Foo-Forever.TOC"));
    assert!(!toc_stem_is_forever("Foo_Mainline.toc"));
    assert!(is_forever_interface(16001));
    assert!(!is_forever_interface(11507));
    assert_eq!(flavor_from_info("Product Flavor!STRING:0\n wow_classic_beta \n").as_deref(), Some("wow_classic_beta"));
    assert_eq!(flavor_from_info("only one line"), None);
}

#[test]
fn finishing_and_sorting_folders() {
    let mut af = AddonFolder::new("zeta".into());
    af.interfaces = vec![11507, 16002];
    finish_addon(&mut af);
    assert_eq!(af.title, "zeta");
    assert!(af.forever_interface);
    assert!(af.supports_forever());
    let sorted = sort_addons(vec![af, AddonFolder::new("Alpha".into()), AddonFolder::new("beta".into())]);
    let names: Vec<&str> = sorted.iter().map(|f| f.folder.as_str()).collect();
    assert_eq!(names, vec!["Alpha", "beta", "zeta"]);
}

#[test]
fn installs_forever_first_without_duplicates() {
    let w = |p: &str, f: &str| WowInstall { path: p.into(), product: "p".into(), flavor: f.into(), label: "l".into() };
    let ordered = order_installs(vec![w("D:\\b", "other"), w("C:\\z", "forever"), w("c:\\Z", "forever"), w("C:\\a", "other")]);
    let paths: Vec<&str> = ordered.iter().map(|i| i.path.as_str()).collect();
    assert_eq!(paths, vec!["C:\\z", "C:\\a", "D:\\b"]);
}

fn read(t: &str) -> Option<Option<String>> {
    Some(Some(t.to_string()))
}

#[test]
fn addon_from_toc_files() {
    // the Forever TOC is read first, so its version wins over the generic one
    let forever = vec![read("## Version: 2.0-forever\n## Interface: 11507\n"), None, None, None];
    let generic = read("## Title: Foo\n## Version: 1.0\n");
    let af = addon_from_tocs("Foo", &forever, &generic, &vec![]).expect("an addon");
    assert_eq!(af.title, "Foo");
    assert_eq!(af.version.as_deref(), Some("2.0-forever"));
    assert!(af.forever_toc);
    // only an oddly named TOC: the fallback reads it and notices the suffix
    let others = vec![("readme.txt".to_string(), None), ("foo-camelot.TOC".to_string(), Some("## Title: Lower\n".to_string()))];
    let af = addon_from_tocs("Foo", &vec![None, None, None, None], &None, &others).expect("an addon");
    assert_eq!(af.title, "Lower");
    assert!(!af.forever_toc);
    let others = vec![("Foo_Forever.toc".to_string(), Some(String::new()))];
    assert!(addon_from_tocs("Foo", &vec![None, None, None, None], &None, &others).expect("an addon").forever_toc);
    // nothing read, or a folder that is never an addon
    assert!(addon_from_tocs("Foo", &vec![None, None, None, None], &Some(None), &vec![]).is_none());
    assert!(addon_from_tocs("Blizzard_UI", &vec![], &read("## Title: X\n"), &vec![]).is_none());
    // the title falls back to the folder name
    assert_eq!(addon_from_tocs("Bar", &vec![], &read("## Version: 1\n"), &vec![]).unwrap().title, "Bar");
}
