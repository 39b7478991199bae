use addonforge::icons::{
    allowed_image_host, first_html_image, first_readme_image, github_avatar_url, jpeg_data_url,
    png_data_url, readme_details, readme_excerpt, readme_scan_defined, resolve_texture,
};

#[test]
fn readme_image_skips_badges_and_resolves_relative() {
    let md = "# Foo\n[![build](https://img.shields.io/x.svg)](x)\n\nText\n\n![shot](docs/shot.png)\n";
    assert_eq!(first_readme_image(md, "o/r").as_deref(), Some("https://raw.githubusercontent.com/o/r/HEAD/docs/shot.png"));
    let md2 = "<img src=\"https://user-images.githubusercontent.com/1/a.png\" width=400>";
    assert_eq!(first_readme_image(md2, "o/r").as_deref(), Some("https://user-images.githubusercontent.com/1/a.png"));
    assert_eq!(first_readme_image("![x](https://evil.example/a.png)", "o/r"), None);
}

#[test]
fn html_image_prefers_camo_and_skips_badges() {
    let html = r#"<p><a href="x"><img src="https://camo.githubusercontent.com/aaa" data-canonical-src="https://img.shields.io/badge/a.svg" alt="CurseForge"></a></p>
<img src="https://camo.githubusercontent.com/bbb" data-canonical-src="https://i.imgur.com/logo.png" alt="BetterBags Logo">
<td><a href="y"><img src="https://camo.githubusercontent.com/ccc" data-canonical-src="https://i.imgur.com/shot.png" alt="The bag view"></a></td>"#;
    assert_eq!(first_html_image(html).as_deref(), Some("https://camo.githubusercontent.com/ccc"));
    assert_eq!(first_html_image(r#"<img src="https://i.imgur.com/direct.png">"#), None);
}

#[test]
fn excerpt_strips_markup() {
    let md = "# Title\n\n[![b](https://img.shields.io/a.svg)](l)\n\nThis is **bold** and a [link](https://x) here.\n- one\n\n```lua\ncode\n```\nMore.";
    let e = readme_excerpt(md);
    assert!(e.starts_with("This is bold and a link here."), "{e}");
    assert!(e.contains("\u{2022} one"));
    assert!(!e.contains("code"));
}

#[test]
fn excerpt_exact_text_and_paragraphs() {
    let md = "First line\nsecond `code` line\n\nNext **para**.\n| table |\n<div>\n";
    assert_eq!(readme_excerpt(md), "First line second code line\n\nNext para.");
    assert_eq!(readme_excerpt(""), "");
    assert_eq!(readme_excerpt("# only a heading\n![img](x.png)"), "");
}

#[test]
fn excerpt_is_cut_after_700_bytes() {
    let long = "a".repeat(800);
    let e = readme_excerpt(&long);
    assert_eq!(e.chars().count(), 701);
    assert!(e.ends_with('\u{2026}'));
    assert_eq!(&e[..700], &long[..700]);
    // A two-byte character straddling byte 700 is kept whole.
    let mixed = format!("{}é{}", "b".repeat(699), "c".repeat(50));
    let e2 = readme_excerpt(&mixed);
    assert_eq!(e2, format!("{}é\u{2026}", "b".repeat(699)));
}

#[test]
fn markdown_image_order_and_blob_links() {
    let md = "<img src='https://github.com/o/r/blob/main/a.png'> then ![b](https://media.forgecdn.net/b.png)";
    assert_eq!(first_readme_image(md, "o/r").as_deref(), Some("https://raw.githubusercontent.com/o/r/main/a.png"));
    let md2 = "![a](https://github.com/o/r/blob/main/pic.png)";
    assert_eq!(first_readme_image(md2, "o/r").as_deref(), Some("https://raw.githubusercontent.com/o/r/main/pic.png"));
    let md3 = "![a](.//./img/x.png)";
    assert_eq!(first_readme_image(md3, "o/r").as_deref(), Some("https://raw.githubusercontent.com/o/r/HEAD/./img/x.png"));
    assert_eq!(first_readme_image("![badge](https://github.com/o/r/badge.png)", "o/r"), None);
}

#[test]
fn readme_scan_definedness() {
    assert!(readme_scan_defined("<img src=\"a\">"));
    assert!(readme_scan_defined("no tags src="));
    assert!(!readme_scan_defined("<img src="));
    assert!(!readme_scan_defined("<IMG SRC="));
}

#[test]
fn avatar_urls() {
    assert_eq!(github_avatar_url("BigWigsMods/BigWigs").as_deref(), Some("https://github.com/BigWigsMods.png?size=64"));
    assert_eq!(github_avatar_url(" owner /x").as_deref(), Some("https://github.com/owner.png?size=64"));
    assert_eq!(github_avatar_url("/x"), None);
    assert_eq!(github_avatar_url(""), None);
}

#[test]
fn image_hosts() {
    assert!(allowed_image_host("https://github.com/x.png"));
    assert!(allowed_image_host("https://RAW.githubusercontent.com/a"));
    assert!(allowed_image_host("https://cdn.wago.io/p.png"));
    assert!(allowed_image_host("https://cdn-wow.mmoui.com/x"));
    assert!(!allowed_image_host("http://github.com/x.png"));
    assert!(!allowed_image_host("https://evil.example/github.com"));
    assert!(!allowed_image_host("https://githubusercontent.com.evil/x"));
}

#[test]
fn image_host_is_the_parsed_authority() {
    assert!(!allowed_image_host("https://x?.wago.io/"));
    assert!(!allowed_image_host("https://x#.wago.io/"));
    assert!(!allowed_image_host("https://evil.com\\.wago.io/"));
    assert!(!allowed_image_host("https://github.com@evil.com/x.png"));
    assert!(allowed_image_host("https://user:pw@github.com/x.png"));
    assert!(allowed_image_host("https://media.forgecdn.net:443/a.png"));
    assert!(allowed_image_host("https://cdn.wago.io?x=1"));
    assert!(!allowed_image_host("https://evil.com:443@/x"));
}

#[test]
fn texture_paths() {
    assert_eq!(resolve_texture(" Interface\\AddOns\\Foo\\Media\\icon ").as_deref(), Some("Foo/Media/icon"));
    assert_eq!(resolve_texture("interface/addons/Bar/logo.tga").as_deref(), Some("Bar/logo.tga"));
    assert_eq!(resolve_texture("Interface\\Icons\\INV_Misc"), None);
}

#[test]
fn texture_paths_stay_inside_addons() {
    assert_eq!(resolve_texture("Interface/AddOns/../../../x"), None);
    assert_eq!(resolve_texture("Interface\\AddOns\\Foo\\..\\..\\x"), None);
    assert_eq!(resolve_texture("Interface\\AddOns\\\\etc\\passwd"), None);
    assert_eq!(resolve_texture("Interface\\AddOns\\C:\\x"), None);
    assert_eq!(resolve_texture("Interface\\AddOns\\Foo\\a..b"), Some("Foo/a..b".to_string()));
}

#[test]
fn data_urls_are_base64() {
    assert_eq!(png_data_url(b"Man"), "data:image/png;base64,TWFu");
    assert_eq!(png_data_url(b"Ma"), "data:image/png;base64,TWE=");
    assert_eq!(jpeg_data_url(b"M"), "data:image/jpeg;base64,TQ==");
    assert_eq!(png_data_url(b""), "data:image/png;base64,");
}

#[test]
fn details_prefer_rendered_html() {
    let md = "Hello world.\n\n![s](shot.png)";
    let (summary, image) = readme_details(md, Some(r#"<img src="https://camo.githubusercontent.com/z">"#), "o/r");
    assert_eq!(summary.as_deref(), Some("Hello world."));
    assert_eq!(image.as_deref(), Some("https://camo.githubusercontent.com/z"));
    let (_, fallback) = readme_details(md, None, "o/r");
    assert_eq!(fallback.as_deref(), Some("https://raw.githubusercontent.com/o/r/HEAD/shot.png"));
    let (none, _) = readme_details("# heading only", None, "o/r");
    assert_eq!(none, None);
}
