use addonforge::sources::github::{
    api_error, first_usable_release, latest_api_url, latest_download_base, pick_asset, pick_from_api_release_json,
    pick_from_release_json, release_json_asset, releases_api_url, remote_from_assets, repo_slug, zip_assets, ApiAsset,
    ApiRelease, Meta, ReleaseEntry, ReleaseJson, UrlFor,
};
use addonforge::sources::{tukui, wago, wowi};
use addonforge::sources::github::{github_next_fetch, GithubFetch};
use addonforge::icons::{readme_html_url, readme_urls};

fn asset(name: &str) -> ApiAsset {
    ApiAsset { name: name.into(), browser_download_url: format!("https://dl/{name}") }
}

fn entry(version: &str, filename: &str, nolib: bool, flavors: &[(&str, u32)]) -> ReleaseEntry {
    ReleaseEntry {
        version: version.into(),
        filename: filename.into(),
        nolib,
        metadata: flavors.iter().map(|(f, i)| Meta { flavor: f.to_string(), interface: *i }).collect(),
    }
}

#[test]
fn release_json_prefers_forever_builds() {
    let rj = ReleaseJson {
        releases: vec![
            entry("v1", "A-v1.zip", false, &[("mainline", 110000)]),
            entry("v1", "A-v1-nolib.zip", true, &[("forever", 16001)]),
            entry("v1", "A-v1-forever.zip", false, &[("classic", 16001)]),
        ],
    };
    let r = pick_from_release_json(rj, &UrlFor::Base("https://b/".into()), false).unwrap();
    assert_eq!(r.filename, "A-v1-forever.zip");
    assert_eq!(r.download_url, "https://b/A-v1-forever.zip");
    assert_eq!(r.forever, Some(true));

    let none_forever = ReleaseJson { releases: vec![entry("", "B-2.0.zip", false, &[("mainline", 1)])] };
    let r = pick_from_release_json(none_forever, &UrlFor::Base("x/".into()), true).unwrap();
    assert_eq!(r.version, "B-2.0");
    assert_eq!(r.forever, Some(false));
    assert!(r.prerelease);

    let empty = ReleaseJson { releases: vec![] };
    assert_eq!(pick_from_release_json(empty, &UrlFor::Base("x".into()), false).err().as_deref(), Some("release.json lists no files"));
}

#[test]
fn zip_assets_are_chosen_by_hint_then_flavour() {
    let zips = vec![asset("A-classic.zip"), asset("A-forever.zip"), asset("A.zip")];
    assert_eq!(pick_asset(&zips, Some("CLASSIC")).name, "A-classic.zip");
    assert_eq!(pick_asset(&zips, None).name, "A-forever.zip");
    let plain = vec![asset("A-wrath.zip"), asset("A.zip")];
    assert_eq!(pick_asset(&plain, None).name, "A.zip");
    let only_other = vec![asset("A-cata.zip")];
    assert_eq!(pick_asset(&only_other, None).name, "A-cata.zip");
    let all = vec![asset("notes.txt"), asset("A.ZIP")];
    let z = zip_assets(&all);
    assert_eq!(z.len(), 1);
    assert_eq!(z[0].name, "A.ZIP");
}

#[test]
fn api_releases() {
    let rel = ApiRelease { tag_name: "v3".into(), prerelease: false, draft: false, assets: vec![asset("x.txt")] };
    assert_eq!(remote_from_assets(&rel, None).err().as_deref(), Some("release v3 has no zip asset"));
    let rel = ApiRelease {
        tag_name: "v3".into(),
        prerelease: true,
        draft: false,
        assets: vec![asset("release.json"), asset("A-v3.zip")],
    };
    let r = remote_from_assets(&rel, None).unwrap();
    assert_eq!((r.version.as_str(), r.filename.as_str(), r.forever, r.prerelease), ("v3", "A-v3.zip", None, true));
    assert_eq!(release_json_asset(&rel).as_deref(), Some("https://dl/release.json"));
    let rj = ReleaseJson { releases: vec![entry("v3", "A-v3.zip", false, &[("forever", 0)])] };
    let picked = pick_from_api_release_json(rj, &rel).unwrap().unwrap();
    assert_eq!(picked.download_url, "https://dl/A-v3.zip");
    let rj_missing = ReleaseJson { releases: vec![entry("v3", "other.zip", false, &[])] };
    assert!(pick_from_api_release_json(rj_missing, &rel).unwrap().is_none());

    let list = vec![
        ApiRelease { tag_name: "d".into(), prerelease: false, draft: true, assets: vec![asset("a.zip")] },
        ApiRelease { tag_name: "e".into(), prerelease: false, draft: false, assets: vec![] },
        ApiRelease { tag_name: "ok".into(), prerelease: true, draft: false, assets: vec![asset("a.zip")] },
    ];
    assert_eq!(first_usable_release(list).map(|r| r.tag_name).as_deref(), Some("ok"));
}

#[test]
fn github_urls_and_errors() {
    assert_eq!(repo_slug(" /o/r/ ").into_iter().collect::<String>(), "o/r");
    assert_eq!(releases_api_url("o/r"), "https://api.github.com/repos/o/r/releases?per_page=5");
    assert_eq!(latest_download_base("o/r"), "https://github.com/o/r/releases/latest/download/");
    assert_eq!(latest_api_url("o/r/"), "https://api.github.com/repos/o/r/releases/latest");
    assert_eq!(api_error(404, "o/r").as_deref(), Some("no GitHub release found for o/r"));
    assert_eq!(api_error(429, "o/r").as_deref(), Some("GitHub API rate limit hit; try again in an hour"));
    assert_eq!(api_error(200, "o/r"), None);
}

#[test]
fn tukui_answers() {
    assert_eq!(tukui::api_url("elvui"), "https://api.tukui.org/v1/addon/elvui");
    assert_eq!(tukui::not_found("x"), "TukUI has no addon 'x'");
    let a = tukui::TukAddon { version: "13.1".into(), url: "https://u".into(), patch: vec!["11.0".into(), "1.60.2".into()] };
    let r = tukui::remote_from("elvui", a).unwrap();
    assert_eq!((r.filename.as_str(), r.forever), ("elvui-13.1.zip", Some(true)));
    let none = tukui::TukAddon { version: "1".into(), url: String::new(), patch: vec![] };
    assert_eq!(tukui::remote_from("x", none).err().as_deref(), Some("TukUI entry has no download url"));
}

#[test]
fn wowi_answers() {
    assert_eq!(wowi::api_url(5086), "https://api.mmoui.com/v3/game/WOW/filedetails/5086.json");
    assert_eq!(wowi::not_found(7), "WoWInterface has no addon with id 7");
    assert_eq!(wowi::remote_from(7, vec![]).err().as_deref(), Some("WoWInterface returned nothing for 7"));
    let d = wowi::FileDetails {
        version: "2.0".into(),
        download: "https://d".into(),
        file_name: String::new(),
        compat: Some(vec![wowi::Compat { version: "1.60.1".into() }]),
    };
    let r = wowi::remote_from(7, vec![d]).unwrap();
    assert_eq!((r.filename.as_str(), r.forever), ("wowi-7.zip", Some(true)));
}

#[test]
fn wago_answers() {
    assert_eq!(wago::api_key(Some("  k ")), Ok("k".to_string()));
    assert_eq!(wago::api_key(Some("   ")), Err("Wago needs your API key (Settings)".to_string()));
    assert_eq!(wago::api_url("abc"), "https://addons.wago.io/api/external/addons/abc?game_version=forever");
    assert_eq!(wago::status_error(403).as_deref(), Some("Wago rejected the API key"));
    assert_eq!(wago::status_error(404).as_deref(), Some("Wago has no Forever release for this addon"));
    assert_eq!(wago::status_error(200), None);
    let rel = |label: &str| wago::WagoRelease {
        label: Some(label.into()),
        version: None,
        download_link: Some("https://d".into()),
        link: None,
        patch: Some("1.60.0".into()),
    };
    let recent = wago::WagoRecent { stable: Some(rel("1.0 stable")), beta: Some(rel("1.1b")), alpha: None };
    let r = wago::remote_from("abc", &recent, false).unwrap();
    assert_eq!((r.version.as_str(), r.filename.as_str(), r.forever, r.prerelease), ("1.0 stable", "wago-abc-1.0stable.zip", Some(true), false));
    let r = wago::remote_from("abc", &recent, true).unwrap();
    assert_eq!((r.version.as_str(), r.prerelease), ("1.1b", true));
    let empty = wago::WagoRecent { stable: None, beta: None, alpha: None };
    assert_eq!(wago::remote_from("abc", &empty, false).err().as_deref(), Some("Wago lists no release for Forever"));
}

fn fetch_url(f: GithubFetch) -> (u8, String) {
    match f {
        GithubFetch::ReleaseList(u) => (0, u),
        GithubFetch::ReleaseJson(u) => (1, u),
        GithubFetch::LatestRelease(u) => (2, u),
    }
}

#[test]
fn github_fetch_order() {
    assert_eq!(
        fetch_url(github_next_fetch(" /o/r/ ", false, false)),
        (1, "https://github.com/o/r/releases/latest/download/release.json".to_string())
    );
    assert_eq!(fetch_url(github_next_fetch("o/r", false, true)), (2, "https://api.github.com/repos/o/r/releases/latest".to_string()));
    assert_eq!(fetch_url(github_next_fetch("o/r", true, false)), (0, "https://api.github.com/repos/o/r/releases?per_page=5".to_string()));
}

#[test]
fn readme_addresses() {
    let urls = readme_urls("o/r");
    assert_eq!(urls.len(), 5);
    assert_eq!(urls[0], "https://raw.githubusercontent.com/o/r/HEAD/README.md");
    assert_eq!(urls[4], "https://raw.githubusercontent.com/o/r/HEAD/README");
    assert_eq!(readme_html_url("o/r"), "https://api.github.com/repos/o/r/readme");
}
