use addonforge::sources::{normalize_version, parse_github_repo, Source};

#[test]
fn parses_github_inputs() {
    assert_eq!(parse_github_repo("BigWigsMods/BigWigs").as_deref(), Some("BigWigsMods/BigWigs"));
    assert_eq!(parse_github_repo("https://github.com/BigWigsMods/BigWigs/releases/tag/v1").as_deref(), Some("BigWigsMods/BigWigs"));
    assert_eq!(parse_github_repo("github.com/a/b.git").as_deref(), Some("a/b"));
    assert_eq!(parse_github_repo("nope"), None);
    assert_eq!(parse_github_repo("https://gitlab.com/a/b"), None);
}

#[test]
fn normalize_version_ignores_v_and_case() {
    assert_eq!(normalize_version("v1.2.3"), normalize_version("1.2.3"));
    assert_eq!(normalize_version("  V2.0-Beta "), "2.0-beta");
}

#[test]
fn source_round_trips_through_parts() {
    for s in [Source::Github("o/r".into()), Source::Wago("x1".into()), Source::Wowi(5086), Source::Tukui("elvui".into())] {
        assert_eq!(Source::from_parts(s.kind(), &s.id()), Some(s.clone()));
    }
    assert_eq!(Source::from_parts("wowi", "nope"), None);
    assert_eq!(Source::from_parts("curse", "1"), None);
}

#[test]
fn source_labels_and_urls() {
    assert_eq!(Source::Wowi(12).url(), "https://www.wowinterface.com/downloads/info12");
    assert_eq!(Source::Tukui("elvui".into()).label(), "TukUI");
    assert_eq!(Source::Wago("q".into()).url(), "https://addons.wago.io/addons/q");
}

#[test]
fn parsing_a_parsed_repo_is_stable() {
    for input in ["https://github.com/BigWigsMods/BigWigs/releases", " o/r.git/ ", "github.com/a/b"] {
        let once = parse_github_repo(input).unwrap();
        assert_eq!(parse_github_repo(&once).as_deref(), Some(once.as_str()));
    }
    // an owner named like the host reads as a URL prefix the second time
    let odd = parse_github_repo("https://github.com/github.com/x").unwrap();
    assert_eq!(odd, "github.com/x");
    assert_eq!(parse_github_repo(&odd), None);
    assert_ne!(normalize_version("v v1"), normalize_version(" v1"));
}

#[test]
fn version_laws_on_examples() {
    assert_eq!(normalize_version("v 1.0"), normalize_version(" 1.0"));
    assert_eq!(normalize_version("V1.2-BETA"), normalize_version("v1.2-beta"));
    assert_eq!(normalize_version("RC1"), normalize_version("rc1"));
}
