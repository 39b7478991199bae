use addonforge::addonlist::{export_list, import_list};
use addonforge::sources::Source;

#[test]
fn exported_list_imports_back() {
    let entries = vec![
        ("cat:bigwigs".to_string(), Source::Github("BigWigsMods/BigWigs".into())),
        ("wowi:5086".to_string(), Source::Wowi(5086)),
        ("wago:abc".to_string(), Source::Wago("abc".into())),
    ];
    let text = export_list(&entries);
    assert_eq!(text, "cat:bigwigs\tgithub\tBigWigsMods/BigWigs\nwowi:5086\twowi\t5086\nwago:abc\twago\tabc\n");
    assert_eq!(import_list(&text), Ok(entries));
    assert_eq!(export_list(&vec![]), "");
    assert_eq!(import_list(""), Ok(vec![]));
}

#[test]
fn import_skips_blank_lines_and_reports_bad_ones() {
    let text = "\r\nk\ttukui\telvui\r\n\nbad line\nx\tcurse\t1\n";
    assert_eq!(import_list(text), Err("line 4 of the list is not an addon entry".to_string()));
    assert_eq!(import_list("k\ttukui\telvui\r\n\n"), Ok(vec![("k".to_string(), Source::Tukui("elvui".into()))]));
    assert_eq!(import_list("k\twowi\tnot-a-number"), Err("line 1 of the list is not an addon entry".to_string()));
}
