use addonforge::log::{stamp_from_secs, tail};

#[test]
fn stamps_are_utc_calendar_times() {
    assert_eq!(stamp_from_secs(0), "1970-01-01 00:00:00");
    assert_eq!(stamp_from_secs(951782400), "2000-02-29 00:00:00");
    assert_eq!(stamp_from_secs(1700000000), "2023-11-14 22:13:20");
    assert_eq!(stamp_from_secs(86399), "1970-01-01 23:59:59");
    assert_eq!(stamp_from_secs(253402300799), "9999-12-31 23:59:59");
}

#[test]
fn tail_keeps_last_lines() {
    assert_eq!(tail("a\nb\nc\n", 2), "b\nc");
    assert_eq!(tail("a\r\nb", 5), "a\nb");
    assert_eq!(tail("a\nb", 0), "");
    assert_eq!(tail("", 3), "");
}
