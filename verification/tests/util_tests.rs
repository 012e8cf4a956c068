use presence_gateway::strutil::{parse_u16, parse_u64, str_eq, str_lex_le, trim_str};
use presence_gateway::time::{as_secs_u64, MonotonicClock};

#[test]
fn seconds_from_milliseconds() {
    assert_eq!(as_secs_u64(0), 0);
    assert_eq!(as_secs_u64(999), 0);
    assert_eq!(as_secs_u64(30_000), 30);
    assert_eq!(as_secs_u64(30_999), 30);
}

#[test]
fn number_parsing_matches_the_standard_reading() {
    assert_eq!(parse_u64("0"), Some(0));
    assert_eq!(parse_u64("30"), Some(30));
    assert_eq!(parse_u64("+30"), Some(30));
    assert_eq!(parse_u64("18446744073709551615"), Some(u64::MAX));
    assert_eq!(parse_u64("18446744073709551616"), None);
    assert_eq!(parse_u64(""), None);
    assert_eq!(parse_u64("+"), None);
    assert_eq!(parse_u64("-1"), None);
    assert_eq!(parse_u64("3a"), None);
    assert_eq!(parse_u16("65535"), Some(65535));
    assert_eq!(parse_u16("65536"), None);
}

#[test]
fn monotonic_readings_never_decrease() {
    let mut clock = MonotonicClock::new();
    let a = clock.now_ms();
    let b = clock.now_ms();
    assert!(b >= a);
}

#[test]
fn trimming_and_comparing() {
    assert_eq!(trim_str("  a b \t"), "a b");
    assert_eq!(trim_str("   "), "");
    assert_eq!(trim_str("x"), "x");
    assert!(str_eq("héllo", "héllo"));
    assert!(!str_eq("a", "b"));
    assert!(str_lex_le("a", "b"));
    assert!(str_lex_le("a", "ab"));
    assert!(!str_lex_le("b", "ab"));
    assert!(str_lex_le("same", "same"));
}
