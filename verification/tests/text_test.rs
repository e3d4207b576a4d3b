//! Tests for the text utilities: decimal conversion in both directions,
//! trimming, and splitting.

use libgc::text::parse_i64;
use libgc::text::parse_u64_max;
use libgc::text::split_char;
use libgc::text::split_ws;
use libgc::text::str_eq;
use libgc::text::to_dec_string;
use libgc::text::trim;

#[test]
fn decimal_round_trip() {
    for n in [0u64, 1, 9, 10, 99, 4096, 0xFFFFFFFFFFFFFFFF] {
        let s = to_dec_string(n);
        assert_eq!(parse_u64_max(s.as_str(), u64::MAX), Some(n));
    }
    assert_eq!(to_dec_string(154), "154");
    assert_eq!(to_dec_string(0), "0");
}

#[test]
fn parse_u64_bounds_and_signs() {
    assert_eq!(parse_u64_max("255", 255), Some(255));
    assert_eq!(parse_u64_max("256", 255), None);
    assert_eq!(parse_u64_max("+7", 255), Some(7));
    assert_eq!(parse_u64_max("", 255), None);
    assert_eq!(parse_u64_max("+", 255), None);
    assert_eq!(parse_u64_max("1x", 255), None);
    assert_eq!(parse_u64_max("18446744073709551615", u64::MAX), Some(u64::MAX));
    assert_eq!(parse_u64_max("18446744073709551616", u64::MAX), None);
}

#[test]
fn parse_i64_signs_and_limits() {
    assert_eq!(parse_i64("-5"), Some(-5));
    assert_eq!(parse_i64("5"), Some(5));
    assert_eq!(parse_i64("+5"), Some(5));
    assert_eq!(parse_i64("-9223372036854775808"), Some(i64::MIN));
    assert_eq!(parse_i64("9223372036854775807"), Some(i64::MAX));
    assert_eq!(parse_i64("9223372036854775808"), None);
    assert_eq!(parse_i64("-+5"), None);
    assert_eq!(parse_i64("-"), None);
}

#[test]
fn trim_and_split_behave_like_std() {
    assert_eq!(trim("  a b \t"), "a b");
    assert_eq!(trim(""), "");
    assert_eq!(trim(" \t "), "");

    let parts = split_char("0:5:1", b':');
    assert_eq!(parts, vec!["0", "5", "1"]);
    let parts = split_char("a::b", b':');
    assert_eq!(parts, vec!["a", "", "b"]);
    let parts = split_char("", b':');
    assert_eq!(parts, vec![""]);

    let parts = split_ws("  AND  2  0:3:0 ");
    assert_eq!(parts, vec!["AND", "2", "0:3:0"]);
    let parts = split_ws("   ");
    assert!(parts.is_empty());

    assert!(str_eq("abc", "abc"));
    assert!(!str_eq("abc", "abd"));
    assert!(!str_eq("abc", "ab"));
}
