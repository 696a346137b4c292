use std::cmp::Ordering;
use verdiff::version::{filter_versions, parse_i64, sort_versions, version_cmp};

#[test]
fn numeric_segments_compare_numerically() {
    assert_eq!(version_cmp("9", "10"), Ordering::Less);
    assert_eq!(version_cmp("2", "10"), Ordering::Less);
    assert_eq!(version_cmp("10.0", "9.0"), Ordering::Greater);
    assert_eq!(version_cmp("1.2.3", "1.2.3"), Ordering::Equal);
}

#[test]
fn missing_trailing_segment_sorts_as_empty_string() {
    // "1.2" against "1.2.0": the third segment is missing on the left, and
    // the empty string sorts before "0" in the string branch.
    assert_eq!(version_cmp("1.2", "1.2.0"), Ordering::Less);
    assert_eq!(version_cmp("1.2.0", "1.2"), Ordering::Greater);
}

#[test]
fn string_segments_compare_case_insensitively() {
    assert_eq!(version_cmp("1.0-RC1", "1.0-rc1"), Ordering::Equal);
    assert_eq!(version_cmp("1.0-alpha", "1.0-beta"), Ordering::Less);
    assert_eq!(version_cmp("1.0-Beta", "1.0-alpha"), Ordering::Greater);
}

#[test]
fn dash_and_dot_both_separate_segments() {
    assert_eq!(version_cmp("1-2", "1.2"), Ordering::Equal);
    assert_eq!(version_cmp("1.0-1", "1.0-2"), Ordering::Less);
}

#[test]
fn huge_numbers_fall_back_to_string_comparison() {
    // Both sides overflow a signed 64-bit parse, so they compare as strings.
    assert_eq!(
        version_cmp("99999999999999999999", "100000000000000000000"),
        Ordering::Greater
    );
}

#[test]
fn parse_i64_matches_decimal_grammar() {
    assert_eq!(parse_i64("0"), Some(0));
    assert_eq!(parse_i64("42"), Some(42));
    assert_eq!(parse_i64("-17"), Some(-17));
    assert_eq!(parse_i64("+8"), Some(8));
    assert_eq!(parse_i64("9223372036854775807"), Some(i64::MAX));
    assert_eq!(parse_i64("-9223372036854775808"), Some(i64::MIN));
    assert_eq!(parse_i64("9223372036854775808"), None);
    assert_eq!(parse_i64(""), None);
    assert_eq!(parse_i64("-"), None);
    assert_eq!(parse_i64("1a"), None);
    assert_eq!(parse_i64(" 1"), None);
}

#[test]
fn filter_keeps_versions_inside_the_bounds() {
    let vs: Vec<String> = ["1.0", "1.1", "2.0", "2.1", "3.0"]
        .iter()
        .map(|s| s.to_string())
        .collect();
    let kept = filter_versions(&vs, Some("1.1"), Some("2.1"));
    assert_eq!(kept, vec!["1.1".to_string(), "2.0".to_string(), "2.1".to_string()]);
    let all = filter_versions(&vs, None, None);
    assert_eq!(all, vs);
}

#[test]
fn filter_applied_twice_equals_filter_applied_once() {
    let vs: Vec<String> = ["0.9", "1.0", "1.5", "2.0"]
        .iter()
        .map(|s| s.to_string())
        .collect();
    let once = filter_versions(&vs, Some("1.0"), Some("1.9"));
    let twice = filter_versions(&once, Some("1.0"), Some("1.9"));
    assert_eq!(once, twice);
}

#[test]
fn sort_keeps_equal_versions_in_input_order() {
    // "1.00" and "1.0" compare equal segment-wise; a stable sort keeps the
    // earlier input first.
    let vs: Vec<String> = ["1.1", "1.00", "1.0"].iter().map(|s| s.to_string()).collect();
    let sorted = sort_versions(vs);
    assert_eq!(
        sorted,
        vec!["1.00".to_string(), "1.0".to_string(), "1.1".to_string()]
    );
}

#[test]
fn sort_orders_mixed_version_styles() {
    let vs: Vec<String> = ["1.10", "1.2", "1.1-beta", "1.1-alpha", "1.1"]
        .iter()
        .map(|s| s.to_string())
        .collect();
    let sorted = sort_versions(vs);
    assert_eq!(
        sorted,
        vec![
            "1.1".to_string(),
            "1.1-alpha".to_string(),
            "1.1-beta".to_string(),
            "1.2".to_string(),
            "1.10".to_string(),
        ]
    );
}
