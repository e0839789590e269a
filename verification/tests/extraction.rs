use logagg::extract_internal_ip;
use logagg::extract_minute;
use logagg::line_matches_filter;
use logagg::text::str_le;
use logagg::text::trim_str;

#[test]
fn minute_from_leading_bracket() {
    let line = "[21/Feb/2026:19:48:21 +0100] GET /sap/opu/odata/sap/HCMFAB/x [x-forwarded-for : 94.31.115.82, 10.0.72.1]";
    assert_eq!(extract_minute(line).as_deref(), Some("21/Feb/2026:19:48"));
}

#[test]
fn minute_without_seconds_or_zone() {
    // exactly three colon-separated fields inside the brackets still succeed
    assert_eq!(extract_minute("[21/Feb/2026:19:48] rest").as_deref(), Some("21/Feb/2026:19:48"));
}

#[test]
fn minute_fails_without_leading_bracket() {
    assert_eq!(extract_minute("21/Feb/2026:19:48:21 +0100] x"), None);
    assert_eq!(extract_minute(""), None);
}

#[test]
fn minute_fails_without_closing_bracket() {
    assert_eq!(extract_minute("[21/Feb/2026:19:48:21 +0100 x"), None);
}

#[test]
fn minute_fails_with_few_colon_parts() {
    assert_eq!(extract_minute("[21/Feb/2026:19] x"), None);
    assert_eq!(extract_minute("[21/Feb/2026] x"), None);
    assert_eq!(extract_minute("[] x"), None);
}

#[test]
fn ip_from_forwarded_for_block() {
    let line = "[21/Feb/2026:19:48:21 +0100] GET /x [x-forwarded-for : 94.31.115.82, 10.0.72.1]";
    assert_eq!(extract_internal_ip(line).as_deref(), Some("10.0.72.1"));
}

#[test]
fn ip_is_last_entry_trimmed() {
    assert_eq!(
        extract_internal_ip("x [x-forwarded-for : 1.2.3.4,  5.6.7.8 ] y").as_deref(),
        Some("5.6.7.8")
    );
    assert_eq!(extract_internal_ip("[x-forwarded-for : 9.9.9.9]").as_deref(), Some("9.9.9.9"));
}

#[test]
fn ip_fails_without_marker() {
    assert_eq!(extract_internal_ip("[21/Feb/2026:19:48:21 +0100] GET /x 10.0.72.1"), None);
    // the marker is exact: a different spacing does not count
    assert_eq!(extract_internal_ip("[x-forwarded-for: 1.2.3.4]"), None);
}

#[test]
fn ip_fails_without_closing_bracket() {
    assert_eq!(extract_internal_ip("x [x-forwarded-for : 1.2.3.4"), None);
}

#[test]
fn filter_requires_exact_substring() {
    assert!(line_matches_filter("GET /sap/opu/odata/sap/HCMFAB_MYTIME 200"));
    assert!(!line_matches_filter("GET /sap/opu/odata/sap/HCMFA 200"));
    assert!(!line_matches_filter(""));
}

#[test]
fn trim_removes_surrounding_whitespace() {
    assert_eq!(trim_str("  10.0.72.1 \t"), "10.0.72.1");
    assert_eq!(trim_str("   "), "");
    assert_eq!(trim_str("x"), "x");
}

#[test]
fn string_order_is_lexicographic() {
    assert!(str_le("21/Feb/2026:19:05", "21/Feb/2026:19:10"));
    assert!(!str_le("21/Feb/2026:19:10", "21/Feb/2026:19:05"));
    assert!(str_le("abc", "abc"));
    assert!(str_le("ab", "abc"));
}
