use logagg::report::format_row;
use logagg::report::header_line;
use logagg::report::render_report;
use logagg::report::separator_line;
use logagg::report::sorted_entries;
use logagg::report::usize_to_string;
use logagg::Aggregate;

const LINE_A: &str = "[21/Feb/2026:19:48:21 +0100] GET /sap/opu/odata/sap/HCMFAB/a [x-forwarded-for : 94.31.115.82, 10.0.72.1]";

#[test]
fn one_line_counts_once() {
    let mut agg = Aggregate::new();
    agg.process_line(LINE_A);
    let rows = sorted_entries(&agg);
    assert_eq!(rows.len(), 1);
    assert_eq!(rows[0].minute, "21/Feb/2026:19:48");
    assert_eq!(rows[0].ip, "10.0.72.1");
    assert_eq!(rows[0].count, 1);
}

#[test]
fn same_key_twice_counts_two() {
    let mut agg = Aggregate::new();
    agg.process_line(LINE_A);
    agg.process_line(LINE_A);
    let rows = sorted_entries(&agg);
    assert_eq!(rows.len(), 1);
    assert_eq!(rows[0].count, 2);
}

#[test]
fn unfiltered_line_is_never_aggregated() {
    let mut agg = Aggregate::new();
    // valid timestamp and forwarded-for block, but no request-path substring
    agg.process_line("[21/Feb/2026:19:48:21 +0100] GET /other [x-forwarded-for : 1.2.3.4]");
    assert_eq!(sorted_entries(&agg).len(), 0);
}

#[test]
fn line_missing_a_field_is_skipped() {
    let mut agg = Aggregate::new();
    // passes the filter but has no forwarded-for block
    agg.process_line("[21/Feb/2026:19:48:21 +0100] GET /sap/opu/odata/sap/HCMFAB/a");
    // passes the filter but has no leading timestamp bracket
    agg.process_line("GET /sap/opu/odata/sap/HCMFAB/a [x-forwarded-for : 1.2.3.4]");
    assert_eq!(sorted_entries(&agg).len(), 0);
}

#[test]
fn report_rows_sorted_by_minute_then_ip() {
    let mut agg = Aggregate::new();
    agg.record("21/Feb/2026:19:10", "1.2.3.4");
    agg.record("21/Feb/2026:19:05", "9.9.9.9");
    agg.record("21/Feb/2026:19:05", "1.2.3.4");
    let rows = sorted_entries(&agg);
    assert_eq!(rows.len(), 3);
    assert_eq!((rows[0].minute.as_str(), rows[0].ip.as_str()), ("21/Feb/2026:19:05", "1.2.3.4"));
    assert_eq!((rows[1].minute.as_str(), rows[1].ip.as_str()), ("21/Feb/2026:19:05", "9.9.9.9"));
    assert_eq!((rows[2].minute.as_str(), rows[2].ip.as_str()), ("21/Feb/2026:19:10", "1.2.3.4"));
}

#[test]
fn report_order_is_textual_not_chronological() {
    // Month names sort alphabetically: December 2025 is chronologically
    // earlier than April 2026, yet its row comes second, since "01/Apr..."
    // precedes "01/Dec..." as text.
    let mut agg = Aggregate::new();
    agg.record("01/Dec/2025:10:00", "1.1.1.1");
    agg.record("01/Apr/2026:10:00", "1.1.1.1");
    let rows = sorted_entries(&agg);
    assert_eq!(rows[0].minute, "01/Apr/2026:10:00");
    assert_eq!(rows[1].minute, "01/Dec/2025:10:00");
}

#[test]
fn end_to_end_three_lines() {
    let mut agg = Aggregate::new();
    // matches the filter and both extractions
    agg.process_line(LINE_A);
    // matches the filter but has no forwarded-for block: excluded
    agg.process_line("[21/Feb/2026:19:49:00 +0100] GET /sap/opu/odata/sap/HCMFAB/b");
    // does not match the filter
    agg.process_line("[21/Feb/2026:19:50:00 +0100] GET /other [x-forwarded-for : 5.5.5.5]");
    let lines = render_report(&agg);
    assert_eq!(lines.len(), 3);
    assert_eq!(lines[0], "Time (Minute)        | Internal IP     | Requests");
    assert_eq!(lines[1], "---------------------+-----------------+-----------");
    assert_eq!(lines[2], "21/Feb/2026:19:48    | 10.0.72.1       | 1");
}

#[test]
fn header_and_separator_have_fixed_widths() {
    assert_eq!(header_line(), "Time (Minute)        | Internal IP     | Requests");
    assert_eq!(separator_line(), "---------------------+-----------------+-----------");
}

#[test]
fn row_is_fixed_width() {
    let mut agg = Aggregate::new();
    agg.record("21/Feb/2026:19:48", "10.0.72.1");
    agg.record("21/Feb/2026:19:48", "10.0.72.1");
    let rows = sorted_entries(&agg);
    assert_eq!(format_row(&rows[0]), "21/Feb/2026:19:48    | 10.0.72.1       | 2");
}

#[test]
fn wide_fields_are_not_truncated() {
    let mut agg = Aggregate::new();
    agg.record("a-minute-key-longer-than-twenty-chars", "an-ip-longer-than-15");
    let rows = sorted_entries(&agg);
    assert_eq!(
        format_row(&rows[0]),
        "a-minute-key-longer-than-twenty-chars | an-ip-longer-than-15 | 1"
    );
}

#[test]
fn decimal_rendering() {
    assert_eq!(usize_to_string(0), "0");
    assert_eq!(usize_to_string(7), "7");
    assert_eq!(usize_to_string(10), "10");
    assert_eq!(usize_to_string(905), "905");
    assert_eq!(usize_to_string(100000), "100000");
}

#[test]
fn empty_aggregate_renders_headers_only() {
    let agg = Aggregate::new();
    let lines = render_report(&agg);
    assert_eq!(lines.len(), 2);
}
