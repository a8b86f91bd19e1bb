use log_viewer::display::{count_display_lines, format_json_for_display, resolve_row_value, shorten_for_display};
use log_viewer::extract::Extractor;
use log_viewer::model::Row;
use log_viewer::record::parse_rows;

fn one_row(text: &str) -> Row {
    parse_rows(0, &vec![text.to_string()], &Extractor::new()).0.remove(0)
}

#[test]
fn canonical_columns_show_canonical_fields() {
    let row = one_row(
        r#"{"time":"2024-01-01T00:00:00Z","LogLevel":"warn","msg":"m","correlationId":"c","name":"n",
            "service":"s","namespace":"ns","traceId":"t","requestId":"r","other":{"k":true}}"#,
    );
    assert_eq!(resolve_row_value(&row, "time"), "2024-01-01T00:00:00+00:00");
    assert_eq!(resolve_row_value(&row, "level"), "warn");
    assert_eq!(resolve_row_value(&row, "msg"), "m");
    assert_eq!(resolve_row_value(&row, "correlationId"), "c");
    assert_eq!(resolve_row_value(&row, "name"), "n");
    assert_eq!(resolve_row_value(&row, "service"), "s");
    assert_eq!(resolve_row_value(&row, "namespace"), "ns");
    assert_eq!(resolve_row_value(&row, "traceId"), "t");
    assert_eq!(resolve_row_value(&row, "requestId"), "r");
    assert_eq!(resolve_row_value(&row, "other.k"), "true");
    assert_eq!(resolve_row_value(&row, "LogLevel"), "warn");
    assert_eq!(resolve_row_value(&row, "missing"), "");
}

#[test]
fn missing_fields_show_as_empty() {
    let row = one_row(r#"{"level":7,"time":"not a time"}"#);
    assert_eq!(resolve_row_value(&row, "time"), "");
    assert_eq!(resolve_row_value(&row, "level"), "");
    assert_eq!(resolve_row_value(&row, "msg"), "");
    assert_eq!(resolve_row_value(&row, "error"), "");
}

#[test]
fn error_columns_fall_back_to_marked_keys() {
    let marked = one_row(r#"{"@error":"at","@errorDetails":"details"}"#);
    assert_eq!(resolve_row_value(&marked, "error"), "at");
    assert_eq!(resolve_row_value(&marked, "errorDetails"), "details");
    let both = one_row(r#"{"@error":"at","error":"plain"}"#);
    assert_eq!(resolve_row_value(&both, "error"), "plain");
    assert_eq!(resolve_row_value(&marked, "@error"), "at");
}

#[test]
fn long_texts_are_cut_with_dots() {
    assert_eq!(shorten_for_display("short", 5), "short");
    assert_eq!(shorten_for_display("longer", 5), "longe...");
    assert_eq!(shorten_for_display("\u{e9}\u{e9}\u{e9}", 2), "\u{e9}\u{e9}...");
    assert_eq!(shorten_for_display("", 0), "");
    assert_eq!(shorten_for_display("x", 0), "...");
}

#[test]
fn display_lines_count_as_the_standard_library_does() {
    for text in ["", "a", "a\n", "a\nb", "\n", "\n\n", "a\r\nb\r\n", "a\n\nb"] {
        assert_eq!(count_display_lines(text), text.lines().count().max(1), "{text:?}");
    }
}

#[test]
fn json_is_pretty_printed_for_display() {
    let (text, lines) = format_json_for_display(r#"{"a":1,"b":[true]}"#);
    assert_eq!(text, "{\n  \"a\": 1,\n  \"b\": [\n    true\n  ]\n}");
    assert_eq!(lines, 6);
    let (text, lines) = format_json_for_display("not json\nat all");
    assert_eq!(text, "not json\nat all");
    assert_eq!(lines, 2);
    assert_eq!(format_json_for_display(""), (String::new(), 1));
}
