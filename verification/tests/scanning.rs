use log_viewer::sanitize::{drop_trailing_cr, sanitize_buffer, sanitize_line, sanitize_lines, strip_ansi_codes};
use log_viewer::sanitize::try_sanitize_buffer;
use log_viewer::scan::{scan_lines, try_scan_lines, LineHeader};

fn header(offset: u64, len: u32) -> LineHeader {
    LineHeader { offset, len }
}

#[test]
fn scan_finds_lines_between_newlines() {
    let lines = scan_lines(b"first\nsecond\nthird\n");
    assert_eq!(lines, vec![header(0, 5), header(6, 6), header(13, 5)]);
}

#[test]
fn scan_keeps_trailing_line_without_newline() {
    let lines = scan_lines(b"a\nbc");
    assert_eq!(lines, vec![header(0, 1), header(2, 2)]);
}

#[test]
fn scan_gives_no_header_for_empty_lines() {
    let lines = scan_lines(b"\n\nx\n\n\ny");
    assert_eq!(lines, vec![header(2, 1), header(6, 1)]);
}

#[test]
fn scan_of_empty_buffer_is_empty() {
    assert_eq!(scan_lines(b""), Vec::<LineHeader>::new());
    assert_eq!(scan_lines(b"\n\n\n"), Vec::<LineHeader>::new());
}

#[test]
fn strip_removes_colour_sequences() {
    assert_eq!(strip_ansi_codes(b"\x1b[31mERROR\x1b[0m"), b"ERROR".to_vec());
}

#[test]
fn sanitizing_coloured_error_yields_error() {
    assert_eq!(sanitize_line(b"\x1b[31mERROR\x1b[0m"), "ERROR");
}

#[test]
fn strip_ends_a_sequence_at_the_first_terminator() {
    assert_eq!(strip_ansi_codes(b"a\x1b]0;titleXb"), b"aitleXb".to_vec());
    assert_eq!(strip_ansi_codes(b"a\x1b[38;5;196mred"), b"ared".to_vec());
    assert_eq!(strip_ansi_codes(b"\x1b[@x\x1b[~y"), b"xy".to_vec());
    assert_eq!(strip_ansi_codes(b"\x1b[\x7fz"), b"".to_vec());
}

#[test]
fn strip_consumes_unterminated_sequence_to_the_end() {
    assert_eq!(strip_ansi_codes(b"keep\x1b[12;34"), b"keep".to_vec());
    assert_eq!(strip_ansi_codes(b"keep\x1b["), b"keep".to_vec());
}

#[test]
fn strip_drops_lone_escape_byte() {
    assert_eq!(strip_ansi_codes(b"a\x1bb"), b"ab".to_vec());
    assert_eq!(strip_ansi_codes(b"a\x1b"), b"a".to_vec());
}

#[test]
fn strip_passes_other_bytes_through() {
    let input: Vec<u8> = (0u8..=255).filter(|b| *b != 0x1b).collect();
    assert_eq!(strip_ansi_codes(&input), input);
}

#[test]
fn sanitize_drops_one_trailing_carriage_return() {
    assert_eq!(sanitize_line(b"line\r"), "line");
    assert_eq!(sanitize_line(b"line\r\r"), "line\r");
    assert_eq!(sanitize_line(b"li\rne"), "li\rne");
}

#[test]
fn only_a_final_carriage_return_is_dropped() {
    assert_eq!(drop_trailing_cr("a\r".to_string()), "a");
    assert_eq!(drop_trailing_cr("\r".to_string()), "");
    assert_eq!(drop_trailing_cr("".to_string()), "");
    assert_eq!(drop_trailing_cr("\ra".to_string()), "\ra");
    assert_eq!(drop_trailing_cr("a\n".to_string()), "a\n");
}

#[test]
fn sanitize_replaces_invalid_utf8() {
    assert_eq!(sanitize_line(b"a\xffb"), "a\u{fffd}b");
    assert_eq!(sanitize_line("h\u{e9}llo".as_bytes()), "h\u{e9}llo");
}

#[test]
fn sanitize_lines_follow_the_headers() {
    let bytes = b"one\r\n\x1b[1mtwo\x1b[0m\nthree";
    let headers = scan_lines(bytes);
    let lines = sanitize_lines(bytes, &headers);
    assert_eq!(lines, vec!["one".to_string(), "two".to_string(), "three".to_string()]);
    assert_eq!(sanitize_buffer(bytes), lines);
}

#[test]
fn scanning_with_the_length_test_gives_the_same_lines() {
    for sample in [&b""[..], b"\n", b"one", b"one\ntwo\n\nthree", b"\n\nx"] {
        assert_eq!(try_scan_lines(sample), Some(scan_lines(sample)));
        assert_eq!(try_sanitize_buffer(sample), Some(sanitize_buffer(sample)));
    }
}
