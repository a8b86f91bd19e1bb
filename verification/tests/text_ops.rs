use log_viewer::distance::{bytes_distance, levenshtein};
use log_viewer::number::parse_i64;
use log_viewer::text::{
    chars_of, contains_chars, eq_ignore_case, is_whitespace, path_less, same_text,
    starts_with_chars, string_of, text_less, to_lower_char, to_lowercase, trim,
};

#[test]
fn whitespace_agrees_with_the_standard_library() {
    let mut code: u32 = 0;
    while code <= 0x10FFFF {
        if let Some(c) = char::from_u32(code) {
            assert_eq!(is_whitespace(c), c.is_whitespace(), "code point {code:#x}");
        }
        code += 1;
    }
}

#[test]
fn lower_case_agrees_with_the_standard_library() {
    let mut code: u32 = 0;
    while code <= 0x10FFFF {
        if let Some(c) = char::from_u32(code) {
            assert_eq!(to_lower_char(c), c.to_ascii_lowercase());
        }
        code += 1;
    }
    assert_eq!(to_lowercase("MiXed \u{c9}T\u{c9}"), "mixed \u{c9}t\u{c9}");
}

#[test]
fn trim_removes_whitespace_at_both_ends() {
    for sample in ["", " ", "  a b  ", "\t\n x\u{a0}", "\u{2003}wide\u{3000}", "none", " -- "] {
        assert_eq!(trim(sample), sample.trim());
    }
}

#[test]
fn chars_round_trip() {
    let text = "a\u{e9}\u{1F600}z";
    let chars = chars_of(text);
    assert_eq!(chars, vec!['a', '\u{e9}', '\u{1F600}', 'z']);
    assert_eq!(string_of(&chars), text);
}

#[test]
fn substring_search() {
    let hay = chars_of("correlation");
    assert!(contains_chars(&hay, &chars_of("rel")));
    assert!(contains_chars(&hay, &chars_of("")));
    assert!(contains_chars(&hay, &chars_of("correlation")));
    assert!(!contains_chars(&hay, &chars_of("correlations")));
    assert!(!contains_chars(&hay, &chars_of("rle")));
    assert!(starts_with_chars(&hay, &chars_of("corr")));
    assert!(!starts_with_chars(&hay, &chars_of("orr")));
    assert!(contains_chars(&chars_of(""), &chars_of("")));
    assert!(!contains_chars(&chars_of(""), &chars_of("a")));
}

#[test]
fn equality_with_and_without_case() {
    assert!(same_text("abc", "abc"));
    assert!(!same_text("abc", "abC"));
    assert!(eq_ignore_case("TraceId", "traceid"));
    assert!(!eq_ignore_case("TraceId", "trace"));
    assert!(!eq_ignore_case("\u{e9}", "\u{c9}"));
}

#[test]
fn key_order_is_by_code_point() {
    let mut samples = vec!["", "a", "B", "ab", "a.b", "a/b", "\u{e9}", "z", "a b"];
    let mut expected = samples.clone();
    expected.sort();
    samples.sort_by(|a, b| {
        if text_less(a, b) {
            std::cmp::Ordering::Less
        } else if text_less(b, a) {
            std::cmp::Ordering::Greater
        } else {
            std::cmp::Ordering::Equal
        }
    });
    assert_eq!(samples, expected);
}

#[test]
fn path_order_is_by_component() {
    let samples = ["a/b", "a.b", "a/b/c", "a/bc", "a", "b/a", "a-b/x", "/root/x", "/root.d/x"];
    for left in samples {
        for right in samples {
            let by_path = std::path::Path::new(left) < std::path::Path::new(right);
            assert_eq!(path_less(left, right), by_path, "{left} against {right}");
        }
    }
}

#[test]
fn edit_distance_of_known_pairs() {
    assert_eq!(levenshtein("kitten", "sitting"), 3);
    assert_eq!(levenshtein("", "abc"), 3);
    assert_eq!(levenshtein("abc", ""), 3);
    assert_eq!(levenshtein("same", "same"), 0);
    assert_eq!(levenshtein("requestt", "requestid"), 2);
    assert_eq!(levenshtein("flaw", "lawn"), 2);
    assert_eq!(bytes_distance(b"ab", b"ba"), 2);
    assert_eq!(levenshtein("\u{e9}", "e"), 2);
}

#[test]
fn signed_integers_parse_as_the_standard_library_does() {
    let samples = [
        "0",
        "-0",
        "+7",
        "0042",
        "1700000000",
        "9223372036854775807",
        "9223372036854775808",
        "-9223372036854775808",
        "-9223372036854775809",
        "",
        "+",
        "-",
        " 1",
        "1 ",
        "1_000",
        "12a",
        "--1",
        "99999999999999999999999999",
    ];
    for sample in samples {
        assert_eq!(parse_i64(sample), sample.parse::<i64>().ok(), "{sample:?}");
    }
}
