//! Turns the raw bytes of a line into displayable text: terminal escape
//! sequences are removed, the bytes are decoded leniently, and a trailing
//! carriage return is dropped.

use crate::scan::{line_headers, lines_fit, scan_lines, try_scan_lines, LineHeader};
use crate::keys::texts;
use crate::text::{chars_of, string_of_range};
use vstd::prelude::*;
use vstd::slice::slice_subrange;

verus! {

/// The escape byte that opens a terminal control sequence.
pub const ESCAPE: u8 = 0x1B;

/// A byte that may end an escape sequence.
pub open spec fn is_terminator(b: u8) -> bool {
    0x40 <= b <= 0x7E
}

/// A byte that makes the escape byte before it the start of a sequence.
pub open spec fn is_introducer(b: u8) -> bool {
    b == 0x5B || b == 0x5D
}

/// The index just behind the first terminator at or after `j`, or the end of
/// the input where there is none.
pub open spec fn sequence_end(input: Seq<u8>, j: int) -> int
    decreases input.len() - j,
{
    if j >= input.len() {
        input.len() as int
    } else if is_terminator(input[j]) {
        j + 1
    } else {
        sequence_end(input, j + 1)
    }
}

/// `input[i..]` without escape sequences. An escape byte followed by `[` or
/// `]` opens a sequence that runs through its terminator, or to the end of the
/// input; any other escape byte is dropped alone.
pub open spec fn stripped_from(input: Seq<u8>, i: int) -> Seq<u8>
    decreases input.len() - i,
    when 0 <= i
    via stripped_from_decreases
{
    if i >= input.len() {
        Seq::empty()
    } else if input[i] == ESCAPE {
        if i + 1 < input.len() && is_introducer(input[i + 1]) {
            stripped_from(input, sequence_end(input, i + 2))
        } else {
            stripped_from(input, i + 1)
        }
    } else {
        seq![input[i]] + stripped_from(input, i + 1)
    }
}

/// A sequence ends behind the escape byte that opened it.
#[via_fn]
proof fn stripped_from_decreases(input: Seq<u8>, i: int) {
    if i < input.len() && input[i] == ESCAPE && i + 1 < input.len() && is_introducer(input[i + 1]) {
        lemma_sequence_end_bounds(input, i + 2);
    }
}

/// A sequence ends behind where its search began and inside the input.
pub proof fn lemma_sequence_end_bounds(input: Seq<u8>, j: int)
    requires
        0 <= j <= input.len(),
    ensures
        j <= sequence_end(input, j) <= input.len(),
    decreases input.len() - j,
{
    if j < input.len() && !is_terminator(input[j]) {
        lemma_sequence_end_bounds(input, j + 1);
    }
}

/// `input` without escape sequences.
pub open spec fn stripped(input: Seq<u8>) -> Seq<u8> {
    stripped_from(input, 0)
}

/// What `String::from_utf8_lossy` makes of a byte sequence: its decoding,
/// with each invalid sequence replaced by U+FFFD.
pub uninterp spec fn lossy_text(bytes: Seq<u8>) -> Seq<char>;

/// `text` without one trailing carriage return.
pub open spec fn without_trailing_cr(text: Seq<char>) -> Seq<char> {
    if text.len() > 0 && text.last() == '\r' {
        text.drop_last()
    } else {
        text
    }
}

/// The displayable text of a raw line.
pub open spec fn sanitized(raw: Seq<u8>) -> Seq<char> {
    without_trailing_cr(lossy_text(stripped(raw)))
}

/// The text that a raw line decodes to where what is left of it without
/// escape sequences is valid UTF-8: that text without a trailing carriage return.
pub open spec fn decoded(raw: Seq<u8>) -> Seq<char> {
    without_trailing_cr(vstd::utf8::decode_utf8(stripped(raw)))
}

/// What is left of a raw line without escape sequences is valid UTF-8.
pub open spec fn is_plain_line(raw: Seq<u8>) -> bool {
    vstd::utf8::valid_utf8(stripped(raw))
}

/// The raw bytes that a header points at.
pub open spec fn line_bytes(bytes: Seq<u8>, h: LineHeader) -> Seq<u8> {
    bytes.subrange(h.offset as int, h.offset + h.len)
}

/// The displayable text of each line of a buffer, in order.
pub open spec fn sanitized_lines(bytes: Seq<u8>) -> Seq<Seq<char>> {
    Seq::new(
        line_headers(bytes).len(),
        |i: int| sanitized(line_bytes(bytes, line_headers(bytes)[i])),
    )
}

/// Removes terminal escape sequences from `input`; all other bytes pass
/// through unchanged.
pub fn strip_ansi_codes(input: &[u8]) -> (output: Vec<u8>)
    ensures
        output@ == stripped(input@),
{
    let n = input.len();
    let mut output: Vec<u8> = Vec::new();
    let mut i: usize = 0;
    while i < n
        invariant
            i <= n == input@.len(),
            output@ + stripped_from(input@, i as int) == stripped(input@),
        decreases n - i,
    {
        if input[i] == ESCAPE {
            if i + 1 < n && (input[i + 1] == 0x5B || input[i + 1] == 0x5D) {
                let ghost from = i;
                i += 2;
                while i < n && !(input[i] >= 0x40 && input[i] <= 0x7E)
                    invariant
                        from + 2 <= i <= n == input@.len(),
                        sequence_end(input@, from + 2) == sequence_end(input@, i as int),
                    decreases n - i,
                {
                    i += 1;
                }
                if i < n {
                    i += 1;
                }
            } else {
                i += 1;
            }
        } else {
            let ghost before = output@;
            output.push(input[i]);
            assert(output@ + stripped_from(input@, i + 1) =~= before + (seq![input@[i as int]]
                + stripped_from(input@, i + 1)));
            i += 1;
        }
    }
    assert(output@ + Seq::<u8>::empty() =~= output@);
    output
}

/// `String::from_utf8_lossy`: decodes `bytes` as UTF-8 and puts U+FFFD in
/// place of each invalid sequence. Valid UTF-8 decodes to its own text.
#[verifier::external_body]
fn decode_lossy(bytes: &[u8]) -> (text: String)
    ensures
        text@ == lossy_text(bytes@),
        vstd::utf8::valid_utf8(bytes@) ==> text@ == vstd::utf8::decode_utf8(bytes@),
{
    String::from_utf8_lossy(bytes).into_owned()
}

/// `text` without one trailing carriage return.
pub fn drop_trailing_cr(text: String) -> (out: String)
    ensures
        out@ == without_trailing_cr(text@),
{
    let chars = chars_of(text.as_str());
    let n = chars.len();
    if n > 0 && chars[n - 1] == '\r' {
        string_of_range(&chars, 0, n - 1)
    } else {
        text
    }
}

/// The displayable text of one raw line.
pub fn sanitize_line(raw: &[u8]) -> (text: String)
    ensures
        text@ == sanitized(raw@),
        is_plain_line(raw@) ==> text@ == decoded(raw@),
{
    let clean = strip_ansi_codes(raw);
    let decoded = decode_lossy(clean.as_slice());
    drop_trailing_cr(decoded)
}

/// Every header points inside `bytes`.
pub open spec fn headers_in_bounds(bytes: Seq<u8>, headers: Seq<LineHeader>) -> bool {
    forall|i: int| 0 <= i < headers.len() ==> (#[trigger] headers[i]).offset + headers[i].len <= bytes.len()
}

/// Each of `lines` whose raw line is valid UTF-8 once the escape sequences
/// are gone is the decoding of that line, without a trailing carriage return.
pub open spec fn plain_lines_decoded(
    bytes: Seq<u8>,
    headers: Seq<LineHeader>,
    lines: Seq<Seq<char>>,
) -> bool {
    forall|i: int|
        0 <= i < headers.len() && i < lines.len() && is_plain_line(
            line_bytes(bytes, #[trigger] headers[i]),
        ) ==> lines[i] == decoded(line_bytes(bytes, headers[i]))
}

/// The displayable text of each line that `headers` points at, in order.
pub fn sanitize_lines(bytes: &[u8], headers: &Vec<LineHeader>) -> (lines: Vec<String>)
    requires
        headers_in_bounds(bytes@, headers@),
    ensures
        lines@.len() == headers@.len(),
        forall|i: int|
            0 <= i < headers@.len() ==> (#[trigger] lines@[i])@ == sanitized(line_bytes(bytes@, headers@[i])),
        plain_lines_decoded(bytes@, headers@, texts(lines@)),
{
    let total = bytes.len();
    let mut lines: Vec<String> = Vec::new();
    let mut i: usize = 0;
    while i < headers.len()
        invariant
            i <= headers.len(),
            total == bytes@.len(),
            headers_in_bounds(bytes@, headers@),
            lines@.len() == i,
            forall|k: int|
                0 <= k < i ==> (#[trigger] lines@[k])@ == sanitized(line_bytes(bytes@, headers@[k])),
            forall|k: int|
                0 <= k < i && is_plain_line(line_bytes(bytes@, #[trigger] headers@[k])) ==> lines@[k]@
                    == decoded(line_bytes(bytes@, headers@[k])),
        decreases headers.len() - i,
    {
        let header = headers[i];
        assert(headers@[i as int].offset + headers@[i as int].len <= bytes@.len());
        let start = header.offset as usize;
        let end = start + header.len as usize;
        let raw = slice_subrange(bytes, start, end);
        let text = sanitize_line(raw);
        lines.push(text);
        i += 1;
    }
    lines
}

/// Finds the lines of a buffer and gives the displayable text of each.
/// There is none where a line is longer than a header can say.
pub fn try_sanitize_buffer(bytes: &[u8]) -> (res: Option<Vec<String>>)
    ensures
        res is Some <==> lines_fit(bytes@),
        res matches Some(lines) ==> texts(lines@) == sanitized_lines(bytes@) && plain_lines_decoded(
            bytes@,
            line_headers(bytes@),
            texts(lines@),
        ),
{
    match try_scan_lines(bytes) {
        Some(headers) => {
            let lines = sanitize_lines(bytes, &headers);
            assert(texts(lines@) =~= sanitized_lines(bytes@));
            Some(lines)
        },
        None => None,
    }
}

/// Finds the lines of a buffer in which no line is too long, and gives the
/// displayable text of each.
pub fn sanitize_buffer(bytes: &[u8]) -> (lines: Vec<String>)
    requires
        lines_fit(bytes@),
    ensures
        texts(lines@) == sanitized_lines(bytes@),
        plain_lines_decoded(bytes@, line_headers(bytes@), texts(lines@)),
{
    let headers = scan_lines(bytes);
    let lines = sanitize_lines(bytes, &headers);
    assert(texts(lines@) =~= sanitized_lines(bytes@));
    lines
}

} // verus!
