//! What a row shows in a column, and how long texts are shown.

use crate::extract::timestamp_in_range;
use crate::json::{json_parse, parse_value, value_model, Json};
use crate::keys::opt_text;
use crate::model::{Row, Timestamp};
use crate::text::{chars_of, same_text, string_of_range};
use vstd::prelude::*;

verus! {

/// What `chrono::DateTime::to_rfc3339` writes for the instant of these
/// seconds and nanoseconds.
pub uninterp spec fn rfc3339_text(secs: i64, nanos: u32) -> Seq<char>;

/// What `serde_json::to_string_pretty` writes for a value, or nothing where
/// it reports an error.
pub uninterp spec fn json_pretty(value: Json) -> Option<Seq<char>>;

/// `chrono::DateTime::to_rfc3339` on the instant that
/// `chrono::DateTime::from_timestamp` makes of the numbers: the instant
/// written as date, time and offset, which depends on the numbers alone.
/// There is no text for numbers that `from_timestamp` refuses.
#[verifier::external_body]
fn format_rfc3339(secs: i64, nanos: u32) -> (text: Option<String>)
    ensures
        text is Some <==> timestamp_in_range(secs, nanos),
        text matches Some(t) ==> t@ == rfc3339_text(secs, nanos),
{
    chrono::DateTime::<chrono::Utc>::from_timestamp(secs, nanos).map(|instant| instant.to_rfc3339())
}

/// `serde_json::to_string_pretty`: the value written with one member per
/// line and two spaces of indentation. The result depends on what the value
/// holds alone.
#[verifier::external_body]
fn pretty_print(value: &serde_json::Value) -> (text: Option<String>)
    ensures
        opt_text(text) == json_pretty(value_model(*value)),
{
    serde_json::to_string_pretty(value).ok()
}

/// The text of an optional field; empty where the field is missing.
pub open spec fn or_empty(field: Option<Seq<char>>) -> Seq<char> {
    match field {
        Some(s) => s,
        None => Seq::empty(),
    }
}

/// The instant as text; empty where there is no instant, or none that can
/// be written.
pub open spec fn instant_text(ts: Option<Timestamp>) -> Seq<char> {
    match ts {
        Some(t) => if timestamp_in_range(t.secs, t.nanos) {
            rfc3339_text(t.secs, t.nanos)
        } else {
            Seq::empty()
        },
        None => Seq::empty(),
    }
}

/// The flattened value stored under `key`; empty where there is none.
pub open spec fn flat_text(row: Row, key: Seq<char>) -> Seq<char> {
    if row.flat@.dom().contains(key) {
        row.flat@[key]
    } else {
        Seq::empty()
    }
}

/// What a row shows in the column `key`: a canonical field for the key of
/// one; for `error` and `errorDetails` the flattened value under the key or
/// else under the key with `@` in front; for any other key the flattened
/// value under it.
pub open spec fn row_value(row: Row, key: Seq<char>) -> Seq<char> {
    if key == "time"@ {
        instant_text(row.ts)
    } else if key == "level"@ {
        or_empty(opt_text(row.level))
    } else if key == "msg"@ {
        or_empty(opt_text(row.msg))
    } else if key == "correlationId"@ {
        or_empty(opt_text(row.corr))
    } else if key == "name"@ {
        or_empty(opt_text(row.name))
    } else if key == "service"@ {
        or_empty(opt_text(row.service))
    } else if key == "namespace"@ {
        or_empty(opt_text(row.namespace))
    } else if key == "traceId"@ {
        or_empty(opt_text(row.trace_id))
    } else if key == "requestId"@ {
        or_empty(opt_text(row.request_id))
    } else if (key == "error"@ || key == "errorDetails"@) && !row.flat@.dom().contains(key) {
        flat_text(row, seq!['@'] + key)
    } else {
        flat_text(row, key)
    }
}

/// An owned copy of an optional text; empty where it is missing.
fn text_or_empty(field: &Option<String>) -> (s: String)
    ensures
        s@ == or_empty(opt_text(*field)),
{
    match field {
        Some(value) => value.clone(),
        None => String::new(),
    }
}

/// The flattened value stored under `key`; empty where there is none.
fn flat_or_empty(row: &Row, key: &str) -> (s: String)
    requires
        row.wf(),
    ensures
        s@ == flat_text(*row, key@),
{
    match row.flat.get(key) {
        Some(value) => value.clone(),
        None => String::new(),
    }
}

/// What a row shows in the column `key`.
pub fn resolve_row_value(row: &Row, key: &str) -> (value: String)
    requires
        row.wf(),
    ensures
        value@ == row_value(*row, key@),
{
    if same_text(key, "time") {
        match row.ts {
            Some(t) => match format_rfc3339(t.secs, t.nanos) {
                Some(text) => text,
                None => String::new(),
            },
            None => String::new(),
        }
    } else if same_text(key, "level") {
        text_or_empty(&row.level)
    } else if same_text(key, "msg") {
        text_or_empty(&row.msg)
    } else if same_text(key, "correlationId") {
        text_or_empty(&row.corr)
    } else if same_text(key, "name") {
        text_or_empty(&row.name)
    } else if same_text(key, "service") {
        text_or_empty(&row.service)
    } else if same_text(key, "namespace") {
        text_or_empty(&row.namespace)
    } else if same_text(key, "traceId") {
        text_or_empty(&row.trace_id)
    } else if same_text(key, "requestId") {
        text_or_empty(&row.request_id)
    } else if (same_text(key, "error") || same_text(key, "errorDetails")) && row.flat.get(key).is_none() {
        let mut marked = String::new();
        crate::text::push_char(&mut marked, '@');
        marked.append(key);
        assert(marked@ =~= seq!['@'] + key@);
        flat_or_empty(row, marked.as_str())
    } else {
        flat_or_empty(row, key)
    }
}

/// `input` cut to `max` characters, with three dots where it was cut.
pub open spec fn shortened(input: Seq<char>, max: int) -> Seq<char> {
    if input.len() <= max {
        input
    } else {
        input.take(max) + seq!['.', '.', '.']
    }
}

/// `input` cut to at most `max` characters for display.
pub fn shorten_for_display(input: &str, max: usize) -> (out: String)
    ensures
        out@ == shortened(input@, max as int),
{
    let chars = chars_of(input);
    if chars.len() <= max {
        return input.to_owned();
    }
    let mut out = string_of_range(&chars, 0, max);
    crate::text::push_char(&mut out, '.');
    crate::text::push_char(&mut out, '.');
    crate::text::push_char(&mut out, '.');
    assert(out@ =~= chars@.take(max as int) + seq!['.', '.', '.']);
    out
}

/// The number of newline characters among the first `n` characters.
pub open spec fn newlines(text: Seq<char>, n: nat) -> nat
    decreases n,
{
    if n == 0 || n > text.len() {
        0
    } else {
        newlines(text, (n - 1) as nat) + if text[n - 1] == '\n' {
            1nat
        } else {
            0nat
        }
    }
}

/// There are no more newlines than characters.
proof fn lemma_newlines_bound(text: Seq<char>, n: nat)
    ensures
        newlines(text, n) <= n,
    decreases n,
{
    if n > 0 && n <= text.len() {
        lemma_newlines_bound(text, (n - 1) as nat);
    }
}

/// The number of lines of a text: one per newline, and one more for what
/// follows the last newline unless that is empty.
pub open spec fn line_count(text: Seq<char>) -> nat {
    newlines(text, text.len()) + if text.len() > 0 && text.last() != '\n' {
        1nat
    } else {
        0nat
    }
}

/// The number of lines to reserve for a text: its line count, one at least.
pub open spec fn display_lines(text: Seq<char>) -> nat {
    if line_count(text) >= 1 {
        line_count(text)
    } else {
        1
    }
}

/// The number of lines to reserve for a text.
pub fn count_display_lines(text: &str) -> (lines: usize)
    ensures
        lines == display_lines(text@),
{
    let chars = chars_of(text);
    let n = chars.len();
    let mut count: usize = 0;
    let mut i: usize = 0;
    while i < n
        invariant
            i <= n == chars.len(),
            count == newlines(chars@, i as nat),
            count <= i,
        decreases n - i,
    {
        if chars[i] == '\n' {
            count += 1;
        }
        i += 1;
    }
    if n > 0 && chars[n - 1] != '\n' {
        assert(chars@[n - 1] != '\n');
        assert(newlines(chars@, n as nat) == newlines(chars@, (n - 1) as nat));
        proof {
            lemma_newlines_bound(chars@, (n - 1) as nat);
        }
        count += 1;
    }
    if count == 0 {
        1
    } else {
        count
    }
}

/// A record's source text as shown: what it parses to, printed with one
/// member per line, or the text as it is where it does not parse.
pub open spec fn display_text(raw: Seq<char>) -> Seq<char> {
    match json_parse(raw) {
        Some(value) => match json_pretty(value) {
            Some(pretty) => pretty,
            None => raw,
        },
        None => raw,
    }
}

/// A record's source text as shown, with the number of lines to reserve.
pub fn format_json_for_display(raw: &str) -> (res: (String, usize))
    ensures
        res.0@ == display_text(raw@),
        res.1 == display_lines(res.0@),
{
    let pretty = match parse_value(raw) {
        Some(value) => pretty_print(&value),
        None => None,
    };
    let text = match pretty {
        Some(pretty) => pretty,
        None => raw.to_owned(),
    };
    let lines = count_display_lines(text.as_str());
    (text, lines)
}

} // verus!
