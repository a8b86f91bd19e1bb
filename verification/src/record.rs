//! Record reconstruction: groups the lines of a file into logical records,
//! each one JSON value that may be printed over several lines.

use crate::extract::{fields_of, Extractor};
use crate::flat::FlatMap;
use crate::json::{flat_of, flatten_json_map, json_of, json_parse, Json, JsonValue};
use crate::keys::{insert_all, texts};
use crate::model::{row_models, Row, RowModel};
use crate::text::{all_chars, all_chars_are, chars_of, push_char, strictly_sorted, trim, trim_bounds, trimmed};
use vstd::prelude::*;

verus! {

/// The character that separator lines are made of.
pub const SEPARATOR_CHAR: char = '-';

/// A line that starts no record: blank, or made of the separator character alone.
pub open spec fn is_skippable(line: Seq<char>) -> bool {
    trimmed(line).len() == 0 || all_chars_are(trimmed(line), SEPARATOR_CHAR)
}

/// The lines `start..=end` joined by newlines.
pub open spec fn block_text(lines: Seq<Seq<char>>, start: int, end: int) -> Seq<char>
    decreases end - start,
{
    if end <= start {
        lines[start]
    } else {
        block_text(lines, start, end - 1) + seq!['\n'] + lines[end]
    }
}

/// The text that is tried as JSON for the lines `start..=end`.
pub open spec fn candidate(lines: Seq<Seq<char>>, start: int, end: int) -> Seq<char> {
    trimmed(block_text(lines, start, end))
}

/// The last line of the record that starts at `start`, found from `end` on:
/// the first line at which the text gathered so far parses, or the last line
/// of the file where none does.
pub open spec fn record_end(lines: Seq<Seq<char>>, start: int, end: int) -> int
    decreases lines.len() - end,
{
    if end + 1 >= lines.len() || json_parse(candidate(lines, start, end)) is Some {
        end
    } else {
        record_end(lines, start, end + 1)
    }
}

/// The value of a record with the source text `raw`: what it parses to, or an
/// object whose only member `msg` holds the text.
pub open spec fn record_value(raw: Seq<char>) -> Json {
    match json_parse(raw) {
        Some(value) => value,
        None => Json::Object(seq![("msg"@, Json::Text(raw))]),
    }
}

/// The row for the record on the lines `start..=end`.
pub open spec fn record_row(lines: Seq<Seq<char>>, file_id: int, start: int, end: int) -> RowModel {
    let raw = candidate(lines, start, end);
    RowModel {
        file_id,
        line_start: start,
        line_end: end,
        fields: fields_of(record_value(raw)),
        flat: flat_of(record_value(raw)),
        raw,
    }
}

/// The rows of the records that start at line `idx` or later.
pub open spec fn rows_from(lines: Seq<Seq<char>>, file_id: int, idx: int) -> Seq<RowModel>
    decreases lines.len() - idx,
    when 0 <= idx
    via rows_from_decreases
{
    if idx >= lines.len() {
        Seq::empty()
    } else if is_skippable(lines[idx]) {
        rows_from(lines, file_id, idx + 1)
    } else {
        seq![record_row(lines, file_id, idx, record_end(lines, idx, idx))] + rows_from(
            lines,
            file_id,
            record_end(lines, idx, idx) + 1,
        )
    }
}

/// The next record begins behind the end of this one.
#[via_fn]
proof fn rows_from_decreases(lines: Seq<Seq<char>>, file_id: int, idx: int) {
    if idx < lines.len() {
        lemma_record_end_bounds(lines, idx, idx);
    }
}

/// A record ends at or after the line where the search began, inside the file.
pub proof fn lemma_record_end_bounds(lines: Seq<Seq<char>>, start: int, end: int)
    requires
        0 <= end < lines.len(),
    ensures
        end <= record_end(lines, start, end) < lines.len(),
    decreases lines.len() - end,
{
    if !(end + 1 >= lines.len() || json_parse(candidate(lines, start, end)) is Some) {
        lemma_record_end_bounds(lines, start, end + 1);
    }
}

/// The rows of a file: those of the records from its first line on.
pub open spec fn rows_of(lines: Seq<Seq<char>>, file_id: int) -> Seq<RowModel> {
    rows_from(lines, file_id, 0)
}

/// Every span lies inside a file of `line_count` lines at or after line
/// `from`, and the spans follow one another without overlap.
pub open spec fn spans_in_order(rows: Seq<RowModel>, from: int, line_count: int) -> bool {
    &&& forall|i: int|
        0 <= i < rows.len() ==> from <= (#[trigger] rows[i]).line_start <= rows[i].line_end
            < line_count
    &&& forall|i: int, j: int|
        0 <= i < j < rows.len() ==> (#[trigger] rows[i]).line_end < (#[trigger] rows[j]).line_start
}

/// The rows of a file carry its id, their line spans lie within the file,
/// and no two of them overlap: each starts behind the end of the one before.
pub proof fn lemma_rows_spans(lines: Seq<Seq<char>>, file_id: int, idx: int)
    requires
        0 <= idx,
    ensures
        spans_in_order(rows_from(lines, file_id, idx), idx, lines.len() as int),
        forall|i: int|
            0 <= i < rows_from(lines, file_id, idx).len() ==> (#[trigger] rows_from(
                lines,
                file_id,
                idx,
            )[i]).file_id == file_id,
    decreases lines.len() - idx,
{
    if idx >= lines.len() {
    } else if is_skippable(lines[idx]) {
        lemma_rows_spans(lines, file_id, idx + 1);
    } else {
        let end = record_end(lines, idx, idx);
        lemma_record_end_bounds(lines, idx, idx);
        lemma_rows_spans(lines, file_id, end + 1);
        let head = record_row(lines, file_id, idx, end);
        let tail = rows_from(lines, file_id, end + 1);
        let all = rows_from(lines, file_id, idx);
        assert(all == seq![head] + tail);
        assert forall|i: int| 0 <= i < all.len() implies idx <= (#[trigger] all[i]).line_start
            <= all[i].line_end < lines.len() && all[i].file_id == file_id by {
            if i > 0 {
                assert(all[i] == tail[i - 1]);
            }
        }
        assert forall|i: int, j: int| 0 <= i < j < all.len() implies (#[trigger] all[i]).line_end < (
        #[trigger] all[j]).line_start by {
            assert(all[j] == tail[j - 1]);
            if i > 0 {
                assert(all[i] == tail[i - 1]);
            }
        }
    }
}

/// The keys that occur in the flattened form of some row.
pub open spec fn column_set(rows: Seq<Row>) -> Set<Seq<char>> {
    Set::new(
        |k: Seq<char>| exists|i: int| 0 <= i < rows.len() && (#[trigger] rows[i]).flat@.dom().contains(k),
    )
}

/// Adding a row adds its keys to the column set.
pub proof fn lemma_column_set_push(rows: Seq<Row>, row: Row)
    ensures
        column_set(rows.push(row)) == column_set(rows).union(row.flat@.dom()),
{
    let more = rows.push(row);
    assert forall|k: Seq<char>| column_set(more).contains(k) <==> column_set(rows).union(
        row.flat@.dom(),
    ).contains(k) by {
        if column_set(more).contains(k) {
            let i = choose|i: int| 0 <= i < more.len() && (#[trigger] more[i]).flat@.dom().contains(k);
            if i < rows.len() {
                assert(rows[i].flat@.dom().contains(k));
            }
        }
        if column_set(rows).contains(k) {
            let i = choose|i: int| 0 <= i < rows.len() && (#[trigger] rows[i]).flat@.dom().contains(k);
            assert(more[i].flat@.dom().contains(k));
        }
        if row.flat@.dom().contains(k) {
            assert(more[rows.len() as int].flat@.dom().contains(k));
        }
    }
    assert(column_set(more) =~= column_set(rows).union(row.flat@.dom()));
}

/// The value of a record with the source text `raw`, given what the text
/// parsed to.
pub fn value_or_message(parsed: Option<JsonValue>, raw: &str) -> (value: JsonValue)
    ensures
        value@ == (match parsed {
            Some(v) => v@,
            None => Json::Object(seq![("msg"@, Json::Text(raw@))]),
        }),
{
    match parsed {
        Some(value) => value,
        None => {
            let mut entries: Vec<(String, JsonValue)> = Vec::new();
            entries.push(("msg".to_owned(), JsonValue::Text(raw.to_owned())));
            let fallback = JsonValue::Object(entries);
            proof {
                reveal_with_fuel(json_of, 2);
                assert(fallback@->Object_0 =~= seq![("msg"@, Json::Text(raw@))]);
            }
            fallback
        },
    }
}

/// Whether a line starts no record.
pub fn is_skippable_line(line: &str) -> (r: bool)
    ensures
        r == is_skippable(line@),
{
    let chars = chars_of(line);
    let (start, end) = trim_bounds(&chars);
    start == end || all_chars(&chars, start, end, SEPARATOR_CHAR)
}

/// Adds the keys of `flat` to the strictly increasing vector `columns`.
pub fn add_columns(columns: &mut Vec<String>, flat: &FlatMap)
    requires
        strictly_sorted(texts(old(columns)@)),
    ensures
        strictly_sorted(texts(final(columns)@)),
        texts(final(columns)@).to_set() == texts(old(columns)@).to_set().union(flat@.dom()),
{
    insert_all(columns, &flat.keys);
    assert(texts(flat.keys@).to_set() =~= flat@.dom());
}

/// Groups `lines` into records and gives each its row, in file order, with
/// the set of keys that their flattened forms use.
///
/// Blank lines and separator lines between records are skipped. A record
/// gathers lines until the text gathered parses as JSON; where it never does,
/// the record runs to the last line and holds its text as the message.
pub fn parse_rows(file_id: usize, lines: &Vec<String>, extractor: &Extractor) -> (res: (
    Vec<Row>,
    Vec<String>,
))
    ensures
        row_models(res.0@) == rows_of(texts(lines@), file_id as int),
        spans_in_order(row_models(res.0@), 0, lines@.len() as int),
        forall|i: int| 0 <= i < res.0@.len() ==> (#[trigger] res.0@[i]).wf() && res.0@[i].file_id == file_id,
        strictly_sorted(texts(res.1@)),
        texts(res.1@).to_set() == column_set(res.0@),
{
    let n = lines.len();
    let ghost all = texts(lines@);
    let mut rows: Vec<Row> = Vec::new();
    let mut columns: Vec<String> = Vec::new();
    let mut idx: usize = 0;
    proof {
        assert(row_models(rows@) =~= Seq::<RowModel>::empty());
        assert(texts(columns@).to_set() =~= column_set(rows@));
    }
    while idx < n
        invariant
            idx <= n == lines.len(),
            all == texts(lines@),
            row_models(rows@) + rows_from(all, file_id as int, idx as int) == rows_of(all, file_id as int),
            forall|i: int| 0 <= i < rows@.len() ==> (#[trigger] rows@[i]).wf(),
            strictly_sorted(texts(columns@)),
            texts(columns@).to_set() == column_set(rows@),
        decreases n - idx,
    {
        assert(all[idx as int] == lines@[idx as int]@);
        if is_skippable_line(lines[idx].as_str()) {
            idx += 1;
            continue;
        }
        let mut end_idx: usize = idx;
        let mut block: String = lines[idx].clone();
        let mut raw: String = trim(block.as_str());
        let mut parsed: Option<JsonValue> = extractor.parse_json(raw.as_str());
        while parsed.is_none() && end_idx + 1 < n
            invariant
                idx <= end_idx < n == lines.len(),
                all == texts(lines@),
                block@ == block_text(all, idx as int, end_idx as int),
                raw@ == trimmed(block@),
                crate::json::opt_json(parsed) == json_parse(raw@),
                record_end(all, idx as int, idx as int) == record_end(all, idx as int, end_idx as int),
            decreases n - end_idx,
        {
            end_idx += 1;
            push_char(&mut block, '\n');
            block.append(lines[end_idx].as_str());
            assert(all[end_idx as int] == lines@[end_idx as int]@);
            assert(block@ =~= block_text(all, idx as int, end_idx as int));
            raw = trim(block.as_str());
            parsed = extractor.parse_json(raw.as_str());
        }
        assert(record_end(all, idx as int, idx as int) == end_idx);
        let value = value_or_message(parsed, raw.as_str());
        assert(value@ == record_value(raw@));
        let fields = extractor.extract(&value);
        let flat = flatten_json_map(&value);
        add_columns(&mut columns, &flat);
        let row = Row {
            file_id,
            line_start: idx,
            line_end: end_idx,
            ts: fields.ts,
            level: fields.level,
            corr: fields.corr,
            name: fields.name,
            msg: fields.msg,
            service: fields.service,
            namespace: fields.namespace,
            trace_id: fields.trace_id,
            request_id: fields.request_id,
            flat,
            raw_json: raw,
        };
        proof {
            assert(row@ == record_row(all, file_id as int, idx as int, end_idx as int));
            lemma_column_set_push(rows@, row);
            assert(row_models(rows@.push(row)) =~= row_models(rows@).push(row@));
            assert(row_models(rows@).push(row@) + rows_from(all, file_id as int, end_idx + 1)
                =~= row_models(rows@) + rows_from(all, file_id as int, idx as int));
        }
        rows.push(row);
        idx = end_idx + 1;
    }
    proof {
        assert(row_models(rows@) + Seq::<RowModel>::empty() =~= row_models(rows@));
        lemma_rows_spans(all, file_id as int, 0);
        assert forall|i: int| 0 <= i < rows@.len() implies (#[trigger] rows@[i]).file_id == file_id by {
            assert(row_models(rows@)[i] == rows@[i]@);
        }
    }
    (rows, columns)
}

} // verus!
