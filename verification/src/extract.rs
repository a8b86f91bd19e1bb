//! Canonical field extraction: the fixed keys that every record is asked for.

use crate::json::{json_parse, opt_json, parse_json, Json, JsonValue};
use crate::keys::opt_text;
use crate::model::{Fields, Timestamp};
use crate::number::{i64_of, parse_i64};
use crate::text::{chars_of, push_char};
use vstd::prelude::*;

verus! {

/// What parsing a text as `chrono::DateTime<chrono::Utc>` gives: the instant
/// it denotes, by `timestamp` and `timestamp_subsec_nanos`, or nothing where
/// the parse fails.
pub uninterp spec fn rfc3339_instant(text: Seq<char>) -> Option<Timestamp>;

/// Whether `chrono::DateTime::from_timestamp` accepts these seconds and
/// nanoseconds.
pub uninterp spec fn timestamp_in_range(secs: i64, nanos: u32) -> bool;

/// `str::parse::<chrono::DateTime<chrono::Utc>>`, which reads a date and time
/// with an offset in the RFC 3339 form and converts it to UTC. The result is
/// a function of the text alone.
#[verifier::external_body]
fn parse_datetime(text: &str) -> (res: Option<Timestamp>)
    ensures
        res == rfc3339_instant(text@),
{
    match text.parse::<chrono::DateTime<chrono::Utc>>() {
        Ok(dt) => Some(Timestamp { secs: dt.timestamp(), nanos: dt.timestamp_subsec_nanos() }),
        Err(_) => None,
    }
}

/// `chrono::DateTime::from_timestamp`, which refuses seconds out of its range
/// and invalid nanoseconds, and otherwise gives the instant that reads back as
/// the same seconds and nanoseconds.
#[verifier::external_body]
fn from_timestamp(secs: i64, nanos: u32) -> (res: Option<Timestamp>)
    ensures
        timestamp_in_range(secs, nanos) ==> res == Some((Timestamp { secs, nanos })),
        !timestamp_in_range(secs, nanos) ==> res is None,
{
    match chrono::DateTime::<chrono::Utc>::from_timestamp(secs, nanos) {
        Some(dt) => Some(Timestamp { secs: dt.timestamp(), nanos: dt.timestamp_subsec_nanos() }),
        None => None,
    }
}

/// The instant of these seconds and nanoseconds, where there is one.
pub open spec fn instant(secs: i64, nanos: u32) -> Option<Timestamp> {
    if timestamp_in_range(secs, nanos) {
        Some(Timestamp { secs, nanos })
    } else {
        None
    }
}

/// Above this an integer timestamp counts milliseconds, up to it seconds.
pub const MILLIS_THRESHOLD: i64 = 10_000_000_000;

/// The seconds and nanoseconds that an integer timestamp counts: above the
/// threshold it counts milliseconds, up to it whole seconds.
pub open spec fn integer_parts(n: i64) -> (i64, u32) {
    if n > MILLIS_THRESHOLD {
        ((n / 1000) as i64, ((n % 1000) * 1_000_000) as u32)
    } else {
        (n, 0)
    }
}

/// The instant that an integer timestamp denotes.
pub open spec fn instant_of_integer(n: i64) -> Option<Timestamp> {
    instant(integer_parts(n).0, integer_parts(n).1)
}

/// The instant that the text of a `time` field denotes: the text read as a
/// date and time; failing that, and where it does not end in `Z`, the text
/// with `Z` appended; failing that, the text read as an integer timestamp.
pub open spec fn timestamp_of_text(raw: Seq<char>) -> Option<Timestamp> {
    if rfc3339_instant(raw) is Some {
        rfc3339_instant(raw)
    } else if !(raw.len() > 0 && raw.last() == 'Z') && rfc3339_instant(raw.push('Z')) is Some {
        rfc3339_instant(raw.push('Z'))
    } else {
        match i64_of(raw) {
            Some(n) => instant_of_integer(n),
            None => None,
        }
    }
}

/// The value of the first entry named `key`.
pub open spec fn first_entry(entries: Seq<(Seq<char>, Json)>, key: Seq<char>) -> Option<Json>
    decreases entries.len(),
{
    if entries.len() == 0 {
        None
    } else if entries[0].0 == key {
        Some(entries[0].1)
    } else {
        first_entry(entries.drop_first(), key)
    }
}

/// The member `key` of an object; any other value has no members.
pub open spec fn member(value: Json, key: Seq<char>) -> Option<Json> {
    match value {
        Json::Object(entries) => first_entry(entries, key),
        _ => None,
    }
}

/// The member `key` where it is a string.
pub open spec fn text_member(value: Json, key: Seq<char>) -> Option<Seq<char>> {
    match member(value, key) {
        Some(Json::Text(s)) => Some(s),
        _ => None,
    }
}

/// The level of a record: `level`, else `LogLevel`.
pub open spec fn level_of(value: Json) -> Option<Seq<char>> {
    if text_member(value, "level"@) is Some {
        text_member(value, "level"@)
    } else {
        text_member(value, "LogLevel"@)
    }
}

/// The instant of a record, from its `time` field.
pub open spec fn timestamp_of(value: Json) -> Option<Timestamp> {
    match text_member(value, "time"@) {
        Some(raw) => timestamp_of_text(raw),
        None => None,
    }
}

/// The canonical fields of a record.
pub open spec fn fields_of(value: Json) -> Fields {
    Fields {
        ts: timestamp_of(value),
        level: level_of(value),
        corr: text_member(value, "correlationId"@),
        name: text_member(value, "name"@),
        msg: text_member(value, "msg"@),
        service: text_member(value, "service"@),
        namespace: text_member(value, "namespace"@),
        trace_id: text_member(value, "traceId"@),
        request_id: text_member(value, "requestId"@),
    }
}

/// The text behind an optional string reference.
pub open spec fn opt_ref_text(o: Option<&String>) -> Option<Seq<char>> {
    match o {
        Some(s) => Some(s@),
        None => None,
    }
}

/// The canonical fields as owned values.
#[derive(Debug, Clone, PartialEq, Eq)]
pub struct Extracted {
    pub ts: Option<Timestamp>,
    pub level: Option<String>,
    pub corr: Option<String>,
    pub name: Option<String>,
    pub msg: Option<String>,
    pub service: Option<String>,
    pub namespace: Option<String>,
    pub trace_id: Option<String>,
    pub request_id: Option<String>,
}

impl View for Extracted {
    type V = Fields;

    open spec fn view(&self) -> Fields {
        Fields {
            ts: self.ts,
            level: opt_text(self.level),
            corr: opt_text(self.corr),
            name: opt_text(self.name),
            msg: opt_text(self.msg),
            service: opt_text(self.service),
            namespace: opt_text(self.namespace),
            trace_id: opt_text(self.trace_id),
            request_id: opt_text(self.request_id),
        }
    }
}

/// An owned copy of an optional string.
pub fn owned(o: Option<&String>) -> (r: Option<String>)
    ensures
        opt_text(r) == opt_ref_text(o),
{
    match o {
        Some(s) => Some(s.clone()),
        None => None,
    }
}

/// The seconds and nanoseconds that an integer timestamp counts.
pub fn split_integer_timestamp(numeric: i64) -> (parts: (i64, u32))
    ensures
        parts == integer_parts(numeric),
{
    if numeric > MILLIS_THRESHOLD {
        let secs = numeric / 1000;
        let ns = (numeric % 1000) * 1_000_000;
        (secs, ns as u32)
    } else {
        (numeric, 0)
    }
}

/// The instant that the text of a `time` field denotes.
pub fn parse_timestamp(raw: &str) -> (ts: Option<Timestamp>)
    ensures
        ts == timestamp_of_text(raw@),
{
    match parse_datetime(raw) {
        Some(t) => {
            return Some(t);
        },
        None => {},
    }
    let chars = chars_of(raw);
    let n = chars.len();
    if !(n > 0 && chars[n - 1] == 'Z') {
        let mut with_z = raw.to_owned();
        push_char(&mut with_z, 'Z');
        match parse_datetime(with_z.as_str()) {
            Some(t) => {
                return Some(t);
            },
            None => {},
        }
    }
    match parse_i64(raw) {
        Some(numeric) => {
            let (secs, nanos) = split_integer_timestamp(numeric);
            from_timestamp(secs, nanos)
        },
        None => None,
    }
}

/// Reads records: parses their text and picks their canonical fields.
#[derive(Debug, Clone, Copy)]
pub struct Extractor;

impl Extractor {
    /// An extractor.
    pub fn new() -> (e: Extractor) {
        Extractor
    }

    /// Parses `slice` as one JSON value.
    pub fn parse_json(&self, slice: &str) -> (res: Option<JsonValue>)
        ensures
            opt_json(res) == json_parse(slice@),
    {
        parse_json(slice)
    }

    /// The member `key` of `obj` where it is a string.
    pub fn pick_str<'a>(&self, obj: &'a JsonValue, key: &str) -> (res: Option<&'a String>)
        ensures
            opt_ref_text(res) == text_member(obj@, key@),
    {
        match obj {
            JsonValue::Object(entries) => {
                let ghost model = obj@->Object_0;
                let wanted = chars_of(key);
                assert(model.skip(0) =~= model);
                let mut i: usize = 0;
                while i < entries.len()
                    invariant
                        i <= entries.len(),
                        wanted@ == key@,
                        obj@ == Json::Object(model),
                        model.len() == entries.len(),
                        forall|k: int|
                            0 <= k < entries.len() ==> model[k] == (
                                (#[trigger] entries@[k]).0@,
                                entries@[k].1@,
                            ),
                        first_entry(model, key@) == first_entry(model.skip(i as int), key@),
                    decreases entries.len() - i,
                {
                    let name = chars_of(entries[i].0.as_str());
                    proof {
                        assert(model.skip(i as int)[0] == model[i as int]);
                        assert(model[i as int] == (entries@[i as int].0@, entries@[i as int].1@));
                        assert(model.skip(i as int).drop_first() =~= model.skip(i + 1));
                    }
                    if crate::text::same_chars(&name, &wanted) {
                        return match &entries[i].1 {
                            JsonValue::Text(s) => Some(s),
                            _ => None,
                        };
                    }
                    i += 1;
                }
                None
            },
            _ => None,
        }
    }

    /// The level of a record: `level`, else `LogLevel`.
    pub fn pick_level<'a>(&self, obj: &'a JsonValue) -> (res: Option<&'a String>)
        ensures
            opt_ref_text(res) == level_of(obj@),
    {
        match self.pick_str(obj, "level") {
            Some(s) => Some(s),
            None => self.pick_str(obj, "LogLevel"),
        }
    }

    /// The instant of a record, from its `time` field.
    pub fn pick_ts(&self, obj: &JsonValue) -> (ts: Option<Timestamp>)
        ensures
            ts == timestamp_of(obj@),
    {
        match self.pick_str(obj, "time") {
            Some(raw) => parse_timestamp(raw.as_str()),
            None => None,
        }
    }

    /// The canonical fields of a record.
    pub fn extract(&self, obj: &JsonValue) -> (res: Extracted)
        ensures
            res@ == fields_of(obj@),
    {
        Extracted {
            ts: self.pick_ts(obj),
            level: owned(self.pick_level(obj)),
            corr: owned(self.pick_str(obj, "correlationId")),
            name: owned(self.pick_str(obj, "name")),
            msg: owned(self.pick_str(obj, "msg")),
            service: owned(self.pick_str(obj, "service")),
            namespace: owned(self.pick_str(obj, "namespace")),
            trace_id: owned(self.pick_str(obj, "traceId")),
            request_id: owned(self.pick_str(obj, "requestId")),
        }
    }
}

} // verus!
