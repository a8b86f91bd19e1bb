//! The catalog's data: files, rows and instants.

use crate::flat::FlatMap;
use crate::keys::{opt_text, texts};
use vstd::prelude::*;

verus! {

/// An instant: whole seconds since the Unix epoch and the nanoseconds
/// within that second. Instants are ordered by seconds, then nanoseconds.
#[derive(Debug, Clone, Copy, PartialEq, Eq, Structural)]
pub struct Timestamp {
    pub secs: i64,
    pub nanos: u32,
}

/// One indexed file: its path and the displayable text of each of its lines.
#[derive(Debug, Clone, PartialEq, Eq)]
pub struct FileEntry {
    pub path: String,
    pub sanitized_lines: Vec<String>,
}

/// One logical log record: the lines `line_start..=line_end` of the file
/// `file_id`, its canonical fields, its flattened form and its source text.
#[derive(Debug, Clone, PartialEq, Eq)]
pub struct Row {
    pub file_id: usize,
    pub line_start: usize,
    pub line_end: usize,
    pub ts: Option<Timestamp>,
    pub level: Option<String>,
    pub corr: Option<String>,
    pub name: Option<String>,
    pub msg: Option<String>,
    pub service: Option<String>,
    pub namespace: Option<String>,
    pub trace_id: Option<String>,
    pub request_id: Option<String>,
    pub flat: FlatMap,
    pub raw_json: String,
}

/// The canonical fields of a record.
pub ghost struct Fields {
    pub ts: Option<Timestamp>,
    pub level: Option<Seq<char>>,
    pub corr: Option<Seq<char>>,
    pub name: Option<Seq<char>>,
    pub msg: Option<Seq<char>>,
    pub service: Option<Seq<char>>,
    pub namespace: Option<Seq<char>>,
    pub trace_id: Option<Seq<char>>,
    pub request_id: Option<Seq<char>>,
}

/// The mathematical form of a row.
pub ghost struct RowModel {
    pub file_id: int,
    pub line_start: int,
    pub line_end: int,
    pub fields: Fields,
    pub flat: Map<Seq<char>, Seq<char>>,
    pub raw: Seq<char>,
}

impl Row {
    /// The canonical fields of this row.
    pub open spec fn fields(&self) -> Fields {
        Fields {
            ts: self.ts,
            level: opt_text(self.level),
            corr: opt_text(self.corr),
            name: opt_text(self.name),
            msg: opt_text(self.msg),
            service: opt_text(self.service),
            namespace: opt_text(self.namespace),
            trace_id: opt_text(self.trace_id),
            request_id: opt_text(self.request_id),
        }
    }

    /// The flattened form is a strictly increasing list of keys with their values.
    pub open spec fn wf(&self) -> bool {
        self.flat.wf()
    }
}

impl View for Row {
    type V = RowModel;

    open spec fn view(&self) -> RowModel {
        RowModel {
            file_id: self.file_id as int,
            line_start: self.line_start as int,
            line_end: self.line_end as int,
            fields: self.fields(),
            flat: self.flat@,
            raw: self.raw_json@,
        }
    }
}

/// The mathematical forms of a sequence of rows.
pub open spec fn row_models(rows: Seq<Row>) -> Seq<RowModel> {
    Seq::new(rows.len(), |i: int| rows[i]@)
}

impl FileEntry {
    /// The texts of the file's lines.
    pub open spec fn lines(&self) -> Seq<Seq<char>> {
        texts(self.sanitized_lines@)
    }
}

} // verus!
