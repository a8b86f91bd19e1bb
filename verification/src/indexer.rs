//! Indexing: what is made of one file's bytes, which files are eligible, and
//! how the results for many files become one catalog.

use crate::catalog::{row_in_bounds, Catalog};
use crate::extract::Extractor;
use crate::keys::{insert_all, texts};
use crate::model::{row_models, FileEntry, Row};
use crate::order::{catalog_order, in_order};
use crate::record::{column_set, parse_rows, rows_of, spans_in_order};
use crate::sanitize::{plain_lines_decoded, sanitize_buffer, sanitized_lines, try_sanitize_buffer};
use crate::scan::{line_headers, lines_fit};
use crate::text::{
    chars_of, lemma_lt_asymmetric, lemma_lt_total, lemma_lt_transitive, less_by_rank, matches_at,
    occurs_at, path_lt, same_text, strictly_sorted,
};
use vstd::prelude::*;

verus! {

/// What indexing makes of one file: the text of its lines, its rows, and
/// the keys that the rows use.
#[derive(Debug, Clone, PartialEq, Eq)]
pub struct ParsedFile {
    pub path: String,
    pub sanitized_lines: Vec<String>,
    pub rows: Vec<Row>,
    pub columns: Vec<String>,
}

impl ParsedFile {
    /// The rows lie within the lines, hold well-formed flattened forms, and
    /// `columns` lists their keys in increasing order.
    pub open spec fn wf(&self) -> bool {
        &&& forall|i: int|
            0 <= i < self.rows@.len() ==> (#[trigger] self.rows@[i]).line_start <= self.rows@[i].line_end
                && self.rows@[i].line_end < self.sanitized_lines@.len() && self.rows@[i].wf()
        &&& strictly_sorted(texts(self.columns@))
        &&& texts(self.columns@).to_set() == column_set(self.rows@)
    }

    /// The result for a file that could not be read: no lines and no rows.
    pub fn empty(path: String) -> (file: ParsedFile)
        ensures
            file.path == path,
            file.sanitized_lines@.len() == 0,
            file.rows@.len() == 0,
            file.columns@.len() == 0,
            file.wf(),
    {
        let file = ParsedFile { path, sanitized_lines: Vec::new(), rows: Vec::new(), columns: Vec::new() };
        assert(texts(file.columns@).to_set() =~= column_set(file.rows@));
        file
    }
}

/// What indexing makes of a file with these lines: its rows and the keys
/// that they use.
fn file_of_lines(file_id: usize, path: &str, lines: Vec<String>, extractor: &Extractor) -> (file:
    ParsedFile)
    ensures
        file.path@ == path@,
        file.sanitized_lines == lines,
        row_models(file.rows@) == rows_of(texts(lines@), file_id as int),
        spans_in_order(row_models(file.rows@), 0, lines@.len() as int),
        forall|i: int| 0 <= i < file.rows@.len() ==> (#[trigger] file.rows@[i]).file_id == file_id,
        file.wf(),
{
    let (rows, columns) = parse_rows(file_id, &lines, extractor);
    proof {
        assert forall|i: int| 0 <= i < rows@.len() implies (#[trigger] rows@[i]).line_start
            <= rows@[i].line_end && rows@[i].line_end < lines@.len() by {
            assert(row_models(rows@)[i] == rows@[i]@);
        }
    }
    ParsedFile { path: path.to_owned(), sanitized_lines: lines, rows, columns }
}

/// Indexes one file in which no line is too long: finds its lines, makes
/// them displayable, and groups them into records.
pub fn index_single_file(file_id: usize, path: &str, bytes: &[u8], extractor: &Extractor) -> (file:
    ParsedFile)
    requires
        lines_fit(bytes@),
    ensures
        file.path@ == path@,
        texts(file.sanitized_lines@) == sanitized_lines(bytes@),
        plain_lines_decoded(bytes@, line_headers(bytes@), texts(file.sanitized_lines@)),
        row_models(file.rows@) == rows_of(sanitized_lines(bytes@), file_id as int),
        spans_in_order(row_models(file.rows@), 0, file.sanitized_lines@.len() as int),
        forall|i: int| 0 <= i < file.rows@.len() ==> (#[trigger] file.rows@[i]).file_id == file_id,
        file.wf(),
{
    let lines = sanitize_buffer(bytes);
    file_of_lines(file_id, path, lines, extractor)
}

/// The bytes of a file that can be indexed: those that were read and hold
/// no line that is longer than a header can say.
pub open spec fn indexable(bytes: Option<Seq<u8>>) -> Option<Seq<u8>> {
    match bytes {
        Some(b) => if lines_fit(b) {
            Some(b)
        } else {
            None
        },
        None => None,
    }
}

/// Indexes one file from what was read of it. A file that could not be
/// read, or that holds a line too long to index, gives no lines and no rows.
pub fn index_file_or_empty(file_id: usize, path: &str, bytes: Option<&[u8]>, extractor: &Extractor) -> (file:
    ParsedFile)
    ensures
        file.path@ == path@,
        file.wf(),
        match indexable(opt_slice(bytes)) {
            Some(b) => {
                &&& texts(file.sanitized_lines@) == sanitized_lines(b)
                &&& plain_lines_decoded(b, line_headers(b), texts(file.sanitized_lines@))
                &&& row_models(file.rows@) == rows_of(sanitized_lines(b), file_id as int)
                &&& spans_in_order(row_models(file.rows@), 0, file.sanitized_lines@.len() as int)
                &&& forall|i: int|
                    0 <= i < file.rows@.len() ==> (#[trigger] file.rows@[i]).file_id == file_id
            },
            None => file.sanitized_lines@.len() == 0 && file.rows@.len() == 0,
        },
{
    let lines = match bytes {
        Some(b) => try_sanitize_buffer(b),
        None => None,
    };
    match lines {
        Some(lines) => file_of_lines(file_id, path, lines, extractor),
        None => ParsedFile::empty(path.to_owned()),
    }
}

/// The bytes behind an optional slice.
pub open spec fn opt_slice(bytes: Option<&[u8]>) -> Option<Seq<u8>> {
    match bytes {
        Some(b) => Some(b@),
        None => None,
    }
}

/// The name of the directories that hold log files.
pub open spec fn sentinel_name() -> Seq<char> {
    ".smooai-logs"@
}

/// Whether a directory of this name holds log files.
pub fn is_log_dir_name(name: &str) -> (r: bool)
    ensures
        r == (name@ == sentinel_name()),
{
    same_text(name, ".smooai-logs")
}

/// `name` is a non-empty stem, a dot, and `extension`.
pub open spec fn has_extension(name: Seq<char>, extension: Seq<char>) -> bool {
    name.len() > extension.len() + 1 && name[name.len() - extension.len() - 1] == '.' && occurs_at(
        name,
        extension,
        name.len() - extension.len(),
    )
}

/// A file of this name is indexed: its extension is `ansi`, `log`, `json`
/// or `jsonl`.
pub open spec fn is_log_file_name(name: Seq<char>) -> bool {
    has_extension(name, "ansi"@) || has_extension(name, "log"@) || has_extension(name, "json"@)
        || has_extension(name, "jsonl"@)
}

/// Whether `name` is a non-empty stem, a dot, and `extension`.
fn ends_with_extension(name: &Vec<char>, extension: &str) -> (r: bool)
    ensures
        r == has_extension(name@, extension@),
{
    let ext = chars_of(extension);
    let n = name.len();
    let e = ext.len();
    if e >= n || n - e < 2 {
        return false;
    }
    name[n - e - 1] == '.' && matches_at(name, &ext, n - e)
}

/// Whether a file of this name is indexed.
pub fn has_log_extension(name: &str) -> (r: bool)
    ensures
        r == is_log_file_name(name@),
{
    let chars = chars_of(name);
    ends_with_extension(&chars, "ansi") || ends_with_extension(&chars, "log") || ends_with_extension(
        &chars,
        "json",
    ) || ends_with_extension(&chars, "jsonl")
}

/// The paths of the files are in path order; equal paths may stand side by side.
pub open spec fn ordered_by_path(files: Seq<ParsedFile>) -> bool {
    forall|i: int, j: int| 0 <= i < j < files.len() ==> !path_lt(files[j].path@, files[i].path@)
}

/// Where `path` goes among files in path order: behind every file whose
/// path is not above it.
fn slot_by_path(files: &Vec<ParsedFile>, path: &Vec<char>) -> (p: usize)
    requires
        ordered_by_path(files@),
    ensures
        p <= files.len(),
        forall|k: int| 0 <= k < p ==> !path_lt(path@, (#[trigger] files@[k]).path@),
        forall|k: int| p <= k < files.len() ==> path_lt(path@, (#[trigger] files@[k]).path@),
{
    let mut lo: usize = 0;
    let mut hi: usize = files.len();
    while lo < hi
        invariant
            lo <= hi <= files.len(),
            ordered_by_path(files@),
            forall|k: int| 0 <= k < lo ==> !path_lt(path@, (#[trigger] files@[k]).path@),
            forall|k: int| hi <= k < files.len() ==> path_lt(path@, (#[trigger] files@[k]).path@),
        decreases hi - lo,
    {
        let mid = lo + (hi - lo) / 2;
        let probe = chars_of(files[mid].path.as_str());
        if less_by_rank(path, &probe, true) {
            proof {
                assert forall|k: int| mid <= k < files.len() implies path_lt(
                    path@,
                    (#[trigger] files@[k]).path@,
                ) by {
                    if mid < k {
                        assert(!path_lt(files@[k].path@, files@[mid as int].path@));
                        lemma_lt_total(files@[mid as int].path@, files@[k].path@, true);
                        if files@[mid as int].path@ != files@[k].path@ {
                            lemma_lt_transitive(path@, files@[mid as int].path@, files@[k].path@, true);
                        }
                    }
                }
            }
            hi = mid;
        } else {
            proof {
                assert forall|k: int| 0 <= k < mid + 1 implies !path_lt(
                    path@,
                    (#[trigger] files@[k]).path@,
                ) by {
                    if k < mid && path_lt(path@, files@[k].path@) {
                        assert(!path_lt(files@[mid as int].path@, files@[k].path@));
                        lemma_lt_total(files@[k].path@, files@[mid as int].path@, true);
                        if files@[k].path@ != files@[mid as int].path@ {
                            lemma_lt_transitive(path@, files@[k].path@, files@[mid as int].path@, true);
                        }
                    }
                }
            }
            lo = mid + 1;
        }
    }
    lo
}

/// Files in path order with one more file, which goes behind every file
/// whose path is not above its own.
pub open spec fn placed_by_path(sorted: Seq<ParsedFile>, file: ParsedFile) -> Seq<ParsedFile>
    decreases sorted.len(),
{
    if sorted.len() > 0 && path_lt(file.path@, sorted.last().path@) {
        placed_by_path(sorted.drop_last(), file).push(sorted.last())
    } else {
        sorted.push(file)
    }
}

/// The files in path order. Files with the same path keep the order in
/// which they stood.
pub open spec fn arranged_by_path(files: Seq<ParsedFile>) -> Seq<ParsedFile>
    decreases files.len(),
{
    if files.len() == 0 {
        files
    } else {
        placed_by_path(arranged_by_path(files.drop_last()), files.last())
    }
}

/// The paths of the file entries are in path order; equal paths may stand
/// side by side.
pub open spec fn in_path_order(files: Seq<FileEntry>) -> bool {
    forall|i: int, j: int| 0 <= i < j < files.len() ==> !path_lt(files[j].path@, files[i].path@)
}

/// Placing a file among files in path order leaves them in path order.
pub proof fn lemma_placed_is_ordered(sorted: Seq<ParsedFile>, file: ParsedFile)
    requires
        ordered_by_path(sorted),
    ensures
        ordered_by_path(placed_by_path(sorted, file)),
        placed_by_path(sorted, file).len() == sorted.len() + 1,
        forall|k: int|
            0 <= k < sorted.len() + 1 ==> (#[trigger] placed_by_path(sorted, file)[k]) == file
                || sorted.contains(placed_by_path(sorted, file)[k]),
    decreases sorted.len(),
{
    let out = placed_by_path(sorted, file);
    if sorted.len() > 0 && path_lt(file.path@, sorted.last().path@) {
        let rest = sorted.drop_last();
        let last = sorted.last();
        assert forall|i: int, j: int| 0 <= i < j < rest.len() implies !path_lt(
            rest[j].path@,
            rest[i].path@,
        ) by {
            assert(!path_lt(sorted[j].path@, sorted[i].path@));
        }
        lemma_placed_is_ordered(rest, file);
        let inner = placed_by_path(rest, file);
        assert(out == inner.push(last));
        assert forall|k: int| 0 <= k < sorted.len() + 1 implies (#[trigger] out[k]) == file
            || sorted.contains(out[k]) by {
            if k < inner.len() {
                assert(out[k] == inner[k]);
                if inner[k] != file {
                    let m = choose|m: int| 0 <= m < rest.len() && rest[m] == inner[k];
                    assert(sorted[m] == inner[k]);
                }
            } else {
                assert(sorted[sorted.len() - 1] == out[k]);
            }
        }
        assert forall|i: int, j: int| 0 <= i < j < out.len() implies !path_lt(
            out[j].path@,
            out[i].path@,
        ) by {
            if j < inner.len() {
                assert(!path_lt(inner[j].path@, inner[i].path@));
            } else {
                assert(out[i] == inner[i]);
                if inner[i] == file {
                    lemma_lt_asymmetric(file.path@, last.path@, true);
                } else {
                    let m = choose|m: int| 0 <= m < rest.len() && rest[m] == inner[i];
                    assert(!path_lt(sorted[sorted.len() - 1].path@, sorted[m].path@));
                }
            }
        }
    } else {
        assert forall|k: int| 0 <= k < sorted.len() + 1 implies (#[trigger] out[k]) == file
            || sorted.contains(out[k]) by {
            if k < sorted.len() {
                assert(sorted[k] == out[k]);
            }
        }
        assert forall|i: int, j: int| 0 <= i < j < out.len() implies !path_lt(
            out[j].path@,
            out[i].path@,
        ) by {
            if j < sorted.len() {
                assert(!path_lt(sorted[j].path@, sorted[i].path@));
            } else {
                assert(out[i] == sorted[i]);
                if sorted.len() > 0 {
                    let last = sorted[sorted.len() - 1];
                    assert(!path_lt(file.path@, last.path@));
                    if i < sorted.len() - 1 {
                        assert(!path_lt(last.path@, sorted[i].path@));
                    }
                    if path_lt(file.path@, sorted[i].path@) {
                        lemma_lt_total(sorted[i].path@, last.path@, true);
                        if sorted[i].path@ != last.path@ {
                            lemma_lt_transitive(file.path@, sorted[i].path@, last.path@, true);
                        }
                    }
                }
            }
        }
    }
}

/// Files arranged by path are in path order.
pub proof fn lemma_arranged_is_ordered(files: Seq<ParsedFile>)
    ensures
        ordered_by_path(arranged_by_path(files)),
        arranged_by_path(files).len() == files.len(),
    decreases files.len(),
{
    if files.len() > 0 {
        lemma_arranged_is_ordered(files.drop_last());
        lemma_placed_is_ordered(arranged_by_path(files.drop_last()), files.last());
    }
}

/// Placing a file is inserting it at its slot.
proof fn lemma_placed_at_slot(sorted: Seq<ParsedFile>, file: ParsedFile, p: int)
    requires
        0 <= p <= sorted.len(),
        forall|k: int| 0 <= k < p ==> !path_lt(file.path@, (#[trigger] sorted[k]).path@),
        forall|k: int| p <= k < sorted.len() ==> path_lt(file.path@, (#[trigger] sorted[k]).path@),
    ensures
        placed_by_path(sorted, file) == sorted.insert(p, file),
    decreases sorted.len(),
{
    if sorted.len() > p {
        let rest = sorted.drop_last();
        assert(path_lt(file.path@, sorted[sorted.len() - 1].path@));
        assert forall|k: int| 0 <= k < p implies !path_lt(file.path@, (#[trigger] rest[k]).path@) by {
            assert(rest[k] == sorted[k]);
        }
        assert forall|k: int| p <= k < rest.len() implies path_lt(
            file.path@,
            (#[trigger] rest[k]).path@,
        ) by {
            assert(rest[k] == sorted[k]);
        }
        lemma_placed_at_slot(rest, file, p);
        assert(rest.insert(p, file).push(sorted.last()) =~= sorted.insert(p, file));
    } else {
        if sorted.len() > 0 {
            assert(!path_lt(file.path@, sorted[sorted.len() - 1].path@));
        }
        assert(sorted.push(file) =~= sorted.insert(p, file));
    }
}

/// The same files in path order.
pub fn sort_by_path(files: Vec<ParsedFile>) -> (out: Vec<ParsedFile>)
    ensures
        out@ == arranged_by_path(files@),
        ordered_by_path(out@),
        out@.to_multiset() == files@.to_multiset(),
{
    let ghost all = files@;
    let mut out: Vec<ParsedFile> = Vec::new();
    proof {
        assert(all.take(0) =~= Seq::<ParsedFile>::empty());
        lemma_same_multiset_of_empty(out@, all.take(0));
        assert(out@ =~= arranged_by_path(all.take(0)));
    }
    for file in it: files
        invariant
            it.seq() == all,
            out@ == arranged_by_path(all.take(it.index() as int)),
            ordered_by_path(out@),
            out@.to_multiset() == all.take(it.index() as int).to_multiset(),
    {
        let path = chars_of(file.path.as_str());
        let p = slot_by_path(&out, &path);
        let ghost before = out@;
        out.insert(p, file);
        proof {
            lemma_placed_at_slot(before, file, p as int);
            assert(all.take(it.index() + 1).drop_last() =~= all.take(it.index() as int));
            assert(all.take(it.index() + 1).last() == file);
            assert forall|i: int, j: int| 0 <= i < j < out@.len() implies !path_lt(
                out@[j].path@,
                out@[i].path@,
            ) by {
                if j < p {
                    assert(out@[i] == before[i] && out@[j] == before[j]);
                } else if j == p {
                    assert(out@[i] == before[i]);
                } else if i < p {
                    assert(out@[i] == before[i] && out@[j] == before[j - 1]);
                } else if i == p {
                    assert(out@[j] == before[j - 1]);
                    lemma_lt_asymmetric(file.path@, before[j - 1].path@, true);
                } else {
                    assert(out@[i] == before[i - 1] && out@[j] == before[j - 1]);
                }
            }
            vstd::seq_lib::to_multiset_insert(before, p as int, file);
            assert(all.take(it.index() + 1) =~= all.take(it.index() as int).push(file));
            vstd::seq_lib::to_multiset_build(all.take(it.index() as int), file);
        }
    }
    proof {
        assert(all.take(all.len() as int) =~= all);
    }
    out
}

/// Two empty sequences have the same multiset.
proof fn lemma_same_multiset_of_empty(a: Seq<ParsedFile>, b: Seq<ParsedFile>)
    requires
        a.len() == 0,
        b.len() == 0,
    ensures
        a.to_multiset() == b.to_multiset(),
{
    assert(a =~= b);
}

/// `row` as a row of the file `id`.
pub open spec fn with_file_id(id: int) -> spec_fn(Row) -> Row {
    |row: Row| Row { file_id: id as usize, ..row }
}

/// The rows of the first `n` files, each with the position of its file as
/// its file id.
pub open spec fn gathered(files: Seq<ParsedFile>, n: nat) -> Seq<Row>
    decreases n,
{
    if n == 0 || n > files.len() {
        Seq::empty()
    } else {
        gathered(files, (n - 1) as nat) + files[n - 1].rows@.map_values(with_file_id(n - 1))
    }
}

/// The file entries of the files, in order.
pub open spec fn entries_of(files: Seq<ParsedFile>) -> Seq<FileEntry> {
    Seq::new(
        files.len(),
        |i: int| FileEntry { path: files[i].path, sanitized_lines: files[i].sanitized_lines },
    )
}

/// The keys of all rows of two sequences are those of either.
pub proof fn lemma_column_set_add(a: Seq<Row>, b: Seq<Row>)
    ensures
        column_set(a + b) == column_set(a).union(column_set(b)),
{
    let ab = a + b;
    assert forall|k: Seq<char>| column_set(ab).contains(k) <==> column_set(a).union(
        column_set(b),
    ).contains(k) by {
        if column_set(ab).contains(k) {
            let i = choose|i: int| 0 <= i < ab.len() && (#[trigger] ab[i]).flat@.dom().contains(k);
            if i < a.len() {
                assert(a[i].flat@.dom().contains(k));
            } else {
                assert(b[i - a.len()].flat@.dom().contains(k));
            }
        }
        if column_set(a).contains(k) {
            let i = choose|i: int| 0 <= i < a.len() && (#[trigger] a[i]).flat@.dom().contains(k);
            assert(ab[i].flat@.dom().contains(k));
        }
        if column_set(b).contains(k) {
            let i = choose|i: int| 0 <= i < b.len() && (#[trigger] b[i]).flat@.dom().contains(k);
            assert(ab[a.len() + i].flat@.dom().contains(k));
        }
    }
    assert(column_set(ab) =~= column_set(a).union(column_set(b)));
}

/// Giving rows another file id leaves their keys as they are.
pub proof fn lemma_column_set_renumbered(rows: Seq<Row>, id: int)
    ensures
        column_set(rows.map_values(with_file_id(id))) == column_set(rows),
{
    let moved = rows.map_values(with_file_id(id));
    assert forall|k: Seq<char>| column_set(moved).contains(k) <==> column_set(rows).contains(k) by {
        if column_set(moved).contains(k) {
            let i = choose|i: int| 0 <= i < moved.len() && (#[trigger] moved[i]).flat@.dom().contains(k);
            assert(rows[i].flat@.dom().contains(k));
        }
        if column_set(rows).contains(k) {
            let i = choose|i: int| 0 <= i < rows.len() && (#[trigger] rows[i]).flat@.dom().contains(k);
            assert(moved[i].flat@.dom().contains(k));
        }
    }
    assert(column_set(moved) =~= column_set(rows));
}

/// Makes one catalog of files that are in path order: each file gets its
/// position as its id, its rows carry that id, the columns are the keys of
/// all rows, and the rows stand in catalog order.
pub fn assemble(files: Vec<ParsedFile>, newest_first: bool) -> (catalog: Catalog)
    requires
        forall|i: int| 0 <= i < files@.len() ==> (#[trigger] files@[i]).wf(),
    ensures
        catalog.files@ == entries_of(files@),
        ordered_by_path(files@) ==> in_path_order(catalog.files@),
        catalog.rows@ == catalog_order(gathered(files@, files@.len()), newest_first),
        in_order(catalog.rows@, newest_first),
        catalog.wf(),
{
    let ghost all = files@;
    let count = files.len();
    let mut entries: Vec<FileEntry> = Vec::new();
    let mut rows: Vec<Row> = Vec::new();
    let mut columns: Vec<String> = Vec::new();
    let mut id: usize = 0;
    proof {
        assert(texts(columns@).to_set() =~= column_set(rows@));
    }
    for file in it: files
        invariant
            it.seq() == all,
            all.len() == count,
            id == it.index(),
            forall|i: int| 0 <= i < all.len() ==> (#[trigger] all[i]).wf(),
            entries@ == entries_of(all).take(id as int),
            rows@ == gathered(all, id as nat),
            forall|i: int| 0 <= i < rows@.len() ==> row_in_bounds(#[trigger] rows@[i], entries@) && rows@[i].wf(),
            strictly_sorted(texts(columns@)),
            texts(columns@).to_set() == column_set(rows@),
    {
        assert(file == all[id as int]);
        assert(file.wf());
        let ParsedFile { path, sanitized_lines, rows: file_rows, columns: file_columns } = file;
        let ghost rows0 = rows@;
        let ghost entries0 = entries@;
        entries.push(FileEntry { path, sanitized_lines });
        insert_all(&mut columns, &file_columns);
        let ghost source = file_rows@;
        let ghost target = source.map_values(with_file_id(id as int));
        for row in inner: file_rows
            invariant
                inner.seq() == source,
                target == source.map_values(with_file_id(id as int)),
                rows@ == rows0 + target.take(inner.index() as int),
        {
            let mut row = row;
            row.file_id = id;
            rows.push(row);
            assert(rows@ =~= rows0 + target.take(inner.index() + 1));
        }
        proof {
            assert(target.take(source.len() as int) =~= target);
            assert(entries@ =~= entries_of(all).take(id + 1));
            lemma_column_set_add(rows0, target);
            lemma_column_set_renumbered(source, id as int);
            assert forall|i: int| 0 <= i < rows@.len() implies row_in_bounds(
                #[trigger] rows@[i],
                entries@,
            ) && rows@[i].wf() by {
                if i < rows0.len() {
                    assert(rows@[i] == rows0[i]);
                    assert(row_in_bounds(rows0[i], entries0));
                    assert(entries@[rows0[i].file_id as int] == entries0[rows0[i].file_id as int]);
                } else {
                    assert(rows@[i] == target[i - rows0.len()]);
                    assert(source[i - rows0.len()].wf());
                }
            }
        }
        id = id + 1;
    }
    proof {
        assert(entries_of(all).take(all.len() as int) =~= entries_of(all));
    }
    let mut catalog = Catalog { files: entries, rows, columns };
    catalog.sort(newest_first);
    proof {
        if ordered_by_path(all) {
            assert forall|i: int, j: int| 0 <= i < j < catalog.files@.len() implies !path_lt(
                catalog.files@[j].path@,
                catalog.files@[i].path@,
            ) by {
                assert(!path_lt(all[j].path@, all[i].path@));
            }
        }
    }
    catalog
}

/// Makes one catalog of the results for many files: the files go in path
/// order, which decides their ids, and the rows in catalog order.
pub fn build_catalog(files: Vec<ParsedFile>, newest_first: bool) -> (catalog: Catalog)
    requires
        forall|i: int| 0 <= i < files@.len() ==> (#[trigger] files@[i]).wf(),
    ensures
        catalog.files@ == entries_of(arranged_by_path(files@)),
        ordered_by_path(arranged_by_path(files@)),
        in_path_order(catalog.files@),
        catalog.rows@ == catalog_order(
            gathered(arranged_by_path(files@), files@.len()),
            newest_first,
        ),
        in_order(catalog.rows@, newest_first),
        catalog.wf(),
{
    let sorted = sort_by_path(files);
    proof {
        vstd::seq_lib::to_multiset_len(sorted@);
        vstd::seq_lib::to_multiset_len(files@);
        assert forall|i: int| 0 <= i < sorted@.len() implies (#[trigger] sorted@[i]).wf() by {
            vstd::seq_lib::to_multiset_contains(sorted@, sorted@[i]);
            vstd::seq_lib::to_multiset_contains(files@, sorted@[i]);
            assert(sorted@.contains(sorted@[i]));
        }
    }
    assemble(sorted, newest_first)
}

/// What the indexer reports while it works and when it is done.
#[derive(Debug, PartialEq, Eq)]
pub enum IndexEvent {
    Progress { processed: usize, total: usize },
    Finished(Result<Catalog, String>),
}

/// The progress report after `completed` files of `total`: the count never
/// exceeds the total.
pub fn progress_event(completed: usize, total: usize) -> (event: IndexEvent)
    ensures
        event == (IndexEvent::Progress {
            processed: if completed <= total {
                completed
            } else {
                total
            },
            total,
        }),
{
    IndexEvent::Progress { processed: if completed <= total {
        completed
    } else {
        total
    }, total }
}

} // verus!
