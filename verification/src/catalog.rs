//! The catalog: the indexed files, their rows, and the names of the dynamic
//! columns that the rows use.

use crate::extract::Extractor;
use crate::keys::texts;
use crate::model::{row_models, FileEntry, Row, RowModel};
use crate::order::{catalog_order, in_order, sort_rows};
use crate::record::{add_columns, column_set, lemma_column_set_push, parse_rows, rows_of};
use crate::sanitize::{sanitize_buffer, sanitized_lines};
use crate::scan::lines_fit;
use crate::text::{same_text, strictly_sorted};
use vstd::prelude::*;

verus! {

/// The files, the rows and the dynamic column names of one project tree.
#[derive(Debug, Clone, PartialEq, Eq)]
pub struct Catalog {
    pub files: Vec<FileEntry>,
    pub rows: Vec<Row>,
    pub columns: Vec<String>,
}

/// The row names a file of `files` and a span of lines inside it.
pub open spec fn row_in_bounds(row: Row, files: Seq<FileEntry>) -> bool {
    &&& row.file_id < files.len()
    &&& row.line_start <= row.line_end
    &&& row.line_end < files[row.file_id as int].sanitized_lines@.len()
}

/// `row` with the id that its file has once the file `index` is gone.
pub open spec fn renumbered(row: Row, index: int) -> Row {
    if row.file_id > index {
        Row { file_id: (row.file_id - 1) as usize, ..row }
    } else {
        row
    }
}

/// Drops the rows of the file `index` and renumbers those of later files.
pub open spec fn without_file(index: int) -> spec_fn(Row) -> Option<Row> {
    |row: Row|
        if row.file_id == index {
            None
        } else {
            Some(renumbered(row, index))
        }
}

/// Drops the rows of the file `index`.
pub open spec fn outside_file(index: int) -> spec_fn(Row) -> Option<Row> {
    |row: Row|
        if row.file_id == index {
            None
        } else {
            Some(row)
        }
}

/// The index of the first file with this path at or after `from`.
pub open spec fn file_index_from(files: Seq<FileEntry>, path: Seq<char>, from: int) -> Option<int>
    decreases files.len() - from,
{
    if from >= files.len() {
        None
    } else if files[from].path@ == path {
        Some(from)
    } else {
        file_index_from(files, path, from + 1)
    }
}

/// The index of the first file with this path.
pub open spec fn file_index(files: Seq<FileEntry>, path: Seq<char>) -> Option<int> {
    file_index_from(files, path, 0)
}

/// What `file_index` finds is a file with the path, and the first one.
pub proof fn lemma_file_index(files: Seq<FileEntry>, path: Seq<char>, from: int)
    requires
        0 <= from,
    ensures
        match file_index_from(files, path, from) {
            Some(i) => from <= i < files.len() && files[i].path@ == path && forall|j: int|
                from <= j < i ==> (#[trigger] files[j]).path@ != path,
            None => forall|j: int| from <= j < files.len() ==> (#[trigger] files[j]).path@ != path,
        },
    decreases files.len() - from,
{
    if from < files.len() && files[from].path@ != path {
        lemma_file_index(files, path, from + 1);
    }
}

/// The path and line texts of each file.
pub open spec fn file_models(files: Seq<FileEntry>) -> Seq<(Seq<char>, Seq<Seq<char>>)> {
    Seq::new(files.len(), |i: int| (files[i].path@, files[i].lines()))
}

/// The mathematical form of a catalog: the path and lines of each file, and
/// the rows.
pub ghost struct CatalogModel {
    pub files: Seq<(Seq<char>, Seq<Seq<char>>)>,
    pub rows: Seq<RowModel>,
}

/// The index of the first file with this path at or after `from`.
pub open spec fn path_index_from(files: Seq<(Seq<char>, Seq<Seq<char>>)>, path: Seq<char>, from: int) -> Option<int>
    decreases files.len() - from,
{
    if from >= files.len() {
        None
    } else if files[from].0 == path {
        Some(from)
    } else {
        path_index_from(files, path, from + 1)
    }
}

/// The index of the first file with this path.
pub open spec fn path_index(files: Seq<(Seq<char>, Seq<Seq<char>>)>, path: Seq<char>) -> Option<int> {
    path_index_from(files, path, 0)
}

/// `row` with the id that its file has once the file `index` is gone.
pub open spec fn moved_down(row: RowModel, index: int) -> RowModel {
    if row.file_id > index {
        RowModel { file_id: row.file_id - 1, ..row }
    } else {
        row
    }
}

/// Drops the rows of the file `index`; with `renumber` the rows of later
/// files get the id that their file has once that file is gone.
pub open spec fn dropping(index: int, renumber: bool) -> spec_fn(RowModel) -> Option<RowModel> {
    |row: RowModel|
        if row.file_id == index {
            None
        } else if renumber {
            Some(moved_down(row, index))
        } else {
            Some(row)
        }
}

/// The catalog without the file at `path`: the file and its rows are gone
/// and the ids of later files are lowered by one. An unknown path changes nothing.
pub open spec fn after_removal(m: CatalogModel, path: Seq<char>) -> CatalogModel {
    match path_index(m.files, path) {
        Some(i) => CatalogModel { files: m.files.remove(i), rows: m.rows.filter_map(dropping(i, true)) },
        None => m,
    }
}

/// The catalog after the file at `path` was read anew and found to hold
/// `lines`. A known file with the same lines changes nothing; a known file
/// with other lines gets them and new rows in place of its old ones; an
/// unknown path becomes a new file behind the others.
pub open spec fn after_refresh(m: CatalogModel, path: Seq<char>, lines: Seq<Seq<char>>) -> CatalogModel {
    match path_index(m.files, path) {
        Some(i) => if m.files[i].1 == lines {
            m
        } else {
            CatalogModel {
                files: m.files.update(i, (path, lines)),
                rows: m.rows.filter_map(dropping(i, false)) + rows_of(lines, i),
            }
        },
        None => CatalogModel {
            files: m.files.push((path, lines)),
            rows: m.rows + rows_of(lines, m.files.len() as int),
        },
    }
}

/// Whether reading the file at `path` anew changes the catalog.
pub open spec fn refresh_changes(m: CatalogModel, path: Seq<char>, lines: Seq<Seq<char>>) -> bool {
    match path_index(m.files, path) {
        Some(i) => m.files[i].1 != lines,
        None => true,
    }
}

/// Reading a known file anew and finding the lines that the catalog holds
/// changes no file and no row.
pub proof fn lemma_unchanged_file_is_left_alone(m: CatalogModel, path: Seq<char>, i: int)
    requires
        path_index(m.files, path) == Some(i),
    ensures
        after_refresh(m, path, m.files[i].1) == m,
        !refresh_changes(m, path, m.files[i].1),
{
}

/// Finding a file by path gives the same index in a catalog and in its model.
pub proof fn lemma_path_index(files: Seq<FileEntry>, path: Seq<char>, from: int)
    requires
        0 <= from,
    ensures
        path_index_from(file_models(files), path, from) == file_index_from(files, path, from),
    decreases files.len() - from,
{
    if from < files.len() {
        assert(file_models(files)[from] == (files[from].path@, files[from].lines()));
        if files[from].path@ != path {
            lemma_path_index(files, path, from + 1);
        }
    }
}

/// Dropping a file's rows from a catalog drops them from its model.
pub proof fn lemma_dropping_models(rows: Seq<Row>, index: int, renumber: bool)
    requires
        0 <= index,
    ensures
        renumber ==> row_models(rows.filter_map(without_file(index))) == row_models(rows).filter_map(
            dropping(index, true),
        ),
        !renumber ==> row_models(rows.filter_map(outside_file(index))) == row_models(rows).filter_map(
            dropping(index, false),
        ),
    decreases rows.len(),
{
    let models = row_models(rows);
    if rows.len() == 0 {
        assert(rows.filter_map(without_file(index)) =~= Seq::<Row>::empty());
        assert(rows.filter_map(outside_file(index)) =~= Seq::<Row>::empty());
        assert(row_models(Seq::<Row>::empty()) =~= Seq::<RowModel>::empty());
        assert(models.filter_map(dropping(index, true)) =~= Seq::<RowModel>::empty());
        assert(models.filter_map(dropping(index, false)) =~= Seq::<RowModel>::empty());
    } else {
        let rest = rows.drop_last();
        let last = rows.last();
        lemma_dropping_models(rest, index, renumber);
        assert(models.drop_last() =~= row_models(rest));
        assert(models.last() == last@);
        if renumber {
            let kept = rest.filter_map(without_file(index));
            if last.file_id != index {
                assert(row_models(kept + seq![renumbered(last, index)]) =~= row_models(kept) + seq![
                    moved_down(last@, index),
                ]);
            }
        } else {
            let kept = rest.filter_map(outside_file(index));
            if last.file_id != index {
                assert(row_models(kept + seq![last]) =~= row_models(kept) + seq![last@]);
            }
        }
    }
}

impl Catalog {
    /// The mathematical form of the catalog.
    pub open spec fn model(&self) -> CatalogModel {
        CatalogModel { files: file_models(self.files@), rows: row_models(self.rows@) }
    }

    /// Every row names a file of the catalog and a span of lines inside it,
    /// and holds a well-formed flattened form.
    pub open spec fn consistent(&self) -> bool {
        forall|i: int|
            0 <= i < self.rows@.len() ==> row_in_bounds(#[trigger] self.rows@[i], self.files@)
                && self.rows@[i].wf()
    }

    /// `columns` lists, in increasing order, exactly the keys that the rows use.
    pub open spec fn columns_current(&self) -> bool {
        strictly_sorted(texts(self.columns@)) && texts(self.columns@).to_set() == column_set(self.rows@)
    }

    /// The catalog's invariant.
    pub open spec fn wf(&self) -> bool {
        self.consistent() && self.columns_current()
    }

    /// The empty catalog.
    pub fn new() -> (catalog: Catalog)
        ensures
            catalog.wf(),
            catalog.files@.len() == 0,
            catalog.rows@.len() == 0,
            catalog.columns@.len() == 0,
    {
        let catalog = Catalog { files: Vec::new(), rows: Vec::new(), columns: Vec::new() };
        assert(texts(catalog.columns@).to_set() =~= column_set(catalog.rows@));
        catalog
    }

    /// The index of the file with this path.
    pub fn find_file(&self, path: &str) -> (res: Option<usize>)
        ensures
            match res {
                Some(i) => file_index(self.files@, path@) == Some(i as int),
                None => file_index(self.files@, path@) is None,
            },
    {
        let mut i: usize = 0;
        while i < self.files.len()
            invariant
                i <= self.files.len(),
                file_index(self.files@, path@) == file_index_from(self.files@, path@, i as int),
            decreases self.files.len() - i,
        {
            if same_text(self.files[i].path.as_str(), path) {
                return Some(i);
            }
            i += 1;
        }
        None
    }

    /// Removes the file `index` with all its rows, and lowers by one the
    /// file id of every row of a later file, so that ids stay dense.
    pub fn remove_file(&mut self, index: usize)
        requires
            index < old(self).files@.len(),
            old(self).consistent(),
        ensures
            final(self).files@ == old(self).files@.remove(index as int),
            final(self).rows@ == old(self).rows@.filter_map(without_file(index as int)),
            final(self).columns == old(self).columns,
            final(self).consistent(),
            final(self).model().files == old(self).model().files.remove(index as int),
            final(self).model().rows == old(self).model().rows.filter_map(dropping(index as int, true)),
    {
        let ghost files0 = self.files@;
        proof {
            lemma_dropping_models(self.rows@, index as int, true);
        }
        self.files.remove(index);
        let mut taken: Vec<Row> = Vec::new();
        core::mem::swap(&mut self.rows, &mut taken);
        let kept = drop_file_rows(taken, index, true);
        proof {
            let f = without_file(index as int);
            assert forall|i: int| 0 <= i < kept@.len() implies row_in_bounds(
                #[trigger] kept@[i],
                self.files@,
            ) && kept@[i].wf() by {
                lemma_filter_map_source(taken@, f, i);
                let j = choose|j: int| 0 <= j < taken@.len() && f(taken@[j]) == Some(kept@[i]);
                assert(row_in_bounds(taken@[j], files0));
            }
            assert(file_models(self.files@) =~= file_models(files0).remove(index as int));
        }
        self.rows = kept;
    }

    /// Removes the file with this path, if the catalog has one.
    pub fn remove_file_by_path(&mut self, path: &str) -> (removed: bool)
        requires
            old(self).consistent(),
        ensures
            final(self).consistent(),
            final(self).columns == old(self).columns,
            match file_index(old(self).files@, path@) {
                Some(i) => removed && final(self).files@ == old(self).files@.remove(i)
                    && final(self).rows@ == old(self).rows@.filter_map(without_file(i)),
                None => !removed && *final(self) == *old(self),
            },
            removed == (path_index(old(self).model().files, path@) is Some),
            final(self).model() == after_removal(old(self).model(), path@),
    {
        proof {
            lemma_file_index(self.files@, path@, 0);
            lemma_path_index(self.files@, path@, 0);
        }
        match self.find_file(path) {
            Some(index) => {
                self.remove_file(index);
                true
            },
            None => false,
        }
    }

    /// Brings `columns` up to date with the rows.
    pub fn recompute_columns(&mut self)
        ensures
            final(self).files == old(self).files,
            final(self).rows == old(self).rows,
            final(self).columns_current(),
    {
        let mut columns: Vec<String> = Vec::new();
        let mut i: usize = 0;
        proof {
            assert(texts(columns@).to_set() =~= column_set(self.rows@.take(0)));
        }
        while i < self.rows.len()
            invariant
                i <= self.rows.len(),
                strictly_sorted(texts(columns@)),
                texts(columns@).to_set() == column_set(self.rows@.take(i as int)),
            decreases self.rows.len() - i,
        {
            add_columns(&mut columns, &self.rows[i].flat);
            proof {
                lemma_column_set_push(self.rows@.take(i as int), self.rows@[i as int]);
                assert(self.rows@.take(i + 1) =~= self.rows@.take(i as int).push(self.rows@[i as int]));
            }
            i += 1;
        }
        proof {
            assert(self.rows@.take(self.rows@.len() as int) =~= self.rows@);
        }
        self.columns = columns;
    }

    /// Puts the rows in catalog order: oldest first, or newest first.
    pub fn sort(&mut self, newest_first: bool)
        ensures
            final(self).files == old(self).files,
            final(self).columns == old(self).columns,
            final(self).rows@ == catalog_order(old(self).rows@, newest_first),
            in_order(final(self).rows@, newest_first),
            final(self).rows@.to_multiset() == old(self).rows@.to_multiset(),
            old(self).consistent() ==> final(self).consistent(),
            old(self).columns_current() ==> final(self).columns_current(),
    {
        let ghost rows0 = self.rows@;
        let mut taken: Vec<Row> = Vec::new();
        core::mem::swap(&mut self.rows, &mut taken);
        let sorted = sort_rows(taken, newest_first);
        self.rows = sorted;
        proof {
            lemma_same_rows(rows0, self.rows@);
            if old(self).consistent() {
                assert forall|i: int| 0 <= i < self.rows@.len() implies row_in_bounds(
                    #[trigger] self.rows@[i],
                    self.files@,
                ) && self.rows@[i].wf() by {
                    assert(rows0.contains(self.rows@[i]));
                }
            }
            if old(self).columns_current() {
                assert(column_set(self.rows@) =~= column_set(rows0)) by {
                    assert forall|k: Seq<char>| column_set(self.rows@).contains(k) <==> column_set(
                        rows0,
                    ).contains(k) by {
                        if column_set(self.rows@).contains(k) {
                            let i = choose|i: int|
                                0 <= i < self.rows@.len() && (#[trigger] self.rows@[i]).flat@.dom().contains(k);
                            assert(rows0.contains(self.rows@[i]));
                        }
                        if column_set(rows0).contains(k) {
                            let i = choose|i: int|
                                0 <= i < rows0.len() && (#[trigger] rows0[i]).flat@.dom().contains(k);
                            assert(self.rows@.contains(rows0[i]));
                        }
                    }
                }
            }
        }
    }

    /// Takes in the lines that the file at `path` was found to hold. A known
    /// file whose lines are what the catalog holds is left alone. Otherwise
    /// the file's lines and rows are replaced, or, for an unknown path, added
    /// as a new file.
    pub fn refresh_lines(&mut self, path: &str, lines: Vec<String>, extractor: &Extractor) -> (changed:
        bool)
        requires
            old(self).consistent(),
        ensures
            final(self).consistent(),
            final(self).columns == old(self).columns,
            changed == refresh_changes(old(self).model(), path@, texts(lines@)),
            !changed ==> *final(self) == *old(self),
            final(self).model() == after_refresh(old(self).model(), path@, texts(lines@)),
            match file_index(old(self).files@, path@) {
                Some(i) => if old(self).files@[i].lines() == texts(lines@) {
                    !changed && *final(self) == *old(self)
                } else {
                    &&& changed
                    &&& file_models(final(self).files@) == file_models(old(self).files@).update(
                        i,
                        (path@, texts(lines@)),
                    )
                    &&& row_models(final(self).rows@) == row_models(
                        old(self).rows@.filter_map(outside_file(i)),
                    ) + rows_of(texts(lines@), i)
                },
                None => {
                    &&& changed
                    &&& file_models(final(self).files@) == file_models(old(self).files@).push(
                        (path@, texts(lines@)),
                    )
                    &&& row_models(final(self).rows@) == row_models(old(self).rows@) + rows_of(
                        texts(lines@),
                        old(self).files@.len() as int,
                    )
                },
            },
    {
        proof {
            lemma_file_index(self.files@, path@, 0);
            lemma_path_index(self.files@, path@, 0);
        }
        let existing = self.find_file(path);
        let file_id = match existing {
            Some(i) => i,
            None => self.files.len(),
        };
        let ghost found = texts(lines@);
        if let Some(idx) = existing {
            if same_lines(&self.files[idx].sanitized_lines, &lines) {
                return false;
            }
        }
        let (rows, _columns) = parse_rows(file_id, &lines, extractor);
        let ghost files0 = self.files@;
        let ghost rows0 = self.rows@;
        proof {
            lemma_dropping_models(rows0, file_id as int, false);
            if existing is Some {
                assert(file_models(files0)[file_id as int] == (
                    files0[file_id as int].path@,
                    files0[file_id as int].lines(),
                ));
            }
        }
        let mut taken: Vec<Row> = Vec::new();
        core::mem::swap(&mut self.rows, &mut taken);
        let mut kept = drop_file_rows(taken, file_id, false);
        match existing {
            Some(idx) => {
                let entry = FileEntry { path: path.to_owned(), sanitized_lines: lines };
                self.files.remove(idx);
                self.files.insert(idx, entry);
                proof {
                    assert(file_models(self.files@) =~= file_models(files0).update(
                        idx as int,
                        (path@, found),
                    ));
                }
            },
            None => {
                let entry = FileEntry { path: path.to_owned(), sanitized_lines: lines };
                self.files.push(entry);
                proof {
                    assert(file_models(self.files@) =~= file_models(files0).push((path@, found)));
                    lemma_filter_map_keeps_all(rows0, file_id as int);
                }
            },
        }
        proof {
            let f = outside_file(file_id as int);
            assert forall|i: int| 0 <= i < kept@.len() implies row_in_bounds(
                #[trigger] kept@[i],
                self.files@,
            ) && kept@[i].wf() by {
                lemma_filter_map_source(rows0, f, i);
                let j = choose|j: int| 0 <= j < rows0.len() && f(rows0[j]) == Some(kept@[i]);
                assert(row_in_bounds(rows0[j], files0));
            }
            assert forall|i: int| 0 <= i < rows@.len() implies row_in_bounds(
                #[trigger] rows@[i],
                self.files@,
            ) by {
                assert(row_models(rows@)[i] == rows@[i]@);
            }
        }
        let ghost kept0 = kept@;
        let mut rows = rows;
        kept.append(&mut rows);
        self.rows = kept;
        proof {
            assert(row_models(self.rows@) =~= row_models(kept0) + rows_of(found, file_id as int));
        }
        true
    }

    /// Reads the content of the file at `path` anew, from a buffer in which
    /// no line is too long. A known file whose lines are what the catalog
    /// holds is left alone. Otherwise the file's lines and rows are
    /// replaced, or, for an unknown path, added as a new file.
    pub fn refresh_file(&mut self, path: &str, bytes: &[u8], extractor: &Extractor) -> (changed: bool)
        requires
            old(self).consistent(),
            lines_fit(bytes@),
        ensures
            final(self).consistent(),
            final(self).columns == old(self).columns,
            changed == refresh_changes(old(self).model(), path@, sanitized_lines(bytes@)),
            !changed ==> *final(self) == *old(self),
            final(self).model() == after_refresh(old(self).model(), path@, sanitized_lines(bytes@)),
            match file_index(old(self).files@, path@) {
                Some(i) => if old(self).files@[i].lines() == sanitized_lines(bytes@) {
                    !changed && *final(self) == *old(self)
                } else {
                    &&& changed
                    &&& file_models(final(self).files@) == file_models(old(self).files@).update(
                        i,
                        (path@, sanitized_lines(bytes@)),
                    )
                    &&& row_models(final(self).rows@) == row_models(
                        old(self).rows@.filter_map(outside_file(i)),
                    ) + rows_of(sanitized_lines(bytes@), i)
                },
                None => {
                    &&& changed
                    &&& file_models(final(self).files@) == file_models(old(self).files@).push(
                        (path@, sanitized_lines(bytes@)),
                    )
                    &&& row_models(final(self).rows@) == row_models(old(self).rows@) + rows_of(
                        sanitized_lines(bytes@),
                        old(self).files@.len() as int,
                    )
                },
            },
    {
        let lines = sanitize_buffer(bytes);
        self.refresh_lines(path, lines, extractor)
    }
}

/// Each element of a filtered and mapped sequence comes from an element of
/// the source.
pub proof fn lemma_filter_map_source(rows: Seq<Row>, f: spec_fn(Row) -> Option<Row>, i: int)
    requires
        0 <= i < rows.filter_map(f).len(),
    ensures
        exists|j: int| 0 <= j < rows.len() && f(#[trigger] rows[j]) == Some(rows.filter_map(f)[i]),
    decreases rows.len(),
{
    if rows.len() > 0 {
        let rest = rows.drop_last();
        let n = rest.filter_map(f).len();
        if i < n {
            lemma_filter_map_source(rest, f, i);
            let j = choose|j: int| 0 <= j < rest.len() && f(#[trigger] rest[j]) == Some(rest.filter_map(f)[i]);
            assert(rows[j] == rest[j]);
        } else {
            assert(f(rows[rows.len() - 1]) == Some(rows.filter_map(f)[i]));
        }
    }
}

/// Dropping the rows of a file that has none keeps every row.
pub proof fn lemma_filter_map_keeps_all(rows: Seq<Row>, index: int)
    requires
        forall|i: int| 0 <= i < rows.len() ==> (#[trigger] rows[i]).file_id != index,
    ensures
        rows.filter_map(outside_file(index)) == rows,
    decreases rows.len(),
{
    if rows.len() > 0 {
        lemma_filter_map_keeps_all(rows.drop_last(), index);
        assert(rows.drop_last() + seq![rows.last()] =~= rows);
    } else {
        assert(rows.filter_map(outside_file(index)) =~= rows);
    }
}

/// Two sequences with the same multiset hold the same elements.
pub proof fn lemma_same_rows(a: Seq<Row>, b: Seq<Row>)
    requires
        a.to_multiset() == b.to_multiset(),
    ensures
        forall|r: Row| a.contains(r) <==> b.contains(r),
{
    assert forall|r: Row| a.contains(r) <==> b.contains(r) by {
        vstd::seq_lib::to_multiset_contains(a, r);
        vstd::seq_lib::to_multiset_contains(b, r);
    }
}

/// The rows that do not belong to the file `index`, in their order; with
/// `renumber` the ids of later files are lowered by one.
pub fn drop_file_rows(rows: Vec<Row>, index: usize, renumber: bool) -> (out: Vec<Row>)
    ensures
        renumber ==> out@ == rows@.filter_map(without_file(index as int)),
        !renumber ==> out@ == rows@.filter_map(outside_file(index as int)),
{
    let ghost all = rows@;
    let mut out: Vec<Row> = Vec::new();
    proof {
        assert(all.take(0).filter_map(without_file(index as int)) =~= Seq::<Row>::empty());
        assert(all.take(0).filter_map(outside_file(index as int)) =~= Seq::<Row>::empty());
    }
    for row in it: rows
        invariant
            it.seq() == all,
            renumber ==> out@ == all.take(it.index() as int).filter_map(without_file(index as int)),
            !renumber ==> out@ == all.take(it.index() as int).filter_map(outside_file(index as int)),
    {
        proof {
            all.lemma_filter_map_take_succ(without_file(index as int), it.index() as int);
            all.lemma_filter_map_take_succ(outside_file(index as int), it.index() as int);
        }
        if row.file_id != index {
            let mut row = row;
            if renumber && row.file_id > index {
                row.file_id = row.file_id - 1;
            }
            out.push(row);
        }
    }
    proof {
        assert(all.take(all.len() as int) =~= all);
    }
    out
}

/// Whether two vectors hold the same lines.
pub fn same_lines(a: &Vec<String>, b: &Vec<String>) -> (r: bool)
    ensures
        r == (texts(a@) == texts(b@)),
{
    if a.len() != b.len() {
        assert(texts(a@).len() != texts(b@).len());
        return false;
    }
    let mut i: usize = 0;
    while i < a.len()
        invariant
            i <= a.len() == b.len(),
            forall|k: int| 0 <= k < i ==> a@[k]@ == b@[k]@,
        decreases a.len() - i,
    {
        if !same_text(a[i].as_str(), b[i].as_str()) {
            assert(texts(a@)[i as int] != texts(b@)[i as int]);
            return false;
        }
        i += 1;
    }
    assert(texts(a@) =~= texts(b@));
    true
}

} // verus!
