//! The choice of extra columns: which dynamic columns are shown beside the
//! base columns, and which are offered.

use crate::columns::{is_resolution, resolve_column_name, unresolved};
use crate::keys::texts;
use crate::text::{
    contains_chars, eq_ignore_case, has_substring, lowered, lowered_chars, same_ignoring_case,
    same_text, trim, trimmed,
};
use vstd::prelude::*;

verus! {

/// The number of base columns.
pub const BASE_COLUMN_COUNT: usize = 9;

/// The most columns that are offered at once.
pub const SUGGESTION_LIMIT: usize = 5;

/// The keys of the base columns, in display order.
pub open spec fn base_keys() -> Seq<Seq<char>> {
    seq![
        "time"@,
        "level"@,
        "name"@,
        "namespace"@,
        "msg"@,
        "error"@,
        "errorDetails"@,
        "correlationId"@,
        "service"@,
    ]
}

/// The headings of the base columns, in display order.
pub open spec fn base_labels() -> Seq<Seq<char>> {
    seq![
        "Timestamp"@,
        "Level"@,
        "Name"@,
        "Namespace"@,
        "Message"@,
        "Error"@,
        "Error Details"@,
        "Correlation ID"@,
        "Service"@,
    ]
}

/// Some element of `names` equals `name` up to ASCII case.
pub open spec fn holds_ignoring_case(names: Seq<Seq<char>>, name: Seq<char>) -> bool {
    exists|i: int| 0 <= i < names.len() && same_ignoring_case(#[trigger] names[i], name)
}

/// `name` is a base column, whatever its ASCII case.
pub open spec fn is_base(name: Seq<char>) -> bool {
    holds_ignoring_case(base_keys(), name)
}

/// The index of the first element at or after `from` that equals `name` up
/// to ASCII case.
pub open spec fn position_ignoring_case(names: Seq<Seq<char>>, name: Seq<char>, from: int) -> Option<int>
    decreases names.len() - from,
{
    if from >= names.len() {
        None
    } else if same_ignoring_case(names[from], name) {
        Some(from)
    } else {
        position_ignoring_case(names, name, from + 1)
    }
}

/// What `position_ignoring_case` finds is the first such element.
pub proof fn lemma_position_ignoring_case(names: Seq<Seq<char>>, name: Seq<char>, from: int)
    requires
        0 <= from,
    ensures
        match position_ignoring_case(names, name, from) {
            Some(i) => from <= i < names.len() && same_ignoring_case(names[i], name),
            None => forall|j: int| from <= j < names.len() ==> !same_ignoring_case(#[trigger] names[j], name),
        },
    decreases names.len() - from,
{
    if from < names.len() && !same_ignoring_case(names[from], name) {
        lemma_position_ignoring_case(names, name, from + 1);
    }
}

/// The heading of a column: that of the base column of this name, or the
/// name itself.
pub open spec fn label_of(key: Seq<char>) -> Seq<char> {
    match position_ignoring_case(base_keys(), key, 0) {
        Some(i) => base_labels()[i],
        None => key,
    }
}

/// The key of the base column `i`.
fn base_key(i: usize) -> (key: &'static str)
    requires
        i < BASE_COLUMN_COUNT,
    ensures
        key@ == base_keys()[i as int],
{
    if i == 0 {
        "time"
    } else if i == 1 {
        "level"
    } else if i == 2 {
        "name"
    } else if i == 3 {
        "namespace"
    } else if i == 4 {
        "msg"
    } else if i == 5 {
        "error"
    } else if i == 6 {
        "errorDetails"
    } else if i == 7 {
        "correlationId"
    } else {
        "service"
    }
}

/// The heading of the base column `i`.
fn base_label(i: usize) -> (label: &'static str)
    requires
        i < BASE_COLUMN_COUNT,
    ensures
        label@ == base_labels()[i as int],
{
    if i == 0 {
        "Timestamp"
    } else if i == 1 {
        "Level"
    } else if i == 2 {
        "Name"
    } else if i == 3 {
        "Namespace"
    } else if i == 4 {
        "Message"
    } else if i == 5 {
        "Error"
    } else if i == 6 {
        "Error Details"
    } else if i == 7 {
        "Correlation ID"
    } else {
        "Service"
    }
}

/// The index of the base column of this name.
fn base_position(name: &str) -> (res: Option<usize>)
    ensures
        match res {
            Some(i) => position_ignoring_case(base_keys(), name@, 0) == Some(i as int) && i
                < BASE_COLUMN_COUNT,
            None => position_ignoring_case(base_keys(), name@, 0) is None,
        },
{
    let mut i: usize = 0;
    while i < BASE_COLUMN_COUNT
        invariant
            i <= BASE_COLUMN_COUNT,
            base_keys().len() == BASE_COLUMN_COUNT,
            position_ignoring_case(base_keys(), name@, 0) == position_ignoring_case(
                base_keys(),
                name@,
                i as int,
            ),
        decreases BASE_COLUMN_COUNT - i,
    {
        if eq_ignore_case(base_key(i), name) {
            return Some(i);
        }
        i += 1;
    }
    None
}

/// Whether `name` is a base column.
pub fn is_base_column(name: &str) -> (r: bool)
    ensures
        r == is_base(name@),
{
    proof {
        lemma_position_ignoring_case(base_keys(), name@, 0);
    }
    base_position(name).is_some()
}

/// The heading of a column.
pub fn header_label_for(key: &str) -> (label: String)
    ensures
        label@ == label_of(key@),
{
    match base_position(key) {
        Some(i) => base_label(i).to_owned(),
        None => key.to_owned(),
    }
}

/// Whether some element of `names` equals `name` up to ASCII case.
pub fn any_ignoring_case(names: &Vec<String>, name: &str) -> (r: bool)
    ensures
        r == holds_ignoring_case(texts(names@), name@),
{
    let mut i: usize = 0;
    while i < names.len()
        invariant
            i <= names.len(),
            forall|j: int| 0 <= j < i ==> !same_ignoring_case(#[trigger] texts(names@)[j], name@),
        decreases names.len() - i,
    {
        assert(texts(names@)[i as int] == names@[i as int]@);
        if eq_ignore_case(names[i].as_str(), name) {
            return true;
        }
        i += 1;
    }
    false
}

/// The index of the first element of `names` that equals `name` up to ASCII case.
pub fn find_ignoring_case(names: &Vec<String>, name: &str) -> (res: Option<usize>)
    ensures
        match res {
            Some(i) => position_ignoring_case(texts(names@), name@, 0) == Some(i as int) && i
                < names@.len(),
            None => position_ignoring_case(texts(names@), name@, 0) is None,
        },
{
    let mut i: usize = 0;
    while i < names.len()
        invariant
            i <= names.len(),
            position_ignoring_case(texts(names@), name@, 0) == position_ignoring_case(
                texts(names@),
                name@,
                i as int,
            ),
        decreases names.len() - i,
    {
        assert(texts(names@)[i as int] == names@[i as int]@);
        if eq_ignore_case(names[i].as_str(), name) {
            return Some(i);
        }
        i += 1;
    }
    None
}

/// Whether `names` holds `name` exactly.
pub fn holds_exactly(names: &Vec<String>, name: &str) -> (r: bool)
    ensures
        r == texts(names@).contains(name@),
{
    let mut i: usize = 0;
    while i < names.len()
        invariant
            i <= names.len(),
            forall|j: int| 0 <= j < i ==> texts(names@)[j] != name@,
        decreases names.len() - i,
    {
        assert(texts(names@)[i as int] == names@[i as int]@);
        if same_text(names[i].as_str(), name) {
            return true;
        }
        i += 1;
    }
    false
}

/// The visible columns that are shown, from the first `n` chosen: those that
/// are no base column and are columns of the catalog, each once up to ASCII case.
pub open spec fn shown(visible: Seq<Seq<char>>, columns: Seq<Seq<char>>, n: nat) -> Seq<Seq<char>>
    decreases n,
{
    if n == 0 || n > visible.len() {
        Seq::empty()
    } else {
        let earlier = shown(visible, columns, (n - 1) as nat);
        let name = visible[n - 1];
        if is_base(name) || !columns.contains(name) || holds_ignoring_case(earlier, name) {
            earlier
        } else {
            earlier.push(name)
        }
    }
}

/// The extra columns to show.
pub fn dynamic_columns(columns: &Vec<String>, visible: &Vec<String>) -> (out: Vec<String>)
    ensures
        texts(out@) == shown(texts(visible@), texts(columns@), visible@.len()),
{
    let mut out: Vec<String> = Vec::new();
    let mut i: usize = 0;
    assert(texts(out@) =~= shown(texts(visible@), texts(columns@), 0));
    while i < visible.len()
        invariant
            i <= visible.len(),
            texts(out@) == shown(texts(visible@), texts(columns@), i as nat),
        decreases visible.len() - i,
    {
        let name = visible[i].as_str();
        assert(texts(visible@)[i as int] == name@);
        if !is_base_column(name) && holds_exactly(columns, name) && !any_ignoring_case(&out, name) {
            let ghost before = texts(out@);
            out.push(visible[i].clone());
            assert(texts(out@) =~= before.push(name@));
        }
        i += 1;
    }
    out
}

/// The visible columns kept after the catalog changed, from the first `n`
/// chosen: each is replaced by the catalog's spelling of it, base columns and
/// unknown columns are dropped, and each column is kept once.
pub open spec fn pruned(visible: Seq<Seq<char>>, columns: Seq<Seq<char>>, n: nat) -> Seq<Seq<char>>
    decreases n,
{
    if n == 0 || n > visible.len() {
        Seq::empty()
    } else {
        let earlier = pruned(visible, columns, (n - 1) as nat);
        let name = visible[n - 1];
        if is_base(name) {
            earlier
        } else {
            match position_ignoring_case(columns, name, 0) {
                Some(i) => if holds_ignoring_case(earlier, columns[i]) {
                    earlier
                } else {
                    earlier.push(columns[i])
                },
                None => earlier,
            }
        }
    }
}

/// Brings the chosen columns in line with the catalog's columns.
pub fn prune_visible_columns(visible: &mut Vec<String>, columns: &Vec<String>)
    ensures
        texts(final(visible)@) == pruned(texts(old(visible)@), texts(columns@), old(visible)@.len()),
{
    let mut kept: Vec<String> = Vec::new();
    let mut i: usize = 0;
    assert(texts(kept@) =~= pruned(texts(visible@), texts(columns@), 0));
    while i < visible.len()
        invariant
            i <= visible.len(),
            texts(kept@) == pruned(texts(visible@), texts(columns@), i as nat),
        decreases visible.len() - i,
    {
        let name = visible[i].as_str();
        assert(texts(visible@)[i as int] == name@);
        if !is_base_column(name) {
            if let Some(p) = find_ignoring_case(columns, name) {
                assert(texts(columns@)[p as int] == columns@[p as int]@);
                if !any_ignoring_case(&kept, columns[p].as_str()) {
                    let ghost before = texts(kept@);
                    kept.push(columns[p].clone());
                    assert(texts(kept@) =~= before.push(columns@[p as int]@));
                }
            }
        }
        i += 1;
    }
    *visible = kept;
}

/// Chooses one more column, unless it is a base column or chosen already.
pub fn add_visible_column(visible: &mut Vec<String>, column: &str) -> (added: bool)
    ensures
        added == (!is_base(column@) && !holds_ignoring_case(texts(old(visible)@), column@)),
        added ==> texts(final(visible)@) == texts(old(visible)@).push(column@),
        !added ==> *final(visible) == *old(visible),
{
    if is_base_column(column) {
        return false;
    }
    if any_ignoring_case(visible, column) {
        return false;
    }
    let ghost before = texts(visible@);
    visible.push(column.to_owned());
    assert(texts(visible@) =~= before.push(column@));
    true
}

/// Keeps the columns that differ from `column` even up to ASCII case.
pub open spec fn others(column: Seq<char>) -> spec_fn(Seq<char>) -> bool {
    |name: Seq<char>| !same_ignoring_case(name, column)
}

/// Takes a column out of the chosen ones, whatever its ASCII case.
pub fn remove_visible_column(visible: &mut Vec<String>, column: &str)
    ensures
        texts(final(visible)@) == texts(old(visible)@).filter(others(column@)),
{
    let ghost all = texts(visible@);
    let mut kept: Vec<String> = Vec::new();
    let mut i: usize = 0;
    proof {
        reveal(Seq::filter);
        assert(all.take(0) =~= Seq::<Seq<char>>::empty());
        assert(texts(kept@) =~= all.take(0).filter(others(column@)));
    }
    while i < visible.len()
        invariant
            i <= visible.len(),
            all == texts(visible@),
            texts(kept@) == all.take(i as int).filter(others(column@)),
        decreases visible.len() - i,
    {
        assert(all[i as int] == visible@[i as int]@);
        proof {
            reveal(Seq::filter);
            assert(all.take(i + 1).drop_last() =~= all.take(i as int));
            assert(all.take(i + 1).last() == all[i as int]);
        }
        if !eq_ignore_case(visible[i].as_str(), column) {
            let ghost before = texts(kept@);
            kept.push(visible[i].clone());
            assert(texts(kept@) =~= before.push(all[i as int]));
        }
        i += 1;
    }
    assert(all.take(all.len() as int) =~= all);
    *visible = kept;
}

/// Whether a column may be offered: it is no base column and not chosen yet.
pub open spec fn is_offerable(visible: Seq<Seq<char>>, name: Seq<char>) -> bool {
    !is_base(name) && !holds_ignoring_case(visible, name)
}

/// The columns among the first `n` of the catalog that are offered for a
/// search text: each may be offered and contains the text, in ASCII lower case.
pub open spec fn offered(
    columns: Seq<Seq<char>>,
    visible: Seq<Seq<char>>,
    query: Seq<char>,
    n: nat,
) -> Seq<Seq<char>>
    decreases n,
{
    if n == 0 || n > columns.len() {
        Seq::empty()
    } else {
        let earlier = offered(columns, visible, query, (n - 1) as nat);
        let name = columns[n - 1];
        if is_offerable(visible, name) && has_substring(lowered(name), lowered(query)) {
            earlier.push(name)
        } else {
            earlier
        }
    }
}

/// The columns to offer for a search text: up to five columns that contain
/// the trimmed text; where none does, the column that the text resolves to.
pub fn column_suggestions(columns: &Vec<String>, visible: &Vec<String>, search: &str) -> (out: Vec<
    String,
>)
    ensures
        out@.len() <= SUGGESTION_LIMIT,
        ({
            let all = offered(texts(columns@), texts(visible@), trimmed(search@), columns@.len());
            if all.len() > 0 {
                texts(out@) == all.take(
                    if all.len() <= SUGGESTION_LIMIT {
                        all.len() as int
                    } else {
                        SUGGESTION_LIMIT as int
                    },
                )
            } else if trimmed(search@).len() == 0 || unresolved(texts(columns@), trimmed(search@)) {
                out@.len() == 0
            } else {
                exists|i: int|
                    is_resolution(texts(columns@), trimmed(search@), i) && (if is_offerable(
                        texts(visible@),
                        texts(columns@)[i],
                    ) {
                        texts(out@) == seq![texts(columns@)[i]]
                    } else {
                        out@.len() == 0
                    })
            }
        }),
{
    let query = trim(search);
    let needle = lowered_chars(query.as_str());
    let ghost q = trimmed(search@);
    let mut out: Vec<String> = Vec::new();
    let mut i: usize = 0;
    assert(texts(out@) =~= offered(texts(columns@), texts(visible@), q, 0));
    while i < columns.len()
        invariant
            i <= columns.len(),
            needle@ == lowered(q),
            texts(out@) == offered(texts(columns@), texts(visible@), q, i as nat),
        decreases columns.len() - i,
    {
        let name = columns[i].as_str();
        assert(texts(columns@)[i as int] == name@);
        if !is_base_column(name) && !any_ignoring_case(visible, name) {
            let hay = lowered_chars(name);
            if contains_chars(&hay, &needle) {
                let ghost before = texts(out@);
                out.push(columns[i].clone());
                assert(texts(out@) =~= before.push(name@));
            }
        }
        i += 1;
    }
    if out.len() == 0 && !query.as_str().is_empty() {
        if let Some(name) = resolve_column_name(columns, search) {
            let ghost i = choose|i: int|
                name@ == texts(columns@)[i] && is_resolution(texts(columns@), q, i);
            assert(crate::columns::answers(0, texts(columns@)[i], q) || crate::columns::answers(
                1,
                texts(columns@)[i],
                q,
            ) || crate::columns::answers(2, texts(columns@)[i], q) || crate::columns::answers(
                3,
                texts(columns@)[i],
                q,
            ) || crate::columns::answers(4, texts(columns@)[i], q));
            if !is_base_column(name.as_str()) && !any_ignoring_case(visible, name.as_str()) {
                out.push(name);
                assert(texts(out@) =~= seq![texts(columns@)[i]]);
            }
        }
        return out;
    }
    let ghost all = texts(out@);
    if out.len() > SUGGESTION_LIMIT {
        out.truncate(SUGGESTION_LIMIT);
        assert(texts(out@) =~= all.take(SUGGESTION_LIMIT as int));
    } else {
        assert(texts(out@) =~= all.take(all.len() as int));
    }
    out
}

/// What became of a request to add a column.
#[derive(Debug, Clone, PartialEq, Eq)]
pub enum ColumnAddResult {
    Added(String),
    AlreadyVisible(String),
    BaseColumn(String),
    NotFound(String),
    Empty,
}

/// Adds the column that the search text resolves to. The search text is
/// cleared where a column of the catalog was found that is no base column.
pub fn try_add_column_from_search(
    visible: &mut Vec<String>,
    columns: &Vec<String>,
    search: &mut String,
) -> (result: ColumnAddResult)
    ensures
        match result {
            ColumnAddResult::Empty => trimmed(old(search)@).len() == 0 && *final(visible) == *old(
                visible,
            ) && *final(search) == *old(search),
            ColumnAddResult::NotFound(query) => query@ == trimmed(old(search)@) && query@.len() > 0
                && unresolved(texts(columns@), trimmed(old(search)@)) && *final(visible) == *old(
                visible,
            ) && *final(search) == *old(search),
            ColumnAddResult::BaseColumn(name) => is_base(name@) && is_chosen(
                texts(columns@),
                trimmed(old(search)@),
                name@,
            ) && *final(visible) == *old(visible) && *final(search) == *old(search),
            ColumnAddResult::AlreadyVisible(name) => !is_base(name@) && is_chosen(
                texts(columns@),
                trimmed(old(search)@),
                name@,
            ) && holds_ignoring_case(texts(old(visible)@), name@) && *final(visible) == *old(visible)
                && final(search)@.len() == 0,
            ColumnAddResult::Added(name) => !is_base(name@) && is_chosen(
                texts(columns@),
                trimmed(old(search)@),
                name@,
            ) && !holds_ignoring_case(texts(old(visible)@), name@) && texts(final(visible)@) == texts(
                old(visible)@,
            ).push(name@) && final(search)@.len() == 0,
        },
{
    let query = trim(search.as_str());
    if query.as_str().is_empty() {
        return ColumnAddResult::Empty;
    }
    proof {
        lemma_trim_settled(search@);
    }
    match resolve_column_name(columns, query.as_str()) {
        Some(resolved) => {
            if is_base_column(resolved.as_str()) {
                return ColumnAddResult::BaseColumn(resolved);
            }
            if any_ignoring_case(visible, resolved.as_str()) {
                *search = String::new();
                return ColumnAddResult::AlreadyVisible(resolved);
            }
            let ghost before = texts(visible@);
            visible.push(resolved.clone());
            assert(texts(visible@) =~= before.push(resolved@));
            *search = String::new();
            ColumnAddResult::Added(resolved)
        },
        None => ColumnAddResult::NotFound(query),
    }
}

/// `name` is the column that a non-empty query resolves to.
pub open spec fn is_chosen(columns: Seq<Seq<char>>, query: Seq<char>, name: Seq<char>) -> bool {
    query.len() > 0 && exists|i: int| name == columns[i] && is_resolution(columns, query, i)
}

/// Trimming a trimmed text changes nothing.
pub proof fn lemma_trim_settled(s: Seq<char>)
    ensures
        trimmed(trimmed(s)) == trimmed(s),
{
    crate::text::lemma_trimmed_is_trimmed(s);
}

} // verus!
