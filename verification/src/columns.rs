//! Column names: the fixed base columns and the resolution of a typed name
//! to a column of the catalog.

use crate::distance::{edit_distance, levenshtein};
use crate::keys::texts;
use crate::text::{
    chars_of, contains_chars, eq_ignore_case, has_prefix, has_substring, lowered, lowered_chars,
    same_chars, same_ignoring_case, starts_with_chars, string_of, trim, trimmed,
};
use vstd::prelude::*;
use vstd::utf8::encode_utf8;

verus! {

/// The greatest edit distance at which a column still counts as a fuzzy match.
pub const FUZZY_LIMIT: usize = 3;

/// The edit distance between a column and a query, both in ASCII lower case.
pub open spec fn fuzzy_distance(column: Seq<char>, query: Seq<char>) -> nat {
    edit_distance(encode_utf8(lowered(column)), encode_utf8(lowered(query)))
}

/// The way a column answers a query, from strongest to weakest.
pub open spec fn answers(stage: int, column: Seq<char>, query: Seq<char>) -> bool {
    if stage == 0 {
        column == query
    } else if stage == 1 {
        same_ignoring_case(column, query)
    } else if stage == 2 {
        has_prefix(lowered(column), lowered(query))
    } else if stage == 3 {
        has_substring(lowered(column), lowered(query))
    } else {
        fuzzy_distance(column, query) <= FUZZY_LIMIT
    }
}

/// No column answers the query at `stage`.
pub open spec fn unanswered(stage: int, columns: Seq<Seq<char>>, query: Seq<char>) -> bool {
    forall|j: int| 0 <= j < columns.len() ==> !answers(stage, #[trigger] columns[j], query)
}

/// Column `i` is the first that answers the query at `stage`.
pub open spec fn first_answer(stage: int, columns: Seq<Seq<char>>, query: Seq<char>, i: int) -> bool {
    &&& 0 <= i < columns.len()
    &&& answers(stage, columns[i], query)
    &&& forall|j: int| 0 <= j < i ==> !answers(stage, #[trigger] columns[j], query)
}

/// Column `i` is the first among those at the least edit distance, which is
/// within the limit.
pub open spec fn best_fuzzy(columns: Seq<Seq<char>>, query: Seq<char>, i: int) -> bool {
    &&& 0 <= i < columns.len()
    &&& fuzzy_distance(columns[i], query) <= FUZZY_LIMIT
    &&& forall|j: int|
        0 <= j < i ==> fuzzy_distance(#[trigger] columns[j], query) > fuzzy_distance(columns[i], query)
    &&& forall|j: int|
        i < j < columns.len() ==> fuzzy_distance(#[trigger] columns[j], query) >= fuzzy_distance(
            columns[i],
            query,
        )
}

/// Column `i` is the one that the query resolves to: the first exact match;
/// failing that, the first match up to ASCII case; failing that, the first
/// column that starts with the query; failing that, the first that contains
/// it; failing that, the closest column within the fuzzy limit.
pub open spec fn is_resolution(columns: Seq<Seq<char>>, query: Seq<char>, i: int) -> bool {
    ||| first_answer(0, columns, query, i)
    ||| (unanswered(0, columns, query) && first_answer(1, columns, query, i))
    ||| (unanswered(0, columns, query) && unanswered(1, columns, query) && first_answer(
        2,
        columns,
        query,
        i,
    ))
    ||| (unanswered(0, columns, query) && unanswered(1, columns, query) && unanswered(
        2,
        columns,
        query,
    ) && first_answer(3, columns, query, i))
    ||| (unanswered(0, columns, query) && unanswered(1, columns, query) && unanswered(
        2,
        columns,
        query,
    ) && unanswered(3, columns, query) && best_fuzzy(columns, query, i))
}

/// The query resolves to no column: it is empty, or no column answers it in
/// any way.
pub open spec fn unresolved(columns: Seq<Seq<char>>, query: Seq<char>) -> bool {
    query.len() == 0 || (unanswered(0, columns, query) && unanswered(1, columns, query)
        && unanswered(2, columns, query) && unanswered(3, columns, query) && unanswered(
        4,
        columns,
        query,
    ))
}

/// The index of the column that `input`, once trimmed, resolves to.
pub fn resolve_column_index(columns: &Vec<String>, input: &str) -> (res: Option<usize>)
    ensures
        match res {
            Some(i) => trimmed(input@).len() > 0 && is_resolution(
                texts(columns@),
                trimmed(input@),
                i as int,
            ),
            None => unresolved(texts(columns@), trimmed(input@)),
        },
{
    let query = trim(input);
    if query.as_str().is_empty() {
        return None;
    }
    let ghost names = texts(columns@);
    let ghost q = query@;
    let query_chars = chars_of(query.as_str());
    let lowered_query = lowered_chars(query.as_str());
    let lowered_text = string_of(&lowered_query);
    let n = columns.len();

    let mut i: usize = 0;
    while i < n
        invariant
            i <= n == columns.len(),
            names == texts(columns@),
            query_chars@ == q,
            q == trimmed(input@),
            q.len() > 0,
            forall|j: int| 0 <= j < i ==> !answers(0, #[trigger] names[j], q),
        decreases n - i,
    {
        let column = chars_of(columns[i].as_str());
        assert(names[i as int] == columns@[i as int]@);
        if same_chars(&column, &query_chars) {
            return Some(i);
        }
        i += 1;
    }
    let mut i: usize = 0;
    while i < n
        invariant
            i <= n == columns.len(),
            names == texts(columns@),
            query@ == q,
            q == trimmed(input@),
            q.len() > 0,
            unanswered(0, names, q),
            forall|j: int| 0 <= j < i ==> !answers(1, #[trigger] names[j], q),
        decreases n - i,
    {
        assert(names[i as int] == columns@[i as int]@);
        if eq_ignore_case(columns[i].as_str(), query.as_str()) {
            return Some(i);
        }
        i += 1;
    }
    let mut prefix_match: Option<usize> = None;
    let mut substring_match: Option<usize> = None;
    let mut best: Option<(usize, usize)> = None;
    let mut i: usize = 0;
    while i < n
        invariant
            i <= n == columns.len(),
            names == texts(columns@),
            lowered_query@ == lowered(q),
            lowered_text@ == lowered(q),
            match prefix_match {
                Some(p) => p < i && first_answer(2, names, q, p as int),
                None => forall|j: int| 0 <= j < i ==> !answers(2, #[trigger] names[j], q),
            },
            match substring_match {
                Some(p) => p < i && first_answer(3, names, q, p as int),
                None => forall|j: int| 0 <= j < i ==> !answers(3, #[trigger] names[j], q),
            },
            match best {
                Some((p, d)) => {
                    &&& p < i
                    &&& d == fuzzy_distance(names[p as int], q)
                    &&& d <= FUZZY_LIMIT
                    &&& forall|j: int| 0 <= j < p ==> fuzzy_distance(#[trigger] names[j], q) > d
                    &&& forall|j: int| p < j < i ==> fuzzy_distance(#[trigger] names[j], q) >= d
                },
                None => forall|j: int| 0 <= j < i ==> !answers(4, #[trigger] names[j], q),
            },
        decreases n - i,
    {
        assert(names[i as int] == columns@[i as int]@);
        let lowered_column = lowered_chars(columns[i].as_str());
        if prefix_match.is_none() && starts_with_chars(&lowered_column, &lowered_query) {
            prefix_match = Some(i);
        }
        if substring_match.is_none() && contains_chars(&lowered_column, &lowered_query) {
            substring_match = Some(i);
        }
        let lowered_name = string_of(&lowered_column);
        let distance = levenshtein(lowered_name.as_str(), lowered_text.as_str());
        assert(distance == fuzzy_distance(names[i as int], q));
        if distance <= FUZZY_LIMIT {
            match best {
                Some((_, d)) => {
                    if distance < d {
                        best = Some((i, distance));
                    }
                },
                None => {
                    best = Some((i, distance));
                },
            }
        }
        i += 1;
    }
    match prefix_match {
        Some(p) => Some(p),
        None => match substring_match {
            Some(p) => Some(p),
            None => match best {
                Some((p, _)) => {
                    assert(best_fuzzy(names, q, p as int));
                    Some(p)
                },
                None => None,
            },
        },
    }
}

/// The column that a typed name resolves to, as the catalog spells it.
pub fn resolve_column_name(columns: &Vec<String>, input: &str) -> (res: Option<String>)
    ensures
        match res {
            Some(name) => exists|i: int|
                name@ == texts(columns@)[i] && trimmed(input@).len() > 0 && is_resolution(
                    texts(columns@),
                    trimmed(input@),
                    i,
                ),
            None => unresolved(texts(columns@), trimmed(input@)),
        },
{
    match resolve_column_index(columns, input) {
        Some(i) => {
            let name = columns[i].clone();
            assert(name@ == texts(columns@)[i as int]);
            Some(name)
        },
        None => None,
    }
}

} // verus!
