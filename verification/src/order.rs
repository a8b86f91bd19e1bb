//! The order of rows in a catalog: by instant, then file, then first line.

use crate::model::{Row, Timestamp};
use vstd::prelude::*;

verus! {

/// `a` is strictly before `b`; a row without an instant comes before any with one.
pub open spec fn ts_lt(a: Option<Timestamp>, b: Option<Timestamp>) -> bool {
    match (a, b) {
        (None, None) => false,
        (None, Some(_)) => true,
        (Some(_), None) => false,
        (Some(x), Some(y)) => x.secs < y.secs || (x.secs == y.secs && x.nanos < y.nanos),
    }
}

/// `a` may stand before `b`: its instant is earlier, or the instants are the
/// same and its file comes first, or both are the same and it starts no later.
pub open spec fn row_le(a: Row, b: Row) -> bool {
    ts_lt(a.ts, b.ts) || (a.ts == b.ts && (a.file_id < b.file_id || (a.file_id == b.file_id
        && a.line_start <= b.line_start)))
}

/// Oldest first: each row may stand before every later one.
pub open spec fn ascending(rows: Seq<Row>) -> bool {
    forall|i: int, j: int| 0 <= i < j < rows.len() ==> row_le(rows[i], rows[j])
}

/// Newest first: each row may stand behind every later one.
pub open spec fn descending(rows: Seq<Row>) -> bool {
    forall|i: int, j: int| 0 <= i < j < rows.len() ==> row_le(rows[j], rows[i])
}

/// The rows are in the order asked for.
pub open spec fn in_order(rows: Seq<Row>, newest_first: bool) -> bool {
    if newest_first {
        descending(rows)
    } else {
        ascending(rows)
    }
}

/// An ascending sequence with one more row, which goes behind every row
/// that may stand before it.
pub open spec fn placed(sorted: Seq<Row>, row: Row) -> Seq<Row>
    decreases sorted.len(),
{
    if sorted.len() > 0 && !row_le(sorted.last(), row) {
        placed(sorted.drop_last(), row).push(sorted.last())
    } else {
        sorted.push(row)
    }
}

/// The rows oldest first. Rows that agree in instant, file and first line
/// keep the order in which they stood.
pub open spec fn arranged(rows: Seq<Row>) -> Seq<Row>
    decreases rows.len(),
{
    if rows.len() == 0 {
        rows
    } else {
        placed(arranged(rows.drop_last()), rows.last())
    }
}

/// The rows in catalog order: oldest first, or the reverse of that.
pub open spec fn catalog_order(rows: Seq<Row>, newest_first: bool) -> Seq<Row> {
    if newest_first {
        arranged(rows).reverse()
    } else {
        arranged(rows)
    }
}

/// Two ascending sequences as one: between the last rows of both, the one
/// of `right` goes last unless the one of `left` must stand behind it.
pub open spec fn merged(left: Seq<Row>, right: Seq<Row>) -> Seq<Row>
    decreases left.len() + right.len(),
{
    if left.len() == 0 {
        right
    } else if right.len() == 0 {
        left
    } else if row_le(left.last(), right.last()) {
        merged(left, right.drop_last()).push(right.last())
    } else {
        merged(left.drop_last(), right).push(left.last())
    }
}

/// Merging with nothing on the right gives the left.
proof fn lemma_merged_left(left: Seq<Row>, right: Seq<Row>)
    requires
        right.len() == 0,
    ensures
        merged(left, right) == left,
{
    if left.len() == 0 {
        assert(left =~= right);
    }
}

/// Placing a row into a merged sequence is merging with the row placed on the right.
proof fn lemma_placed_merged(left: Seq<Row>, right: Seq<Row>, row: Row)
    ensures
        placed(merged(left, right), row) == merged(left, placed(right, row)),
    decreases left.len() + right.len(),
{
    let both = merged(left, right);
    let more = placed(right, row);
    lemma_placed_last(right, row);
    if left.len() == 0 {
        assert(both == right);
        assert(merged(left, more) == more);
    } else if right.len() == 0 {
        lemma_merged_left(left, right);
        assert(more == right.push(row));
        assert(more.drop_last() =~= right);
        assert(more.last() == row);
        if row_le(left.last(), row) {
            assert(merged(left, more) == merged(left, more.drop_last()).push(row));
            assert(placed(left, row) == left.push(row));
        } else {
            lemma_placed_merged(left.drop_last(), right, row);
            lemma_merged_left(left.drop_last(), right);
            assert(merged(left, more) == merged(left.drop_last(), more).push(left.last()));
            assert(placed(left, row) == placed(left.drop_last(), row).push(left.last()));
        }
    } else {
        let a = left.last();
        let b = right.last();
        if row_le(a, b) {
            let rest = right.drop_last();
            assert(both == merged(left, rest).push(b));
            assert(both.last() == b);
            assert(both.drop_last() =~= merged(left, rest));
            if !row_le(b, row) {
                lemma_placed_merged(left, rest, row);
                assert(more == placed(rest, row).push(b));
                assert(more.last() == b);
                assert(more.drop_last() =~= placed(rest, row));
                assert(placed(both, row) == placed(merged(left, rest), row).push(b));
                assert(merged(left, more) == merged(left, placed(rest, row)).push(b));
            } else {
                assert(more == right.push(row));
                assert(more.last() == row);
                assert(more.drop_last() =~= right);
                assert(placed(both, row) == both.push(row));
                assert(row_le(a, row));
                assert(merged(left, more) == merged(left, right).push(row));
            }
        } else {
            let rest = left.drop_last();
            assert(both == merged(rest, right).push(a));
            assert(both.last() == a);
            assert(both.drop_last() =~= merged(rest, right));
            if !row_le(a, row) {
                lemma_placed_merged(rest, right, row);
                assert(placed(both, row) == placed(merged(rest, right), row).push(a));
                assert(!row_le(a, more.last()));
                assert(merged(left, more) == merged(rest, more).push(a));
            } else {
                assert(row_le(b, row));
                assert(more == right.push(row));
                assert(more.last() == row);
                assert(more.drop_last() =~= right);
                assert(placed(both, row) == both.push(row));
                assert(merged(left, more) == merged(left, right).push(row));
            }
        }
    }
}

/// What stands last once a row was placed: the row, or the row that stood
/// last before and must stand behind it.
proof fn lemma_placed_last(sorted: Seq<Row>, row: Row)
    ensures
        placed(sorted, row).len() == sorted.len() + 1,
        placed(sorted, row).last() == (if sorted.len() > 0 && !row_le(sorted.last(), row) {
            sorted.last()
        } else {
            row
        }),
    decreases sorted.len(),
{
    if sorted.len() > 0 && !row_le(sorted.last(), row) {
        lemma_placed_last(sorted.drop_last(), row);
    }
}

/// Arranging two sequences one behind the other is merging what each gives arranged.
pub proof fn lemma_arranged_add(left: Seq<Row>, right: Seq<Row>)
    ensures
        arranged(left + right) == merged(arranged(left), arranged(right)),
    decreases right.len(),
{
    if right.len() == 0 {
        assert(left + right =~= left);
    } else {
        let rest = right.drop_last();
        assert((left + right).drop_last() =~= left + rest);
        lemma_arranged_add(left, rest);
        lemma_placed_merged(arranged(left), arranged(rest), right.last());
    }
}

/// No two rows agree in instant, file and first line.
pub open spec fn distinct_keys(rows: Seq<Row>) -> bool {
    forall|i: int, j: int|
        0 <= i < rows.len() && 0 <= j < rows.len() && i != j ==> !(row_le(rows[i], rows[j]) && row_le(
            rows[j],
            rows[i],
        ))
}

/// Rows that pairwise differ in instant, file or first line have one
/// ascending order only.
pub proof fn lemma_ascending_is_unique(a: Seq<Row>, b: Seq<Row>)
    requires
        a.to_multiset() == b.to_multiset(),
        ascending(a),
        ascending(b),
        distinct_keys(a),
    ensures
        a == b,
    decreases a.len(),
{
    vstd::seq_lib::to_multiset_len(a);
    vstd::seq_lib::to_multiset_len(b);
    if a.len() == 0 {
        assert(a =~= b);
    } else {
        vstd::seq_lib::to_multiset_contains(a, b[0]);
        vstd::seq_lib::to_multiset_contains(b, b[0]);
        vstd::seq_lib::to_multiset_contains(a, a[0]);
        vstd::seq_lib::to_multiset_contains(b, a[0]);
        assert(b.contains(b[0]));
        assert(a.contains(a[0]));
        let m = choose|m: int| 0 <= m < a.len() && a[m] == b[0];
        let k = choose|k: int| 0 <= k < b.len() && b[k] == a[0];
        if m != 0 {
            assert(row_le(a[0], a[m]));
            if k != 0 {
                assert(row_le(b[0], b[k]));
            }
            assert(row_le(a[m], a[0]));
        }
        assert(a[0] == b[0]);
        let ta = a.drop_first();
        let tb = b.drop_first();
        vstd::seq_lib::to_multiset_remove(a, 0);
        vstd::seq_lib::to_multiset_remove(b, 0);
        assert(ta =~= a.remove(0));
        assert(tb =~= b.remove(0));
        assert forall|i: int, j: int| 0 <= i < j < ta.len() implies row_le(ta[i], ta[j]) by {
            assert(row_le(a[i + 1], a[j + 1]));
        }
        assert forall|i: int, j: int| 0 <= i < j < tb.len() implies row_le(tb[i], tb[j]) by {
            assert(row_le(b[i + 1], b[j + 1]));
        }
        assert forall|i: int, j: int|
            0 <= i < ta.len() && 0 <= j < ta.len() && i != j implies !(row_le(ta[i], ta[j]) && row_le(
            ta[j],
            ta[i],
        )) by {
            assert(!(row_le(a[i + 1], a[j + 1]) && row_le(a[j + 1], a[i + 1])));
        }
        lemma_ascending_is_unique(ta, tb);
        assert(a =~= seq![a[0]] + ta);
        assert(b =~= seq![b[0]] + tb);
    }
}

/// Rows that pairwise differ in instant, file or first line have one catalog
/// order only, whichever way it runs.
pub proof fn lemma_order_is_unique(a: Seq<Row>, b: Seq<Row>, newest_first: bool)
    requires
        a.to_multiset() == b.to_multiset(),
        in_order(a, newest_first),
        in_order(b, newest_first),
        distinct_keys(a),
    ensures
        a == b,
{
    if newest_first {
        let ra = a.reverse();
        let rb = b.reverse();
        a.lemma_reverse_to_multiset();
        b.lemma_reverse_to_multiset();
        assert forall|i: int, j: int| 0 <= i < j < ra.len() implies row_le(ra[i], ra[j]) by {
            assert(row_le(a[a.len() - 1 - i], a[a.len() - 1 - j]));
        }
        assert forall|i: int, j: int| 0 <= i < j < rb.len() implies row_le(rb[i], rb[j]) by {
            assert(row_le(b[b.len() - 1 - i], b[b.len() - 1 - j]));
        }
        assert forall|i: int, j: int|
            0 <= i < ra.len() && 0 <= j < ra.len() && i != j implies !(row_le(ra[i], ra[j]) && row_le(
            ra[j],
            ra[i],
        )) by {
            assert(!(row_le(a[a.len() - 1 - i], a[a.len() - 1 - j]) && row_le(
                a[a.len() - 1 - j],
                a[a.len() - 1 - i],
            )));
        }
        lemma_ascending_is_unique(ra, rb);
        assert(a =~= ra.reverse());
        assert(b =~= rb.reverse());
    } else {
        lemma_ascending_is_unique(a, b);
    }
}

/// Whether `a` is strictly before `b`.
pub fn instant_before(a: &Option<Timestamp>, b: &Option<Timestamp>) -> (r: bool)
    ensures
        r == ts_lt(*a, *b),
{
    match (a, b) {
        (None, None) => false,
        (None, Some(_)) => true,
        (Some(_), None) => false,
        (Some(x), Some(y)) => x.secs < y.secs || (x.secs == y.secs && x.nanos < y.nanos),
    }
}

/// Whether `a` may stand before `b`.
pub fn row_before_or_equal(a: &Row, b: &Row) -> (r: bool)
    ensures
        r == row_le(*a, *b),
{
    if instant_before(&a.ts, &b.ts) {
        true
    } else if instant_before(&b.ts, &a.ts) {
        false
    } else {
        a.file_id < b.file_id || (a.file_id == b.file_id && a.line_start <= b.line_start)
    }
}

/// The same rows in the opposite order.
pub fn reversed(rows: Vec<Row>) -> (out: Vec<Row>)
    ensures
        out@ == rows@.reverse(),
{
    let mut rows = rows;
    let ghost all = rows@;
    let mut out: Vec<Row> = Vec::new();
    while rows.len() > 0
        invariant
            rows@.len() + out@.len() == all.len(),
            rows@ == all.take(rows@.len() as int),
            forall|k: int| 0 <= k < out@.len() ==> out@[k] == all[all.len() - 1 - k],
        decreases rows.len(),
    {
        let row = rows.pop().unwrap();
        out.push(row);
        assert(rows@ =~= all.take(rows@.len() as int));
    }
    assert(out@ =~= all.reverse());
    out
}

/// A sequence without elements has the empty multiset.
proof fn lemma_empty_multiset(s: Seq<Row>)
    requires
        s.len() == 0,
    ensures
        s.to_multiset() == vstd::multiset::Multiset::<Row>::empty(),
{
    vstd::seq_lib::to_multiset_len(s);
    vstd::multiset::lemma_multiset_empty_len(s.to_multiset());
}

/// Merges two ascending vectors into one descending vector: the reverse of
/// what the two give merged.
fn merge_descending(a: Vec<Row>, b: Vec<Row>) -> (out: Vec<Row>)
    requires
        ascending(a@),
        ascending(b@),
    ensures
        descending(out@),
        out@.to_multiset() == a@.to_multiset().add(b@.to_multiset()),
        out@.reverse() == merged(a@, b@),
{
    let mut a = a;
    let mut b = b;
    let ghost total = a@.to_multiset().add(b@.to_multiset());
    let ghost whole = merged(a@, b@);
    let mut out: Vec<Row> = Vec::new();
    proof {
        lemma_empty_multiset(out@);
        assert(out@.to_multiset().add(a@.to_multiset()).add(b@.to_multiset()) =~= total);
        assert(merged(a@, b@) + out@.reverse() =~= whole);
    }
    while a.len() > 0 || b.len() > 0
        invariant
            ascending(a@),
            ascending(b@),
            descending(out@),
            forall|i: int, k: int| 0 <= i < a@.len() && 0 <= k < out@.len() ==> row_le(a@[i], out@[k]),
            forall|i: int, k: int| 0 <= i < b@.len() && 0 <= k < out@.len() ==> row_le(b@[i], out@[k]),
            out@.to_multiset().add(a@.to_multiset()).add(b@.to_multiset()) == total,
            merged(a@, b@) + out@.reverse() == whole,
        decreases a.len() + b.len(),
    {
        let from_a = if b.len() == 0 {
            true
        } else if a.len() == 0 {
            false
        } else {
            !row_before_or_equal(&a[a.len() - 1], &b[b.len() - 1])
        };
        let ghost a0 = a@;
        let ghost b0 = b@;
        let ghost out0 = out@;
        if from_a {
            let row = a.pop().unwrap();
            proof {
                assert(a0 =~= a@.push(row));
                assert(a@ =~= a0.drop_last());
                assert(merged(a0, b0) == merged(a@, b0).push(row));
                assert forall|i: int| 0 <= i < b0.len() implies row_le(b0[i], row) by {
                    if i < b0.len() - 1 {
                        assert(row_le(b0[i], b0[b0.len() - 1]));
                    }
                }
                assert forall|i: int| 0 <= i < a@.len() implies row_le(a@[i], row) by {
                    assert(a@[i] == a0[i]);
                    assert(row_le(a0[i], a0[a0.len() - 1]));
                }
            }
            out.push(row);
            proof {
                assert(ascending(a@)) by {
                    assert forall|i: int, j: int| 0 <= i < j < a@.len() implies row_le(a@[i], a@[j]) by {
                        assert(a@[i] == a0[i] && a@[j] == a0[j]);
                    }
                }
                assert(out@ == out0.push(row));
                vstd::seq_lib::to_multiset_build(a@, row);
                vstd::seq_lib::to_multiset_build(out0, row);
                assert(out@.to_multiset().add(a@.to_multiset()) =~= out0.to_multiset().add(
                    a0.to_multiset(),
                ));
                assert(out@.reverse() =~= seq![row] + out0.reverse());
                assert(merged(a@, b@) + out@.reverse() =~= merged(a0, b0) + out0.reverse());
            }
        } else {
            let row = b.pop().unwrap();
            proof {
                assert(b0 =~= b@.push(row));
                assert(b@ =~= b0.drop_last());
                assert(merged(a0, b0) == merged(a0, b@).push(row));
                assert forall|i: int| 0 <= i < a0.len() implies row_le(a0[i], row) by {
                    if i < a0.len() - 1 {
                        assert(row_le(a0[i], a0[a0.len() - 1]));
                    }
                }
                assert forall|i: int| 0 <= i < b@.len() implies row_le(b@[i], row) by {
                    assert(b@[i] == b0[i]);
                    assert(row_le(b0[i], b0[b0.len() - 1]));
                }
            }
            out.push(row);
            proof {
                assert(ascending(b@)) by {
                    assert forall|i: int, j: int| 0 <= i < j < b@.len() implies row_le(b@[i], b@[j]) by {
                        assert(b@[i] == b0[i] && b@[j] == b0[j]);
                    }
                }
                assert(out@ == out0.push(row));
                vstd::seq_lib::to_multiset_build(b@, row);
                vstd::seq_lib::to_multiset_build(out0, row);
                assert(out@.to_multiset().add(a@.to_multiset()).add(b@.to_multiset())
                    =~= out0.to_multiset().add(a0.to_multiset()).add(b0.to_multiset()));
                assert(out@.reverse() =~= seq![row] + out0.reverse());
                assert(merged(a@, b@) + out@.reverse() =~= merged(a0, b0) + out0.reverse());
            }
        }
    }
    proof {
        lemma_empty_multiset(a@);
        lemma_empty_multiset(b@);
        assert(out@.to_multiset().add(a@.to_multiset()).add(b@.to_multiset()) =~= out@.to_multiset());
        assert(merged(a@, b@) + out@.reverse() =~= out@.reverse());
    }
    out
}

/// The same rows, oldest first.
pub fn sort_ascending(rows: Vec<Row>) -> (out: Vec<Row>)
    ensures
        out@ == arranged(rows@),
        ascending(out@),
        out@.to_multiset() == rows@.to_multiset(),
    decreases rows@.len(),
{
    let mut left = rows;
    let n = left.len();
    if n <= 1 {
        proof {
            if n == 1 {
                let none = left@.drop_last();
                assert(arranged(none) == none);
                assert(placed(none, left@.last()) == none.push(left@.last()));
                assert(none.push(left@.last()) =~= left@);
            }
        }
        return left;
    }
    let ghost all = left@;
    let right = left.split_off(n / 2);
    proof {
        assert(all =~= left@ + right@);
        vstd::seq_lib::lemma_multiset_commutative(left@, right@);
        lemma_arranged_add(left@, right@);
    }
    let left = sort_ascending(left);
    let right = sort_ascending(right);
    let merged = merge_descending(left, right);
    let out = reversed(merged);
    proof {
        merged@.lemma_reverse_to_multiset();
        assert forall|i: int, j: int| 0 <= i < j < out@.len() implies row_le(out@[i], out@[j]) by {
            assert(out@[i] == merged@[merged@.len() - 1 - i]);
            assert(out@[j] == merged@[merged@.len() - 1 - j]);
        }
    }
    out
}

/// The same rows in catalog order: oldest first, or newest first where asked.
pub fn sort_rows(rows: Vec<Row>, newest_first: bool) -> (out: Vec<Row>)
    ensures
        out@ == catalog_order(rows@, newest_first),
        in_order(out@, newest_first),
        out@.to_multiset() == rows@.to_multiset(),
{
    let sorted = sort_ascending(rows);
    if newest_first {
        let out = reversed(sorted);
        proof {
            sorted@.lemma_reverse_to_multiset();
            assert forall|i: int, j: int| 0 <= i < j < out@.len() implies row_le(out@[j], out@[i]) by {
                assert(out@[i] == sorted@[sorted@.len() - 1 - i]);
                assert(out@[j] == sorted@[sorted@.len() - 1 - j]);
            }
        }
        out
    } else {
        sorted
    }
}

} // verus!
