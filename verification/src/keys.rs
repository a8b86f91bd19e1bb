//! Strictly increasing vectors of strings, used as ordered sets of names.

use crate::text::{
    chars_of, lemma_lt_irreflexive, lemma_lt_total, lemma_lt_transitive, less_by_rank, same_chars,
    strictly_sorted, string_of, text_lt,
};
use vstd::prelude::*;

verus! {

/// The texts held by a sequence of strings.
pub open spec fn texts(v: Seq<String>) -> Seq<Seq<char>> {
    Seq::new(v.len(), |i: int| v[i]@)
}

/// The text held by an optional string.
pub open spec fn opt_text(o: Option<String>) -> Option<Seq<char>> {
    match o {
        Some(s) => Some(s@),
        None => None,
    }
}

/// In a strictly increasing sequence equal keys sit at equal positions.
pub proof fn lemma_sorted_distinct(keys: Seq<Seq<char>>, i: int, j: int)
    requires
        strictly_sorted(keys),
        0 <= i < keys.len(),
        0 <= j < keys.len(),
        keys[i] == keys[j],
    ensures
        i == j,
{
    lemma_lt_irreflexive(keys[i], false);
    if i < j {
        assert(text_lt(keys[i], keys[j]));
    } else if j < i {
        assert(text_lt(keys[j], keys[i]));
    }
}

/// Putting `key` at a position where everything before is below it and
/// everything from there on is above it keeps the sequence strictly increasing.
pub proof fn lemma_insert_keeps_sorted(keys: Seq<Seq<char>>, p: int, key: Seq<char>)
    requires
        strictly_sorted(keys),
        0 <= p <= keys.len(),
        forall|i: int| 0 <= i < p ==> text_lt(keys[i], key),
        forall|i: int| p <= i < keys.len() ==> text_lt(key, keys[i]),
    ensures
        strictly_sorted(keys.insert(p, key)),
{
    let n = keys.insert(p, key);
    assert forall|i: int, j: int| 0 <= i < j < n.len() implies text_lt(n[i], n[j]) by {
        if j < p {
            assert(n[i] == keys[i] && n[j] == keys[j]);
        } else if j == p {
            assert(n[i] == keys[i]);
        } else if i < p {
            assert(n[i] == keys[i] && n[j] == keys[j - 1]);
            if i < j - 1 {
            } else {
                lemma_lt_transitive(keys[i], key, keys[j - 1], false);
            }
        } else if i == p {
            assert(n[j] == keys[j - 1]);
        } else {
            assert(n[i] == keys[i - 1] && n[j] == keys[j - 1]);
        }
    }
}

/// The position at which `key` stands or would have to be put: every earlier
/// element is below `key`, no later one is.
pub fn find_slot(keys: &Vec<String>, key: &Vec<char>) -> (p: usize)
    requires
        strictly_sorted(texts(keys@)),
    ensures
        p <= keys.len(),
        forall|i: int| 0 <= i < p ==> text_lt(#[trigger] keys@[i]@, key@),
        forall|i: int| p <= i < keys.len() ==> !text_lt(#[trigger] keys@[i]@, key@),
{
    let mut lo: usize = 0;
    let mut hi: usize = keys.len();
    while lo < hi
        invariant
            lo <= hi <= keys.len(),
            strictly_sorted(texts(keys@)),
            forall|i: int| 0 <= i < lo ==> text_lt(#[trigger] keys@[i]@, key@),
            forall|i: int| hi <= i < keys.len() ==> !text_lt(#[trigger] keys@[i]@, key@),
        decreases hi - lo,
    {
        let mid = lo + (hi - lo) / 2;
        let probe = chars_of(keys[mid].as_str());
        if less_by_rank(&probe, key, false) {
            proof {
                assert forall|i: int| 0 <= i < mid + 1 implies text_lt(
                    #[trigger] keys@[i]@,
                    key@,
                ) by {
                    if i < mid {
                        assert(text_lt(texts(keys@)[i], texts(keys@)[mid as int]));
                        lemma_lt_transitive(keys@[i]@, keys@[mid as int]@, key@, false);
                    }
                }
            }
            lo = mid + 1;
        } else {
            proof {
                assert forall|i: int| mid <= i < keys.len() implies !text_lt(
                    #[trigger] keys@[i]@,
                    key@,
                ) by {
                    if mid < i && text_lt(keys@[i]@, key@) {
                        assert(text_lt(texts(keys@)[mid as int], texts(keys@)[i]));
                        lemma_lt_transitive(keys@[mid as int]@, keys@[i]@, key@, false);
                    }
                }
            }
            hi = mid;
        }
    }
    lo
}

/// Whether the slot found for `key` holds `key` itself.
pub fn slot_holds(keys: &Vec<String>, p: usize, key: &Vec<char>) -> (r: bool)
    requires
        p <= keys.len(),
    ensures
        r == (p < keys.len() && keys@[p as int]@ == key@),
{
    if p < keys.len() {
        let probe = chars_of(keys[p].as_str());
        same_chars(&probe, key)
    } else {
        false
    }
}

/// What `find_slot` tells about whether `key` occurs in `keys`.
pub proof fn lemma_slot_decides(keys: Seq<Seq<char>>, p: int, key: Seq<char>)
    requires
        strictly_sorted(keys),
        0 <= p <= keys.len(),
        forall|i: int| 0 <= i < p ==> text_lt(#[trigger] keys[i], key),
        forall|i: int| p <= i < keys.len() ==> !text_lt(#[trigger] keys[i], key),
    ensures
        keys.contains(key) <==> (p < keys.len() && keys[p] == key),
        !keys.contains(key) ==> forall|i: int| p <= i < keys.len() ==> text_lt(key, #[trigger] keys[i]),
{
    if keys.contains(key) {
        let i = choose|i: int| 0 <= i < keys.len() && keys[i] == key;
        lemma_lt_irreflexive(key, false);
        if i > p {
            assert(text_lt(keys[p], keys[i]));
        }
        assert(i == p);
    }
    if !keys.contains(key) {
        assert forall|i: int| p <= i < keys.len() implies text_lt(key, #[trigger] keys[i]) by {
            lemma_lt_total(key, keys[i], false);
        }
    }
}

/// Whether `key` occurs in the strictly increasing vector `keys`.
pub fn contains_key(keys: &Vec<String>, key: &str) -> (r: bool)
    requires
        strictly_sorted(texts(keys@)),
    ensures
        r == texts(keys@).contains(key@),
{
    let probe = chars_of(key);
    let p = find_slot(keys, &probe);
    proof {
        lemma_slot_decides(texts(keys@), p as int, key@);
    }
    slot_holds(keys, p, &probe)
}

/// Adds `key` to the strictly increasing vector `keys` unless it is there.
pub fn insert_key(keys: &mut Vec<String>, key: &str)
    requires
        strictly_sorted(texts(old(keys)@)),
    ensures
        strictly_sorted(texts(final(keys)@)),
        texts(final(keys)@).to_set() == texts(old(keys)@).to_set().insert(key@),
{
    let probe = chars_of(key);
    let p = find_slot(keys, &probe);
    let ghost before = texts(keys@);
    proof {
        lemma_slot_decides(before, p as int, key@);
    }
    if slot_holds(keys, p, &probe) {
        assert(before.to_set() =~= before.to_set().insert(key@));
    } else {
        let owned = string_of(&probe);
        keys.insert(p, owned);
        proof {
            let after = texts(keys@);
            assert(after =~= before.insert(p as int, key@));
            lemma_insert_keeps_sorted(before, p as int, key@);
            assert forall|k: Seq<char>| after.to_set().contains(k) <==> before.to_set().insert(
                key@,
            ).contains(k) by {
                if after.contains(k) {
                    let i = choose|i: int| 0 <= i < after.len() && after[i] == k;
                    if i < p {
                        assert(before[i] == k);
                    } else if i > p {
                        assert(before[i - 1] == k);
                    }
                }
                if before.contains(k) {
                    let i = choose|i: int| 0 <= i < before.len() && before[i] == k;
                    if i < p {
                        assert(after[i] == k);
                    } else {
                        assert(after[i + 1] == k);
                    }
                }
                if k == key@ {
                    assert(after[p as int] == k);
                }
            }
            assert(after.to_set() =~= before.to_set().insert(key@));
        }
    }
}

/// Takes `key` out of the strictly increasing vector `keys` if it is there.
pub fn remove_key(keys: &mut Vec<String>, key: &str)
    requires
        strictly_sorted(texts(old(keys)@)),
    ensures
        strictly_sorted(texts(final(keys)@)),
        texts(final(keys)@).to_set() == texts(old(keys)@).to_set().remove(key@),
{
    let probe = chars_of(key);
    let p = find_slot(keys, &probe);
    let ghost before = texts(keys@);
    proof {
        lemma_slot_decides(before, p as int, key@);
    }
    if slot_holds(keys, p, &probe) {
        keys.remove(p);
        proof {
            let after = texts(keys@);
            assert(after =~= before.remove(p as int));
            assert forall|i: int, j: int| 0 <= i < j < after.len() implies text_lt(after[i], after[j]) by {
                let a = if i < p {
                    i
                } else {
                    i + 1
                };
                let b = if j < p {
                    j
                } else {
                    j + 1
                };
                assert(text_lt(before[a], before[b]));
            }
            assert forall|k: Seq<char>| after.to_set().contains(k) <==> before.to_set().remove(
                key@,
            ).contains(k) by {
                if after.contains(k) {
                    let i = choose|i: int| 0 <= i < after.len() && after[i] == k;
                    let a = if i < p {
                        i
                    } else {
                        i + 1
                    };
                    assert(before[a] == k);
                    if k == key@ {
                        lemma_sorted_distinct(before, a, p as int);
                    }
                }
                if before.contains(k) && k != key@ {
                    let i = choose|i: int| 0 <= i < before.len() && before[i] == k;
                    if i < p {
                        assert(after[i] == k);
                    } else {
                        assert(after[i - 1] == k);
                    }
                }
            }
            assert(after.to_set() =~= before.to_set().remove(key@));
        }
    } else {
        assert(before.to_set() =~= before.to_set().remove(key@));
    }
}

/// Adds every element of `more` to the strictly increasing vector `keys`.
pub fn insert_all(keys: &mut Vec<String>, more: &Vec<String>)
    requires
        strictly_sorted(texts(old(keys)@)),
    ensures
        strictly_sorted(texts(final(keys)@)),
        texts(final(keys)@).to_set() == texts(old(keys)@).to_set().union(texts(more@).to_set()),
{
    let ghost start = texts(keys@).to_set();
    let ghost extra = texts(more@);
    let mut i: usize = 0;
    assert(texts(keys@).to_set() =~= start.union(extra.take(0).to_set()));
    while i < more.len()
        invariant
            i <= more.len(),
            extra == texts(more@),
            strictly_sorted(texts(keys@)),
            texts(keys@).to_set() == start.union(extra.take(i as int).to_set()),
        decreases more.len() - i,
    {
        insert_key(keys, more[i].as_str());
        proof {
            assert(extra[i as int] == more@[i as int]@);
            assert(extra.take(i + 1) =~= extra.take(i as int).push(extra[i as int]));
            extra.take(i as int).lemma_push_to_set_commute(extra[i as int]);
            assert(texts(keys@).to_set() =~= start.union(extra.take(i + 1).to_set()));
        }
        i += 1;
    }
    assert(extra.take(more.len() as int) =~= extra);
}

} // verus!
