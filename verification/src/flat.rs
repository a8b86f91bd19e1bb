//! The flattened form of a record: a map from dotted path to text, kept in
//! key order.

use crate::keys::{find_slot, lemma_insert_keeps_sorted, lemma_slot_decides, slot_holds, texts};
use crate::keys::lemma_sorted_distinct;
use crate::text::{chars_of, strictly_sorted};
use vstd::prelude::*;

verus! {

/// A map from path to value. `keys` is strictly increasing and `values[i]`
/// belongs to `keys[i]`.
#[derive(Debug, Clone, PartialEq, Eq)]
pub struct FlatMap {
    pub keys: Vec<String>,
    pub values: Vec<String>,
}

/// The map that a strictly increasing key sequence and its values stand for.
pub open spec fn pairing<V>(keys: Seq<Seq<char>>, values: Seq<V>) -> Map<Seq<char>, V> {
    Map::new(|k: Seq<char>| keys.contains(k), |k: Seq<char>| values[keys.index_of(k)])
}

/// In a well-formed pairing the key at position `i` maps to the value at `i`.
pub proof fn lemma_pairing_at<V>(keys: Seq<Seq<char>>, values: Seq<V>, i: int)
    requires
        strictly_sorted(keys),
        keys.len() == values.len(),
        0 <= i < keys.len(),
    ensures
        pairing(keys, values).dom().contains(keys[i]),
        pairing(keys, values)[keys[i]] == values[i],
{
    assert(keys.contains(keys[i]));
    let j = keys.index_of(keys[i]);
    lemma_sorted_distinct(keys, i, j);
}

/// Putting a new key and its value at their slot adds one entry to the map.
pub proof fn lemma_pairing_insert<V>(
    keys: Seq<Seq<char>>,
    values: Seq<V>,
    p: int,
    key: Seq<char>,
    value: V,
)
    requires
        strictly_sorted(keys),
        strictly_sorted(keys.insert(p, key)),
        keys.len() == values.len(),
        0 <= p <= keys.len(),
        !keys.contains(key),
    ensures
        pairing(keys.insert(p, key), values.insert(p, value)) == pairing(keys, values).insert(
            key,
            value,
        ),
{
    let nk = keys.insert(p, key);
    let nv = values.insert(p, value);
    let a = pairing(nk, nv);
    let b = pairing(keys, values).insert(key, value);
    assert forall|k: Seq<char>| a.dom().contains(k) <==> b.dom().contains(k) by {
        if nk.contains(k) {
            let i = choose|i: int| 0 <= i < nk.len() && nk[i] == k;
            if i < p {
                assert(keys[i] == k);
            } else if i > p {
                assert(keys[i - 1] == k);
            }
        }
        if keys.contains(k) {
            let i = choose|i: int| 0 <= i < keys.len() && keys[i] == k;
            if i < p {
                assert(nk[i] == k);
            } else {
                assert(nk[i + 1] == k);
            }
        }
        if k == key {
            assert(nk[p] == k);
        }
    }
    assert forall|k: Seq<char>| a.dom().contains(k) implies a[k] == b[k] by {
        let i = choose|i: int| 0 <= i < nk.len() && nk[i] == k;
        lemma_pairing_at(nk, nv, i);
        if i < p {
            assert(keys[i] == k);
            lemma_pairing_at(keys, values, i);
        } else if i > p {
            assert(keys[i - 1] == k);
            lemma_pairing_at(keys, values, i - 1);
        }
    }
    assert(a =~= b);
}

/// Replacing the value at the position of an existing key updates one entry.
pub proof fn lemma_pairing_update<V>(keys: Seq<Seq<char>>, values: Seq<V>, p: int, value: V)
    requires
        strictly_sorted(keys),
        keys.len() == values.len(),
        0 <= p < keys.len(),
    ensures
        pairing(keys, values.update(p, value)) == pairing(keys, values).insert(keys[p], value),
{
    let nv = values.update(p, value);
    let a = pairing(keys, nv);
    let b = pairing(keys, values).insert(keys[p], value);
    assert(keys.contains(keys[p]));
    assert forall|k: Seq<char>| a.dom().contains(k) implies a[k] == b[k] by {
        let i = choose|i: int| 0 <= i < keys.len() && keys[i] == k;
        lemma_pairing_at(keys, nv, i);
        lemma_pairing_at(keys, values, i);
        if k == keys[p] {
            lemma_sorted_distinct(keys, i, p);
        }
    }
    assert(a =~= b);
}

impl FlatMap {
    /// Keys and values line up and the keys are strictly increasing.
    pub open spec fn wf(&self) -> bool {
        self.keys.len() == self.values.len() && strictly_sorted(texts(self.keys@))
    }

    /// The keys in increasing order.
    pub open spec fn key_texts(&self) -> Seq<Seq<char>> {
        texts(self.keys@)
    }

    /// The values in the order of their keys.
    pub open spec fn value_texts(&self) -> Seq<Seq<char>> {
        texts(self.values@)
    }

    /// The empty map.
    pub fn new() -> (m: FlatMap)
        ensures
            m.wf(),
            m@ == Map::<Seq<char>, Seq<char>>::empty(),
            m.keys@.len() == 0,
    {
        let m = FlatMap { keys: Vec::new(), values: Vec::new() };
        assert(m@ =~= Map::<Seq<char>, Seq<char>>::empty());
        m
    }

    /// The number of entries.
    pub fn len(&self) -> (n: usize)
        ensures
            n == self.keys.len(),
    {
        self.keys.len()
    }

    /// Whether the map has no entry.
    pub fn is_empty(&self) -> (r: bool)
        ensures
            r == (self.keys.len() == 0),
    {
        self.keys.len() == 0
    }

    /// The value stored for `key`, if any.
    pub fn get(&self, key: &str) -> (r: Option<&String>)
        requires
            self.wf(),
        ensures
            r is Some <==> self@.dom().contains(key@),
            r matches Some(v) ==> v@ == self@[key@],
    {
        let probe = chars_of(key);
        let p = find_slot(&self.keys, &probe);
        proof {
            lemma_slot_decides(texts(self.keys@), p as int, key@);
        }
        if slot_holds(&self.keys, p, &probe) {
            proof {
                lemma_pairing_at(self.key_texts(), self.value_texts(), p as int);
            }
            Some(&self.values[p])
        } else {
            None
        }
    }

    /// Stores `value` for `key`, replacing what was stored for it before.
    pub fn insert(&mut self, key: String, value: String)
        requires
            old(self).wf(),
        ensures
            final(self).wf(),
            final(self)@ == old(self)@.insert(key@, value@),
    {
        let probe = chars_of(key.as_str());
        let p = find_slot(&self.keys, &probe);
        let ghost keys0 = self.key_texts();
        let ghost values0 = self.value_texts();
        proof {
            lemma_slot_decides(keys0, p as int, key@);
        }
        if slot_holds(&self.keys, p, &probe) {
            self.values.remove(p);
            self.values.insert(p, value);
            proof {
                assert(self.value_texts() =~= values0.update(p as int, value@));
                assert(self.key_texts() =~= keys0);
                lemma_pairing_update(keys0, values0, p as int, value@);
            }
        } else {
            self.keys.insert(p, key);
            self.values.insert(p, value);
            proof {
                assert(self.key_texts() =~= keys0.insert(p as int, key@));
                assert(self.value_texts() =~= values0.insert(p as int, value@));
                lemma_insert_keeps_sorted(keys0, p as int, key@);
                lemma_pairing_insert(keys0, values0, p as int, key@, value@);
            }
        }
    }
}

impl View for FlatMap {
    type V = Map<Seq<char>, Seq<char>>;

    open spec fn view(&self) -> Map<Seq<char>, Seq<char>> {
        pairing(texts(self.keys@), texts(self.values@))
    }
}

} // verus!
