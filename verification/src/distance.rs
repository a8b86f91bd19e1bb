//! Edit distance between byte strings.

use vstd::prelude::*;
use vstd::string::StringSliceAdditionalSpecFns;

verus! {

/// The smallest of three numbers.
pub open spec fn min3(a: nat, b: nat, c: nat) -> nat {
    if a <= b && a <= c {
        a
    } else if b <= c {
        b
    } else {
        c
    }
}

/// The Levenshtein distance of `a` and `b`: the least number of single-byte
/// insertions, deletions and substitutions that turn one into the other.
pub open spec fn edit_distance(a: Seq<u8>, b: Seq<u8>) -> nat
    decreases a.len() + b.len(),
{
    if a.len() == 0 {
        b.len()
    } else if b.len() == 0 {
        a.len()
    } else {
        min3(
            edit_distance(a.drop_last(), b) + 1,
            edit_distance(a, b.drop_last()) + 1,
            edit_distance(a.drop_last(), b.drop_last()) + if a.last() == b.last() {
                0nat
            } else {
                1nat
            },
        )
    }
}

/// The distance is at most the length of the longer string.
pub proof fn lemma_distance_bound(a: Seq<u8>, b: Seq<u8>)
    ensures
        edit_distance(a, b) <= a.len() || edit_distance(a, b) <= b.len(),
        edit_distance(a, b) <= a.len() + b.len(),
    decreases a.len() + b.len(),
{
    if a.len() > 0 && b.len() > 0 {
        lemma_distance_bound(a.drop_last(), b.drop_last());
    }
}

/// A string is at distance 0 from itself.
pub proof fn lemma_distance_self(a: Seq<u8>)
    ensures
        edit_distance(a, a) == 0,
    decreases a.len(),
{
    if a.len() > 0 {
        lemma_distance_self(a.drop_last());
    }
}

/// The distance between the `i` first bytes of `a` and the `j` first of `b`.
pub open spec fn prefix_distance(a: Seq<u8>, b: Seq<u8>, i: int, j: int) -> nat {
    edit_distance(a.take(i), b.take(j))
}

/// How the distance of two non-empty prefixes follows from those of shorter ones.
proof fn lemma_prefix_step(a: Seq<u8>, b: Seq<u8>, i: int, j: int)
    requires
        0 < i <= a.len(),
        0 < j <= b.len(),
    ensures
        prefix_distance(a, b, i, j) == min3(
            prefix_distance(a, b, i - 1, j) + 1,
            prefix_distance(a, b, i, j - 1) + 1,
            prefix_distance(a, b, i - 1, j - 1) + if a[i - 1] == b[j - 1] {
                0nat
            } else {
                1nat
            },
        ),
{
    assert(a.take(i).drop_last() =~= a.take(i - 1));
    assert(b.take(j).drop_last() =~= b.take(j - 1));
}

/// The Levenshtein distance of two byte strings.
pub fn bytes_distance(left: &[u8], right: &[u8]) -> (d: usize)
    ensures
        d == edit_distance(left@, right@),
{
    let n = left.len();
    let m = right.len();
    proof {
        lemma_distance_bound(left@, right@);
        assert(left@.take(n as int) =~= left@);
        assert(right@.take(m as int) =~= right@);
    }
    if m == 0 {
        return n;
    }
    // `previous[j]` is the distance between the rows' prefix of `left` and
    // the `j + 1` first bytes of `right`.
    let mut previous: Vec<usize> = Vec::new();
    let mut j: usize = 0;
    while j < m
        invariant
            j <= m == right@.len(),
            previous@.len() == j,
            forall|k: int| 0 <= k < j ==> previous@[k] == prefix_distance(left@, right@, 0, k + 1),
        decreases m - j,
    {
        previous.push(j + 1);
        j += 1;
    }
    let mut i: usize = 0;
    while i < n
        invariant
            i <= n == left@.len(),
            0 < m == right@.len(),
            previous@.len() == m,
            forall|k: int| 0 <= k < m ==> previous@[k] == prefix_distance(left@, right@, i as int, k + 1),
        decreases n - i,
    {
        let mut current: Vec<usize> = Vec::new();
        let mut j: usize = 0;
        while j < m
            invariant
                i < n == left@.len(),
                j <= m == right@.len(),
                previous@.len() == m,
                current@.len() == j,
                forall|k: int|
                    0 <= k < m ==> previous@[k] == prefix_distance(left@, right@, i as int, k + 1),
                forall|k: int| 0 <= k < j ==> current@[k] == prefix_distance(left@, right@, i + 1, k + 1),
            decreases m - j,
        {
            proof {
                lemma_prefix_step(left@, right@, i + 1, j + 1);
                lemma_distance_bound(left@.take(i + 1), right@.take(j + 1));
                lemma_distance_bound(left@.take(i + 1), right@.take(j as int));
                lemma_distance_bound(left@.take(i as int), right@.take(j + 1));
                lemma_distance_bound(left@.take(i as int), right@.take(j as int));
            }
            // Distances to the shorter prefixes: by deletion, insertion, substitution.
            let above: u128 = previous[j] as u128 + 1;
            let beside: u128 = if j == 0 {
                i as u128 + 1
            } else {
                current[j - 1] as u128
            } + 1;
            let diagonal: u128 = if j == 0 {
                i as u128
            } else {
                previous[j - 1] as u128
            } + if left[i] == right[j] {
                0
            } else {
                1
            };
            let best: u128 = if above <= beside && above <= diagonal {
                above
            } else if beside <= diagonal {
                beside
            } else {
                diagonal
            };
            current.push(best as usize);
            j += 1;
        }
        previous = current;
        i += 1;
    }
    previous[m - 1]
}

/// The Levenshtein distance of two strings, counted in bytes of UTF-8.
pub fn levenshtein(left: &str, right: &str) -> (d: usize)
    ensures
        d == edit_distance(left.spec_bytes(), right.spec_bytes()),
{
    bytes_distance(left.as_bytes(), right.as_bytes())
}

} // verus!
