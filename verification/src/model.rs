//! The mathematical model: what a map holds after a sequence of pairs was inserted into it.
use vstd::prelude::*;

verus! {

/// The map that results from inserting `pairs` into `m`, one after the other.
/// A later pair replaces the value that an earlier one gave to the same key.
pub open spec fn extended<K, V>(m: Map<K, V>, pairs: Seq<(K, V)>) -> Map<K, V>
    decreases pairs.len(),
{
    if pairs.len() == 0 {
        m
    } else {
        extended(m, pairs.drop_last()).insert(pairs.last().0, pairs.last().1)
    }
}

/// No key occurs in two places of `pairs`.
pub open spec fn keys_distinct<K, V>(pairs: Seq<(K, V)>) -> bool {
    forall|i: int, j: int|
        0 <= i < pairs.len() && 0 <= j < pairs.len() && i != j ==> pairs[i].0 != pairs[j].0
}

/// Some pair of `pairs` has the key `k`.
pub open spec fn has_key<K, V>(pairs: Seq<(K, V)>, k: K) -> bool {
    exists|i: int| 0 <= i < pairs.len() && #[trigger] pairs[i].0 == k
}

/// What holds of `after` whenever every pair of `pairs` was inserted into `before` exactly
/// once, in whatever order and by however many writers: the keys are those of `before` and
/// of `pairs`, a key that no pair has keeps its value, and a key that some pair has holds
/// the value of one of the pairs with that key.
pub open spec fn populated<K, V>(before: Map<K, V>, pairs: Seq<(K, V)>, after: Map<K, V>) -> bool {
    &&& forall|k: K| #[trigger]
        after.contains_key(k) <==> before.contains_key(k) || has_key(pairs, k)
    &&& forall|k: K| #[trigger]
        before.contains_key(k) && !has_key(pairs, k) ==> after[k] == before[k]
    &&& forall|k: K| #[trigger]
        has_key(pairs, k) ==> exists|i: int|
            0 <= i < pairs.len() && #[trigger] pairs[i] == (k, after[k])
}

/// `p` and `q` hold the same pairs, in whatever order.
pub open spec fn same_pairs<K, V>(p: Seq<(K, V)>, q: Seq<(K, V)>) -> bool {
    forall|x: (K, V)| p.contains(x) <==> q.contains(x)
}

/// The map after the batches were inserted one after the other.
pub open spec fn extended_in_batches<K, V>(m: Map<K, V>, batches: Seq<Seq<(K, V)>>) -> Map<K, V>
    decreases batches.len(),
{
    if batches.len() == 0 {
        m
    } else {
        extended(extended_in_batches(m, batches.drop_last()), batches.last())
    }
}

} // verus!
