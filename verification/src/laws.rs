//! What holds of a populated map, proved over the model.
use crate::model::{extended, extended_in_batches, has_key, keys_distinct, populated, same_pairs};
use vstd::prelude::*;

verus! {

/// A key is in the extended map exactly if it was in the map or some pair has it, and a
/// key that no pair has keeps its value.
pub proof fn lemma_extended_keys<K, V>(m: Map<K, V>, pairs: Seq<(K, V)>, k: K)
    ensures
        extended(m, pairs).contains_key(k) <==> m.contains_key(k) || has_key(pairs, k),
        !has_key(pairs, k) ==> extended(m, pairs)[k] == m[k],
    decreases pairs.len(),
{
    if pairs.len() > 0 {
        let front = pairs.drop_last();
        lemma_extended_keys(m, front, k);
        if has_key(front, k) {
            let i = choose|i: int| 0 <= i < front.len() && #[trigger] front[i].0 == k;
            assert(pairs[i].0 == k);
        }
        if has_key(pairs, k) && pairs.last().0 != k {
            let i = choose|i: int| 0 <= i < pairs.len() && #[trigger] pairs[i].0 == k;
            assert(front[i].0 == k);
        }
        if pairs.last().0 == k {
            assert(pairs[pairs.len() - 1].0 == k);
        }
    }
}

/// The pair at `i` is retrievable from the extended map if no later pair has its key.
pub proof fn lemma_extended_value<K, V>(m: Map<K, V>, pairs: Seq<(K, V)>, i: int)
    requires
        0 <= i < pairs.len(),
        forall|j: int| i < j < pairs.len() ==> pairs[j].0 != pairs[i].0,
    ensures
        extended(m, pairs).contains_key(pairs[i].0),
        extended(m, pairs)[pairs[i].0] == pairs[i].1,
    decreases pairs.len(),
{
    if i < pairs.len() - 1 {
        let front = pairs.drop_last();
        assert(front[i] == pairs[i]);
        assert(pairs.last() == pairs[pairs.len() - 1]);
        lemma_extended_value(m, front, i);
    }
}

/// Extending by nothing changes nothing: the map keeps its content, and so its size.
pub proof fn lemma_extend_by_nothing<K, V>(m: Map<K, V>)
    ensures
        extended(m, Seq::<(K, V)>::empty()) == m,
        extended(m, Seq::<(K, V)>::empty()).len() == m.len(),
{
}

/// Extending a finite map gives a finite map that is no smaller and has grown by at most
/// one key for each pair.
pub proof fn lemma_extended_finite<K, V>(m: Map<K, V>, pairs: Seq<(K, V)>)
    requires
        m.dom().finite(),
    ensures
        extended(m, pairs).dom().finite(),
        m.len() <= extended(m, pairs).len() <= m.len() + pairs.len(),
    decreases pairs.len(),
{
    if pairs.len() > 0 {
        lemma_extended_finite(m, pairs.drop_last());
    }
}

/// Extending by pairs whose keys differ from each other and from the keys of the map makes
/// the map larger by exactly the number of pairs, and every pair is retrievable afterwards.
pub proof fn lemma_extend_by_new_keys<K, V>(m: Map<K, V>, pairs: Seq<(K, V)>)
    requires
        m.dom().finite(),
        keys_distinct(pairs),
        forall|i: int| 0 <= i < pairs.len() ==> !m.contains_key(#[trigger] pairs[i].0),
    ensures
        extended(m, pairs).dom().finite(),
        extended(m, pairs).len() == m.len() + pairs.len(),
        forall|i: int|
            0 <= i < pairs.len() ==> extended(m, pairs).contains_key(#[trigger] pairs[i].0)
                && extended(m, pairs)[pairs[i].0] == pairs[i].1,
        forall|k: K| #[trigger]
            m.contains_key(k) ==> extended(m, pairs).contains_key(k) && extended(m, pairs)[k]
                == m[k],
    decreases pairs.len(),
{
    assert forall|i: int| 0 <= i < pairs.len() implies extended(m, pairs).contains_key(
        #[trigger] pairs[i].0,
    ) && extended(m, pairs)[pairs[i].0] == pairs[i].1 by {
        lemma_extended_value(m, pairs, i);
    }
    assert forall|k: K| #[trigger] m.contains_key(k) implies extended(m, pairs).contains_key(k)
        && extended(m, pairs)[k] == m[k] by {
        lemma_extended_keys(m, pairs, k);
        if has_key(pairs, k) {
            let i = choose|i: int| 0 <= i < pairs.len() && #[trigger] pairs[i].0 == k;
            assert(!m.contains_key(pairs[i].0));
        }
    }
    if pairs.len() > 0 {
        let front = pairs.drop_last();
        let last = pairs.last();
        assert forall|i: int| 0 <= i < front.len() implies !m.contains_key(
            #[trigger] front[i].0,
        ) by {
            assert(front[i] == pairs[i]);
        }
        assert(keys_distinct(front)) by {
            assert forall|i: int, j: int|
                0 <= i < front.len() && 0 <= j < front.len() && i != j implies front[i].0
                != front[j].0 by {
                assert(front[i] == pairs[i] && front[j] == pairs[j]);
            }
        }
        lemma_extend_by_new_keys(m, front);
        lemma_extended_keys(m, front, last.0);
        assert(!has_key(front, last.0)) by {
            if has_key(front, last.0) {
                let i = choose|i: int| 0 <= i < front.len() && #[trigger] front[i].0 == last.0;
                assert(front[i] == pairs[i]);
                assert(pairs[pairs.len() - 1].0 == last.0);
            }
        }
        assert(!m.contains_key(pairs[pairs.len() - 1].0));
        assert(!extended(m, front).contains_key(last.0));
    }
}

/// Extending by pairs whose keys the map already has leaves its keys, and so its size, as
/// they were; each such key then holds the value of the last pair that has it.
pub proof fn lemma_extend_overwrites<K, V>(m: Map<K, V>, pairs: Seq<(K, V)>)
    requires
        forall|i: int| 0 <= i < pairs.len() ==> m.contains_key(#[trigger] pairs[i].0),
    ensures
        extended(m, pairs).dom() == m.dom(),
        extended(m, pairs).len() == m.len(),
        forall|i: int|
            0 <= i < pairs.len() && (forall|j: int| i < j < pairs.len() ==> pairs[j].0 != pairs[i].0)
                ==> extended(m, pairs)[#[trigger] pairs[i].0] == pairs[i].1,
{
    assert forall|k: K| extended(m, pairs).dom().contains(k) <==> m.dom().contains(k) by {
        lemma_extended_keys(m, pairs, k);
        if has_key(pairs, k) {
            let i = choose|i: int| 0 <= i < pairs.len() && #[trigger] pairs[i].0 == k;
            assert(m.contains_key(pairs[i].0));
        }
    }
    assert(extended(m, pairs).dom() =~= m.dom());
    assert forall|i: int|
        0 <= i < pairs.len() && (forall|j: int| i < j < pairs.len() ==> pairs[j].0 != pairs[i].0)
        implies extended(m, pairs)[#[trigger] pairs[i].0] == pairs[i].1 by {
        lemma_extended_value(m, pairs, i);
    }
}

/// One new pair for a key that the map has replaces the value and adds no key.
pub proof fn lemma_extend_overwrites_one<K, V>(m: Map<K, V>, key: K, value: V)
    requires
        m.contains_key(key),
    ensures
        extended(m, seq![(key, value)]) == m.insert(key, value),
        extended(m, seq![(key, value)])[key] == value,
        extended(m, seq![(key, value)]).len() == m.len(),
{
    let pairs = seq![(key, value)];
    assert(pairs.drop_last() == Seq::<(K, V)>::empty());
    assert(extended(m, pairs.drop_last()) == m);
    assert(pairs.last() == (key, value));
    assert(m.insert(key, value).dom() =~= m.dom());
}

/// A map built from nothing is empty.
pub proof fn lemma_build_from_nothing<K, V>()
    ensures
        extended(Map::<K, V>::empty(), Seq::<(K, V)>::empty()) == Map::<K, V>::empty(),
        extended(Map::<K, V>::empty(), Seq::<(K, V)>::empty()).len() == 0,
{
}

/// A map built from pairs with distinct keys has one key for each pair, and every pair is
/// retrievable from it.
pub proof fn lemma_build_from_distinct_keys<K, V>(pairs: Seq<(K, V)>)
    requires
        keys_distinct(pairs),
    ensures
        extended(Map::<K, V>::empty(), pairs).dom().finite(),
        extended(Map::<K, V>::empty(), pairs).len() == pairs.len(),
        forall|i: int|
            0 <= i < pairs.len() ==> extended(Map::<K, V>::empty(), pairs).contains_key(
                #[trigger] pairs[i].0,
            ) && extended(Map::<K, V>::empty(), pairs)[pairs[i].0] == pairs[i].1,
{
    lemma_extend_by_new_keys(Map::<K, V>::empty(), pairs);
}

/// A map built from pairs has exactly the keys of the pairs, so as many as the pairs have
/// distinct keys: pairs with equal keys collapse into one entry.
pub proof fn lemma_build_keys<K, V>(pairs: Seq<(K, V)>)
    ensures
        extended(Map::<K, V>::empty(), pairs).dom() == Set::new(|k: K| has_key(pairs, k)),
        extended(Map::<K, V>::empty(), pairs).len() == Set::new(|k: K| has_key(pairs, k)).len(),
{
    assert forall|k: K|
        extended(Map::<K, V>::empty(), pairs).dom().contains(k) <==> has_key(pairs, k) by {
        lemma_extended_keys(Map::<K, V>::empty(), pairs, k);
    }
    assert(extended(Map::<K, V>::empty(), pairs).dom() =~= Set::new(|k: K| has_key(pairs, k)));
}

/// Inserting one batch and then another is inserting the two in a row.
pub proof fn lemma_extended_concat<K, V>(m: Map<K, V>, a: Seq<(K, V)>, b: Seq<(K, V)>)
    ensures
        extended(extended(m, a), b) == extended(m, a + b),
    decreases b.len(),
{
    if b.len() == 0 {
        assert(a + b == a);
    } else {
        lemma_extended_concat(m, a, b.drop_last());
        assert((a + b).drop_last() == a + b.drop_last());
        assert((a + b).last() == b.last());
    }
}

/// However a sequence of pairs is cut into batches, inserting the batches one after the
/// other gives the map that inserting the whole sequence gives.
pub proof fn lemma_batches_are_one_sequence<K, V>(m: Map<K, V>, batches: Seq<Seq<(K, V)>>)
    ensures
        extended_in_batches(m, batches) == extended(m, batches.flatten()),
    decreases batches.len(),
{
    if batches.len() == 0 {
        assert(batches.flatten() == Seq::<(K, V)>::empty());
    } else {
        let front = batches.drop_last();
        lemma_batches_are_one_sequence(m, front);
        lemma_extended_concat(m, front.flatten(), batches.last());
        assert(batches == front.push(batches.last()));
        front.lemma_flatten_push(batches.last());
    }
}

/// A key that some pair has holds, in the extended map, the value of one of the pairs
/// that have it.
pub proof fn lemma_extended_value_is_written<K, V>(m: Map<K, V>, pairs: Seq<(K, V)>, k: K)
    requires
        has_key(pairs, k),
    ensures
        exists|i: int|
            0 <= i < pairs.len() && #[trigger] pairs[i] == (k, extended(m, pairs)[k]),
    decreases pairs.len(),
{
    let last = pairs.len() - 1;
    if pairs[last].0 == k {
        assert(pairs[last] == (k, extended(m, pairs)[k]));
    } else {
        let front = pairs.drop_last();
        let w = choose|i: int| 0 <= i < pairs.len() && #[trigger] pairs[i].0 == k;
        assert(front[w].0 == k);
        lemma_extended_value_is_written(m, front, k);
        let i = choose|i: int|
            0 <= i < front.len() && #[trigger] front[i] == (k, extended(m, front)[k]);
        assert(pairs[i] == (k, extended(m, pairs)[k]));
    }
}

/// In whatever order the pairs are inserted, the map that results is a populated one.
pub proof fn lemma_any_order_populates<K, V>(m: Map<K, V>, pairs: Seq<(K, V)>, order: Seq<(K, V)>)
    requires
        same_pairs(pairs, order),
    ensures
        populated(m, pairs, extended(m, order)),
{
    let after = extended(m, order);
    assert forall|k: K| has_key(pairs, k) <==> has_key(order, k) by {
        if has_key(pairs, k) {
            let i = choose|i: int| 0 <= i < pairs.len() && #[trigger] pairs[i].0 == k;
            assert(pairs.contains(pairs[i]));
            assert(order.contains(pairs[i]));
            let j = choose|j: int| 0 <= j < order.len() && order[j] == pairs[i];
            assert(order[j].0 == k);
        }
        if has_key(order, k) {
            let i = choose|i: int| 0 <= i < order.len() && #[trigger] order[i].0 == k;
            assert(order.contains(order[i]));
            assert(pairs.contains(order[i]));
            let j = choose|j: int| 0 <= j < pairs.len() && pairs[j] == order[i];
            assert(pairs[j].0 == k);
        }
    }
    assert forall|k: K| #[trigger]
        after.contains_key(k) <==> m.contains_key(k) || has_key(pairs, k) by {
        lemma_extended_keys(m, order, k);
    }
    assert forall|k: K| #[trigger] m.contains_key(k) && !has_key(pairs, k) implies after[k]
        == m[k] by {
        lemma_extended_keys(m, order, k);
    }
    assert forall|k: K| #[trigger] has_key(pairs, k) implies exists|i: int|
        0 <= i < pairs.len() && #[trigger] pairs[i] == (k, after[k]) by {
        lemma_extended_value_is_written(m, order, k);
        let j = choose|j: int| 0 <= j < order.len() && #[trigger] order[j] == (k, after[k]);
        assert(order.contains(order[j]));
        assert(pairs.contains(order[j]));
        let i = choose|i: int| 0 <= i < pairs.len() && pairs[i] == order[j];
        assert(pairs[i] == (k, after[k]));
    }
}

/// Where the keys of the pairs are distinct, only one map is populated from them: the
/// result does not depend on who inserted which pair, nor when.
pub proof fn lemma_populated_is_unique<K, V>(
    m: Map<K, V>,
    pairs: Seq<(K, V)>,
    a: Map<K, V>,
    b: Map<K, V>,
)
    requires
        keys_distinct(pairs),
        populated(m, pairs, a),
        populated(m, pairs, b),
    ensures
        a == b,
{
    assert forall|k: K| a.contains_key(k) <==> b.contains_key(k) by {}
    assert forall|k: K| a.contains_key(k) implies a[k] == b[k] by {
        if has_key(pairs, k) {
            let i = choose|i: int| 0 <= i < pairs.len() && #[trigger] pairs[i] == (k, a[k]);
            let j = choose|j: int| 0 <= j < pairs.len() && #[trigger] pairs[j] == (k, b[k]);
            assert(pairs[i].0 == pairs[j].0);
        } else {
            assert(m.contains_key(k));
        }
    }
    assert(a =~= b);
}

/// Pairs with distinct keys give one and the same map in whatever order they are inserted
/// and into whatever batches they are cut.
pub proof fn lemma_partition_independent<K, V>(
    m: Map<K, V>,
    pairs: Seq<(K, V)>,
    batches: Seq<Seq<(K, V)>>,
)
    requires
        keys_distinct(pairs),
        same_pairs(pairs, batches.flatten()),
    ensures
        extended_in_batches(m, batches) == extended(m, pairs),
{
    lemma_batches_are_one_sequence(m, batches);
    lemma_any_order_populates(m, pairs, batches.flatten());
    lemma_any_order_populates(m, pairs, pairs);
    lemma_populated_is_unique(m, pairs, extended(m, batches.flatten()), extended(m, pairs));
}

/// Two batches that share no key can be inserted in either order: no entry of the one is
/// lost or changed by the other.
pub proof fn lemma_disjoint_batches_commute<K, V>(m: Map<K, V>, a: Seq<(K, V)>, b: Seq<(K, V)>)
    requires
        forall|k: K| !(has_key(a, k) && has_key(b, k)),
    ensures
        extended(extended(m, a), b) == extended(extended(m, b), a),
{
    let ab = extended(extended(m, a), b);
    let ba = extended(extended(m, b), a);
    assert forall|k: K| ab.contains_key(k) <==> ba.contains_key(k) by {
        lemma_extended_keys(m, a, k);
        lemma_extended_keys(extended(m, a), b, k);
        lemma_extended_keys(m, b, k);
        lemma_extended_keys(extended(m, b), a, k);
    }
    assert forall|k: K| ab.contains_key(k) implies ab[k] == ba[k] by {
        lemma_extended_keys(m, a, k);
        lemma_extended_keys(extended(m, a), b, k);
        lemma_extended_keys(m, b, k);
        lemma_extended_keys(extended(m, b), a, k);
        if has_key(a, k) {
            lemma_same_writes(m, extended(m, b), a, k);
        } else if has_key(b, k) {
            lemma_same_writes(m, extended(m, a), b, k);
        }
    }
    assert(ab =~= ba);
}

/// The value that the pairs give to one of their keys does not depend on the map that
/// they are inserted into.
pub proof fn lemma_same_writes<K, V>(m: Map<K, V>, n: Map<K, V>, pairs: Seq<(K, V)>, k: K)
    requires
        has_key(pairs, k),
    ensures
        extended(m, pairs)[k] == extended(n, pairs)[k],
    decreases pairs.len(),
{
    let last = pairs.len() - 1;
    if pairs[last].0 != k {
        let front = pairs.drop_last();
        let w = choose|i: int| 0 <= i < pairs.len() && #[trigger] pairs[i].0 == k;
        assert(front[w].0 == k);
        lemma_same_writes(m, n, front, k);
    }
}

} // verus!
