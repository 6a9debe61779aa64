use super::{has_key, is_insert_point, sorted_keys, SkipList};
use crate::order::{key_eq, key_lt, lemma_key_order, lemma_key_refl};
use crate::{KeyNotFound, OutOfBounds};
use vstd::laws_cmp::obeys_cmp;
use vstd::prelude::*;

verus! {

/// In a well-formed list the entries, and so the results of `peek_at_index`
/// for indices `0..length`, come in strictly increasing key order.
pub proof fn law_rank_order<K: Ord, V>(l: &SkipList<K, V>)
    requires
        l.wf(),
    ensures
        sorted_keys(l@),
{
    l.lemma_view();
}

/// Inserting keeps every key that was there and adds the inserted one, and
/// no other: the keys after a sequence of insertions are exactly the keys
/// inserted, and, the entries being sorted, `peek_at_index` lists them in
/// increasing order. The count grows by one exactly when the key is new.
pub proof fn law_insert_keys<K: Ord, V>(before: Seq<(K, V)>, after: Seq<(K, V)>, key: K, value: V)
    requires
        obeys_cmp::<K>(),
        sorted_keys(before),
        has_key(before, key) ==> exists|j: int|
            0 <= j < before.len() && key_eq(before[j].0, key) && after == before.update(j, (before[j].0, value)),
        !has_key(before, key) ==> exists|j: int|
            is_insert_point(before, key, j) && after == before.insert(j, (key, value)),
    ensures
        has_key(after, key),
        forall|k: K| has_key(before, k) ==> #[trigger] has_key(after, k),
        forall|k: K| #[trigger] has_key(after, k) ==> has_key(before, k) || key_eq(k, key),
        after.len() == before.len() + (if has_key(before, key) { 0int } else { 1int }),
{
    lemma_key_order::<K>();
    lemma_key_refl::<K>(key);
    if has_key(before, key) {
        let j = choose|j: int|
            0 <= j < before.len() && key_eq(before[j].0, key) && after == before.update(j, (before[j].0, value));
        assert(key_eq(after[j].0, key));
        assert forall|k: K| has_key(before, k) implies #[trigger] has_key(after, k) by {
            let m = choose|m: int| 0 <= m < before.len() && key_eq(#[trigger] before[m].0, k);
            assert(after[m].0 == before[m].0);
        }
        assert forall|k: K| #[trigger] has_key(after, k) implies has_key(before, k) || key_eq(k, key) by {
            let m = choose|m: int| 0 <= m < after.len() && key_eq(#[trigger] after[m].0, k);
            assert(after[m].0 == before[m].0);
        }
    } else {
        let j = choose|j: int| is_insert_point(before, key, j) && after == before.insert(j, (key, value));
        assert(key_eq(after[j].0, key));
        assert forall|k: K| has_key(before, k) implies #[trigger] has_key(after, k) by {
            let m = choose|m: int| 0 <= m < before.len() && key_eq(#[trigger] before[m].0, k);
            if m < j {
                assert(after[m].0 == before[m].0);
            } else {
                assert(after[m + 1].0 == before[m].0);
            }
        }
        assert forall|k: K| #[trigger] has_key(after, k) implies has_key(before, k) || key_eq(k, key) by {
            let m = choose|m: int| 0 <= m < after.len() && key_eq(#[trigger] after[m].0, k);
            if m < j {
                assert(after[m].0 == before[m].0);
            } else if m > j {
                assert(after[m].0 == before[m - 1].0);
            } else {
                assert(key_eq(key, k));
            }
        }
    }
}

/// `states` are the views of a list after inserting `pairs` one by one into
/// an empty list, as `insert` states them.
pub open spec fn inserted_one_by_one<K: Ord, V>(pairs: Seq<(K, V)>, states: Seq<Seq<(K, V)>>) -> bool {
    &&& states.len() == pairs.len() + 1
    &&& states[0].len() == 0
    &&& forall|m: int| #![trigger states[m + 1]] 0 <= m < pairs.len() ==> {
        &&& has_key(states[m], pairs[m].0) ==> exists|j: int|
            0 <= j < states[m].len() && key_eq(states[m][j].0, pairs[m].0)
                && states[m + 1] == states[m].update(j, (states[m][j].0, pairs[m].1))
        &&& !has_key(states[m], pairs[m].0) ==> exists|j: int|
            is_insert_point(states[m], pairs[m].0, j) && states[m + 1] == states[m].insert(j, pairs[m])
    }
}

/// Putting a new key at its insert point keeps the keys strictly increasing.
proof fn lemma_sorted_insert<K: Ord, V>(s: Seq<(K, V)>, e: (K, V), j: int)
    requires
        obeys_cmp::<K>(),
        sorted_keys(s),
        !has_key(s, e.0),
        is_insert_point(s, e.0, j),
    ensures
        sorted_keys(s.insert(j, e)),
{
    lemma_key_order::<K>();
    let key = e.0;
    let t = s.insert(j, e);
    assert forall|a: int, b: int| 0 <= a < b < t.len() implies key_lt(#[trigger] t[a].0, #[trigger] t[b].0) by {
        if b < j {
            assert(key_lt(s[a].0, s[b].0));
        } else if b == j {
            assert(key_lt(s[a].0, key));
        } else {
            assert(!key_lt(s[b - 1].0, key));
            assert(!key_eq(s[b - 1].0, key));
            assert(key_lt(key, s[b - 1].0));
            if a < j {
                assert(key_lt(s[a].0, key));
            } else if a > j {
                assert(key_lt(s[a - 1].0, s[b - 1].0));
            }
        }
    }
}

proof fn lemma_snapshot_prefix<K: Ord, V>(pairs: Seq<(K, V)>, states: Seq<Seq<(K, V)>>, m: int)
    requires
        obeys_cmp::<K>(),
        inserted_one_by_one(pairs, states),
        forall|a: int, b: int| 0 <= a < b < pairs.len() ==> !key_eq(#[trigger] pairs[a].0, #[trigger] pairs[b].0),
        0 <= m <= pairs.len(),
    ensures
        sorted_keys(states[m]),
        states[m].to_multiset() == pairs.subrange(0, m).to_multiset(),
    decreases m,
{
    broadcast use vstd::seq_lib::group_to_multiset_ensures;
    if m == 0 {
        assert(states[0] =~= Seq::<(K, V)>::empty());
        assert(pairs.subrange(0, 0) =~= Seq::<(K, V)>::empty());
    } else {
        let k = m - 1;
        lemma_snapshot_prefix(pairs, states, k);
        let s = states[k];
        let key = pairs[k].0;
        assert(!has_key(s, key)) by {
            if has_key(s, key) {
                let i = choose|i: int| 0 <= i < s.len() && key_eq(#[trigger] s[i].0, key);
                assert(s.contains(s[i]));
                vstd::seq_lib::to_multiset_contains(s, s[i]);
                vstd::seq_lib::to_multiset_contains(pairs.subrange(0, k), s[i]);
                assert(pairs.subrange(0, k).contains(s[i]));
                let q = choose|q: int| 0 <= q < k && #[trigger] pairs.subrange(0, k)[q] == s[i];
                assert(pairs[q] == s[i]);
                assert(!key_eq(pairs[q].0, pairs[k].0));
            }
        }
        assert(states[k + 1] == states[m]);
        let j = choose|j: int| is_insert_point(s, key, j) && states[k + 1] == s.insert(j, pairs[k]);
        lemma_sorted_insert(s, pairs[k], j);
        assert(pairs.subrange(0, m) =~= pairs.subrange(0, k).push(pairs[k]));
    }
}

/// Inserting pairs with distinct keys one by one into an empty list leaves
/// a sorted snapshot of them: the entries, which `peek_at_index` returns for
/// indices `0..length`, are the inserted pairs, each once, in increasing key
/// order.
pub proof fn law_sorted_snapshot<K: Ord, V>(pairs: Seq<(K, V)>, states: Seq<Seq<(K, V)>>)
    requires
        obeys_cmp::<K>(),
        inserted_one_by_one(pairs, states),
        forall|a: int, b: int| 0 <= a < b < pairs.len() ==> !key_eq(#[trigger] pairs[a].0, #[trigger] pairs[b].0),
    ensures
        sorted_keys(states[pairs.len() as int]),
        states[pairs.len() as int].to_multiset() == pairs.to_multiset(),
        states[pairs.len() as int].len() == pairs.len(),
{
    broadcast use vstd::seq_lib::group_to_multiset_ensures;
    lemma_snapshot_prefix(pairs, states, pairs.len() as int);
    assert(pairs.subrange(0, pairs.len() as int) =~= pairs);
    vstd::seq_lib::to_multiset_len(states[pairs.len() as int]);
    vstd::seq_lib::to_multiset_len(pairs);
}

/// In a well-formed list every stored span is the measured base-level
/// distance to the node its link leads to, or to the end of the list.
pub proof fn law_spans_measured<K: Ord, V>(l: &SkipList<K, V>)
    requires
        l.wf(),
    ensures
        l.spans_measured(),
{
}

/// In a well-formed list the number of entries, which `length` returns, is the
/// number of nodes that a full walk of the base level meets.
pub proof fn law_length_is_walk<K: Ord, V>(l: &SkipList<K, V>)
    requires
        l.wf(),
    ensures
        l.base_walk_len() == l@.len(),
{
    l.lemma_walk(0, l.nodes@.len());
}

/// A well-formed empty list has exactly one level: removing every entry
/// brings `max_level` back to 1.
pub proof fn law_empty_one_level<K: Ord, V>(l: &SkipList<K, V>)
    requires
        l.wf(),
        l@.len() == 0,
    ensures
        l.levels() == 1,
{
    l.lemma_empty_one_level();
}

/// In a well-formed list `max_level` is 1 or the height of the tallest node,
/// and every node reaches between 1 and `max_level` levels.
pub proof fn law_levels_in_use<K: Ord, V>(l: &SkipList<K, V>)
    requires
        l.wf(),
    ensures
        l.levels() == 1 || exists|i: int| 0 <= i < l@.len() && #[trigger] l.node_height(i) == l.levels(),
        forall|i: int| 0 <= i < l@.len() ==> 1 <= #[trigger] l.node_height(i) <= l.levels(),
{
    l.lemma_levels_in_use();
}

/// The keys of a well-formed list obey the laws of a total order.
pub proof fn law_keys_totally_ordered<K: Ord, V>(l: &SkipList<K, V>)
    requires
        l.wf(),
    ensures
        obeys_cmp::<K>(),
{
}

/// Inserting a new key and then popping it returns the inserted entry and
/// gives back the entries there were before the insertion.
pub proof fn law_insert_then_pop<K: Ord, V>(
    before: Seq<(K, V)>,
    inserted: Seq<(K, V)>,
    after: Seq<(K, V)>,
    key: K,
    value: V,
    popped: Result<(K, V), KeyNotFound>,
)
    requires
        obeys_cmp::<K>(),
        sorted_keys(before),
        !has_key(before, key),
        exists|j: int| is_insert_point(before, key, j) && inserted == before.insert(j, (key, value)),
        popped is Ok <==> has_key(inserted, key),
        popped is Ok ==> exists|j: int| 0 <= j < inserted.len() && key_eq(#[trigger] inserted[j].0, key)
            && popped == Ok::<(K, V), KeyNotFound>(inserted[j]) && after == inserted.remove(j),
    ensures
        popped == Ok::<(K, V), KeyNotFound>((key, value)),
        after == before,
        after.len() == before.len(),
{
    lemma_key_order::<K>();
    let j = choose|j: int| is_insert_point(before, key, j) && inserted == before.insert(j, (key, value));
    assert(key_eq(key, key)) by {
        lemma_key_refl::<K>(key);
    }
    assert(key_eq(inserted[j].0, key));
    assert(has_key(inserted, key));
    let m = choose|m: int| 0 <= m < inserted.len() && key_eq(#[trigger] inserted[m].0, key)
        && popped == Ok::<(K, V), KeyNotFound>(inserted[m]) && after == inserted.remove(m);
    if m < j {
        assert(inserted[m] == before[m]);
        assert(key_lt(before[m].0, key));
    } else if m > j {
        assert(inserted[m] == before[m - 1]);
        assert(!key_lt(before[m - 1].0, key));
        assert(key_eq(key, before[m - 1].0));
        assert(has_key(before, key));
    }
    assert(after =~= before);
}

/// Inserting a new key, editing its value, and popping the entry at the
/// key's rank returns the key with the edited value.
pub proof fn law_insert_edit_pop<K: Ord, V, F: FnOnce(V) -> V>(
    before: Seq<(K, V)>,
    inserted: Seq<(K, V)>,
    edited: Seq<(K, V)>,
    after: Seq<(K, V)>,
    key: K,
    value: V,
    modify: F,
    rank: int,
    popped: Result<(K, V), OutOfBounds>,
)
    requires
        obeys_cmp::<K>(),
        sorted_keys(before),
        !has_key(before, key),
        is_insert_point(before, key, rank),
        inserted == before.insert(rank, (key, value)),
        exists|j: int| 0 <= j < inserted.len() && key_eq(#[trigger] inserted[j].0, key)
            && exists|nv: V| modify.ensures((inserted[j].1,), nv)
            && edited == inserted.update(j, (inserted[j].0, nv)),
        rank < edited.len() ==> popped == Ok::<(K, V), OutOfBounds>(edited[rank]) && after == edited.remove(rank),
    ensures
        exists|nv: V| modify.ensures((value,), nv) && popped == Ok::<(K, V), OutOfBounds>((key, nv)),
        after.len() == before.len(),
{
    lemma_key_order::<K>();
    let j = choose|j: int| 0 <= j < inserted.len() && key_eq(#[trigger] inserted[j].0, key)
        && exists|nv: V| modify.ensures((inserted[j].1,), nv)
        && edited == inserted.update(j, (inserted[j].0, nv));
    if j < rank {
        assert(inserted[j] == before[j]);
        assert(key_lt(before[j].0, key));
    } else if j > rank {
        assert(inserted[j] == before[j - 1]);
        assert(!key_lt(before[j - 1].0, key));
        assert(key_eq(key, before[j - 1].0));
        assert(has_key(before, key));
    }
    let nv = choose|nv: V| modify.ensures((inserted[j].1,), nv) && edited == inserted.update(j, (inserted[j].0, nv));
    assert(edited[rank] == (key, nv));
}

} // verus!
