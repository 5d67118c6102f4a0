//! Association sequences as mathematical maps.
//!
//! The flat graph and the resolver keep their keyed collections as vectors
//! of pairs; this module gives such a sequence its meaning as a `Map`
//! (later entries win) and proves the facts the graph code relies on.

use vstd::prelude::*;

verus! {

/// The map an association sequence denotes; a later entry overrides an
/// earlier one with the same key.
pub open spec fn entries_map<K, V>(entries: Seq<(K, V)>) -> Map<K, V>
    decreases entries.len(),
{
    if entries.len() == 0 {
        Map::empty()
    } else {
        entries_map(entries.drop_last()).insert(entries.last().0, entries.last().1)
    }
}

/// No two entries share a key.
pub open spec fn keys_distinct<K, V>(entries: Seq<(K, V)>) -> bool {
    forall|i: int, j: int| 0 <= i < j < entries.len() ==> (#[trigger] entries[i]).0 != (#[trigger] entries[j]).0
}

/// The domain of the denoted map is the set of keys that occur.
pub proof fn lemma_entries_map_dom<K, V>(entries: Seq<(K, V)>)
    ensures
        forall|k: K| entries_map(entries).dom().contains(k)
            <==> exists|i: int| 0 <= i < entries.len() && (#[trigger] entries[i]).0 == k,
    decreases entries.len(),
{
    if entries.len() > 0 {
        lemma_entries_map_dom(entries.drop_last());
        assert forall|k: K| entries_map(entries).dom().contains(k)
            implies exists|i: int| 0 <= i < entries.len() && (#[trigger] entries[i]).0 == k by {
            if k == entries.last().0 {
                assert(entries[entries.len() - 1].0 == k);
            } else {
                assert(entries_map(entries.drop_last()).dom().contains(k));
                let i = choose|i: int| 0 <= i < entries.drop_last().len()
                    && (#[trigger] entries.drop_last()[i]).0 == k;
                assert(entries.drop_last()[i] == entries[i]);
                assert(entries[i].0 == k);
            }
        }
        assert forall|k: K|
            exists|i: int| 0 <= i < entries.len() && (#[trigger] entries[i]).0 == k
            implies entries_map(entries).dom().contains(k) by {
            let i = choose|i: int| 0 <= i < entries.len() && (#[trigger] entries[i]).0 == k;
            if i < entries.len() - 1 {
                assert(entries.drop_last()[i] == entries[i]);
                assert(entries.drop_last()[i].0 == k);
                assert(entries_map(entries.drop_last()).dom().contains(k));
            } else {
                assert(entries.last().0 == k);
            }
        }
    }
}

/// With distinct keys, each entry is in the denoted map.
pub proof fn lemma_entries_map_index<K, V>(entries: Seq<(K, V)>, i: int)
    requires
        keys_distinct(entries),
        0 <= i < entries.len(),
    ensures
        entries_map(entries).dom().contains(entries[i].0),
        entries_map(entries)[entries[i].0] == entries[i].1,
    decreases entries.len(),
{
    if i == entries.len() - 1 {
    } else {
        assert(keys_distinct(entries.drop_last()));
        assert(entries.drop_last()[i] == entries[i]);
        lemma_entries_map_index(entries.drop_last(), i);
        assert(entries[i].0 != entries.last().0);
    }
}

/// Removing the entry at position `i` (keys distinct) removes its key.
pub proof fn lemma_entries_map_remove<K, V>(entries: Seq<(K, V)>, i: int)
    requires
        keys_distinct(entries),
        0 <= i < entries.len(),
    ensures
        entries_map(entries.remove(i)) == entries_map(entries).remove(entries[i].0),
    decreases entries.len(),
{
    if i == entries.len() - 1 {
        assert(entries.remove(i) =~= entries.drop_last());
        lemma_entries_map_dom(entries.drop_last());
        assert forall|j: int| 0 <= j < entries.drop_last().len()
            implies (#[trigger] entries.drop_last()[j]).0 != entries[i].0 by {
            assert(entries.drop_last()[j] == entries[j]);
        }
        assert(!entries_map(entries.drop_last()).dom().contains(entries[i].0));
        assert(entries_map(entries.drop_last()).remove(entries[i].0)
            =~= entries_map(entries.drop_last()));
        assert(entries_map(entries).remove(entries[i].0)
            =~= entries_map(entries.drop_last()));
    } else {
        assert(keys_distinct(entries.drop_last()));
        assert(entries.drop_last()[i] == entries[i]);
        lemma_entries_map_remove(entries.drop_last(), i);
        assert(entries.remove(i).drop_last() =~= entries.drop_last().remove(i));
        assert(entries.remove(i).last() == entries.last());
        assert(entries[i].0 != entries.last().0);
        assert(entries_map(entries.remove(i))
            =~= entries_map(entries).remove(entries[i].0));
    }
}

} // verus!
