use std::hash::Hash;
use vstd::prelude::*;

use crate::trie::Trie;

verus! {

/// The map after inserting `keys[i] -> values[i]` for each index in turn.
pub open spec fn insert_all<S, V>(m: Map<Seq<S>, V>, keys: Seq<Seq<S>>, values: Seq<V>) -> Map<
    Seq<S>,
    V,
>
    decreases keys.len(),
{
    if keys.len() == 0 || values.len() == 0 {
        m
    } else {
        insert_all(m.insert(keys[0], values[0]), keys.drop_first(), values.drop_first())
    }
}

/// The map after removing each key of `keys` in turn.
pub open spec fn remove_all<S, V>(m: Map<Seq<S>, V>, keys: Seq<Seq<S>>) -> Map<Seq<S>, V>
    decreases keys.len(),
{
    if keys.len() == 0 {
        m
    } else {
        remove_all(m.remove(keys[0]), keys.drop_first())
    }
}

/// A value inserted under a key is what a lookup of that key finds.
pub proof fn law_get_after_insert<S, V>(
    before: Trie<S, V>,
    after: Trie<S, V>,
    key: Seq<S>,
    value: V,
)
    requires
        after.view() == before.view().insert(key, value),
    ensures
        after.view().get(key) == Some(value),
{
}

/// A second insertion under the same key replaces the first value: a lookup
/// finds the second, and the trie is as if the first had never happened. The
/// reference that the first insertion hands back borrows the trie, so it
/// cannot be held across the second.
pub proof fn law_overwrite<S, V>(
    before: Trie<S, V>,
    middle: Trie<S, V>,
    after: Trie<S, V>,
    key: Seq<S>,
    first: V,
    second: V,
)
    requires
        middle.view() == before.view().insert(key, first),
        after.view() == middle.view().insert(key, second),
    ensures
        after.view().get(key) == Some(second),
        after.view() == before.view().insert(key, second),
{
    assert(after.view() =~= before.view().insert(key, second));
}

/// Removing a key right after inserting it hands back the inserted value and
/// leaves the key absent.
pub proof fn law_remove_after_insert<S, V>(
    before: Trie<S, V>,
    middle: Trie<S, V>,
    after: Trie<S, V>,
    key: Seq<S>,
    value: V,
    removed: Option<V>,
)
    requires
        middle.view() == before.view().insert(key, value),
        removed == middle.view().get(key),
        after.view() == middle.view().remove(key),
    ensures
        removed == Some(value),
        after.view().get(key) is None,
        after.view() == before.view().remove(key),
{
    assert(after.view() =~= before.view().remove(key));
}

/// Removing one key leaves every other key, in particular one that shares a
/// prefix with it, with the value it had.
pub proof fn law_remove_keeps_others<S, V>(
    before: Trie<S, V>,
    after: Trie<S, V>,
    removed: Seq<S>,
    other: Seq<S>,
)
    requires
        after.view() == before.view().remove(removed),
        removed != other,
    ensures
        after.view().get(other) == before.view().get(other),
{
}

proof fn lemma_remove_all<S, V>(m: Map<Seq<S>, V>, keys: Seq<Seq<S>>)
    ensures
        remove_all(m, keys) == m.remove_keys(keys.to_set()),
    decreases keys.len(),
{
    if keys.len() > 0 {
        lemma_remove_all(m.remove(keys[0]), keys.drop_first());
        assert(keys.to_set() =~= keys.drop_first().to_set().insert(keys[0])) by {
            assert forall|k: Seq<S>| keys.contains(k) implies k == keys[0]
                || keys.drop_first().contains(k) by {
                let i = choose|i: int| 0 <= i < keys.len() && keys[i] == k;
                if i > 0 {
                    assert(keys.drop_first()[i - 1] == k);
                }
            }
            assert forall|k: Seq<S>| keys.drop_first().contains(k) implies keys.contains(k) by {
                let i = choose|i: int| 0 <= i < keys.drop_first().len() && keys.drop_first()[i] == k;
                assert(keys[i + 1] == k);
            }
            assert(keys.contains(keys[0]));
        }
        assert(m.remove(keys[0]).remove_keys(keys.drop_first().to_set()) =~= m.remove_keys(
            keys.to_set(),
        ));
    } else {
        assert(m.remove_keys(keys.to_set()) =~= m);
    }
}

proof fn lemma_insert_all_off_keys<S, V>(m: Map<Seq<S>, V>, keys: Seq<Seq<S>>, values: Seq<V>, k: Seq<S>)
    requires
        !keys.contains(k),
    ensures
        insert_all(m, keys, values).get(k) == m.get(k),
    decreases keys.len(),
{
    if keys.len() > 0 && values.len() > 0 {
        assert(keys[0] != k);
        assert(!keys.drop_first().contains(k)) by {
            if keys.drop_first().contains(k) {
                let i = choose|i: int| 0 <= i < keys.drop_first().len() && keys.drop_first()[i] == k;
                assert(keys[i + 1] == k);
            }
        }
        lemma_insert_all_off_keys(m.insert(keys[0], values[0]), keys.drop_first(), values.drop_first(), k);
    }
}

/// Inserting a list of keys and then removing the same keys leaves exactly
/// the keys that were there before and not on the list; from an empty trie
/// the result is empty again.
pub proof fn law_insert_then_remove_all<S, V>(
    m: Map<Seq<S>, V>,
    keys: Seq<Seq<S>>,
    values: Seq<V>,
)
    requires
        keys.len() == values.len(),
    ensures
        remove_all(insert_all(m, keys, values), keys) == m.remove_keys(keys.to_set()),
        m == Map::<Seq<S>, V>::empty() ==> remove_all(insert_all(m, keys, values), keys) == m,
{
    let full = insert_all(m, keys, values);
    lemma_remove_all(full, keys);
    assert forall|k: Seq<S>| !keys.to_set().contains(k) implies #[trigger] full.get(k) == m.get(k) by {
        lemma_insert_all_off_keys(m, keys, values, k);
    }
    assert(full.remove_keys(keys.to_set()) =~= m.remove_keys(keys.to_set())) by {
        assert forall|k: Seq<S>| #[trigger] full.remove_keys(keys.to_set()).contains_key(k)
            == m.remove_keys(keys.to_set()).contains_key(k) && (full.remove_keys(
            keys.to_set(),
        ).contains_key(k) ==> full.remove_keys(keys.to_set())[k] == m.remove_keys(
            keys.to_set(),
        )[k]) by {
            if !keys.to_set().contains(k) {
                assert(full.get(k) == m.get(k));
            }
        }
    }
    if m == Map::<Seq<S>, V>::empty() {
        assert(m.remove_keys(keys.to_set()) =~= m);
    }
}

/// A pruned trie whose keys have all been removed has no root node left,
/// like a new trie.
pub proof fn law_emptied_trie<S, V>(t: Trie<S, V>)
    requires
        t.wf(),
        t.view() == Map::<Seq<S>, V>::empty(),
    ensures
        !t.has_root(),
{
    t.lemma_empty_has_no_root();
}

} // verus!
