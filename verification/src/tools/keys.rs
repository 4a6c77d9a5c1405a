//! The keys of a map, in their order.

use std::cmp::Ordering;
use std::collections::BTreeMap;
use vstd::prelude::*;
use vstd::std_specs::btree::{axiom_increasing_seq_meaning, increasing_seq};
use vstd::std_specs::cmp::OrdSpec;
use vstd::std_specs::iter::IteratorSpec;

verus! {

broadcast use {vstd::laws_cmp::group_laws_cmp, vstd::std_specs::btree::group_btree_axioms};

/// Each number of `keys` is less than the next.
pub open spec fn ascending(keys: Seq<u32>) -> bool {
    forall|i: int, j: int| 0 <= i < j < keys.len() ==> keys[i] < keys[j]
}

/// `keys` lists the keys of `map`, each once, the least first.
pub open spec fn lists_keys<V>(keys: Seq<u32>, map: Map<u32, V>) -> bool {
    &&& ascending(keys)
    &&& keys.len() == map.dom().len()
    &&& forall|key: u32| keys.contains(key) <==> map.contains_key(key)
}

/// The keys of `map`, each once, the least first.
pub open spec fn keys_in_order<V>(map: Map<u32, V>) -> Seq<u32> {
    choose|keys: Seq<u32>| lists_keys(keys, map)
}

/// Only one list holds the keys of a map in their order.
pub proof fn lemma_keys_in_order<V>(keys: Seq<u32>, map: Map<u32, V>)
    requires
        lists_keys(keys, map),
    ensures
        keys == keys_in_order(map),
{
    lemma_same_keys(keys, keys_in_order(map));
}

/// Two ascending lists of the same numbers are one list.
proof fn lemma_same_keys(one: Seq<u32>, other: Seq<u32>)
    requires
        ascending(one),
        ascending(other),
        one.len() == other.len(),
        forall|key: u32| one.contains(key) <==> other.contains(key),
    ensures
        one == other,
    decreases one.len(),
{
    if one.len() > 0 {
        assert(one.contains(one[0]));
        assert(other.contains(other[0]));
        let i = choose|i: int| 0 <= i < one.len() && one[i] == other[0];
        let j = choose|j: int| 0 <= j < other.len() && other[j] == one[0];
        assert(one[0] == other[0]);
        let rest = one.drop_first();
        let others = other.drop_first();
        assert forall|key: u32| rest.contains(key) <==> others.contains(key) by {
            if rest.contains(key) {
                let k = choose|k: int| 0 <= k < rest.len() && rest[k] == key;
                assert(one[k + 1] == key);
                assert(one.contains(key));
                let l = choose|l: int| 0 <= l < other.len() && other[l] == key;
                assert(others[l - 1] == key);
            }
            if others.contains(key) {
                let k = choose|k: int| 0 <= k < others.len() && others[k] == key;
                assert(other[k + 1] == key);
                assert(other.contains(key));
                let l = choose|l: int| 0 <= l < one.len() && one[l] == key;
                assert(rest[l - 1] == key);
            }
        }
        assert forall|i: int, j: int| 0 <= i < j < rest.len() implies rest[i] < rest[j] by {
            assert(one[i + 1] < one[j + 1]);
        }
        assert forall|i: int, j: int| 0 <= i < j < others.len() implies others[i] < others[j] by {
            assert(other[i + 1] < other[j + 1]);
        }
        lemma_same_keys(rest, others);
        assert(one =~= seq![one[0]] + rest);
        assert(other =~= seq![other[0]] + others);
    } else {
        assert(one =~= other);
    }
}

/// The keys of `map`, the least first.
pub fn sorted_keys(map: &BTreeMap<u32, String>) -> (keys: Vec<u32>)
    ensures
        lists_keys(keys@, map@),
        keys@ == keys_in_order(map@),
{
    let mut keys: Vec<u32> = Vec::new();
    let ghost items = map.iter().remaining();
    for entry in it: map.iter()
        invariant
            keys@.len() == it.index(),
            it.seq() == items,
            forall|i: int| 0 <= i < keys@.len() ==> keys@[i] == *(#[trigger] it.seq()[i]).0,
    {
        keys.push(*entry.0);
    }
    proof {
        let listed = items.map_values(|entry: (&u32, &String)| *entry.0);
        assert(listed =~= keys@);
        assert(increasing_seq(listed));
        axiom_increasing_seq_meaning(listed);
        assert forall|i: int, j: int| 0 <= i < j < keys@.len() implies keys@[i] < keys@[j] by {
            assert(listed[i].cmp_spec(&listed[j]) == Ordering::Less);
        }
        assert forall|key: u32| keys@.contains(key) <==> map@.contains_key(key) by {
            if keys@.contains(key) {
                let i = choose|i: int| 0 <= i < keys@.len() && keys@[i] == key;
                assert(map@.contains_key(*items[i].0));
            }
            if map@.contains_key(key) {
                assert(items.contains((&key, &map@[key])));
                let i = choose|i: int| 0 <= i < items.len() && items[i] == (&key, &map@[key]);
                assert(keys@[i] == key);
            }
        }
        lemma_keys_in_order(keys@, map@);
    }
    keys
}

} // verus!
