//! Laws relating the operations of the map, stated over its model.
use crate::key::HashKey;
use crate::table::HashMap;
use vstd::prelude::*;

verus! {

/// The map obtained by inserting `pairs` in order into an empty map.
pub open spec fn inserted<A, V>(pairs: Seq<(A, V)>) -> Map<A, V>
    decreases pairs.len(),
{
    if pairs.len() == 0 {
        Map::empty()
    } else {
        inserted(pairs.drop_last()).insert(pairs.last().0, pairs.last().1)
    }
}

/// No two of `pairs` have the same key.
pub open spec fn distinct_keys<A, V>(pairs: Seq<(A, V)>) -> bool {
    forall|i: int, j: int|
        0 <= i < pairs.len() && 0 <= j < pairs.len() && i != j ==> (#[trigger] pairs[i]).0
            != (#[trigger] pairs[j]).0
}

/// Inserting pairs with distinct keys into an empty map gives a map with as
/// many entries as there were pairs, each pair's key associated with that
/// pair's value; so no association is lost when the table grows on the way.
pub proof fn lemma_distinct_inserts<A, V>(pairs: Seq<(A, V)>)
    requires
        distinct_keys(pairs),
    ensures
        inserted(pairs).dom().finite(),
        inserted(pairs).len() == pairs.len(),
        forall|i: int| 0 <= i < pairs.len() ==> inserted(pairs).get((#[trigger] pairs[i]).0) == Some(pairs[i].1),
        forall|a: A| #[trigger] inserted(pairs).contains_key(a) ==> exists|i: int| 0 <= i < pairs.len() && (#[trigger] pairs[i]).0 == a,
    decreases pairs.len(),
{
    if pairs.len() > 0 {
        let init = pairs.drop_last();
        assert(distinct_keys(init)) by {
            assert forall|i: int, j: int| 0 <= i < init.len() && 0 <= j < init.len() && i != j
                implies (#[trigger] init[i]).0 != (#[trigger] init[j]).0 by {
                assert(init[i] == pairs[i]);
                assert(init[j] == pairs[j]);
            }
        }
        lemma_distinct_inserts(init);
        let last = pairs.last();
        assert(!inserted(init).contains_key(last.0)) by {
            if inserted(init).contains_key(last.0) {
                let i = choose|i: int| 0 <= i < init.len() && (#[trigger] init[i]).0 == last.0;
                assert(pairs[i] == init[i]);
                assert(pairs[pairs.len() - 1] == last);
            }
        }
        assert forall|i: int| 0 <= i < pairs.len() implies inserted(pairs).get((#[trigger] pairs[i]).0) == Some(pairs[i].1) by {
            if i < init.len() {
                assert(init[i] == pairs[i]);
                assert(pairs[pairs.len() - 1] == last);
            }
        }
        assert forall|a: A| #[trigger] inserted(pairs).contains_key(a) implies exists|i: int| 0 <= i < pairs.len() && (#[trigger] pairs[i]).0 == a by {
            if a == last.0 {
                assert(pairs[pairs.len() - 1] == last);
            } else {
                let i = choose|i: int| 0 <= i < init.len() && (#[trigger] init[i]).0 == a;
                assert(pairs[i] == init[i]);
            }
        }
    }
}

/// Inserting a second value for a key hands back the first one, leaves the
/// second one in place, and does not change the number of entries.
pub proof fn lemma_insert_twice<A, V>(m: Map<A, V>, k: A, v1: V, v2: V)
    requires
        m.dom().finite(),
    ensures
        m.insert(k, v1).get(k) == Some(v1),
        m.insert(k, v1).insert(k, v2).get(k) == Some(v2),
        m.insert(k, v1).insert(k, v2).len() == m.insert(k, v1).len(),
{
    assert(m.insert(k, v1).dom().insert(k) =~= m.insert(k, v1).dom());
}

/// Removing a key just inserted hands back its value, leaves the key absent,
/// and takes one entry away.
pub proof fn lemma_remove_after_insert<A, V>(m: Map<A, V>, k: A, v: V)
    requires
        m.dom().finite(),
    ensures
        m.insert(k, v).get(k) == Some(v),
        m.insert(k, v).remove(k).get(k) == None::<V>,
        m.insert(k, v).remove(k).len() == m.insert(k, v).len() - 1,
{
}

/// In a map that never received an entry, every key is absent and removing
/// one changes nothing.
pub proof fn lemma_empty_map<A, V>(k: A)
    ensures
        Map::<A, V>::empty().get(k) == None::<V>,
        !Map::<A, V>::empty().contains_key(k),
        Map::<A, V>::empty().remove(k) == Map::<A, V>::empty(),
        Map::<A, V>::empty().len() == 0,
{
    assert(Map::<A, V>::empty().remove(k) =~= Map::<A, V>::empty());
}

/// After inserting pairs with distinct keys, iteration yields exactly those
/// pairs, each once, in some order.
pub proof fn lemma_round_trip<K: HashKey, V>(map: &HashMap<K, V>, pairs: Seq<(K::V, V)>)
    requires
        map.wf(),
        distinct_keys(pairs),
        map@ == inserted(pairs),
    ensures
        map.entries().len() == pairs.len(),
        forall|x: int|
            0 <= x < map.entries().len() ==> exists|i: int|
                0 <= i < pairs.len() && (#[trigger] pairs[i]) == ((#[trigger] map.entries()[x]).0@, map.entries()[x].1),
        forall|i: int|
            0 <= i < pairs.len() ==> exists|x: int|
                0 <= x < map.entries().len() && (#[trigger] pairs[i]) == ((#[trigger] map.entries()[x]).0@, map.entries()[x].1),
        forall|x1: int, x2: int|
            0 <= x1 < map.entries().len() && 0 <= x2 < map.entries().len() && x1 != x2
                ==> (#[trigger] map.entries()[x1]).0@ != (#[trigger] map.entries()[x2]).0@,
{
    map.lemma_entries();
    lemma_distinct_inserts(pairs);
    let s = map.entries();
    assert forall|x: int| 0 <= x < s.len() implies exists|i: int|
        0 <= i < pairs.len() && (#[trigger] pairs[i]) == ((#[trigger] s[x]).0@, s[x].1) by {
        let a = s[x].0@;
        assert(inserted(pairs).contains_key(a));
        let i = choose|i: int| 0 <= i < pairs.len() && (#[trigger] pairs[i]).0 == a;
        assert(inserted(pairs).get(pairs[i].0) == Some(pairs[i].1));
    }
    assert forall|i: int| 0 <= i < pairs.len() implies exists|x: int|
        0 <= x < s.len() && (#[trigger] pairs[i]) == ((#[trigger] s[x]).0@, s[x].1) by {
        assert(inserted(pairs).get(pairs[i].0) == Some(pairs[i].1));
        assert(map@.contains_key(pairs[i].0));
        let x = choose|x: int| 0 <= x < s.len() && (#[trigger] s[x]).0@ == pairs[i].0;
    }
}

} // verus!
