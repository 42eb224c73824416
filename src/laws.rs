//! Laws that relate the map's operations to one another.
//!
//! Each law takes the states around the calls it speaks of, tied together by
//! what those calls ensure, and states what follows.
use vstd::prelude::*;
use crate::key::HashKey;
use crate::map::{grown_count, keys_distinct, HashMap};

verus! {

/// A value inserted under a key is what a lookup of that key then finds.
pub proof fn law_insert_then_get<K: HashKey, V>(
    before: &HashMap<K, V>,
    after: &HashMap<K, V>,
    key: K,
    value: V,
)
    requires
        before.wf(),
        after.wf(),
        after@ == before@.insert(key@, value),
    ensures
        after@.contains_key(key@),
        after@[key@] == value,
{
}

/// Inserting a key twice: the second insertion hands back the first value,
/// the map then holds the second one, and exactly one entry has that key.
pub proof fn law_replace<K: HashKey, V>(
    before: &HashMap<K, V>,
    mid: &HashMap<K, V>,
    after: &HashMap<K, V>,
    key: K,
    first: V,
    second: V,
)
    requires
        before.wf(),
        mid.wf(),
        after.wf(),
        mid@ == before@.insert(key@, first),
        after@ == mid@.insert(key@, second),
    ensures
        mid@.contains_key(key@) && mid@[key@] == first,
        after@[key@] == second,
        after@.len() == mid@.len(),
        exists|i: int|
            0 <= i < after.entries().len() && (#[trigger] after.entries()[i]).0@ == key@ && forall|
                j: int,
            |
                0 <= j < after.entries().len() && j != i ==> (#[trigger] after.entries()[j]).0@
                    != key@,
{
    mid.lemma_entries();
    after.lemma_entries();
    assert(mid@.dom() =~= after@.dom());
    let i = choose|i: int| 0 <= i < after.entries().len() && (#[trigger] after.entries()[i]).0@ == key@;
    assert(keys_distinct(after.entries()));
    assert forall|j: int| 0 <= j < after.entries().len() && j != i implies (
    #[trigger] after.entries()[j]).0@ != key@ by {}
}

/// Removing a key that was just inserted hands back its value and leaves it
/// absent.
pub proof fn law_insert_then_remove<K: HashKey, V>(
    before: &HashMap<K, V>,
    mid: &HashMap<K, V>,
    after: &HashMap<K, V>,
    key: K,
    value: V,
)
    requires
        before.wf(),
        mid.wf(),
        after.wf(),
        mid@ == before@.insert(key@, value),
        after@ == mid@.remove(key@),
    ensures
        mid@.contains_key(key@) && mid@[key@] == value,
        !after@.contains_key(key@),
{
}

/// Removing a key that is absent changes nothing, the size included.
pub proof fn law_remove_absent<K: HashKey, V>(before: &HashMap<K, V>, after: &HashMap<K, V>, key: &K)
    requires
        before.wf(),
        after.wf(),
        !before@.contains_key(key@),
        after@ == before@.remove(key@),
    ensures
        after@ == before@,
        after@.len() == before@.len(),
{
    assert(after@ =~= before@);
}

/// After insertions of `keys.len()` distinct keys into a fresh map, with no
/// removal, the map holds exactly that many entries.
pub proof fn law_distinct_inserts_len<K: HashKey, V>(
    maps: Seq<HashMap<K, V>>,
    keys: Seq<K>,
    values: Seq<V>,
)
    requires
        maps.len() == keys.len() + 1,
        values.len() == keys.len(),
        forall|i: int| 0 <= i < maps.len() ==> (#[trigger] maps[i]).wf(),
        maps[0]@ == Map::<K::V, V>::empty(),
        forall|i: int|
            0 <= i < keys.len() ==> #[trigger] maps[i + 1]@ == maps[i]@.insert(
                keys[i]@,
                values[i],
            ),
        forall|i: int, j: int| 0 <= i < j < keys.len() ==> keys[i]@ != keys[j]@,
    ensures
        maps.last()@.len() == keys.len(),
    decreases keys.len(),
{
    if keys.len() == 0 {
        assert(maps[0]@.dom() =~= Set::empty());
    } else {
        let n = keys.len() - 1;
        law_distinct_inserts_len(maps.drop_last(), keys.drop_last(), values.drop_last());
        let prev = maps[n];
        assert(maps.drop_last().last() == prev);
        assert(maps[n + 1]@ == prev@.insert(keys[n]@, values[n]));
        prev.lemma_entries();
        assert(!prev@.contains_key(keys[n]@)) by {
            law_keys_of_inserts(maps, keys, values, n);
        }
        assert(maps[n + 1]@.dom() =~= prev@.dom().insert(keys[n]@));
    }
}

/// After the first `upto` insertions, every key in the map is one of the
/// keys inserted so far.
proof fn law_keys_of_inserts<K: HashKey, V>(
    maps: Seq<HashMap<K, V>>,
    keys: Seq<K>,
    values: Seq<V>,
    upto: int,
)
    requires
        maps.len() == keys.len() + 1,
        values.len() == keys.len(),
        0 <= upto <= keys.len(),
        maps[0]@ == Map::<K::V, V>::empty(),
        forall|i: int|
            0 <= i < keys.len() ==> #[trigger] maps[i + 1]@ == maps[i]@.insert(
                keys[i]@,
                values[i],
            ),
        forall|i: int, j: int| 0 <= i < j < keys.len() ==> keys[i]@ != keys[j]@,
    ensures
        upto < keys.len() ==> !maps[upto]@.contains_key(keys[upto]@),
        forall|k: K::V|
            #[trigger] maps[upto]@.contains_key(k) ==> exists|i: int| 0 <= i < upto && keys[i]@ == k,
    decreases upto,
{
    if upto > 0 {
        law_keys_of_inserts(maps, keys, values, upto - 1);
        let p = upto - 1;
        assert(maps[p + 1]@ == maps[p]@.insert(keys[p]@, values[p]));
        assert forall|k: K::V| #[trigger] maps[upto]@.contains_key(k) implies exists|i: int|
            0 <= i < upto && keys[i]@ == k by {
            if k != keys[upto - 1]@ {
                assert(maps[upto - 1]@.contains_key(k));
            }
        }
    }
}

/// An insertion grows the bucket array exactly when there were no buckets
/// or the load was already past three quarters; the array then doubles.
pub proof fn law_growth<K: HashKey, V>(before: &HashMap<K, V>, after: &HashMap<K, V>)
    requires
        before.wf(),
        after.spec_bucket_count() == grown_count(before.spec_bucket_count(), before@.len()),
    ensures
        after.spec_bucket_count() > before.spec_bucket_count() <==> (before.spec_bucket_count()
            == 0 || before@.len() > 3 * before.spec_bucket_count() / 4),
        before.spec_bucket_count() > 0 && before@.len() > 3 * before.spec_bucket_count() / 4
            ==> after.spec_bucket_count() == 2 * before.spec_bucket_count(),
{
}

/// The entries that iteration produces are exactly the map's: as many as it
/// has keys, each key once, each with the value the map holds for it.
pub proof fn law_iteration_complete<K: HashKey, V>(m: &HashMap<K, V>)
    requires
        m.wf(),
    ensures
        m.entries().len() == m@.len(),
        keys_distinct(m.entries()),
        forall|i: int|
            0 <= i < m.entries().len() ==> m@.contains_key((#[trigger] m.entries()[i]).0@)
                && m@[m.entries()[i].0@] == m.entries()[i].1,
        forall|k: K::V|
            #[trigger] m@.contains_key(k) ==> exists|i: int|
                0 <= i < m.entries().len() && (#[trigger] m.entries()[i]).0@ == k,
{
    m.lemma_entries();
}

/// A map with an entry inserted is not empty.
pub proof fn law_insert_not_empty<K: HashKey, V>(
    before: &HashMap<K, V>,
    after: &HashMap<K, V>,
    key: K,
    value: V,
)
    requires
        before.wf(),
        after.wf(),
        after@ == before@.insert(key@, value),
    ensures
        after@.len() > 0,
{
    after.lemma_entries();
    assert(after@.dom().contains(key@));
}

/// Removing, one after another, keys that cover every key of a map leaves
/// it empty.
pub proof fn law_remove_all_empty<K: HashKey, V>(maps: Seq<HashMap<K, V>>, keys: Seq<K>)
    requires
        maps.len() == keys.len() + 1,
        forall|i: int| 0 <= i < maps.len() ==> (#[trigger] maps[i]).wf(),
        forall|i: int| 0 <= i < keys.len() ==> #[trigger] maps[i + 1]@ == maps[i]@.remove(keys[i]@),
        forall|k: K::V| #[trigger] maps[0]@.contains_key(k) ==> exists|i: int| 0 <= i < keys.len() && keys[i]@ == k,
    ensures
        maps.last()@.len() == 0,
{
    lemma_removed_so_far(maps, keys, keys.len() as int);
    let last = maps.last();
    last.lemma_entries();
    assert forall|k: K::V| !last@.contains_key(k) by {
        if last@.contains_key(k) {
            assert(maps[0]@.contains_key(k));
        }
    }
    assert(last@.dom() =~= Set::empty());
}

proof fn lemma_removed_so_far<K: HashKey, V>(maps: Seq<HashMap<K, V>>, keys: Seq<K>, upto: int)
    requires
        maps.len() == keys.len() + 1,
        0 <= upto <= keys.len(),
        forall|i: int| 0 <= i < keys.len() ==> #[trigger] maps[i + 1]@ == maps[i]@.remove(keys[i]@),
    ensures
        forall|k: K::V|
            #[trigger] maps[upto]@.contains_key(k) ==> maps[0]@.contains_key(k) && forall|i: int|
                0 <= i < upto ==> keys[i]@ != k,
    decreases upto,
{
    if upto > 0 {
        lemma_removed_so_far(maps, keys, upto - 1);
        let p = upto - 1;
        assert(maps[p + 1]@ == maps[p]@.remove(keys[p]@));
        assert forall|k: K::V| #[trigger] maps[upto]@.contains_key(k) implies maps[0]@.contains_key(k)
            && forall|i: int| 0 <= i < upto ==> keys[i]@ != k by {
            assert(maps[upto - 1]@.contains_key(k));
        }
    }
}

} // verus!
