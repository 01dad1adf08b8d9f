//! The laws the table obeys, stated over the `Map<u64, V>` that a table
//! denotes. Each operation's contract describes its exact effect on that
//! map — `insert` yields `m.insert(key, value)`, `delete` yields
//! `m.remove(key)`, and `search` returns precisely the key's binding — so a
//! law proved over maps here is a law of the corresponding call sequence on
//! any well-formed table.

use vstd::prelude::*;

verus! {

/// Round trip: after `insert(key, value)` on a table whose contents are
/// `m`, `search(key)` finds exactly `value`.
pub proof fn lemma_round_trip<V>(m: Map<u64, V>, key: u64, value: V)
    ensures
        m.insert(key, value).contains_key(key),
        m.insert(key, value)[key] == value,
{
}

/// Overwrite: after `insert(key, v1)` then `insert(key, v2)`, `search(key)`
/// finds `v2`; a map binds one value per key, and the table's invariant
/// keeps one live entry per key behind it.
pub proof fn lemma_overwrite<V>(m: Map<u64, V>, key: u64, v1: V, v2: V)
    ensures
        m.insert(key, v1).insert(key, v2).contains_key(key),
        m.insert(key, v1).insert(key, v2)[key] == v2,
{
}

/// Deletion: after `insert(key, value)` then `delete(key)`, `search(key)`
/// finds nothing — and every other key keeps exactly the binding it had, so
/// keys whose probes ran through the deleted slot stay findable (deletion
/// tombstones the slot rather than emptying it, so probe chains hold).
pub proof fn lemma_delete<V>(m: Map<u64, V>, key: u64, value: V)
    ensures
        !m.insert(key, value).remove(key).contains_key(key),
        forall|other: u64|
            other != key ==> m.insert(key, value).remove(key).contains_key(other)
                == m.contains_key(other),
        forall|other: u64|
            other != key && m.contains_key(other) ==> m.insert(key, value).remove(key)[other]
                == m[other],
{
}

/// The contents after inserting each listed pair in order, oldest first.
pub open spec fn insert_all<V>(m: Map<u64, V>, keys: Seq<u64>, values: Seq<V>) -> Map<u64, V>
    decreases keys.len(),
{
    if keys.len() == 0 {
        m
    } else {
        insert_all(m, keys.drop_last(), values.drop_last()).insert(keys.last(), values.last())
    }
}

/// Growth preserves contents: inserting any number of distinct keys —
/// however many times the table grows along the way, growth itself leaving
/// the contents untouched per `extend`'s contract — leaves every one of the
/// keys searchable with the value it was inserted with.
pub proof fn lemma_distinct_inserts_all_found<V>(m: Map<u64, V>, keys: Seq<u64>, values: Seq<V>)
    requires
        keys.len() == values.len(),
        forall|i: int, j: int| 0 <= i < j < keys.len() ==> keys[i] != keys[j],
    ensures
        forall|i: int|
            0 <= i < keys.len() ==> insert_all(m, keys, values).contains_key(#[trigger] keys[i])
                && insert_all(m, keys, values)[keys[i]] == values[i],
    decreases keys.len(),
{
    if keys.len() > 0 {
        lemma_distinct_inserts_all_found(m, keys.drop_last(), values.drop_last());
        let prefix = insert_all(m, keys.drop_last(), values.drop_last());
        let whole = insert_all(m, keys, values);
        assert forall|i: int|
            0 <= i < keys.len() implies whole.contains_key(#[trigger] keys[i]) && whole[keys[i]]
            == values[i] by {
            if i < keys.len() - 1 {
                assert(keys.drop_last()[i] == keys[i]);
                assert(values.drop_last()[i] == values[i]);
                assert(keys[i] != keys[keys.len() - 1]);
            }
        }
    }
}

/// Idempotent delete: deleting a key a second time changes nothing — and
/// deleting an absent key is a no-op on the whole table state, per
/// `delete`'s contract.
pub proof fn lemma_delete_idempotent<V>(m: Map<u64, V>, key: u64)
    ensures
        m.remove(key).remove(key) == m.remove(key),
{
    assert(m.remove(key).remove(key) =~= m.remove(key));
}

} // verus!
