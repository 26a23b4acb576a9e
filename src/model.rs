//! The mathematical model shared by both tables: a finite map from keys to
//! values that only ever grows, where inserting a present key changes nothing.

use vstd::prelude::*;

verus! {

/// The map after one insert: a key that is already present keeps its value.
pub open spec fn inserted<V>(m: Map<usize, V>, key: usize, value: V) -> Map<usize, V> {
    if m.contains_key(key) {
        m
    } else {
        m.insert(key, value)
    }
}

/// The map after inserting each `(key, value)` pair of `ops` in order.
pub open spec fn inserted_all<V>(m: Map<usize, V>, ops: Seq<(usize, V)>) -> Map<usize, V>
    decreases ops.len(),
{
    if ops.len() == 0 {
        m
    } else {
        inserted_all(inserted(m, ops[0].0, ops[0].1), ops.drop_first())
    }
}

/// The set of keys named by `ops`.
pub open spec fn keys_of<V>(ops: Seq<(usize, V)>) -> Set<usize>
    decreases ops.len(),
{
    if ops.len() == 0 {
        Set::empty()
    } else {
        keys_of(ops.drop_first()).insert(ops[0].0)
    }
}

/// `n` inserts of `key`, the `i`-th one carrying `vals[i]`.
pub open spec fn same_key_ops<V>(key: usize, vals: Seq<V>) -> Seq<(usize, V)> {
    Seq::new(vals.len(), |i: int| (key, vals[i]))
}

/// Inserting the same key twice in a row: the second insert finds the key
/// present, so it is rejected and leaves the map, and its size, unchanged.
pub proof fn lemma_idempotent_rejection<V>(m: Map<usize, V>, key: usize, a: V, b: V)
    ensures
        inserted(m, key, a).contains_key(key),
        inserted(inserted(m, key, a), key, b) == inserted(m, key, a),
        inserted(inserted(m, key, a), key, b).len() == inserted(m, key, a).len(),
{
}

/// Among any run of inserts of one key into a map without it, exactly the
/// first succeeds: every later insert finds the key present, holding the first
/// value, and the key still holds that value at the end.
pub proof fn lemma_uniqueness<V>(m: Map<usize, V>, key: usize, vals: Seq<V>)
    requires
        !m.contains_key(key),
        vals.len() > 0,
    ensures
        forall|i: int|
            0 <= i < vals.len() ==> (inserted_all(m, same_key_ops(key, vals).take(i)).contains_key(
                key,
            ) <==> i > 0),
        forall|i: int|
            0 < i <= vals.len() ==> #[trigger] inserted_all(
                m,
                same_key_ops(key, vals).take(i),
            )[key] == vals[0],
        inserted_all(m, same_key_ops(key, vals)) == m.insert(key, vals[0]),
{
    let ops = same_key_ops(key, vals);
    let first = m.insert(key, vals[0]);
    assert forall|i: int| 0 < i <= vals.len() implies #[trigger] inserted_all(m, ops.take(i))
        == first by {
        assert(ops.take(i).drop_first() =~= same_key_ops(key, vals.subrange(1, i)));
        lemma_present_key_unchanged(first, key, vals.subrange(1, i));
    }
    assert forall|i: int|
        0 <= i < vals.len() implies (inserted_all(m, ops.take(i)).contains_key(key) <==> i > 0) by {
        if i == 0 {
            assert(ops.take(0).len() == 0);
        } else {
            assert(inserted_all(m, ops.take(i)) == first);
        }
    }
    assert(ops.take(vals.len() as int) =~= ops);
}

/// Inserts of a key that is already present leave the map as it is.
proof fn lemma_present_key_unchanged<V>(m: Map<usize, V>, key: usize, vals: Seq<V>)
    requires
        m.contains_key(key),
    ensures
        inserted_all(m, same_key_ops(key, vals)) == m,
    decreases vals.len(),
{
    if vals.len() > 0 {
        assert(same_key_ops(key, vals).drop_first() =~= same_key_ops(key, vals.drop_first()));
        lemma_present_key_unchanged(m, key, vals.drop_first());
    }
}

/// No lost inserts: a key that is present keeps its value through any later
/// inserts, of any keys.
pub proof fn lemma_no_lost_inserts<V>(m: Map<usize, V>, key: usize, ops: Seq<(usize, V)>)
    requires
        m.contains_key(key),
    ensures
        inserted_all(m, ops).contains_key(key),
        inserted_all(m, ops)[key] == m[key],
    decreases ops.len(),
{
    if ops.len() > 0 {
        lemma_no_lost_inserts(inserted(m, ops[0].0, ops[0].1), key, ops.drop_first());
    }
}

/// The keys after a run of inserts are the keys before it and the keys
/// inserted; so the count of entries never decreases, and from an empty map it
/// is the number of distinct keys inserted.
pub proof fn lemma_monotone_count<V>(m: Map<usize, V>, ops: Seq<(usize, V)>)
    requires
        m.dom().finite(),
    ensures
        inserted_all(m, ops).dom() == m.dom().union(keys_of(ops)),
        inserted_all(m, ops).dom().finite(),
        inserted_all(m, ops).len() >= m.len(),
        m.len() == 0 ==> inserted_all(m, ops).len() == keys_of(ops).len(),
    decreases ops.len(),
{
    if ops.len() == 0 {
        assert(m.dom().union(keys_of(ops)) =~= m.dom());
    } else {
        let m1 = inserted(m, ops[0].0, ops[0].1);
        assert(m1.dom() =~= m.dom().insert(ops[0].0));
        lemma_monotone_count(m1, ops.drop_first());
        assert(m.dom().union(keys_of(ops)) =~= m1.dom().union(keys_of(ops.drop_first())));
        vstd::set_lib::lemma_len_subset(m.dom(), inserted_all(m, ops).dom());
        if m.len() == 0 {
            assert(m.dom() =~= Set::empty());
            assert(m.dom().union(keys_of(ops)) =~= keys_of(ops));
        }
    }
}

} // verus!
