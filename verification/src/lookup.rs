//! What a table answers, stated over its view, and what follows for a table
//! that keys are put into one after the other.

use vstd::prelude::*;

verus! {

/// What a table with the view `m` answers when asked for `key`.
pub open spec fn value_in<V>(m: Map<Seq<u8>, V>, key: Seq<u8>) -> Option<V> {
    if m.contains_key(key) {
        Some(m[key])
    } else {
        None
    }
}

/// The view after `n` of the `keys` were put in, one after the other, each with
/// the value at the same place of `values`; a later value of a key replaces
/// the earlier one.
pub open spec fn put_all<V>(m: Map<Seq<u8>, V>, keys: Seq<Seq<u8>>, values: Seq<V>, n: nat) -> Map<
    Seq<u8>,
    V,
>
    decreases n,
{
    if n == 0 {
        m
    } else {
        put_all(m, keys, values, (n - 1) as nat).insert(keys[n - 1], values[n - 1])
    }
}

/// A new table answers no key.
pub proof fn lemma_empty_answers_none<V>(key: Seq<u8>)
    ensures
        value_in(Map::<Seq<u8>, V>::empty(), key) is None,
{
}

/// A key that a table does not hold is not answered, and putting in another
/// key does not change that.
pub proof fn lemma_absent_until_put<V>(m: Map<Seq<u8>, V>, key: Seq<u8>, other: Seq<u8>, v: V)
    requires
        !m.contains_key(key),
        other != key,
    ensures
        value_in(m, key) is None,
        value_in(m.insert(other, v), key) is None,
{
}

/// After a key was put in with a value, the table answers that value for the
/// key.
pub proof fn lemma_put_then_get<V>(m: Map<Seq<u8>, V>, key: Seq<u8>, v: V)
    ensures
        value_in(m.insert(key, v), key) == Some(v),
{
}

/// Putting in a key does not change what the table answers for another.
pub proof fn lemma_put_keeps_others<V>(m: Map<Seq<u8>, V>, key: Seq<u8>, v: V, other: Seq<u8>)
    requires
        other != key,
    ensures
        value_in(m.insert(key, v), other) == value_in(m, other),
{
}

/// Putting in a key that the table holds changes its value and not the number
/// of keys; a key that it does not hold makes one key more.
pub proof fn lemma_put_counts_once<V>(m: Map<Seq<u8>, V>, key: Seq<u8>, v: V, w: V)
    requires
        m.dom().finite(),
    ensures
        m.insert(key, v).dom().finite(),
        m.insert(key, v).dom().len() == m.dom().len() + (if m.contains_key(key) {
            0int
        } else {
            1int
        }),
        m.insert(key, v).insert(key, w).dom().len() == m.insert(key, v).dom().len(),
        m.insert(key, v).insert(key, w) == m.insert(key, w),
{
    assert(m.insert(key, v).dom() =~= m.dom().insert(key));
    assert(m.insert(key, v).insert(key, w) =~= m.insert(key, w));
}

/// After `n` keys, no two of them the same, were put into an empty table, the
/// table holds `n` keys, and answers for each the value it was put in with.
pub proof fn lemma_distinct_keys<V>(keys: Seq<Seq<u8>>, values: Seq<V>, n: nat)
    requires
        n <= keys.len(),
        n <= values.len(),
        forall|i: int, j: int| 0 <= i < j < n ==> keys[i] != keys[j],
    ensures
        put_all(Map::<Seq<u8>, V>::empty(), keys, values, n).dom().finite(),
        put_all(Map::<Seq<u8>, V>::empty(), keys, values, n).dom().len() == n,
        forall|k: Seq<u8>| #[trigger]
            put_all(Map::<Seq<u8>, V>::empty(), keys, values, n).contains_key(k) <==> exists|i: int|
                0 <= i < n && keys[i] == k,
        forall|i: int|
            0 <= i < n ==> value_in(
                put_all(Map::<Seq<u8>, V>::empty(), keys, values, n),
                #[trigger] keys[i],
            ) == Some(values[i]),
    decreases n,
{
    let empty = Map::<Seq<u8>, V>::empty();
    if n > 0 {
        let m = put_all(empty, keys, values, (n - 1) as nat);
        lemma_distinct_keys(keys, values, (n - 1) as nat);
        let k = keys[n - 1];
        if m.contains_key(k) {
            let i = choose|i: int| 0 <= i < n - 1 && keys[i] == k;
            assert(keys[i] != keys[n - 1]);
        }
        assert(m.insert(k, values[n - 1]).dom() =~= m.dom().insert(k));
        assert forall|q: Seq<u8>| #[trigger]
            m.insert(k, values[n - 1]).contains_key(q) <==> exists|i: int|
                0 <= i < n && keys[i] == q by {
            if m.contains_key(q) {
                let i = choose|i: int| 0 <= i < n - 1 && keys[i] == q;
                assert(0 <= i < n && keys[i] == q);
            }
            if q == k {
                assert(keys[n - 1] == q);
            }
            if exists|i: int| 0 <= i < n && keys[i] == q {
                let i = choose|i: int| 0 <= i < n && keys[i] == q;
                if i < n - 1 {
                    assert(m.contains_key(q));
                }
            }
        }
        assert forall|i: int| 0 <= i < n implies value_in(
            m.insert(k, values[n - 1]),
            #[trigger] keys[i],
        ) == Some(values[i]) by {
            if i < n - 1 {
                assert(keys[i] != keys[n - 1]);
                assert(value_in(m, keys[i]) == Some(values[i]));
            }
        }
    } else {
        assert(empty.dom() =~= Set::<Seq<u8>>::empty());
    }
}

} // verus!
