//! Mathematical helpers: maps built from parallel key/value sequences.
use vstd::prelude::*;

verus! {

/// The map sending each key of `keys` to the value at the same position.
pub open spec fn seq_map<K, V>(keys: Seq<K>, vals: Seq<V>) -> Map<K, V> {
    Map::new(|k: K| keys.contains(k), |k: K| vals[keys.index_of(k)])
}

/// With distinct keys, a key's value is the value at its position.
pub proof fn lemma_seq_map_index<K, V>(keys: Seq<K>, vals: Seq<V>, i: int)
    requires
        keys.no_duplicates(),
        0 <= i < keys.len(),
    ensures
        seq_map(keys, vals).contains_key(keys[i]),
        seq_map(keys, vals)[keys[i]] == vals[i],
{
    assert(keys.contains(keys[i]));
    let j = keys.index_of(keys[i]);
    assert(0 <= j < keys.len() && keys[j] == keys[i]);
}

/// Inserting a fresh key (and its value) at the same position of both
/// sequences inserts it into the map.
pub proof fn lemma_seq_map_insert<K, V>(keys: Seq<K>, vals: Seq<V>, p: int, k: K, v: V)
    requires
        keys.no_duplicates(),
        !keys.contains(k),
        keys.len() == vals.len(),
        0 <= p <= keys.len(),
    ensures
        keys.insert(p, k).no_duplicates(),
        seq_map(keys.insert(p, k), vals.insert(p, v)) == seq_map(keys, vals).insert(k, v),
{
    let nk = keys.insert(p, k);
    let nv = vals.insert(p, v);
    keys.insert_ensures(p, k);
    vals.insert_ensures(p, v);
    assert forall|a: int, b: int| 0 <= a < b < nk.len() implies nk[a] != nk[b] by {
        let oa = if a < p { a } else { a - 1 };
        let ob = if b < p { b } else { b - 1 };
        if a == p {
            assert(keys.contains(nk[b]) ) by { assert(keys[ob] == nk[b]); }
        } else if b == p {
            assert(keys.contains(nk[a])) by { assert(keys[oa] == nk[a]); }
        } else {
            assert(nk[a] == keys[oa]);
            assert(nk[b] == keys[ob]);
        }
    }
    let m1 = seq_map(nk, nv);
    let m2 = seq_map(keys, vals).insert(k, v);
    assert forall|x: K| #[trigger] m1.contains_key(x) <==> m2.contains_key(x) by {
        if nk.contains(x) {
            let j = choose|j: int| 0 <= j < nk.len() && nk[j] == x;
            if j != p {
                let oj = if j < p { j } else { j - 1 };
                assert(keys[oj] == x);
            }
        }
        if keys.contains(x) {
            let j = choose|j: int| 0 <= j < keys.len() && keys[j] == x;
            let nj = if j < p { j } else { j + 1 };
            assert(nk[nj] == x);
        }
        if x == k {
            assert(nk[p] == k);
        }
    }
    assert forall|x: K| m1.contains_key(x) implies #[trigger] m1[x] == m2[x] by {
        let j = choose|j: int| 0 <= j < nk.len() && nk[j] == x;
        lemma_seq_map_index(nk, nv, j);
        if j == p {
            assert(x == k);
        } else {
            let oj = if j < p { j } else { j - 1 };
            assert(keys[oj] == x);
            lemma_seq_map_index(keys, vals, oj);
            assert(nv[j] == vals[oj]);
        }
    }
    assert(m1 =~= m2);
}

/// Removing the key at a position from both sequences removes it from the
/// map.
pub proof fn lemma_seq_map_remove<K, V>(keys: Seq<K>, vals: Seq<V>, p: int)
    requires
        keys.no_duplicates(),
        keys.len() == vals.len(),
        0 <= p < keys.len(),
    ensures
        keys.remove(p).no_duplicates(),
        seq_map(keys.remove(p), vals.remove(p)) == seq_map(keys, vals).remove(keys[p]),
{
    let nk = keys.remove(p);
    let nv = vals.remove(p);
    keys.remove_ensures(p);
    vals.remove_ensures(p);
    assert forall|a: int, b: int| 0 <= a < b < nk.len() implies nk[a] != nk[b] by {
        let oa = if a < p { a } else { a + 1 };
        let ob = if b < p { b } else { b + 1 };
        assert(nk[a] == keys[oa]);
        assert(nk[b] == keys[ob]);
    }
    let m1 = seq_map(nk, nv);
    let m2 = seq_map(keys, vals).remove(keys[p]);
    assert forall|x: K| #[trigger] m1.contains_key(x) <==> m2.contains_key(x) by {
        if nk.contains(x) {
            let j = choose|j: int| 0 <= j < nk.len() && nk[j] == x;
            let oj = if j < p { j } else { j + 1 };
            assert(keys[oj] == x);
            assert(oj != p);
        }
        if keys.contains(x) && x != keys[p] {
            let j = choose|j: int| 0 <= j < keys.len() && keys[j] == x;
            assert(j != p);
            let nj = if j < p { j } else { j - 1 };
            assert(nk[nj] == x);
        }
    }
    assert forall|x: K| m1.contains_key(x) implies #[trigger] m1[x] == m2[x] by {
        let j = choose|j: int| 0 <= j < nk.len() && nk[j] == x;
        lemma_seq_map_index(nk, nv, j);
        let oj = if j < p { j } else { j + 1 };
        assert(keys[oj] == x);
        lemma_seq_map_index(keys, vals, oj);
    }
    assert(m1 =~= m2);
}

/// Maps over the same keys with pointwise-equal values are equal.
pub proof fn lemma_seq_map_ext<K, V>(keys: Seq<K>, v1: Seq<V>, v2: Seq<V>)
    requires
        keys.len() == v1.len(),
        keys.len() == v2.len(),
        forall|i: int| 0 <= i < keys.len() ==> v1[i] == v2[i],
    ensures
        seq_map(keys, v1) == seq_map(keys, v2),
{
    assert forall|x: K| seq_map(keys, v1).contains_key(x) implies #[trigger] seq_map(keys, v1)[x] == seq_map(keys, v2)[x] by {
        let j = keys.index_of(x);
        assert(0 <= j < keys.len());
    }
    assert(seq_map(keys, v1) =~= seq_map(keys, v2));
}

} // verus!
