//! Sequences of named entries, looked up by the first entry with a name.
use vstd::prelude::*;

verus! {

/// The position of the first entry with key `k`, or -1.
pub open spec fn key_index<V>(e: Seq<(Seq<char>, V)>, k: Seq<char>) -> int
    decreases e.len(),
{
    if e.len() == 0 {
        -1
    } else {
        let p = key_index(e.drop_last(), k);
        if p >= 0 {
            p
        } else if e.last().0 == k {
            e.len() - 1
        } else {
            -1
        }
    }
}

/// The value bound to `k`.
pub open spec fn lookup<V>(e: Seq<(Seq<char>, V)>, k: Seq<char>) -> Option<V> {
    if key_index(e, k) >= 0 {
        Some(e[key_index(e, k)].1)
    } else {
        None
    }
}

/// Binding `k` to `v`: an existing entry keeps its place, a new one goes last.
pub open spec fn insert_entry<V>(e: Seq<(Seq<char>, V)>, k: Seq<char>, v: V) -> Seq<(Seq<char>, V)> {
    if key_index(e, k) >= 0 {
        e.update(key_index(e, k), (k, v))
    } else {
        e.push((k, v))
    }
}

pub open spec fn keys_distinct<V>(e: Seq<(Seq<char>, V)>) -> bool {
    forall|i: int, j: int| 0 <= i < j < e.len() ==> #[trigger] e[i].0 != #[trigger] e[j].0
}

pub proof fn lemma_key_index_bounds<V>(e: Seq<(Seq<char>, V)>, k: Seq<char>)
    ensures
        -1 <= key_index(e, k) < e.len(),
        key_index(e, k) >= 0 ==> e[key_index(e, k)].0 == k,
        key_index(e, k) < 0 ==> forall|i: int| 0 <= i < e.len() ==> e[i].0 != k,
    decreases e.len(),
{
    if e.len() > 0 {
        lemma_key_index_bounds(e.drop_last(), k);
        if key_index(e, k) < 0 {
            assert forall|i: int| 0 <= i < e.len() implies e[i].0 != k by {
                if i < e.len() - 1 {
                    assert(e[i] == e.drop_last()[i]);
                }
            }
        }
    }
}

pub proof fn lemma_key_index_found<V>(e: Seq<(Seq<char>, V)>, j: int, k: Seq<char>)
    requires
        0 <= j < e.len(),
        e[j].0 == k,
        key_index(e.subrange(0, j), k) == -1,
    ensures
        key_index(e, k) == j,
    decreases e.len(),
{
    if j < e.len() - 1 {
        assert(e.drop_last().subrange(0, j) =~= e.subrange(0, j));
        lemma_key_index_found(e.drop_last(), j, k);
    } else {
        assert(e.drop_last() =~= e.subrange(0, j));
    }
}

pub proof fn lemma_insert_keeps_distinct<V>(e: Seq<(Seq<char>, V)>, k: Seq<char>, v: V)
    requires
        keys_distinct(e),
    ensures
        keys_distinct(insert_entry(e, k, v)),
{
    lemma_key_index_bounds(e, k);
}

/// After binding `k` to `v`, `k` reads `v` and every other key reads as
/// before.
pub proof fn lemma_lookup_insert<V>(e: Seq<(Seq<char>, V)>, k: Seq<char>, v: V, k2: Seq<char>)
    requires
        keys_distinct(e),
    ensures
        lookup(insert_entry(e, k, v), k) == Some(v),
        k2 != k ==> lookup(insert_entry(e, k, v), k2) == lookup(e, k2),
{
    lemma_key_index_bounds(e, k);
    lemma_key_index_bounds(e, k2);
    lemma_insert_keeps_distinct(e, k, v);
    let f = insert_entry(e, k, v);
    lemma_key_index_bounds(f, k);
    lemma_key_index_bounds(f, k2);
    lemma_key_unique(f, k);
    let j = if key_index(e, k) >= 0 {
        key_index(e, k)
    } else {
        e.len() as int
    };
    assert(f[j] == (k, v));
    assert(key_index(f, k) == j);
    if k2 != k {
        lemma_key_unique(f, k2);
        lemma_key_unique(e, k2);
        let i = key_index(e, k2);
        if i >= 0 {
            assert(f[i] == e[i]);
        } else {
            let i2 = key_index(f, k2);
            if i2 >= 0 {
                if i2 < e.len() && i2 != j {
                    assert(f[i2] == e[i2]);
                }
            }
        }
    }
}

/// With distinct keys, the entry found for `k` is the only one with `k`.
pub proof fn lemma_key_unique<V>(e: Seq<(Seq<char>, V)>, k: Seq<char>)
    requires
        keys_distinct(e),
    ensures
        forall|i: int| 0 <= i < e.len() && e[i].0 == k ==> key_index(e, k) == i,
{
    lemma_key_index_bounds(e, k);
    assert forall|i: int| 0 <= i < e.len() && e[i].0 == k implies key_index(e, k) == i by {
        let j = key_index(e, k);
        if j != i {
            if j < i {
                assert(e[j].0 != e[i].0);
            } else {
                assert(e[i].0 != e[j].0);
            }
        }
    }
}

} // verus!
