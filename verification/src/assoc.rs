//! Association lists as sequences of key/value pairs with distinct keys.
use vstd::prelude::*;

verus! {

/// No key occurs twice.
pub open spec fn distinct_keys<K, V>(s: Seq<(K, V)>) -> bool {
    forall|i: int, j: int| 0 <= i < j < s.len() ==> (#[trigger] s[i]).0 != (#[trigger] s[j]).0
}

/// Some entry has key `k`.
pub open spec fn has_key<K, V>(s: Seq<(K, V)>, k: K) -> bool {
    exists|i: int| 0 <= i < s.len() && (#[trigger] s[i]).0 == k
}

/// The position of an entry with key `k`, where there is one.
pub open spec fn index_of<K, V>(s: Seq<(K, V)>, k: K) -> int {
    choose|i: int| 0 <= i < s.len() && (#[trigger] s[i]).0 == k
}

/// The value stored under `k`, if any.
pub open spec fn lookup<K, V>(s: Seq<(K, V)>, k: K) -> Option<V> {
    if has_key(s, k) {
        Some(s[index_of(s, k)].1)
    } else {
        None
    }
}

/// The list with `v` stored under `k`: in place where `k` is present, at the end otherwise.
pub open spec fn store<K, V>(s: Seq<(K, V)>, k: K, v: V) -> Seq<(K, V)> {
    if has_key(s, k) {
        s.update(index_of(s, k), (k, v))
    } else {
        s.push((k, v))
    }
}

/// The list without the entry for `k`.
pub open spec fn erase<K, V>(s: Seq<(K, V)>, k: K) -> Seq<(K, V)> {
    if has_key(s, k) {
        s.remove(index_of(s, k))
    } else {
        s
    }
}

/// With distinct keys, the entry for a key is where any match was found.
pub proof fn lemma_index_found<K, V>(s: Seq<(K, V)>, k: K, i: int)
    requires
        distinct_keys(s),
        0 <= i < s.len(),
        s[i].0 == k,
    ensures
        has_key(s, k),
        index_of(s, k) == i,
{
    let j = index_of(s, k);
    assert(0 <= j < s.len() && s[j].0 == k);
    if j < i {
        assert(s[j].0 != s[i].0);
    } else if i < j {
        assert(s[i].0 != s[j].0);
    }
}

/// Storing keeps keys distinct and makes the stored value the one looked up.
pub proof fn lemma_store<K, V>(s: Seq<(K, V)>, k: K, v: V)
    requires
        distinct_keys(s),
    ensures
        distinct_keys(store(s, k, v)),
        lookup(store(s, k, v), k) == Some(v),
        forall|other: K| other != k ==> lookup(store(s, k, v), other) == lookup(s, other),
{
    let t = store(s, k, v);
    if has_key(s, k) {
        let i = index_of(s, k);
        assert forall|a: int, b: int| 0 <= a < b < t.len() implies (#[trigger] t[a]).0 != (
        #[trigger] t[b]).0 by {
            assert(t[a].0 == s[a].0);
            assert(t[b].0 == s[b].0);
        }
        assert(t[i].0 == k);
        lemma_index_found(t, k, i);
        assert forall|other: K| other != k implies lookup(t, other) == lookup(s, other) by {
            if has_key(s, other) {
                let j = index_of(s, other);
                assert(t[j] == s[j]);
                lemma_index_found(t, other, j);
            } else if has_key(t, other) {
                let j = index_of(t, other);
                assert(s[j].0 == other);
            }
        }
    } else {
        let n = s.len() as int;
        assert forall|a: int, b: int| 0 <= a < b < t.len() implies (#[trigger] t[a]).0 != (
        #[trigger] t[b]).0 by {
            assert(t[a] == s[a]);
            if b < n {
                assert(t[b] == s[b]);
            } else {
                assert(t[b].0 == k);
                assert(s[a].0 != k);
            }
        }
        assert(t[n].0 == k);
        lemma_index_found(t, k, n);
        assert forall|other: K| other != k implies lookup(t, other) == lookup(s, other) by {
            if has_key(s, other) {
                let j = index_of(s, other);
                assert(t[j] == s[j]);
                lemma_index_found(t, other, j);
            } else if has_key(t, other) {
                let j = index_of(t, other);
                if j < n {
                    assert(s[j].0 == other);
                }
            }
        }
    }
}

/// Erasing keeps keys distinct and leaves nothing under the erased key.
pub proof fn lemma_erase<K, V>(s: Seq<(K, V)>, k: K)
    requires
        distinct_keys(s),
    ensures
        distinct_keys(erase(s, k)),
        !has_key(erase(s, k), k),
        forall|other: K| other != k ==> lookup(erase(s, k), other) == lookup(s, other),
{
    let t = erase(s, k);
    if has_key(s, k) {
        let i = index_of(s, k);
        assert forall|a: int, b: int| 0 <= a < b < t.len() implies (#[trigger] t[a]).0 != (
        #[trigger] t[b]).0 by {
            let sa = if a < i { a } else { a + 1 };
            let sb = if b < i { b } else { b + 1 };
            assert(t[a] == s[sa]);
            assert(t[b] == s[sb]);
        }
        if has_key(t, k) {
            let j = index_of(t, k);
            let sj = if j < i { j } else { j + 1 };
            assert(t[j] == s[sj]);
            lemma_index_found(s, k, sj);
        }
        assert forall|other: K| other != k implies lookup(t, other) == lookup(s, other) by {
            if has_key(s, other) {
                let j = index_of(s, other);
                let tj = if j < i { j } else { j - 1 };
                assert(t[tj] == s[j]);
                lemma_index_found(t, other, tj);
            } else if has_key(t, other) {
                let j = index_of(t, other);
                let sj = if j < i { j } else { j + 1 };
                assert(t[j] == s[sj]);
                assert(s[sj].0 == other);
            }
        }
    }
}

} // verus!
