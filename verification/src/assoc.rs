//! Association lists with unique keys, the crate's map representation.

use vstd::prelude::*;

verus! {

/// Some entry of `s` carries the key `k`.
pub open spec fn assoc_has<K, V>(s: Seq<(K, V)>, k: K) -> bool {
    exists|i: int| 0 <= i < s.len() && (#[trigger] s[i]).0 == k
}

/// The value stored under `k`, when the keys of `s` are unique.
pub open spec fn assoc_get<K, V>(s: Seq<(K, V)>, k: K) -> Option<V> {
    if assoc_has(s, k) {
        let i = choose|i: int| 0 <= i < s.len() && (#[trigger] s[i]).0 == k;
        Some(s[i].1)
    } else {
        None
    }
}

/// No two entries of `s` share a key.
pub open spec fn assoc_unique<K, V>(s: Seq<(K, V)>) -> bool {
    forall|i: int, j: int| 0 <= i < j < s.len() ==> (#[trigger] s[i]).0 != (#[trigger] s[j]).0
}

/// With unique keys, the entry at `i` decides the lookup of its key.
pub proof fn lemma_assoc_get_at<K, V>(s: Seq<(K, V)>, k: K, i: int)
    requires
        assoc_unique(s),
        0 <= i < s.len(),
        s[i].0 == k,
    ensures
        assoc_get(s, k) == Some(s[i].1),
{
    assert(assoc_has(s, k));
    let j = choose|j: int| 0 <= j < s.len() && (#[trigger] s[j]).0 == k;
    if i != j {
        if i < j {
            assert(s[i].0 != s[j].0);
        } else {
            assert(s[j].0 != s[i].0);
        }
    }
}

/// A lookup hit names an entry.
pub proof fn lemma_assoc_get_some<K, V>(s: Seq<(K, V)>, k: K)
    requires
        assoc_has(s, k),
    ensures
        exists|i: int| 0 <= i < s.len() && (#[trigger] s[i]).0 == k
            && assoc_get(s, k) == Some(s[i].1),
{
    let i = choose|i: int| 0 <= i < s.len() && (#[trigger] s[i]).0 == k;
    assert(0 <= i < s.len() && s[i].0 == k && assoc_get(s, k) == Some(s[i].1));
}

/// Appending a fresh key leaves every other lookup unchanged.
pub proof fn lemma_assoc_get_push<K, V>(s: Seq<(K, V)>, k: K, v: V, x: K)
    requires
        assoc_unique(s),
        !assoc_has(s, k),
    ensures
        assoc_unique(s.push((k, v))),
        assoc_get(s.push((k, v)), k) == Some(v),
        x != k ==> assoc_get(s.push((k, v)), x) == assoc_get(s, x),
{
    let p = s.push((k, v));
    assert(assoc_unique(p)) by {
        assert forall|i: int, j: int| 0 <= i < j < p.len() implies
            (#[trigger] p[i]).0 != (#[trigger] p[j]).0 by {
            if j < p.len() - 1 {
                assert(p[i] == s[i] && p[j] == s[j]);
            } else {
                assert(p[i] == s[i] && p[j] == (k, v));
                assert(s[i].0 != k) by {
                    if s[i].0 == k {
                        assert(assoc_has(s, k));
                    }
                }
            }
        }
    }
    lemma_assoc_get_at(p, k, p.len() - 1);
    if x != k {
        if assoc_has(s, x) {
            let i = choose|i: int| 0 <= i < s.len() && (#[trigger] s[i]).0 == x;
            assert(p[i] == s[i]);
            lemma_assoc_get_at(p, x, i);
            lemma_assoc_get_at(s, x, i);
        } else {
            assert(!assoc_has(p, x)) by {
                if assoc_has(p, x) {
                    let i = choose|i: int| 0 <= i < p.len() && (#[trigger] p[i]).0 == x;
                    assert(i < s.len() && s[i] == p[i]);
                }
            }
        }
    }
}

/// Overwriting the entry at `i` changes only its key's lookup.
pub proof fn lemma_assoc_get_update<K, V>(s: Seq<(K, V)>, i: int, v: V, x: K)
    requires
        assoc_unique(s),
        0 <= i < s.len(),
    ensures
        assoc_unique(s.update(i, (s[i].0, v))),
        assoc_get(s.update(i, (s[i].0, v)), s[i].0) == Some(v),
        x != s[i].0 ==> assoc_get(s.update(i, (s[i].0, v)), x) == assoc_get(s, x),
{
    let k = s[i].0;
    let u = s.update(i, (k, v));
    assert(assoc_unique(u)) by {
        assert forall|a: int, b: int| 0 <= a < b < u.len() implies
            (#[trigger] u[a]).0 != (#[trigger] u[b]).0 by {
            assert(u[a].0 == s[a].0 && u[b].0 == s[b].0);
        }
    }
    lemma_assoc_get_at(u, k, i);
    if x != k {
        if assoc_has(s, x) {
            let j = choose|j: int| 0 <= j < s.len() && (#[trigger] s[j]).0 == x;
            assert(u[j].0 == x);
            lemma_assoc_get_at(u, x, j);
            lemma_assoc_get_at(s, x, j);
        } else {
            assert(!assoc_has(u, x)) by {
                if assoc_has(u, x) {
                    let j = choose|j: int| 0 <= j < u.len() && (#[trigger] u[j]).0 == x;
                    assert(s[j].0 == u[j].0);
                }
            }
        }
    }
}

/// Removing the entry at `i` erases its key and leaves other lookups
/// unchanged.
pub proof fn lemma_assoc_get_remove<K, V>(s: Seq<(K, V)>, i: int, x: K)
    requires
        assoc_unique(s),
        0 <= i < s.len(),
    ensures
        assoc_unique(s.remove(i)),
        assoc_get(s.remove(i), s[i].0) is None,
        x != s[i].0 ==> assoc_get(s.remove(i), x) == assoc_get(s, x),
{
    let k = s[i].0;
    let u = s.remove(i);
    assert(forall|j: int| 0 <= j < i ==> u[j] == s[j]);
    assert(forall|j: int| i <= j < u.len() ==> u[j] == s[j + 1]);
    assert(assoc_unique(u)) by {
        assert forall|a: int, b: int| 0 <= a < b < u.len() implies
            (#[trigger] u[a]).0 != (#[trigger] u[b]).0 by {
            let pa: int = if a < i { a } else { a + 1 };
            let pb: int = if b < i { b } else { b + 1 };
            assert(u[a] == s[pa] && u[b] == s[pb]);
            assert(s[pa].0 != s[pb].0);
        }
    }
    assert(!assoc_has(u, k)) by {
        if assoc_has(u, k) {
            let j = choose|j: int| 0 <= j < u.len() && (#[trigger] u[j]).0 == k;
            if j < i {
                assert(s[j].0 != s[i].0);
            } else {
                assert(s[i].0 != s[j + 1].0);
            }
        }
    }
    if x != k {
        if assoc_has(s, x) {
            let j = choose|j: int| 0 <= j < s.len() && (#[trigger] s[j]).0 == x;
            if j < i {
                lemma_assoc_get_at(u, x, j);
            } else {
                assert(j != i);
                assert(u[j - 1] == s[j]);
                lemma_assoc_get_at(u, x, j - 1);
            }
            lemma_assoc_get_at(s, x, j);
        } else {
            assert(!assoc_has(u, x)) by {
                if assoc_has(u, x) {
                    let j = choose|j: int| 0 <= j < u.len() && (#[trigger] u[j]).0 == x;
                    let pj: int = if j < i { j } else { j + 1 };
                    assert(s[pj] == u[j]);
                }
            }
        }
    }
}

} // verus!
