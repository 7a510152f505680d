//! Association lists: a sequence of key and value pairs read by the first
//! pair with a given key, the model of the small name tables that the
//! simulators keep.

use vstd::prelude::*;

verus! {

/// The place of the first entry for `k` in the association list `s`,
/// looking from index `i` on.
pub open spec fn first_key<K, V>(s: Seq<(K, V)>, k: K, i: int) -> Option<int>
    decreases s.len() - i,
{
    if i < 0 || i >= s.len() {
        None
    } else if s[i].0 == k {
        Some(i)
    } else {
        first_key(s, k, i + 1)
    }
}

/// The value that the association list `s` holds for `k`.
pub open spec fn assoc_get<K, V>(s: Seq<(K, V)>, k: K) -> Option<V> {
    match first_key(s, k, 0) {
        Some(i) => Some(s[i].1),
        None => None,
    }
}

/// `s` with `v` stored for `k`: the entry for `k` replaced, or a new entry
/// at the end.
pub open spec fn assoc_put<K, V>(s: Seq<(K, V)>, k: K, v: V) -> Seq<(K, V)> {
    match first_key(s, k, 0) {
        Some(i) => s.update(i, (k, v)),
        None => s.push((k, v)),
    }
}

pub proof fn lemma_first_key_range<K, V>(s: Seq<(K, V)>, k: K, i: int)
    requires
        0 <= i,
    ensures
        first_key(s, k, i) matches Some(j) ==> i <= j < s.len() && s[j].0 == k && forall|m: int| i <= m < j ==> s[m].0 != k,
        first_key(s, k, i) is None ==> forall|m: int| i <= m < s.len() ==> s[m].0 != k,
    decreases s.len() - i,
{
    if i < s.len() && s[i].0 != k {
        lemma_first_key_range(s, k, i + 1);
    }
}

pub proof fn lemma_first_key_same<K, V>(s: Seq<(K, V)>, t: Seq<(K, V)>, k: K, i: int)
    requires
        0 <= i,
        s.len() <= t.len(),
        forall|m: int| i <= m < s.len() ==> t[m].0 == s[m].0,
        first_key(s, k, i) is Some,
    ensures
        first_key(t, k, i) == first_key(s, k, i),
    decreases s.len() - i,
{
    if i < s.len() && s[i].0 != k {
        lemma_first_key_same(s, t, k, i + 1);
    }
}

pub proof fn lemma_first_key_push<K, V>(s: Seq<(K, V)>, x: (K, V), k: K, i: int)
    requires
        0 <= i <= s.len(),
        first_key(s, k, i) is None,
    ensures
        first_key(s.push(x), k, i) == (if x.0 == k { Some(s.len() as int) } else { None::<int> }),
    decreases s.len() - i,
{
    let t = s.push(x);
    if i < s.len() {
        assert(t[i] == s[i]);
        lemma_first_key_push(s, x, k, i + 1);
    } else {
        assert(t[i] == x);
        assert(first_key(t, k, i + 1) is None);
    }
}

pub proof fn lemma_first_key_update<K, V>(s: Seq<(K, V)>, j: int, x: (K, V), k: K, i: int)
    requires
        0 <= i,
        0 <= j < s.len(),
        x.0 == s[j].0,
    ensures
        first_key(s.update(j, x), k, i) == first_key(s, k, i),
    decreases s.len() - i,
{
    if i < s.len() {
        lemma_first_key_update(s, j, x, k, i + 1);
    }
}

/// What is stored for a key is read back for it, and storing for one key
/// leaves what every other key reads unchanged.
pub proof fn law_assoc_get_put<K, V>(s: Seq<(K, V)>, k: K, v: V, other: K)
    ensures
        assoc_get(assoc_put(s, k, v), k) == Some(v),
        other != k ==> assoc_get(assoc_put(s, k, v), other) == assoc_get(s, other),
{
    lemma_first_key_range(s, k, 0);
    match first_key(s, k, 0) {
        Some(i) => {
            lemma_first_key_update(s, i, (k, v), k, 0);
            lemma_first_key_update(s, i, (k, v), other, 0);
            lemma_first_key_range(s, other, 0);
            if other != k {
                match first_key(s, other, 0) {
                    Some(j) => {
                        assert(j != i);
                        assert(s.update(i, (k, v))[j] == s[j]);
                    },
                    None => {},
                }
            }
        },
        None => {
            lemma_first_key_push(s, (k, v), k, 0);
            lemma_first_key_range(s, other, 0);
            match first_key(s, other, 0) {
                Some(j) => {
                    lemma_first_key_same(s, s.push((k, v)), other, 0);
                },
                None => {
                    lemma_first_key_push(s, (k, v), other, 0);
                },
            }
        },
    }
}

} // verus!
