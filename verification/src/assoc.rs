//! Association sequences: the mathematical model shared by the name registry,
//! the stats cache and the handle cache is a sequence of key/value pairs with
//! pairwise-distinct keys, read through `spec_get`.

use vstd::prelude::*;

verus! {

/// The keys of an association sequence, in order.
pub open spec fn keys_of<K, V>(s: Seq<(K, V)>) -> Seq<K> {
    s.map_values(|p: (K, V)| p.0)
}

/// No key occurs twice.
pub open spec fn unique_keys<K, V>(s: Seq<(K, V)>) -> bool {
    forall|i: int, j: int| 0 <= i < j < s.len() ==> (#[trigger] s[i]).0 != (#[trigger] s[j]).0
}

/// The value bound to `k`, reading the first matching pair.
pub open spec fn spec_get<K, V>(s: Seq<(K, V)>, k: K) -> Option<V>
    decreases s.len(),
{
    if s.len() == 0 {
        None
    } else if s[0].0 == k {
        Some(s[0].1)
    } else {
        spec_get(s.drop_first(), k)
    }
}

/// Whether `k` is bound at all.
pub open spec fn has_key<K, V>(s: Seq<(K, V)>, k: K) -> bool {
    spec_get(s, k) is Some
}

/// `spec_get` finds the binding at any index when keys are unique.
pub proof fn lemma_get_at_index<K, V>(s: Seq<(K, V)>, i: int)
    requires
        unique_keys(s),
        0 <= i < s.len(),
    ensures
        spec_get(s, s[i].0) == Some(s[i].1),
    decreases s.len(),
{
    if i == 0 {
    } else {
        assert(s[0].0 != s[i].0);
        assert(s.drop_first()[i - 1] == s[i]);
        lemma_get_at_index(s.drop_first(), i - 1);
    }
}

/// A bound key is bound at some index.
pub proof fn lemma_get_some_index<K, V>(s: Seq<(K, V)>, k: K) -> (i: int)
    requires
        spec_get(s, k) is Some,
    ensures
        0 <= i < s.len(),
        s[i].0 == k,
        s[i].1 == spec_get(s, k)->Some_0,
    decreases s.len(),
{
    if s[0].0 == k {
        0
    } else {
        let j = lemma_get_some_index(s.drop_first(), k);
        assert(s.drop_first()[j] == s[j + 1]);
        j + 1
    }
}

/// An unbound key occurs at no index.
pub proof fn lemma_get_none_all_indices<K, V>(s: Seq<(K, V)>, k: K)
    requires
        spec_get(s, k) is None,
    ensures
        forall|i: int| 0 <= i < s.len() ==> (#[trigger] s[i]).0 != k,
    decreases s.len(),
{
    if s.len() > 0 {
        lemma_get_none_all_indices(s.drop_first(), k);
        assert(forall|i: int|
            1 <= i < s.len() ==> (#[trigger] s[i]) == s.drop_first()[i - 1]);
    }
}

/// Appending a pair with a fresh key binds that key and nothing else changes.
pub proof fn lemma_get_push<K, V>(s: Seq<(K, V)>, k: K, v: V, q: K)
    requires
        unique_keys(s),
        spec_get(s, k) is None,
    ensures
        unique_keys(s.push((k, v))),
        spec_get(s.push((k, v)), k) == Some(v),
        q != k ==> spec_get(s.push((k, v)), q) == spec_get(s, q),
{
    let p = s.push((k, v));
    lemma_get_none_all_indices(s, k);
    assert(p[s.len() as int] == (k, v));
    assert forall|a: int, b: int| 0 <= a < b < p.len() implies (#[trigger] p[a]).0 != (#[trigger] p[b]).0 by {
        if b < s.len() {
            assert(p[a] == s[a]);
            assert(p[b] == s[b]);
        } else {
            assert(p[a] == s[a]);
        }
    }
    lemma_get_at_index(p, s.len() as int);
    if q != k {
        if spec_get(s, q) is Some {
            let j = lemma_get_some_index(s, q);
            assert(p[j] == s[j]);
            lemma_get_at_index(p, j);
        } else {
            lemma_get_none_all_indices(s, q);
            if spec_get(p, q) is Some {
                let j = lemma_get_some_index(p, q);
                assert(j < s.len());
                assert(p[j] == s[j]);
                assert(false);
            }
        }
    }
}

/// Inserting a pair with a fresh key at any position binds that key and
/// nothing else changes.
pub proof fn lemma_get_insert<K, V>(s: Seq<(K, V)>, p: int, k: K, v: V, q: K)
    requires
        unique_keys(s),
        spec_get(s, k) is None,
        0 <= p <= s.len(),
    ensures
        unique_keys(s.insert(p, (k, v))),
        spec_get(s.insert(p, (k, v)), k) == Some(v),
        q != k ==> spec_get(s.insert(p, (k, v)), q) == spec_get(s, q),
{
    let r = s.insert(p, (k, v));
    s.insert_ensures(p, (k, v));
    lemma_get_none_all_indices(s, k);
    assert forall|a: int, b: int| 0 <= a < b < r.len() implies (#[trigger] r[a]).0 != (#[trigger] r[b]).0 by {
        let a2: int = if a < p { a } else { a - 1 };
        let b2: int = if b < p { b } else { b - 1 };
        if a != p {
            assert(r[a] == s[a2]);
        }
        if b != p {
            assert(r[b] == s[b2]);
        }
    }
    lemma_get_at_index(r, p);
    if q != k {
        if spec_get(s, q) is Some {
            let j = lemma_get_some_index(s, q);
            let j2: int = if j < p { j } else { j + 1 };
            assert(r[j2] == s[j]);
            lemma_get_at_index(r, j2);
        } else {
            lemma_get_none_all_indices(s, q);
            if spec_get(r, q) is Some {
                let j = lemma_get_some_index(r, q);
                let j2: int = if j < p { j } else { j - 1 };
                if j != p {
                    assert(r[j] == s[j2]);
                }
                assert(false);
            }
        }
    }
}

/// Removing the index that holds `k` (keys unique) unbinds `k` and keeps the rest.
pub proof fn lemma_get_remove<K, V>(s: Seq<(K, V)>, i: int, q: K)
    requires
        unique_keys(s),
        0 <= i < s.len(),
    ensures
        unique_keys(s.remove(i)),
        spec_get(s.remove(i), s[i].0) is None,
        q != s[i].0 ==> spec_get(s.remove(i), q) == spec_get(s, q),
{
    let r = s.remove(i);
    assert forall|a: int, b: int| 0 <= a < b < r.len() implies (#[trigger] r[a]).0 != (#[trigger] r[b]).0 by {
        let a2 = if a < i { a } else { a + 1 };
        let b2 = if b < i { b } else { b + 1 };
        assert(r[a] == s[a2]);
        assert(r[b] == s[b2]);
    }
    if spec_get(r, s[i].0) is Some {
        let j = lemma_get_some_index(r, s[i].0);
        let j2 = if j < i { j } else { j + 1 };
        assert(r[j] == s[j2]);
        assert(false);
    }
    if q != s[i].0 {
        if spec_get(s, q) is Some {
            let j = lemma_get_some_index(s, q);
            let j2 = if j < i { j } else { j - 1 };
            assert(r[j2] == s[j]);
            lemma_get_at_index(r, j2);
        } else {
            lemma_get_none_all_indices(s, q);
            if spec_get(r, q) is Some {
                let j = lemma_get_some_index(r, q);
                let j2 = if j < i { j } else { j + 1 };
                assert(r[j] == s[j2]);
                assert(false);
            }
        }
    }
}

/// Updating the value at the index that holds `k` (keys unique) rebinds `k`.
pub proof fn lemma_get_update<K, V>(s: Seq<(K, V)>, i: int, v: V, q: K)
    requires
        unique_keys(s),
        0 <= i < s.len(),
    ensures
        unique_keys(s.update(i, (s[i].0, v))),
        spec_get(s.update(i, (s[i].0, v)), s[i].0) == Some(v),
        q != s[i].0 ==> spec_get(s.update(i, (s[i].0, v)), q) == spec_get(s, q),
{
    let r = s.update(i, (s[i].0, v));
    assert(r[i] == (s[i].0, v));
    assert forall|a: int, b: int| 0 <= a < b < r.len() implies (#[trigger] r[a]).0 != (#[trigger] r[b]).0 by {
        assert(r[a].0 == s[a].0);
        assert(r[b].0 == s[b].0);
    }
    lemma_get_at_index(r, i);
    if q != s[i].0 {
        if spec_get(s, q) is Some {
            let j = lemma_get_some_index(s, q);
            assert(r[j].0 == s[j].0);
            assert(r[j].1 == s[j].1);
            lemma_get_at_index(r, j);
        } else {
            lemma_get_none_all_indices(s, q);
            if spec_get(r, q) is Some {
                let j = lemma_get_some_index(r, q);
                assert(r[j].0 == s[j].0);
                assert(false);
            }
        }
    }
}

/// Find the index of `key` in an association vector keyed by identifiers.
pub fn find_u128<V>(v: &Vec<(u128, V)>, key: u128) -> (r: Option<usize>)
    requires
        unique_keys(v@),
    ensures
        match r {
            Some(i) => i < v@.len() && v@[i as int].0 == key
                && spec_get(v@, key) == Some(v@[i as int].1),
            None => spec_get(v@, key) is None,
        },
{
    let mut i: usize = 0;
    while i < v.len()
        invariant
            unique_keys(v@),
            i <= v@.len(),
            forall|j: int| 0 <= j < i ==> (#[trigger] v@[j]).0 != key,
        decreases v@.len() - i,
    {
        if v[i].0 == key {
            proof {
                lemma_get_at_index(v@, i as int);
            }
            return Some(i);
        }
        i += 1;
    }
    proof {
        if spec_get(v@, key) is Some {
            let j = lemma_get_some_index(v@, key);
            assert(false);
        }
    }
    None
}

/// Find the index of `name` in an association vector keyed by strings.
pub fn find_name<V>(v: &Vec<(String, V)>, name: &String) -> (r: Option<usize>)
    requires
        unique_keys(v@.map_values(|p: (String, V)| (p.0@, p.1))),
    ensures
        match r {
            Some(i) => i < v@.len() && v@[i as int].0@ == name@
                && spec_get(v@.map_values(|p: (String, V)| (p.0@, p.1)), name@)
                    == Some(v@[i as int].1),
            None => spec_get(v@.map_values(|p: (String, V)| (p.0@, p.1)), name@) is None,
        },
{
    let ghost m = v@.map_values(|p: (String, V)| (p.0@, p.1));
    let mut i: usize = 0;
    while i < v.len()
        invariant
            unique_keys(m),
            m == v@.map_values(|p: (String, V)| (p.0@, p.1)),
            i <= v@.len(),
            forall|j: int| 0 <= j < i ==> (#[trigger] m[j]).0 != name@,
        decreases v@.len() - i,
    {
        if v[i].0 == *name {
            proof {
                lemma_get_at_index(m, i as int);
            }
            return Some(i);
        }
        i += 1;
    }
    proof {
        if spec_get(m, name@) is Some {
            let j = lemma_get_some_index(m, name@);
            assert(false);
        }
    }
    None
}

} // verus!
