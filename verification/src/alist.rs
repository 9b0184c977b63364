//! First-match lookup over keyed entry lists, generic in the key and the
//! entry payload.  This is the model shared by the slice table, the
//! dependency table, the method registries and the result maps.

use vstd::prelude::*;

verus! {

/// First entry with key `key`, if any.
pub open spec fn alist_get<K, T>(s: Seq<(K, T)>, key: K) -> Option<T>
    decreases s.len(),
{
    if s.len() == 0 {
        None
    } else if s[0].0 == key {
        Some(s[0].1)
    } else {
        alist_get(s.drop_first(), key)
    }
}

/// Index of the first entry with key `key`, or a negative value if absent.
pub open spec fn alist_index<K, T>(s: Seq<(K, T)>, key: K) -> int
    decreases s.len(),
{
    if s.len() == 0 {
        -1
    } else if s[0].0 == key {
        0
    } else if alist_index(s.drop_first(), key) < 0 {
        -1
    } else {
        1 + alist_index(s.drop_first(), key)
    }
}

/// `alist_index` finds the first matching entry and agrees with `alist_get`.
pub proof fn lemma_alist_index<K, T>(s: Seq<(K, T)>, key: K)
    ensures
        alist_index(s, key) >= 0 ==> {
            let i = alist_index(s, key);
            &&& 0 <= i < s.len()
            &&& s[i].0 == key
            &&& forall|j: int| 0 <= j < i ==> (#[trigger] s[j]).0 != key
            &&& alist_get(s, key) == Some(s[i].1)
        },
        alist_index(s, key) < 0 ==> (forall|j: int|
            0 <= j < s.len() ==> (#[trigger] s[j]).0 != key) && alist_get(s, key) is None,
    decreases s.len(),
{
    if s.len() == 0 {
    } else if s[0].0 == key {
        assert(alist_index(s, key) == 0);
        assert(alist_get(s, key) == Some(s[0].1));
    } else {
        let rest = s.drop_first();
        lemma_alist_index(rest, key);
        assert(alist_get(s, key) == alist_get(rest, key));
        if alist_index(rest, key) < 0 {
            assert(alist_index(s, key) < 0);
            assert forall|j: int| 0 <= j < s.len() implies (#[trigger] s[j]).0 != key by {
                if j > 0 {
                    assert(rest[j - 1] == s[j]);
                }
            }
        } else {
            let r = alist_index(rest, key);
            assert(alist_index(s, key) == 1 + r);
            assert(rest[r] == s[r + 1]);
            assert(s[1 + r].0 == key);
            assert forall|j: int| 0 <= j < 1 + r implies (#[trigger] s[j]).0 != key by {
                if j > 0 {
                    assert(rest[j - 1] == s[j]);
                }
            }
            assert(alist_get(rest, key) == Some(rest[r].1));
        }
    }
}

/// Two entry lists with the same keys have the same first-match index.
pub proof fn lemma_alist_index_same_keys<K, T>(
    a: Seq<(K, T)>,
    b: Seq<(K, T)>,
    key: K,
)
    requires
        a.len() == b.len(),
        forall|j: int| 0 <= j < a.len() ==> (#[trigger] a[j]).0 == b[j].0,
    ensures
        alist_index(a, key) == alist_index(b, key),
    decreases a.len(),
{
    if a.len() > 0 {
        assert(a[0].0 == b[0].0);
        lemma_alist_index_same_keys(a.drop_first(), b.drop_first(), key);
        assert(forall|j: int|
            0 <= j < a.drop_first().len() ==> (#[trigger] a.drop_first()[j]) == a[j + 1]);
        assert(forall|j: int|
            0 <= j < b.drop_first().len() ==> (#[trigger] b.drop_first()[j]) == b[j + 1]);
    }
}

/// Lookup over an appended entry: an existing key wins, otherwise the new
/// entry is found.
pub proof fn lemma_alist_push<K, T>(s: Seq<(K, T)>, p: (K, T), key: K)
    ensures
        alist_get(s.push(p), key) == if alist_get(s, key) is Some {
            alist_get(s, key)
        } else if p.0 == key {
            Some(p.1)
        } else {
            None
        },
    decreases s.len(),
{
    if s.len() == 0 {
        assert(s.push(p)[0] == p);
        assert(s.push(p).drop_first() =~= Seq::<(K, T)>::empty());
        assert(alist_get(Seq::<(K, T)>::empty(), key) is None);
        assert(alist_get(s, key) is None);
        if p.0 == key {
            assert(alist_get(s.push(p), key) == Some(p.1));
        } else {
            assert(alist_get(s.push(p), key) is None);
        }
    } else {
        assert(s.push(p)[0] == s[0]);
        assert(s.push(p).drop_first() =~= s.drop_first().push(p));
        lemma_alist_push(s.drop_first(), p, key);
    }
}

/// A first match at index `i` pins down the lookup.
pub proof fn lemma_alist_first_match<K, T>(s: Seq<(K, T)>, key: K, i: int)
    requires
        0 <= i < s.len(),
        s[i].0 == key,
        forall|j: int| 0 <= j < i ==> (#[trigger] s[j]).0 != key,
    ensures
        alist_index(s, key) == i,
        alist_get(s, key) == Some(s[i].1),
{
    lemma_alist_index(s, key);
    let x = alist_index(s, key);
    if x < 0 {
        assert(s[i].0 != key);
    } else if x < i {
        assert(s[x].0 != key);
    } else if x > i {
        assert(s[i].0 != key);
    }
    assert(x == i);
}

/// Without a matching key there is no lookup result.
pub proof fn lemma_alist_no_match<K, T>(s: Seq<(K, T)>, key: K)
    requires
        forall|j: int| 0 <= j < s.len() ==> (#[trigger] s[j]).0 != key,
    ensures
        alist_index(s, key) < 0,
        alist_get(s, key) is None,
{
    lemma_alist_index(s, key);
    if alist_index(s, key) >= 0 {
        let x = alist_index(s, key);
        assert(s[x].0 == key);
    }
}

} // verus!
