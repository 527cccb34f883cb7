//! Association lists and string helpers shared by the other modules.

use vstd::prelude::*;

verus! {

/// The value the first pair keyed by `k` carries, scanning from the front.
pub open spec fn assoc_get<K, V>(s: Seq<(K, V)>, k: K) -> Option<V>
    decreases s.len(),
{
    if s.len() == 0 {
        None
    } else if s[0].0 == k {
        Some(s[0].1)
    } else {
        assoc_get(s.drop_first(), k)
    }
}

/// Whether some pair of `s` is keyed by `k`.
pub open spec fn assoc_has<K, V>(s: Seq<(K, V)>, k: K) -> bool {
    exists|i: int| 0 <= i < s.len() && #[trigger] s[i].0 == k
}

/// No key occurs twice.
pub open spec fn assoc_unique<K, V>(s: Seq<(K, V)>) -> bool {
    forall|i: int, j: int| 0 <= i < j < s.len() ==> #[trigger] s[i].0 != #[trigger] s[j].0
}

pub proof fn lemma_assoc_get_index<K, V>(s: Seq<(K, V)>, k: K, i: int)
    requires
        0 <= i < s.len(),
        s[i].0 == k,
        forall|j: int| 0 <= j < i ==> s[j].0 != k,
    ensures
        assoc_get(s, k) == Some(s[i].1),
    decreases s.len(),
{
    if i > 0 {
        assert forall|j: int| 0 <= j < i - 1 implies s.drop_first()[j].0 != k by {
            assert(s.drop_first()[j] == s[j + 1]);
        }
        lemma_assoc_get_index(s.drop_first(), k, i - 1);
    }
}

pub proof fn lemma_assoc_get_none<K, V>(s: Seq<(K, V)>, k: K)
    requires
        forall|j: int| 0 <= j < s.len() ==> s[j].0 != k,
    ensures
        assoc_get(s, k) == None::<V>,
    decreases s.len(),
{
    if s.len() > 0 {
        assert forall|j: int| 0 <= j < s.len() - 1 implies s.drop_first()[j].0 != k by {
            assert(s.drop_first()[j] == s[j + 1]);
        }
        lemma_assoc_get_none(s.drop_first(), k);
    }
}

pub proof fn lemma_assoc_get_some<K, V>(s: Seq<(K, V)>, k: K)
    requires
        assoc_get(s, k) is Some,
    ensures
        exists|i: int| 0 <= i < s.len() && s[i].0 == k && Some(s[i].1) == assoc_get(s, k)
            && forall|j: int| 0 <= j < i ==> s[j].0 != k,
    decreases s.len(),
{
    if s[0].0 != k {
        lemma_assoc_get_some(s.drop_first(), k);
        let i = choose|i: int|
            0 <= i < s.drop_first().len() && s.drop_first()[i].0 == k && Some(s.drop_first()[i].1)
                == assoc_get(s.drop_first(), k) && forall|j: int|
                0 <= j < i ==> s.drop_first()[j].0 != k;
        assert(s[i + 1] == s.drop_first()[i]);
        assert forall|j: int| 0 <= j < i + 1 implies s[j].0 != k by {
            if j > 0 {
                assert(s[j] == s.drop_first()[j - 1]);
            }
        }
    }
}

pub proof fn lemma_assoc_push<K, V>(s: Seq<(K, V)>, k: K, v: V, q: K)
    ensures
        assoc_get(s.push((k, v)), q) == (if assoc_get(s, q) is Some {
            assoc_get(s, q)
        } else if q == k {
            Some(v)
        } else {
            None
        }),
    decreases s.len(),
{
    if s.len() == 0 {
        assert(s.push((k, v)).drop_first() =~= Seq::<(K, V)>::empty());
        assert(s.push((k, v))[0] == (k, v));
        assert(assoc_get(s.push((k, v)).drop_first(), q) == None::<V>);
    } else {
        assert(s.push((k, v)).drop_first() =~= s.drop_first().push((k, v)));
        assert(s.push((k, v))[0] == s[0]);
        lemma_assoc_push(s.drop_first(), k, v, q);
    }
}

pub proof fn lemma_assoc_has_get<K, V>(s: Seq<(K, V)>, k: K)
    ensures
        assoc_has(s, k) <==> assoc_get(s, k) is Some,
    decreases s.len(),
{
    if s.len() > 0 {
        lemma_assoc_has_get(s.drop_first(), k);
        if s[0].0 != k {
            if assoc_has(s, k) {
                let i = choose|i: int| 0 <= i < s.len() && #[trigger] s[i].0 == k;
                assert(s.drop_first()[i - 1].0 == k);
            }
            if assoc_has(s.drop_first(), k) {
                let j = choose|j: int| 0 <= j < s.drop_first().len() && #[trigger] s.drop_first()[j].0 == k;
                assert(s[j + 1].0 == k);
            }
        } else {
            assert(s[0].0 == k);
        }
    }
}

/// After binding `val` unless something was bound: the binding is the old one if there was
/// one, `val` otherwise.
pub open spec fn bound_after<V>(old_v: Option<V>, new_v: Option<V>, val: V) -> bool {
    new_v == if old_v is Some { old_v } else { Some(val) }
}

/// A binding found in `a` is found, unchanged, in any list `a` is a prefix of.
pub proof fn lemma_assoc_get_prefix<K, V>(a: Seq<(K, V)>, b: Seq<(K, V)>, k: K)
    requires
        a.is_prefix_of(b),
        assoc_get(a, k) is Some,
    ensures
        assoc_get(b, k) == assoc_get(a, k),
{
    lemma_assoc_get_some(a, k);
    let i = choose|i: int| 0 <= i < a.len() && a[i].0 == k && Some(a[i].1) == assoc_get(a, k)
        && forall|j: int| 0 <= j < i ==> a[j].0 != k;
    assert(b[i] == a[i]);
    assert forall|j: int| 0 <= j < i implies b[j].0 != k by {
        assert(b[j] == a[j]);
    }
    lemma_assoc_get_index(b, k, i);
}

/// Whether the character sequences of `a` and `b` are equal.
pub fn str_eq(a: &str, b: &str) -> (r: bool)
    ensures
        r == (a@ == b@),
{
    let n = a.unicode_len();
    let m = b.unicode_len();
    if n != m {
        return false;
    }
    let mut i: usize = 0;
    while i < n
        invariant
            n == a@.len(),
            m == b@.len(),
            n == m,
            i <= n,
            forall|j: int| 0 <= j < i ==> a@[j] == b@[j],
        decreases n - i,
    {
        if a.get_char(i) != b.get_char(i) {
            return false;
        }
        i = i + 1;
    }
    assert(a@ =~= b@);
    true
}

/// Whether the first character of `s` is `c`.
pub fn starts_with_char(s: &str, c: char) -> (r: bool)
    ensures
        r == (s@.len() > 0 && s@[0] == c),
{
    let n = s.unicode_len();
    if n == 0 {
        false
    } else {
        s.get_char(0) == c
    }
}

} // verus!
