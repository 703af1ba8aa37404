//! Spec-level helpers for ordered sequences of `(key, value)` pairs.
//!
//! Result objects, argument maps and variable bindings are all ordered
//! name/value sequences: insertion order is kept and a lookup returns the
//! first pair whose key matches.

use vstd::prelude::*;

verus! {

/// Index of the first pair whose key is `k`, if any.
pub open spec fn assoc_find<V>(s: Seq<(Seq<char>, V)>, k: Seq<char>) -> Option<int>
    decreases s.len(),
{
    if s.len() == 0 {
        None
    } else if s[0].0 == k {
        Some(0)
    } else {
        match assoc_find(s.drop_first(), k) {
            Some(i) => Some(i + 1),
            None => None,
        }
    }
}

pub open spec fn assoc_has<V>(s: Seq<(Seq<char>, V)>, k: Seq<char>) -> bool {
    assoc_find(s, k) is Some
}

/// Value of the first pair whose key is `k`.
pub open spec fn assoc_get<V>(s: Seq<(Seq<char>, V)>, k: Seq<char>) -> V
    recommends
        assoc_has(s, k),
{
    s[assoc_find(s, k)->Some_0].1
}

/// What an insert with "keep the first position, update the value" semantics
/// does to an ordered pair sequence: an existing key keeps its place and gets
/// the new value, a new key is appended last.
pub open spec fn assoc_insert<V>(s: Seq<(Seq<char>, V)>, k: Seq<char>, v: V) -> Seq<
    (Seq<char>, V),
> {
    match assoc_find(s, k) {
        Some(i) => s.update(i, (k, v)),
        None => s.push((k, v)),
    }
}

/// The keys of a pair sequence, in order.
pub open spec fn keys_of<V>(s: Seq<(Seq<char>, V)>) -> Seq<Seq<char>> {
    s.map(|i: int, p: (Seq<char>, V)| p.0)
}

pub proof fn lemma_assoc_find_bounds<V>(s: Seq<(Seq<char>, V)>, k: Seq<char>)
    ensures
        match assoc_find(s, k) {
            Some(i) => 0 <= i < s.len() && s[i].0 == k && (forall|j: int|
                0 <= j < i ==> s[j].0 != k),
            None => forall|j: int| 0 <= j < s.len() ==> s[j].0 != k,
        },
    decreases s.len(),
{
    if s.len() > 0 && s[0].0 != k {
        lemma_assoc_find_bounds(s.drop_first(), k);
        match assoc_find(s.drop_first(), k) {
            Some(i) => {
                assert(s.drop_first()[i] == s[i + 1]);
                assert forall|j: int| 0 <= j < i + 1 implies s[j].0 != k by {
                    if j > 0 {
                        assert(s.drop_first()[j - 1] == s[j]);
                    }
                }
            },
            None => {
                assert forall|j: int| 0 <= j < s.len() implies s[j].0 != k by {
                    if j > 0 {
                        assert(s.drop_first()[j - 1] == s[j]);
                    }
                }
            },
        }
    }
}

/// A key is found exactly when some pair carries it.
pub proof fn lemma_assoc_has_iff<V>(s: Seq<(Seq<char>, V)>, k: Seq<char>)
    ensures
        assoc_has(s, k) <==> exists|j: int| 0 <= j < s.len() && s[j].0 == k,
{
    lemma_assoc_find_bounds(s, k);
    if exists|j: int| 0 <= j < s.len() && s[j].0 == k {
        let j = choose|j: int| 0 <= j < s.len() && s[j].0 == k;
        assert(assoc_find(s, k) is Some);
    }
}

/// `keys_of` commutes with `assoc_insert`: inserting an existing key keeps
/// the key sequence, inserting a fresh key appends it.
pub proof fn lemma_keys_of_insert<V>(s: Seq<(Seq<char>, V)>, k: Seq<char>, v: V)
    ensures
        keys_of(assoc_insert(s, k, v)) == if assoc_has(s, k) {
            keys_of(s)
        } else {
            keys_of(s).push(k)
        },
{
    lemma_assoc_find_bounds(s, k);
    match assoc_find(s, k) {
        Some(i) => {
            assert(keys_of(assoc_insert(s, k, v)) =~= keys_of(s));
        },
        None => {
            assert(keys_of(assoc_insert(s, k, v)) =~= keys_of(s).push(k));
        },
    }
}

/// A pair that carries `k`, with no earlier pair carrying it, is the one a
/// lookup finds.
pub proof fn lemma_assoc_find_at<V>(s: Seq<(Seq<char>, V)>, k: Seq<char>, i: int)
    requires
        0 <= i < s.len(),
        s[i].0 == k,
        forall|j: int| 0 <= j < i ==> s[j].0 != k,
    ensures
        assoc_find(s, k) == Some(i),
{
    lemma_assoc_find_bounds(s, k);
    match assoc_find(s, k) {
        Some(f) => {
            if f < i {
                assert(s[f].0 != k);
            }
            if i < f {
                assert(s[i].0 != k);
            }
        },
        None => {
            assert(s[i].0 != k);
        },
    }
}

/// A key occurs in `keys_of(s)` exactly when a lookup finds it.
pub proof fn lemma_keys_of_contains<V>(s: Seq<(Seq<char>, V)>, k: Seq<char>)
    ensures
        keys_of(s).contains(k) <==> assoc_has(s, k),
{
    lemma_assoc_has_iff(s, k);
    if keys_of(s).contains(k) {
        let j = choose|j: int| 0 <= j < keys_of(s).len() && keys_of(s)[j] == k;
        assert(s[j].0 == k);
    }
    if exists|j: int| 0 <= j < s.len() && s[j].0 == k {
        let j = choose|j: int| 0 <= j < s.len() && s[j].0 == k;
        assert(keys_of(s)[j] == k);
    }
}

pub proof fn lemma_prefix_reflexive<A>(s: Seq<A>)
    ensures
        s.is_prefix_of(s),
{
    assert(s.subrange(0, s.len() as int) =~= s);
}

pub proof fn lemma_prefix_push<A>(a: Seq<A>, b: Seq<A>, x: A)
    requires
        a.is_prefix_of(b),
    ensures
        a.is_prefix_of(b.push(x)),
{
    assert(b.push(x).subrange(0, a.len() as int) =~= b.subrange(0, a.len() as int));
}

pub proof fn lemma_prefix_transitive<A>(a: Seq<A>, b: Seq<A>, c: Seq<A>)
    requires
        a.is_prefix_of(b),
        b.is_prefix_of(c),
    ensures
        a.is_prefix_of(c),
{
    assert forall|k: int| 0 <= k < a.len() implies a[k] == c[k] by {
        assert(a[k] == b.subrange(0, a.len() as int)[k]);
        assert(b[k] == c.subrange(0, b.len() as int)[k]);
    }
    assert(a =~= c.subrange(0, a.len() as int));
}

/// Relies on str's PartialEq: equality of string slices is equality of their
/// characters.
#[verifier::external_body]
pub fn str_eq(a: &str, b: &str) -> (r: bool)
    ensures
        r == (a@ == b@),
{
    a == b
}

} // verus!
