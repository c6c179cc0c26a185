//! Orderings that the containers rely on: the order in which a `BTreeMap` with integer
//! keys is walked, and the lexicographic order of pairs of hashes.

use std::collections::btree_map;
use std::collections::BTreeMap;
use vstd::prelude::*;
use vstd::std_specs::btree::increasing_seq;
use vstd::std_specs::btree::spec_btree_map_iter;
use vstd::std_specs::cmp::OrdSpec;
use vstd::std_specs::iter::IteratorSpec;

verus! {

broadcast use {vstd::std_specs::btree::group_btree_axioms, vstd::laws_cmp::group_laws_cmp};

/// `s` lists every entry of `m` exactly once, by strictly increasing key.
pub open spec fn lists_in_order<X>(m: Map<isize, X>, s: Seq<(isize, X)>) -> bool {
    &&& forall|i: int, j: int| 0 <= i < j < s.len() ==> s[i].0 < s[j].0
    &&& forall|i: int| 0 <= i < s.len() ==> #[trigger] m.contains_key(s[i].0) && m[s[i].0] == s[i].1
    &&& forall|k: isize| #[trigger] m.contains_key(k) ==> exists|i: int| 0 <= i < s.len() && s[i].0 == k
}

/// The entries that a walk over a `BTreeMap` visits, as values.
pub open spec fn visited<X>(s: Seq<(&isize, &X)>) -> Seq<(isize, X)> {
    s.map_values(|kv: (&isize, &X)| (*kv.0, *kv.1))
}

/// The keys that a walk over a `BTreeMap` visits.
pub open spec fn visited_keys<X>(s: Seq<(&isize, &X)>) -> Seq<isize> {
    s.map_values(|kv: (&isize, &X)| *kv.0)
}

/// A walk over a `BTreeMap` with integer keys visits its entries by increasing key.
pub proof fn lemma_iter_in_order<'a, X>(m: &'a BTreeMap<isize, X>, it: btree_map::Iter<'a, isize, X>)
    requires
        it == spec_btree_map_iter(m),
        increasing_seq(visited_keys(it.remaining())),
    ensures
        lists_in_order(m@, visited(it.remaining())),
        visited(it.remaining()).len() == m@.dom().len(),
{
    let v = it.remaining();
    let s = visited(v);
    let ks = visited_keys(v);
    assert(vstd::laws_cmp::obeys_cmp::<isize>());
    assert forall|i: int, j: int| 0 <= i < j < s.len() implies s[i].0 < s[j].0 by {
        assert(ks[i].cmp_spec(&ks[j]) is Less);
    }
    assert forall|i: int| 0 <= i < s.len() implies #[trigger] m@.contains_key(s[i].0) && m@[s[i].0]
        == s[i].1 by {
        assert(m@.contains_key(*v[i].0));
    }
    assert forall|k: isize| #[trigger] m@.contains_key(k) implies exists|i: int|
        0 <= i < s.len() && s[i].0 == k by {
        assert(v.contains((&k, &m@[k])));
        let i = choose|i: int| 0 <= i < v.len() && v[i] == (&k, &m@[k]);
        assert(s[i].0 == k);
    }
}

/// If `s` lists `m` in order, a key of `m` below the key at position `i` stands before `i`.
pub proof fn lemma_smaller_key_before<X>(m: Map<isize, X>, s: Seq<(isize, X)>, i: int, k: isize)
    requires
        lists_in_order(m, s),
        0 <= i < s.len(),
        m.contains_key(k),
        k < s[i].0,
    ensures
        exists|j: int| 0 <= j < i && s[j].0 == k,
{
    let j = choose|j: int| 0 <= j < s.len() && s[j].0 == k;
    if j >= i {
        if j > i {
            assert(s[i].0 < s[j].0);
        }
    }
}

/// Strict lexicographic order on pairs of hashes.
pub open spec fn lex_lt(a: (isize, isize), b: (isize, isize)) -> bool {
    a.0 < b.0 || (a.0 == b.0 && a.1 < b.1)
}

/// `s` lists every element of `d` exactly once, in strictly increasing lexicographic order.
pub open spec fn lists_set_in_order(d: Set<(isize, isize)>, s: Seq<(isize, isize)>) -> bool {
    &&& forall|i: int, j: int| 0 <= i < j < s.len() ==> lex_lt(s[i], s[j])
    &&& forall|i: int| 0 <= i < s.len() ==> #[trigger] d.contains(s[i])
    &&& forall|p: (isize, isize)| #[trigger] d.contains(p) ==> s.contains(p)
}

/// A set has at most one listing in lexicographic order.
pub proof fn lemma_listing_unique(d: Set<(isize, isize)>, s1: Seq<(isize, isize)>, s2: Seq<(isize, isize)>)
    requires
        lists_set_in_order(d, s1),
        lists_set_in_order(d, s2),
    ensures
        s1 == s2,
    decreases s1.len(),
{
    if s1.len() == 0 {
        if s2.len() > 0 {
            assert(d.contains(s2[0]));
            assert(s1.contains(s2[0]));
        }
    } else {
        assert(d.contains(s1[0]));
        assert(s2.contains(s1[0]));
        let a = s1[0];
        let b = s2[0];
        assert(d.contains(b));
        assert(s1.contains(b));
        let i = choose|i: int| 0 <= i < s1.len() && s1[i] == b;
        let j = choose|j: int| 0 <= j < s2.len() && s2[j] == a;
        if i > 0 {
            assert(lex_lt(a, b));
            if j > 0 {
                assert(lex_lt(b, a));
            }
        }
        assert(a == b);
        let d2 = d.remove(a);
        let t1 = s1.drop_first();
        let t2 = s2.drop_first();
        assert forall|p: (isize, isize)| #[trigger] d2.contains(p) implies t1.contains(p) by {
            let k = choose|k: int| 0 <= k < s1.len() && s1[k] == p;
            assert(t1[k - 1] == p);
        }
        assert forall|p: (isize, isize)| #[trigger] d2.contains(p) implies t2.contains(p) by {
            let k = choose|k: int| 0 <= k < s2.len() && s2[k] == p;
            assert(t2[k - 1] == p);
        }
        assert forall|k: int| 0 <= k < t1.len() implies #[trigger] d2.contains(t1[k]) by {
            assert(lex_lt(s1[0], s1[k + 1]));
        }
        assert forall|k: int| 0 <= k < t2.len() implies #[trigger] d2.contains(t2[k]) by {
            assert(lex_lt(s2[0], s2[k + 1]));
        }
        lemma_listing_unique(d2, t1, t2);
        assert(s1 == seq![a] + t1);
        assert(s2 == seq![a] + t2);
    }
}

/// A finite non-empty set of pairs has a lexicographically greatest element.
pub proof fn lemma_lex_max_exists(d: Set<(isize, isize)>)
    requires
        d.finite(),
        d.len() > 0,
    ensures
        exists|mx: (isize, isize)| d.contains(mx) && forall|y: (isize, isize)| #[trigger] d.contains(y) ==> y == mx || lex_lt(y, mx),
    decreases d.len(),
{
    let x = d.choose();
    let rest = d.remove(x);
    if rest.len() == 0 {
        assert forall|y: (isize, isize)| #[trigger] d.contains(y) implies y == x || lex_lt(y, x) by {
            if y != x {
                assert(rest.contains(y));
            }
        }
    } else {
        lemma_lex_max_exists(rest);
        let m2 = choose|mx: (isize, isize)| rest.contains(mx) && forall|y: (isize, isize)| #[trigger] rest.contains(y) ==> y == mx || lex_lt(y, mx);
        if lex_lt(m2, x) {
            assert forall|y: (isize, isize)| #[trigger] d.contains(y) implies y == x || lex_lt(y, x) by {
                if y != x {
                    assert(rest.contains(y));
                }
            }
        } else {
            assert forall|y: (isize, isize)| #[trigger] d.contains(y) implies y == m2 || lex_lt(y, m2) by {
                if y != x {
                    assert(rest.contains(y));
                }
            }
        }
    }
}

/// Every finite set of pairs has a listing in lexicographic order, and it holds each
/// element once.
pub proof fn lemma_listing_exists(d: Set<(isize, isize)>)
    requires
        d.finite(),
    ensures
        exists|s: Seq<(isize, isize)>| lists_set_in_order(d, s) && s.len() == d.len(),
    decreases d.len(),
{
    if d.len() == 0 {
        let s = Seq::<(isize, isize)>::empty();
        assert forall|p: (isize, isize)| #[trigger] d.contains(p) implies s.contains(p) by {
            assert(d.len() != 0);
        }
        assert(lists_set_in_order(d, s) && s.len() == d.len());
    } else {
        lemma_lex_max_exists(d);
        let mx = choose|mx: (isize, isize)| d.contains(mx) && forall|y: (isize, isize)| #[trigger] d.contains(y) ==> y == mx || lex_lt(y, mx);
        let rest = d.remove(mx);
        lemma_listing_exists(rest);
        let t = choose|t: Seq<(isize, isize)>| lists_set_in_order(rest, t) && t.len() == rest.len();
        let s = t.push(mx);
        assert forall|i: int, j: int| 0 <= i < j < s.len() implies lex_lt(s[i], s[j]) by {
            if j == t.len() {
                assert(rest.contains(t[i]));
            }
        }
        assert forall|i: int| 0 <= i < s.len() implies #[trigger] d.contains(s[i]) by {
            if i < t.len() {
                assert(rest.contains(t[i]));
            }
        }
        assert forall|p: (isize, isize)| #[trigger] d.contains(p) implies s.contains(p) by {
            if p == mx {
                assert(s[t.len() as int] == p);
            } else {
                assert(rest.contains(p));
                let i = choose|i: int| 0 <= i < t.len() && t[i] == p;
                assert(s[i] == p);
            }
        }
        assert(rest.len() == d.len() - 1);
        assert(lists_set_in_order(d, s) && s.len() == d.len());
    }
}

} // verus!
