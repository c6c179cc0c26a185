//! Sums of natural numbers over finite sets.

use vstd::prelude::*;
use vstd::set::fold::{is_fun_commutative, lemma_fold_empty, lemma_fold_insert};

verus! {

/// Adds `f` of an element to an accumulated sum.
pub open spec fn adder<A>(f: spec_fn(A) -> nat) -> spec_fn(nat, A) -> nat {
    |acc: nat, x: A| acc + f(x)
}

/// The sum of `f` over the finite set `s`.
pub open spec fn sum_set<A>(s: Set<A>, f: spec_fn(A) -> nat) -> nat {
    s.fold(0nat, adder(f))
}

/// The sum over the empty set is 0.
pub proof fn lemma_sum_empty<A>(f: spec_fn(A) -> nat)
    ensures
        sum_set(Set::<A>::empty(), f) == 0,
{
    lemma_fold_empty(0nat, adder(f));
}

/// Adding an element to a set adds its term to the sum.
pub proof fn lemma_sum_insert<A>(s: Set<A>, f: spec_fn(A) -> nat, a: A)
    requires
        s.finite(),
        !s.contains(a),
    ensures
        sum_set(s.insert(a), f) == sum_set(s, f) + f(a),
{
    assert(is_fun_commutative(adder(f)));
    lemma_fold_insert(s, 0nat, adder(f), a);
}

/// Taking an element out of a set takes its term out of the sum.
pub proof fn lemma_sum_remove<A>(s: Set<A>, f: spec_fn(A) -> nat, a: A)
    requires
        s.finite(),
        s.contains(a),
    ensures
        sum_set(s, f) == sum_set(s.remove(a), f) + f(a),
{
    lemma_sum_insert(s.remove(a), f, a);
    assert(s.remove(a).insert(a) =~= s);
}

/// The sum over `s` only depends on the terms of the elements of `s`; where the terms of
/// `g` are no larger, so is its sum.
pub proof fn lemma_sum_le<A>(s: Set<A>, f: spec_fn(A) -> nat, g: spec_fn(A) -> nat)
    requires
        s.finite(),
        forall|x: A| s.contains(x) ==> g(x) <= f(x),
    ensures
        sum_set(s, g) <= sum_set(s, f),
    decreases s.len(),
{
    if s.len() == 0 {
        assert(s =~= Set::<A>::empty());
        lemma_sum_empty(f);
        lemma_sum_empty(g);
    } else {
        let a = s.choose();
        lemma_sum_remove(s, f, a);
        lemma_sum_remove(s, g, a);
        lemma_sum_le(s.remove(a), f, g);
    }
}

/// Sums of terms that agree on `s` are equal.
pub proof fn lemma_sum_eq<A>(s: Set<A>, f: spec_fn(A) -> nat, g: spec_fn(A) -> nat)
    requires
        s.finite(),
        forall|x: A| s.contains(x) ==> g(x) == f(x),
    ensures
        sum_set(s, g) == sum_set(s, f),
{
    lemma_sum_le(s, f, g);
    lemma_sum_le(s, g, f);
}

/// The sum of two terms is the sum of their sums.
pub proof fn lemma_sum_add<A>(s: Set<A>, f: spec_fn(A) -> nat, g: spec_fn(A) -> nat, h: spec_fn(A) -> nat)
    requires
        s.finite(),
        forall|x: A| s.contains(x) ==> h(x) == f(x) + g(x),
    ensures
        sum_set(s, h) == sum_set(s, f) + sum_set(s, g),
    decreases s.len(),
{
    if s.len() == 0 {
        assert(s =~= Set::<A>::empty());
        lemma_sum_empty(f);
        lemma_sum_empty(g);
        lemma_sum_empty(h);
    } else {
        let a = s.choose();
        lemma_sum_remove(s, f, a);
        lemma_sum_remove(s, g, a);
        lemma_sum_remove(s, h, a);
        lemma_sum_add(s.remove(a), f, g, h);
    }
}

/// Elements whose term is 0 count for nothing: a sum over `s` equals the sum over a
/// subset `t` that holds every element of `s` with a non-zero term.
pub proof fn lemma_sum_subset<A>(s: Set<A>, t: Set<A>, f: spec_fn(A) -> nat)
    requires
        s.finite(),
        t.subset_of(s),
        forall|x: A| s.contains(x) && !t.contains(x) ==> f(x) == 0,
    ensures
        sum_set(t, f) == sum_set(s, f),
    decreases s.len(),
{
    if s.len() == 0 {
        assert(s =~= Set::<A>::empty());
        assert(t =~= Set::<A>::empty());
    } else {
        let a = s.choose();
        lemma_sum_remove(s, f, a);
        vstd::set_lib::lemma_len_subset(t, s);
        if t.contains(a) {
            lemma_sum_remove(t, f, a);
            lemma_sum_subset(s.remove(a), t.remove(a), f);
        } else {
            assert(t.subset_of(s.remove(a)));
            lemma_sum_subset(s.remove(a), t, f);
        }
    }
}

/// A sum is positive exactly when some term is.
pub proof fn lemma_sum_positive<A>(s: Set<A>, f: spec_fn(A) -> nat)
    requires
        s.finite(),
    ensures
        sum_set(s, f) > 0 <==> exists|x: A| s.contains(x) && f(x) > 0,
    decreases s.len(),
{
    if s.len() == 0 {
        assert(s =~= Set::<A>::empty());
        lemma_sum_empty(f);
    } else {
        let a = s.choose();
        lemma_sum_remove(s, f, a);
        lemma_sum_positive(s.remove(a), f);
        if exists|x: A| s.contains(x) && f(x) > 0 {
            let x = choose|x: A| s.contains(x) && f(x) > 0;
            if x != a {
                assert(s.remove(a).contains(x));
            }
        }
    }
}

} // verus!
