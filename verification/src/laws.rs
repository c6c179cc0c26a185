//! What holds of the containers across calls: reading back what was set, what a removal
//! leaves, how the number of entries moves, and what the hashes depend on.

use crate::compare::{rich_compare_spec, CompareOp};
use crate::dict::{
    after_set, bucket_of, count, entry_order, hits, is_first_hit, lemma_first_hit_unique, lemma_first_index,
    lemma_matching_none, lemma_matching_split, lemma_no_hit, lemma_same_hits, lemma_unmatched_none, list_len,
    lookup, match_count, match_len, matching, dict_hash_spec, entries_in_order, entry_hashes, flat, lemma_flat_index, lemma_listing_set, listing, unmatched, with_entry, without_matches, Dict,
};
use crate::items::{drained, nth_next};
use crate::list::{item_hashes, list_hash_spec, position};
use crate::pyhash::combine_spec;
use crate::order::{lemma_listing_exists, lemma_listing_unique, lex_lt, lists_set_in_order};
use crate::sums::{
    lemma_sum_add, lemma_sum_empty, lemma_sum_eq, lemma_sum_insert, lemma_sum_positive, lemma_sum_remove, lemma_sum_subset, sum_set,
};
use vstd::prelude::*;

verus! {

/// What `law_get_after_set` states, for any map of lists.
proof fn lemma_map_get_after_set<K, V>(d: Map<(isize, isize), Seq<(K, V)>>, k: K, k_hash: isize, v: V, v_hash: isize, m: spec_fn(K) -> bool)
    requires
        m(k),
    ensures
        lookup(after_set(d, k_hash, m, v_hash, (k, v)), k_hash, m) == Some(v),
{
    let d2 = after_set(d, k_hash, m, v_hash, (k, v));
    let w = without_matches(d, k_hash, m);
    let b = bucket_of(d2, k_hash);
    assert forall|x: isize| x < v_hash implies #[trigger] hits(b, m, x).len() == 0 by {
        if b.contains_key(x) {
            assert(d2[(k_hash, x)] == unmatched(d[(k_hash, x)], m));
            lemma_unmatched_none(d[(k_hash, x)], m);
        }
    }
    let l = d2[(k_hash, v_hash)];
    if w.contains_key((k_hash, v_hash)) {
        let u = unmatched(d[(k_hash, v_hash)], m);
        lemma_unmatched_none(d[(k_hash, v_hash)], m);
        assert(l == u.push((k, v)));
        assert(l.drop_last() =~= u);
    } else {
        assert(l == seq![(k, v)]);
        assert(l.drop_last() =~= Seq::<(K, V)>::empty());
    }
    assert(b[v_hash] == l);
    assert(matching(l.drop_last(), m) =~= Seq::<(K, V)>::empty());
    assert(l.last() == (k, v));
    assert(hits(b, m, v_hash) =~= seq![(k, v)]);
    assert(is_first_hit(b, m, v_hash));
    lemma_first_hit_unique(b, m, v_hash);
}

/// Looking a key up right after setting it finds the value just set.
pub proof fn law_get_after_set<K, V>(d: Dict<K, V>, k: K, k_hash: isize, v: V, v_hash: isize, m: spec_fn(K) -> bool)
    requires
        m(k),
    ensures
        lookup(after_set(d@, k_hash, m, v_hash, (k, v)), k_hash, m) == Some(v),
{
    lemma_map_get_after_set(d@, k, k_hash, v, v_hash, m);
}

/// Facts on one list of a bucket that keeps what the keys equal to another key find.
proof fn lemma_hits_kept<K, V>(s: Seq<(K, V)>, m: spec_fn(K) -> bool, m2: spec_fn(K) -> bool)
    requires
        forall|x: K| !(m(x) && #[trigger] m2(x)),
    ensures
        matching(unmatched(s, m), m2) == matching(s, m2),
        unmatched(s, m).len() == 0 ==> matching(s, m2).len() == 0,
{
    lemma_matching_split(s, m);
    assert(matching(unmatched(s, m), m2) == matching(s, m2));
}

/// What `law_set_leaves_other_keys` states, for any map of lists.
proof fn lemma_map_set_leaves_other_keys<K, V>(
    d: Map<(isize, isize), Seq<(K, V)>>,
    k: K,
    k_hash: isize,
    v: V,
    v_hash: isize,
    m: spec_fn(K) -> bool,
    other_hash: isize,
    m2: spec_fn(K) -> bool,
)
    requires
        other_hash != k_hash || ((forall|x: K| !(m(x) && #[trigger] m2(x))) && !m2(k)),
    ensures
        lookup(after_set(d, k_hash, m, v_hash, (k, v)), other_hash, m2) == lookup(d, other_hash, m2),
{
    let d2 = after_set(d, k_hash, m, v_hash, (k, v));
    let b1 = bucket_of(d2, other_hash);
    let b0 = bucket_of(d, other_hash);
    if other_hash != k_hash {
        assert(b1 =~= b0);
    } else {
        assert forall|x: isize| #[trigger] hits(b1, m2, x) == hits(b0, m2, x) by {
            let w = without_matches(d, k_hash, m);
            if x == v_hash {
                let l = d2[(k_hash, v_hash)];
                assert(b1.contains_key(x) && b1[x] == l);
                assert(l.last() == (k, v));
                if w.contains_key((k_hash, x)) {
                    let s = d[(k_hash, x)];
                    lemma_hits_kept(s, m, m2);
                    assert(l.drop_last() =~= unmatched(s, m));
                    assert(matching(l, m2) == matching(unmatched(s, m), m2));
                } else {
                    assert(l.drop_last() =~= Seq::<(K, V)>::empty());
                    assert(!m2(k));
                    assert(matching(l.drop_last(), m2) =~= Seq::<(K, V)>::empty());
                    assert(matching(l, m2) =~= Seq::<(K, V)>::empty());
                    if d.contains_key((k_hash, x)) {
                        let s = d[(k_hash, x)];
                        lemma_hits_kept(s, m, m2);
                        assert(unmatched(s, m).len() == 0);
                        assert(b0[x] == s);
                    }
                }
            } else if d.contains_key((k_hash, x)) {
                let s = d[(k_hash, x)];
                lemma_hits_kept(s, m, m2);
                assert(b0[x] == s);
                if w.contains_key((k_hash, x)) {
                    assert(b1[x] == unmatched(s, m));
                } else {
                    assert(!b1.contains_key(x));
                }
            } else {
                assert(!b1.contains_key(x));
                assert(!b0.contains_key(x));
            }
        }
    }
    lemma_same_hits(b1, b0, m2);
}

/// Setting a key does not change what another key finds: one of another hash, or one of
/// the same hash that is equal neither to the key set nor to any key equal to it.
pub proof fn law_set_leaves_other_keys<K, V>(
    d: Dict<K, V>,
    k: K,
    k_hash: isize,
    v: V,
    v_hash: isize,
    m: spec_fn(K) -> bool,
    other_hash: isize,
    m2: spec_fn(K) -> bool,
)
    requires
        other_hash != k_hash || ((forall|x: K| !(m(x) && #[trigger] m2(x))) && !m2(k)),
    ensures
        lookup(after_set(d@, k_hash, m, v_hash, (k, v)), other_hash, m2) == lookup(d@, other_hash, m2),
{
    lemma_map_set_leaves_other_keys(d@, k, k_hash, v, v_hash, m, other_hash, m2);
}

/// What `law_get_after_remove` states, for any map of lists.
proof fn lemma_map_get_after_remove<K, V>(d: Map<(isize, isize), Seq<(K, V)>>, k_hash: isize, m: spec_fn(K) -> bool)
    ensures
        lookup(without_matches(d, k_hash, m), k_hash, m) is None,
{
    let b = bucket_of(without_matches(d, k_hash, m), k_hash);
    assert forall|x: isize| #[trigger] hits(b, m, x).len() == 0 by {
        if b.contains_key(x) {
            lemma_unmatched_none(d[(k_hash, x)], m);
        }
    }
    lemma_no_hit(b, m);
}

/// After a key is removed, looking it up finds nothing.
pub proof fn law_get_after_remove<K, V>(d: Dict<K, V>, k_hash: isize, m: spec_fn(K) -> bool)
    ensures
        lookup(without_matches(d@, k_hash, m), k_hash, m) is None,
{
    lemma_map_get_after_remove(d@, k_hash, m);
}

/// What `law_remove_leaves_other_keys` states, for any map of lists.
proof fn lemma_map_remove_leaves_other_keys<K, V>(d: Map<(isize, isize), Seq<(K, V)>>, k_hash: isize, m: spec_fn(K) -> bool, other_hash: isize, m2: spec_fn(K) -> bool)
    requires
        other_hash != k_hash || (forall|x: K| !(m(x) && #[trigger] m2(x))),
    ensures
        lookup(without_matches(d, k_hash, m), other_hash, m2) == lookup(d, other_hash, m2),
{
    let d2 = without_matches(d, k_hash, m);
    let b1 = bucket_of(d2, other_hash);
    let b0 = bucket_of(d, other_hash);
    if other_hash != k_hash {
        assert(b1 =~= b0);
    } else {
        assert forall|x: isize| #[trigger] hits(b1, m2, x) == hits(b0, m2, x) by {
            if d.contains_key((k_hash, x)) {
                lemma_hits_kept(d[(k_hash, x)], m, m2);
            }
        }
    }
    lemma_same_hits(b1, b0, m2);
}

/// Removing a key does not change what another key finds: one of another hash, or one of
/// the same hash that is not equal to the key removed.
pub proof fn law_remove_leaves_other_keys<K, V>(d: Dict<K, V>, k_hash: isize, m: spec_fn(K) -> bool, other_hash: isize, m2: spec_fn(K) -> bool)
    requires
        other_hash != k_hash || (forall|x: K| !(m(x) && #[trigger] m2(x))),
    ensures
        lookup(without_matches(d@, k_hash, m), other_hash, m2) == lookup(d@, other_hash, m2),
{
    lemma_map_remove_leaves_other_keys(d@, k_hash, m, other_hash, m2);
}

/// Taking the entries of equal keys out of a bucket takes exactly those entries away.
proof fn lemma_count_without<K, V>(d: Map<(isize, isize), Seq<(K, V)>>, kh: isize, m: spec_fn(K) -> bool)
    requires
        d.dom().finite(),
    ensures
        without_matches(d, kh, m).dom().finite(),
        count(d) == count(without_matches(d, kh, m)) + match_count(d, kh, m),
{
    let w = without_matches(d, kh, m);
    assert(w.dom().subset_of(d.dom()));
    vstd::set_lib::lemma_len_subset(w.dom(), d.dom());
    let g = |p: (isize, isize)| if w.contains_key(p) { w[p].len() } else { 0nat };
    let h = match_len(d, kh, m);
    assert forall|p: (isize, isize)| d.dom().contains(p) implies list_len(d)(p) == g(p) + h(p) by {
        lemma_matching_split(d[p], m);
    }
    lemma_sum_add(d.dom(), g, h, list_len(d));
    lemma_sum_subset(d.dom(), w.dom(), g);
    lemma_sum_eq(w.dom(), list_len(w), g);
}

/// Adding one entry adds one to the count.
proof fn lemma_count_with_entry<K, V>(d: Map<(isize, isize), Seq<(K, V)>>, kh: isize, vh: isize, e: (K, V))
    requires
        d.dom().finite(),
    ensures
        count(with_entry(d, kh, vh, e)) == count(d) + 1,
{
    let d2 = with_entry(d, kh, vh, e);
    let p0 = (kh, vh);
    if d.contains_key(p0) {
        assert(d2.dom() =~= d.dom());
        lemma_sum_remove(d.dom(), list_len(d), p0);
        lemma_sum_remove(d.dom(), list_len(d2), p0);
        lemma_sum_eq(d.dom().remove(p0), list_len(d), list_len(d2));
    } else {
        assert(d2.dom() =~= d.dom().insert(p0));
        lemma_sum_insert(d.dom(), list_len(d2), p0);
        lemma_sum_eq(d.dom(), list_len(d), list_len(d2));
    }
}

/// Nothing is found for a key exactly when no entry of its bucket holds an equal key.
proof fn lemma_lookup_none<K, V>(d: Map<(isize, isize), Seq<(K, V)>>, kh: isize, m: spec_fn(K) -> bool)
    requires
        d.dom().finite(),
    ensures
        lookup(d, kh, m) is None <==> forall|p: (isize, isize)| #[trigger] d.contains_key(p) && p.0 == kh ==> matching(d[p], m).len() == 0,
{
    let b = bucket_of(d, kh);
    if forall|p: (isize, isize)| #[trigger] d.contains_key(p) && p.0 == kh ==> matching(d[p], m).len() == 0 {
        assert forall|x: isize| #[trigger] hits(b, m, x).len() == 0 by {
            if b.contains_key(x) {
                assert(d.contains_key((kh, x)));
            }
        }
        lemma_no_hit(b, m);
    } else {
        let p = choose|p: (isize, isize)| #[trigger] d.contains_key(p) && p.0 == kh && matching(d[p], m).len() > 0;
        lemma_listing_exists(d.dom());
        let ord = entry_order(d);
        assert(lists_set_in_order(d.dom(), ord));
        let i = choose|i: int| 0 <= i < ord.len() && ord[i] == p;
        let pred = |q: (isize, isize)| q.0 == kh && d.contains_key(q) && matching(d[q], m).len() > 0;
        lemma_first_index(ord, pred, i);
        let j = choose|j: int| 0 <= j <= i && pred(ord[j]) && forall|k: int| 0 <= k < j ==> !pred(#[trigger] ord[k]);
        let vh = ord[j].1;
        assert forall|x: isize| x < vh implies #[trigger] hits(b, m, x).len() == 0 by {
            if b.contains_key(x) {
                let q = (kh, x);
                assert(d.dom().contains(q));
                let c = choose|c: int| 0 <= c < ord.len() && ord[c] == q;
                if c >= j {
                    if c > j {
                        assert(lex_lt(ord[j], ord[c]));
                    }
                }
                assert(!pred(ord[c]));
            }
        }
        assert(b.contains_key(vh));
        assert(is_first_hit(b, m, vh));
        lemma_first_hit_unique(b, m, vh);
    }
}

/// Nothing is found for a key exactly when the dictionary holds no key equal to it, that is
/// when it holds no entry under an equal key.
pub proof fn law_lookup_none_iff_absent<K, V>(d: Dict<K, V>, k_hash: isize, m: spec_fn(K) -> bool)
    requires
        d.wf(),
    ensures
        lookup(d@, k_hash, m) is None <==> forall|p: (isize, isize), i: int| #![trigger d@[p][i]]
            d@.contains_key(p) && p.0 == k_hash && 0 <= i < d@[p].len() ==> !m(d@[p][i].0),
        lookup(d@, k_hash, m) is None <==> match_count(d@, k_hash, m) == 0,
{
    d.lemma_wf();
    lemma_lookup_none(d@, k_hash, m);
    let h = match_len(d@, k_hash, m);
    lemma_sum_positive(d@.dom(), h);
    assert forall|p: (isize, isize)| #[trigger] d@.contains_key(p) && p.0 == k_hash implies
        (matching(d@[p], m).len() == 0 <==> forall|i: int| 0 <= i < d@[p].len() ==> !m(#[trigger] d@[p][i].0)) by {
        lemma_matching_none(d@[p], m);
    }
    if match_count(d@, k_hash, m) > 0 {
        let p = choose|p: (isize, isize)| d@.dom().contains(p) && h(p) > 0;
        assert(d@.contains_key(p) && p.0 == k_hash);
    }
}

/// Setting a key adds one entry and takes away the entries of equal keys.
pub proof fn law_set_len<K, V>(d: Dict<K, V>, k: K, k_hash: isize, v: V, v_hash: isize, m: spec_fn(K) -> bool)
    requires
        d.wf(),
    ensures
        count(after_set(d@, k_hash, m, v_hash, (k, v))) + match_count(d@, k_hash, m) == count(d@) + 1,
{
    d.lemma_wf();
    lemma_count_without(d@, k_hash, m);
    lemma_count_with_entry(without_matches(d@, k_hash, m), k_hash, v_hash, (k, v));
}

/// Removing a key takes away the entries of equal keys and no other.
pub proof fn law_remove_len<K, V>(d: Dict<K, V>, k_hash: isize, m: spec_fn(K) -> bool)
    requires
        d.wf(),
    ensures
        count(without_matches(d@, k_hash, m)) + match_count(d@, k_hash, m) == count(d@),
{
    d.lemma_wf();
    lemma_count_without(d@, k_hash, m);
}

/// A sum over a finite set in which one element alone counts is that element's term.
proof fn lemma_sum_single<A>(s: Set<A>, f: spec_fn(A) -> nat, a: A)
    requires
        s.finite(),
        s.contains(a),
        forall|x: A| s.contains(x) && x != a ==> f(x) == 0,
    ensures
        sum_set(s, f) == f(a),
{
    lemma_sum_remove(s, f, a);
    lemma_sum_subset(s.remove(a), Set::<A>::empty(), f);
    lemma_sum_empty(f);
}

/// A sum over the domain of a map equals the sum over a larger finite set of the same
/// terms, counted as 0 outside the domain.
proof fn lemma_sum_widen<K, V>(d: Map<(isize, isize), Seq<(K, V)>>, u: Set<(isize, isize)>, f: spec_fn((isize, isize)) -> nat, g: spec_fn((isize, isize)) -> nat)
    requires
        u.finite(),
        d.dom().subset_of(u),
        forall|p: (isize, isize)| u.contains(p) ==> g(p) == if d.contains_key(p) { f(p) } else { 0 },
    ensures
        d.dom().finite(),
        sum_set(d.dom(), f) == sum_set(u, g),
{
    vstd::set_lib::lemma_len_subset(d.dom(), u);
    lemma_sum_subset(u, d.dom(), g);
    lemma_sum_eq(d.dom(), f, g);
}

/// What `law_set_holds_key_once` states, for any map of lists with finitely many pairs.
proof fn lemma_map_set_holds_key_once<K, V>(d: Map<(isize, isize), Seq<(K, V)>>, k: K, k_hash: isize, v: V, v_hash: isize, m: spec_fn(K) -> bool)
    requires
        d.dom().finite(),
        m(k),
    ensures
        match_count(after_set(d, k_hash, m, v_hash, (k, v)), k_hash, m) == 1,
{
    let d2 = after_set(d, k_hash, m, v_hash, (k, v));
    let w = without_matches(d, k_hash, m);
    let p0 = (k_hash, v_hash);
    let f = match_len(d2, k_hash, m);
    let u = d.dom().insert(p0);
    assert(d2.dom().subset_of(u));
    vstd::set_lib::lemma_len_subset(d2.dom(), u);
    assert forall|p: (isize, isize)| d2.dom().contains(p) && p != p0 implies f(p) == 0 by {
        if p.0 == k_hash {
            lemma_unmatched_none(d[p], m);
        }
    }
    let l = d2[p0];
    if w.contains_key(p0) {
        lemma_unmatched_none(d[p0], m);
        assert(l.drop_last() =~= unmatched(d[p0], m));
    } else {
        assert(l.drop_last() =~= Seq::<(K, V)>::empty());
    }
    assert(d2.contains_key(p0));
    assert(l.len() > 0);
    assert(l.last() == (k, v));
    assert(matching(l.drop_last(), m).len() == 0);
    assert(matching(l, m) == matching(l.drop_last(), m).push(l.last()));
    assert(matching(l, m).len() == 1);
    lemma_sum_single(d2.dom(), f, p0);
}

/// Right after a key is set, the dictionary holds it once.
pub proof fn law_set_holds_key_once<K, V>(d: Dict<K, V>, k: K, k_hash: isize, v: V, v_hash: isize, m: spec_fn(K) -> bool)
    requires
        d.wf(),
        m(k),
    ensures
        match_count(after_set(d@, k_hash, m, v_hash, (k, v)), k_hash, m) == 1,
{
    d.lemma_wf();
    lemma_map_set_holds_key_once(d@, k, k_hash, v, v_hash, m);
}

/// What `law_set_keeps_other_counts` states, for any map of lists with finitely many pairs.
proof fn lemma_map_set_keeps_other_counts<K, V>(
    d: Map<(isize, isize), Seq<(K, V)>>,
    k: K,
    k_hash: isize,
    v: V,
    v_hash: isize,
    m: spec_fn(K) -> bool,
    other_hash: isize,
    m2: spec_fn(K) -> bool,
)
    requires
        d.dom().finite(),
        other_hash != k_hash || ((forall|x: K| !(m(x) && #[trigger] m2(x))) && !m2(k)),
    ensures
        match_count(after_set(d, k_hash, m, v_hash, (k, v)), other_hash, m2) == match_count(d, other_hash, m2),
{
    let d2 = after_set(d, k_hash, m, v_hash, (k, v));
    let w = without_matches(d, k_hash, m);
    let p0 = (k_hash, v_hash);
    let u = d.dom().insert(p0);
    let f2 = match_len(d2, other_hash, m2);
    let f1 = match_len(d, other_hash, m2);
    let g = |p: (isize, isize)| if d.contains_key(p) { f1(p) } else { 0nat };
    assert forall|p: (isize, isize)| u.contains(p) implies g(p) == if d2.contains_key(p) { f2(p) } else { 0 } by {
        if p.0 == other_hash {
            if p.0 == k_hash {
                if d.contains_key(p) {
                    lemma_hits_kept(d[p], m, m2);
                }
                if p == p0 {
                    let l = d2[p0];
                    assert(!m2(k));
                    if w.contains_key(p0) {
                        assert(l.drop_last() =~= unmatched(d[p0], m));
                    } else {
                        assert(l.drop_last() =~= Seq::<(K, V)>::empty());
                        assert(matching(l.drop_last(), m2) =~= Seq::<(K, V)>::empty());
                    }
                    assert(matching(l, m2) == matching(l.drop_last(), m2));
                }
            } else {
                assert(d2.contains_key(p) == d.contains_key(p));
            }
        }
    }
    assert(d2.dom().subset_of(u));
    lemma_sum_widen(d2, u, f2, g);
    lemma_sum_widen(d, u, f1, g);
}

/// Setting a key leaves how often another key is held: one of another hash, or one of the
/// same hash that is equal neither to the key set nor to any key equal to it.
pub proof fn law_set_keeps_other_counts<K, V>(
    d: Dict<K, V>,
    k: K,
    k_hash: isize,
    v: V,
    v_hash: isize,
    m: spec_fn(K) -> bool,
    other_hash: isize,
    m2: spec_fn(K) -> bool,
)
    requires
        d.wf(),
        other_hash != k_hash || ((forall|x: K| !(m(x) && #[trigger] m2(x))) && !m2(k)),
    ensures
        match_count(after_set(d@, k_hash, m, v_hash, (k, v)), other_hash, m2) == match_count(d@, other_hash, m2),
{
    d.lemma_wf();
    lemma_map_set_keeps_other_counts(d@, k, k_hash, v, v_hash, m, other_hash, m2);
}

/// In a dictionary that holds a key at most once, setting it adds an entry exactly when the
/// key was not there before.
pub proof fn law_set_len_single<K, V>(d: Dict<K, V>, k: K, k_hash: isize, v: V, v_hash: isize, m: spec_fn(K) -> bool)
    requires
        d.wf(),
        match_count(d@, k_hash, m) <= 1,
    ensures
        count(after_set(d@, k_hash, m, v_hash, (k, v))) == count(d@) + if lookup(d@, k_hash, m) is Some { 0int } else { 1int },
{
    law_set_len(d, k, k_hash, v, v_hash, m);
    law_lookup_none_iff_absent(d, k_hash, m);
}

/// In a dictionary that holds a key at most once, removing it takes an entry away exactly
/// when the key was there.
pub proof fn law_remove_len_single<K, V>(d: Dict<K, V>, k_hash: isize, m: spec_fn(K) -> bool)
    requires
        d.wf(),
        match_count(d@, k_hash, m) <= 1,
    ensures
        count(without_matches(d@, k_hash, m)) == count(d@) - if lookup(d@, k_hash, m) is Some { 1int } else { 0int },
{
    law_remove_len(d, k_hash, m);
    law_lookup_none_iff_absent(d, k_hash, m);
}

/// The dictionary lists each of its entries once, in the order of their pairs of hashes:
/// as many as it counts.
pub proof fn law_listing_counts_entries<K, V>(d: Dict<K, V>)
    requires
        d.wf(),
    ensures
        lists_set_in_order(d@.dom(), entry_order(d@)),
        listing(d@).len() == count(d@),
        entries_in_order(d@).len() == count(d@),
{
    d.lemma_wf();
    lemma_listing_exists(d@.dom());
    lemma_listing_set(d@, entry_order(d@));
}

/// Two dictionaries with lists of the same lengths under the same pairs list those pairs
/// alike, entry by entry.
proof fn lemma_flat_alike<K, V>(d1: Map<(isize, isize), Seq<(K, V)>>, d2: Map<(isize, isize), Seq<(K, V)>>, ps: Seq<(isize, isize)>)
    requires
        forall|i: int| 0 <= i < ps.len() ==> #[trigger] d1[ps[i]].len() == d2[ps[i]].len(),
    ensures
        flat(d1, ps).len() == flat(d2, ps).len(),
        forall|j: int| 0 <= j < flat(d1, ps).len() ==> (#[trigger] flat(d1, ps)[j]).0 == flat(d2, ps)[j].0 && flat(d1, ps)[j].1 == flat(d2, ps)[j].1,
    decreases ps.len(),
{
    if ps.len() > 0 {
        let q = ps.drop_last();
        assert forall|i: int| 0 <= i < q.len() implies #[trigger] d1[q[i]].len() == d2[q[i]].len() by {
            assert(q[i] == ps[i]);
        }
        lemma_flat_alike(d1, d2, q);
        assert(d1[ps[ps.len() - 1]].len() == d2[ps[ps.len() - 1]].len());
    }
}

/// Two maps with finitely many pairs, filed alike, list their pairs alike and hash alike.
proof fn lemma_hash_by_filing<K, V>(d1: Map<(isize, isize), Seq<(K, V)>>, d2: Map<(isize, isize), Seq<(K, V)>>)
    requires
        d1.dom().finite(),
        d1.dom() == d2.dom(),
        forall|p: (isize, isize)| #[trigger] d1.contains_key(p) ==> d1[p].len() == d2[p].len(),
    ensures
        entry_order(d1) == entry_order(d2),
        dict_hash_spec(d1) == dict_hash_spec(d2),
{
    let ord = entry_order(d1);
    lemma_listing_exists(d1.dom());
    assert(lists_set_in_order(d1.dom(), ord));
    assert forall|i: int| 0 <= i < ord.len() implies #[trigger] d1[ord[i]].len() == d2[ord[i]].len() by {
        assert(d1.contains_key(ord[i]));
    }
    lemma_flat_alike(d1, d2, ord);
    assert(entry_hashes(d1) =~= entry_hashes(d2));
}

/// A dictionary's order and hash depend only on the pairs of hashes under which its entries
/// are filed and on how many entries each pair holds: two dictionaries filed alike hash
/// alike and compare equal.
pub proof fn law_hash_by_filing<K, V>(d1: Dict<K, V>, d2: Dict<K, V>)
    requires
        d1.wf(),
        d2.wf(),
        d1@.dom() == d2@.dom(),
        forall|p: (isize, isize)| #[trigger] d1@.contains_key(p) ==> d1@[p].len() == d2@[p].len(),
    ensures
        entry_order(d1@) == entry_order(d2@),
        dict_hash_spec(d1@) == dict_hash_spec(d2@),
        rich_compare_spec(CompareOp::Eq, dict_hash_spec(d1@), dict_hash_spec(d2@)),
{
    d1.lemma_wf();
    lemma_hash_by_filing(d1@, d2@);
}

/// The list under `p`, empty where there is none.
spec fn list_at<K, V>(d: Map<(isize, isize), Seq<(K, V)>>, p: (isize, isize)) -> Seq<(K, V)> {
    if d.contains_key(p) {
        d[p]
    } else {
        Seq::empty()
    }
}

/// Taking out the entries of two predicates, one after the other, in either order.
proof fn lemma_unmatched_commute<K, V>(s: Seq<(K, V)>, a: spec_fn(K) -> bool, b: spec_fn(K) -> bool)
    ensures
        unmatched(unmatched(s, a), b) == unmatched(unmatched(s, b), a),
    decreases s.len(),
{
    if s.len() > 0 {
        let q = s.drop_last();
        lemma_unmatched_commute(q, a, b);
        let x = s.last();
        let ua = unmatched(q, a);
        let ub = unmatched(q, b);
        if !a(x.0) {
            assert(ua.push(x).drop_last() =~= ua);
        }
        if !b(x.0) {
            assert(ub.push(x).drop_last() =~= ub);
        }
    }
}

/// What setting a key does to the list under each pair: the entries of equal keys leave the
/// bucket, and the new entry comes last under its own pair.
proof fn lemma_after_set_lists<K, V>(d: Map<(isize, isize), Seq<(K, V)>>, kh: isize, m: spec_fn(K) -> bool, vh: isize, e: (K, V))
    requires
        d.dom().finite(),
        forall|p: (isize, isize)| #[trigger] d.contains_key(p) ==> d[p].len() > 0,
    ensures
        after_set(d, kh, m, vh, e).dom().finite(),
        forall|p: (isize, isize)| #[trigger] after_set(d, kh, m, vh, e).contains_key(p) ==> after_set(d, kh, m, vh, e)[p].len() > 0,
        forall|p: (isize, isize)| #[trigger] list_at(after_set(d, kh, m, vh, e), p)
            == (if p.0 == kh { unmatched(list_at(d, p), m) } else { list_at(d, p) }) + (if p == (kh, vh) { seq![e] } else { Seq::<(K, V)>::empty() }),
{
    let a = after_set(d, kh, m, vh, e);
    assert(a.dom().subset_of(d.dom().insert((kh, vh))));
    vstd::set_lib::lemma_len_subset(a.dom(), d.dom().insert((kh, vh)));
    assert(unmatched(Seq::<(K, V)>::empty(), m) =~= Seq::<(K, V)>::empty());
    assert forall|p: (isize, isize)| #[trigger] list_at(a, p)
        == (if p.0 == kh { unmatched(list_at(d, p), m) } else { list_at(d, p) }) + (if p == (kh, vh) { seq![e] } else { Seq::<(K, V)>::empty() }) by {
        let base = if p.0 == kh { unmatched(list_at(d, p), m) } else { list_at(d, p) };
        if p == (kh, vh) {
            assert(list_at(a, p) =~= base + seq![e]);
        } else {
            assert(list_at(a, p) =~= base + Seq::<(K, V)>::empty());
        }
    }
}

/// Two unequal keys set one after the other, in either order, leave dictionaries filed
/// alike: the same order of entries and the same hash.
pub proof fn law_set_order_irrelevant<K, V>(
    d: Dict<K, V>,
    k1: K,
    kh1: isize,
    v1: V,
    vh1: isize,
    m1: spec_fn(K) -> bool,
    k2: K,
    kh2: isize,
    v2: V,
    vh2: isize,
    m2: spec_fn(K) -> bool,
)
    requires
        d.wf(),
        m1(k1),
        m2(k2),
        forall|x: K| !(m1(x) && #[trigger] m2(x)),
    ensures
        entry_order(after_set(after_set(d@, kh1, m1, vh1, (k1, v1)), kh2, m2, vh2, (k2, v2)))
            == entry_order(after_set(after_set(d@, kh2, m2, vh2, (k2, v2)), kh1, m1, vh1, (k1, v1))),
        dict_hash_spec(after_set(after_set(d@, kh1, m1, vh1, (k1, v1)), kh2, m2, vh2, (k2, v2)))
            == dict_hash_spec(after_set(after_set(d@, kh2, m2, vh2, (k2, v2)), kh1, m1, vh1, (k1, v1))),
{
    d.lemma_wf();
    let e1 = (k1, v1);
    let e2 = (k2, v2);
    let a1 = after_set(d@, kh1, m1, vh1, e1);
    let a2 = after_set(d@, kh2, m2, vh2, e2);
    let b1 = after_set(a1, kh2, m2, vh2, e2);
    let b2 = after_set(a2, kh1, m1, vh1, e1);
    lemma_after_set_lists(d@, kh1, m1, vh1, e1);
    lemma_after_set_lists(d@, kh2, m2, vh2, e2);
    lemma_after_set_lists(a1, kh2, m2, vh2, e2);
    lemma_after_set_lists(a2, kh1, m1, vh1, e1);
    assert(!m2(k1));
    assert(!m1(k2));
    assert forall|p: (isize, isize)| #[trigger] list_at(b1, p).len() == list_at(b2, p).len() by {
        let l = list_at(d@, p);
        let f1 = |s: Seq<(K, V)>| if p.0 == kh1 { unmatched(s, m1) } else { s };
        let f2 = |s: Seq<(K, V)>| if p.0 == kh2 { unmatched(s, m2) } else { s };
        let t1 = if p == (kh1, vh1) { seq![e1] } else { Seq::<(K, V)>::empty() };
        let t2 = if p == (kh2, vh2) { seq![e2] } else { Seq::<(K, V)>::empty() };
        assert(list_at(a1, p) == f1(l) + t1);
        assert(list_at(a2, p) == f2(l) + t2);
        assert(list_at(b1, p) == f2(f1(l) + t1) + t2);
        assert(list_at(b2, p) == f1(f2(l) + t2) + t1);
        if p == (kh1, vh1) && p.0 == kh2 {
            assert((f1(l) + t1) =~= f1(l).push(e1));
            assert(unmatched(f1(l).push(e1), m2) == unmatched(f1(l), m2).push(e1)) by {
                assert(f1(l).push(e1).drop_last() =~= f1(l));
            }
        }
        if p == (kh2, vh2) && p.0 == kh1 {
            assert((f2(l) + t2) =~= f2(l).push(e2));
            assert(unmatched(f2(l).push(e2), m1) == unmatched(f2(l), m1).push(e2)) by {
                assert(f2(l).push(e2).drop_last() =~= f2(l));
            }
        }
        lemma_unmatched_commute(l, m1, m2);
    }
    assert forall|p: (isize, isize)| b1.contains_key(p) == b2.contains_key(p) by {
        assert(list_at(b1, p).len() == list_at(b2, p).len());
    }
    assert(b1.dom() =~= b2.dom());
    assert forall|p: (isize, isize)| #[trigger] b1.contains_key(p) implies b1[p].len() == b2[p].len() by {
        assert(list_at(b1, p).len() == list_at(b2, p).len());
    }
    lemma_hash_by_filing(b1, b2);
}

/// Hash comparison is reflexive and symmetric, and only equality ever holds.
pub proof fn law_rich_compare(op: CompareOp, a: isize, b: isize)
    ensures
        rich_compare_spec(CompareOp::Eq, a, a),
        rich_compare_spec(op, a, b) == rich_compare_spec(op, b, a),
        op != CompareOp::Eq ==> !rich_compare_spec(op, a, b),
        rich_compare_spec(op, a, b) ==> op == CompareOp::Eq && a == b,
        a != b ==> !rich_compare_spec(op, a, b),
{
}

/// Setting an item of a list and reading it back gives the item set; the other items stay.
pub proof fn law_list_get_after_set<T>(s: Seq<T>, idx: isize, value: T)
    requires
        position(idx) < s.len(),
    ensures
        s.update(position(idx), value)[position(idx)] == value,
        forall|i: int| 0 <= i < s.len() && i != position(idx) ==> #[trigger] s.update(position(idx), value)[i] == s[i],
{
}

/// Every item's hash counts in a list's hash: one more item folds its hash into the hash of
/// the items before it.
pub proof fn law_list_hash_step<T, E>(s: Seq<T>, x: T, m: spec_fn(T) -> Result<isize, E>)
    ensures
        list_hash_spec(s.push(x), m) == match (list_hash_spec(s, m), m(x)) {
            (Ok(h), Ok(hx)) => Ok(combine_spec(h, hx)),
            (Err(e), _) => Err(e),
            (Ok(_), Err(e)) => Err(e),
        },
{
    assert(s.push(x).drop_last() =~= s);
    if let Ok(hs) = item_hashes(s, m) {
        if let Ok(hx) = m(x) {
            assert(hs.push(hx).drop_last() =~= hs);
        }
    }
}

/// A list hashes without error exactly when every item does.
pub proof fn law_list_hashable_iff_items<T, E>(s: Seq<T>, m: spec_fn(T) -> Result<isize, E>)
    ensures
        list_hash_spec(s, m) is Ok <==> forall|i: int| 0 <= i < s.len() ==> #[trigger] m(s[i]) is Ok,
    decreases s.len(),
{
    if s.len() > 0 {
        let q = s.drop_last();
        law_list_hashable_iff_items(q, m);
        assert(s == q.push(s.last()));
        law_list_hash_step(q, s.last(), m);
        if forall|i: int| 0 <= i < s.len() ==> #[trigger] m(s[i]) is Ok {
            assert forall|i: int| 0 <= i < q.len() implies #[trigger] m(q[i]) is Ok by {
                assert(m(s[i]) is Ok);
            }
            assert(m(s[s.len() - 1]) is Ok);
        } else {
            let i = choose|i: int| 0 <= i < s.len() && !(#[trigger] m(s[i]) is Ok);
            if i < s.len() - 1 {
                assert(q[i] == s[i]);
            }
        }
    }
}

/// Calling `next` again and again on an iterator yields the items still to come, in order,
/// one per call, and then nothing on every further call.
pub proof fn law_drain<X>(s: Seq<X>, n: nat)
    ensures
        drained(s, n) == if n <= s.len() { s.skip(n as int) } else { Seq::<X>::empty() },
        nth_next(s, n) == if n < s.len() { Some(s[n as int]) } else { None },
    decreases n,
{
    if n == 0 {
        assert(s.skip(0) =~= s);
    } else {
        law_drain(s, (n - 1) as nat);
        if n <= s.len() {
            assert(s.skip(n - 1).drop_first() =~= s.skip(n as int));
        } else if n - 1 == s.len() {
            assert(s.skip(n - 1) =~= Seq::<X>::empty());
        }
    }
    if n == s.len() {
        assert(s.skip(n as int) =~= Seq::<X>::empty());
    }
}

/// Draining the iterator over a dictionary's entries yields every entry once, in the
/// dictionary's order, then nothing on every further call.
pub proof fn law_items_drain<K, V>(d: Dict<K, V>, n: nat)
    requires
        d.wf(),
    ensures
        nth_next(entries_in_order(d@), n) == if n < count(d@) { Some(entries_in_order(d@)[n as int]) } else { None },
{
    law_listing_counts_entries(d);
    law_drain(entries_in_order(d@), n);
}

/// Draining the iterator over a dictionary's keys, or over its values, yields the keys, or
/// the values, of its entries in the dictionary's order, then nothing on every further call.
pub proof fn law_keys_values_drain<K, V>(d: Dict<K, V>, n: nat)
    requires
        d.wf(),
    ensures
        nth_next(entries_in_order(d@).map_values(|e: (K, V)| e.0), n)
            == if n < count(d@) { Some(entries_in_order(d@)[n as int].0) } else { None },
        nth_next(entries_in_order(d@).map_values(|e: (K, V)| e.1), n)
            == if n < count(d@) { Some(entries_in_order(d@)[n as int].1) } else { None },
{
    law_listing_counts_entries(d);
    law_drain(entries_in_order(d@).map_values(|e: (K, V)| e.0), n);
    law_drain(entries_in_order(d@).map_values(|e: (K, V)| e.1), n);
}

/// `eq` is an equivalence on keys, and keys that it calls equal have the same hash under `h`:
/// what a dictionary asks of its keys' equality and hashing.
pub open spec fn keys_hash_alike<K>(eq: spec_fn(K, K) -> bool, h: spec_fn(K) -> isize) -> bool {
    &&& forall|a: K| #[trigger] eq(a, a)
    &&& forall|a: K, b: K| #[trigger] eq(a, b) ==> eq(b, a)
    &&& forall|a: K, b: K, c: K| #[trigger] eq(a, b) && #[trigger] eq(b, c) ==> eq(a, c)
    &&& forall|a: K, b: K| #[trigger] eq(a, b) ==> h(a) == h(b)
}

/// The keys that `eq` calls equal to `k`.
pub open spec fn equal_to<K>(eq: spec_fn(K, K) -> bool, k: K) -> spec_fn(K) -> bool {
    |x: K| eq(k, x)
}

/// The dictionary `d` after a run of calls, in order: `(k, Some((v, vh)))` sets key `k` to
/// value `v` of hash `vh`, and `(k, None)` removes key `k`; keys are hashed by `h` and
/// compared by `eq`.
pub open spec fn after_steps<K, V>(
    d: Map<(isize, isize), Seq<(K, V)>>,
    steps: Seq<(K, Option<(V, isize)>)>,
    eq: spec_fn(K, K) -> bool,
    h: spec_fn(K) -> isize,
) -> Map<(isize, isize), Seq<(K, V)>>
    decreases steps.len(),
{
    if steps.len() == 0 {
        d
    } else {
        let d0 = after_steps(d, steps.drop_last(), eq, h);
        let k = steps.last().0;
        match steps.last().1 {
            Some(set) => after_set(d0, h(k), equal_to(eq, k), set.1, (k, set.0)),
            None => without_matches(d0, h(k), equal_to(eq, k)),
        }
    }
}

/// The value that the last call of a run on a key equal to `k` left it with: the value set,
/// or none where that call removed it or no call names it.
pub open spec fn last_set<K, V>(steps: Seq<(K, Option<(V, isize)>)>, eq: spec_fn(K, K) -> bool, k: K) -> Option<V>
    decreases steps.len(),
{
    if steps.len() == 0 {
        None
    } else if eq(steps.last().0, k) {
        match steps.last().1 {
            Some(set) => Some(set.0),
            None => None,
        }
    } else {
        last_set(steps.drop_last(), eq, k)
    }
}

/// Two keys that are not equal are equal to no common key.
proof fn lemma_unequal_disjoint<K>(eq: spec_fn(K, K) -> bool, h: spec_fn(K) -> isize, k1: K, k2: K)
    requires
        keys_hash_alike(eq, h),
        !eq(k1, k2),
    ensures
        forall|x: K| !(equal_to(eq, k1)(x) && #[trigger] equal_to(eq, k2)(x)),
        !equal_to(eq, k2)(k1),
{
    assert forall|x: K| !(equal_to(eq, k1)(x) && #[trigger] equal_to(eq, k2)(x)) by {
        if eq(k1, x) && eq(k2, x) {
            assert(eq(x, k2));
            assert(eq(k1, k2));
        }
    }
    if eq(k2, k1) {
        assert(eq(k1, k2));
    }
}

/// Keys that are equal are equal to the same keys.
proof fn lemma_equal_alike<K>(eq: spec_fn(K, K) -> bool, h: spec_fn(K) -> isize, k1: K, k2: K)
    requires
        keys_hash_alike(eq, h),
        eq(k1, k2),
    ensures
        equal_to(eq, k1) == equal_to(eq, k2),
        h(k1) == h(k2),
{
    assert forall|x: K| #[trigger] equal_to(eq, k1)(x) == equal_to(eq, k2)(x) by {
        assert(eq(k2, k1));
        if eq(k1, x) {
            assert(eq(k2, x));
        }
        if eq(k2, x) {
            assert(eq(k1, x));
        }
    }
    assert(equal_to(eq, k1) =~= equal_to(eq, k2));
}

/// Over any run of calls from an empty dictionary, looking a key up finds the value that the
/// last call on an equal key set, and nothing where that call removed the key or where no
/// call names an equal key.
pub proof fn law_read_last_write<K, V>(steps: Seq<(K, Option<(V, isize)>)>, eq: spec_fn(K, K) -> bool, h: spec_fn(K) -> isize, k: K)
    requires
        keys_hash_alike(eq, h),
    ensures
        lookup(after_steps(Map::empty(), steps, eq, h), h(k), equal_to(eq, k)) == last_set(steps, eq, k),
    decreases steps.len(),
{
    let m = equal_to(eq, k);
    if steps.len() == 0 {
        let b = bucket_of(Map::<(isize, isize), Seq<(K, V)>>::empty(), h(k));
        assert forall|x: isize| #[trigger] hits(b, m, x).len() == 0 by {}
        lemma_no_hit(b, m);
    } else {
        let q = steps.drop_last();
        law_read_last_write(q, eq, h, k);
        let d0 = after_steps(Map::<(isize, isize), Seq<(K, V)>>::empty(), q, eq, h);
        let k2 = steps.last().0;
        let m2 = equal_to(eq, k2);
        if eq(k2, k) {
            lemma_equal_alike(eq, h, k2, k);
            match steps.last().1 {
                Some(set) => {
                    lemma_map_get_after_set(d0, k2, h(k2), set.0, set.1, m2);
                },
                None => {
                    lemma_map_get_after_remove(d0, h(k2), m2);
                },
            }
        } else {
            lemma_unequal_disjoint(eq, h, k2, k);
            match steps.last().1 {
                Some(set) => {
                    lemma_map_set_leaves_other_keys(d0, k2, h(k2), set.0, set.1, m2, h(k), m);
                },
                None => {
                    lemma_map_remove_leaves_other_keys(d0, h(k2), m2, h(k), m);
                },
            }
        }
    }
}

/// Right after a key is removed, a map of lists holds it nowhere.
proof fn lemma_map_remove_holds_key_never<K, V>(d: Map<(isize, isize), Seq<(K, V)>>, k_hash: isize, m: spec_fn(K) -> bool)
    requires
        d.dom().finite(),
    ensures
        match_count(without_matches(d, k_hash, m), k_hash, m) == 0,
{
    let w = without_matches(d, k_hash, m);
    assert(w.dom().subset_of(d.dom()));
    vstd::set_lib::lemma_len_subset(w.dom(), d.dom());
    assert forall|p: (isize, isize)| w.dom().contains(p) implies match_len(w, k_hash, m)(p) == 0 by {
        if p.0 == k_hash {
            lemma_unmatched_none(d[p], m);
        }
    }
    lemma_sum_positive(w.dom(), match_len(w, k_hash, m));
}

/// Removing a key leaves how often another key is held, in a map of lists: one of another
/// hash, or one of the same hash that is not equal to the key removed.
proof fn lemma_map_remove_keeps_other_counts<K, V>(
    d: Map<(isize, isize), Seq<(K, V)>>,
    k_hash: isize,
    m: spec_fn(K) -> bool,
    other_hash: isize,
    m2: spec_fn(K) -> bool,
)
    requires
        d.dom().finite(),
        other_hash != k_hash || (forall|x: K| !(m(x) && #[trigger] m2(x))),
    ensures
        match_count(without_matches(d, k_hash, m), other_hash, m2) == match_count(d, other_hash, m2),
{
    let w = without_matches(d, k_hash, m);
    let f1 = match_len(d, other_hash, m2);
    let f2 = match_len(w, other_hash, m2);
    assert forall|p: (isize, isize)| d.dom().contains(p) implies f1(p) == if w.contains_key(p) { f2(p) } else { 0 } by {
        if p.0 == other_hash && p.0 == k_hash {
            lemma_hits_kept(d[p], m, m2);
        }
    }
    assert(w.dom().subset_of(d.dom()));
    lemma_sum_widen(w, d.dom(), f2, f1);
    lemma_sum_eq(d.dom(), f1, f1);
}

/// A run of calls from an empty dictionary leaves finitely many pairs, each with a list that
/// is not empty.
proof fn lemma_steps_lists<K, V>(steps: Seq<(K, Option<(V, isize)>)>, eq: spec_fn(K, K) -> bool, h: spec_fn(K) -> isize)
    ensures
        after_steps(Map::empty(), steps, eq, h).dom().finite(),
        forall|p: (isize, isize)| #[trigger] after_steps(Map::empty(), steps, eq, h).contains_key(p)
            ==> after_steps(Map::empty(), steps, eq, h)[p].len() > 0,
    decreases steps.len(),
{
    let d = after_steps(Map::<(isize, isize), Seq<(K, V)>>::empty(), steps, eq, h);
    if steps.len() == 0 {
        assert(d.dom() =~= Set::<(isize, isize)>::empty());
    } else {
        let q = steps.drop_last();
        lemma_steps_lists(q, eq, h);
        let d0 = after_steps(Map::<(isize, isize), Seq<(K, V)>>::empty(), q, eq, h);
        let k = steps.last().0;
        match steps.last().1 {
            Some(set) => {
                lemma_after_set_lists(d0, h(k), equal_to(eq, k), set.1, (k, set.0));
            },
            None => {
                assert(d.dom().subset_of(d0.dom()));
                vstd::set_lib::lemma_len_subset(d.dom(), d0.dom());
            },
        }
    }
}

/// Over any run of calls from an empty dictionary, every key is held once if the last call
/// on an equal key set it, and not at all otherwise: no key is ever held twice.
pub proof fn law_steps_hold_keys_once<K, V>(steps: Seq<(K, Option<(V, isize)>)>, eq: spec_fn(K, K) -> bool, h: spec_fn(K) -> isize, k: K)
    requires
        keys_hash_alike(eq, h),
    ensures
        match_count(after_steps(Map::empty(), steps, eq, h), h(k), equal_to(eq, k))
            == if last_set(steps, eq, k) is Some { 1nat } else { 0nat },
    decreases steps.len(),
{
    let m = equal_to(eq, k);
    let d = after_steps(Map::<(isize, isize), Seq<(K, V)>>::empty(), steps, eq, h);
    if steps.len() == 0 {
        assert(d.dom() =~= Set::<(isize, isize)>::empty());
        lemma_sum_empty(match_len(d, h(k), m));
    } else {
        let q = steps.drop_last();
        law_steps_hold_keys_once(q, eq, h, k);
        lemma_steps_lists(q, eq, h);
        let d0 = after_steps(Map::<(isize, isize), Seq<(K, V)>>::empty(), q, eq, h);
        let k2 = steps.last().0;
        let m2 = equal_to(eq, k2);
        if eq(k2, k) {
            lemma_equal_alike(eq, h, k2, k);
            assert(eq(k2, k2));
            match steps.last().1 {
                Some(set) => {
                    lemma_map_set_holds_key_once(d0, k2, h(k2), set.0, set.1, m2);
                },
                None => {
                    lemma_map_remove_holds_key_never(d0, h(k2), m2);
                },
            }
        } else {
            lemma_unequal_disjoint(eq, h, k2, k);
            match steps.last().1 {
                Some(set) => {
                    lemma_map_set_keeps_other_counts(d0, k2, h(k2), set.0, set.1, m2, h(k), m);
                },
                None => {
                    lemma_map_remove_keeps_other_counts(d0, h(k2), m2, h(k), m);
                },
            }
        }
    }
}

/// Over any run of calls from an empty dictionary, setting a key adds an entry exactly when
/// no equal key is held, and removing a key takes one away exactly when an equal key is held.
pub proof fn law_steps_len<K, V>(steps: Seq<(K, Option<(V, isize)>)>, eq: spec_fn(K, K) -> bool, h: spec_fn(K) -> isize, k: K, v: V, vh: isize)
    requires
        keys_hash_alike(eq, h),
    ensures
        count(after_steps(Map::empty(), steps.push((k, Some((v, vh)))), eq, h))
            == count(after_steps(Map::empty(), steps, eq, h)) + if last_set(steps, eq, k) is Some { 0int } else { 1int },
        count(after_steps(Map::empty(), steps.push((k, None)), eq, h))
            == count(after_steps(Map::empty(), steps, eq, h)) - if last_set(steps, eq, k) is Some { 1int } else { 0int },
{
    let d0 = after_steps(Map::<(isize, isize), Seq<(K, V)>>::empty(), steps, eq, h);
    let m = equal_to(eq, k);
    law_steps_hold_keys_once(steps, eq, h, k);
    lemma_steps_lists(steps, eq, h);
    assert(steps.push((k, Some((v, vh)))).drop_last() =~= steps);
    assert(steps.push((k, None::<(V, isize)>)).drop_last() =~= steps);
    lemma_count_without(d0, h(k), m);
    lemma_count_with_entry(without_matches(d0, h(k), m), h(k), vh, (k, v));
}

/// How many calls of a run set a key under the pair of hashes `p`.
pub open spec fn pair_count<K, V>(steps: Seq<(K, Option<(V, isize)>)>, h: spec_fn(K) -> isize, p: (isize, isize)) -> nat
    decreases steps.len(),
{
    if steps.len() == 0 {
        0
    } else {
        pair_count(steps.drop_last(), h, p) + match steps.last().1 {
            Some(set) => if (h(steps.last().0), set.1) == p { 1nat } else { 0nat },
            None => 0nat,
        }
    }
}

/// Counting over two runs one after the other adds up.
proof fn lemma_pair_count_concat<K, V>(a: Seq<(K, Option<(V, isize)>)>, b: Seq<(K, Option<(V, isize)>)>, h: spec_fn(K) -> isize, p: (isize, isize))
    ensures
        pair_count(a + b, h, p) == pair_count(a, h, p) + pair_count(b, h, p),
    decreases b.len(),
{
    if b.len() == 0 {
        assert(a + b =~= a);
    } else {
        assert((a + b).drop_last() =~= a + b.drop_last());
        lemma_pair_count_concat(a, b.drop_last(), h, p);
    }
}

/// Runs that are reorderings of each other set keys under each pair equally often.
proof fn lemma_pair_count_reorder<K, V>(s1: Seq<(K, Option<(V, isize)>)>, s2: Seq<(K, Option<(V, isize)>)>, h: spec_fn(K) -> isize, p: (isize, isize))
    requires
        s1.to_multiset() == s2.to_multiset(),
    ensures
        pair_count(s1, h, p) == pair_count(s2, h, p),
    decreases s1.len(),
{
    broadcast use vstd::seq_lib::group_to_multiset_ensures;
    if s1.len() == 0 {
        assert(s1.to_multiset().len() == 0);
        assert(s2.len() == 0);
    } else {
        let a = s1.last();
        let q1 = s1.drop_last();
        assert(s1 =~= q1.push(a));
        assert(s1.to_multiset() =~= q1.to_multiset().insert(a));
        assert(s2.to_multiset().count(a) > 0);
        assert(s2.contains(a));
        let j = choose|j: int| 0 <= j < s2.len() && s2[j] == a;
        let q2 = s2.remove(j);
        assert(q2.to_multiset() =~= s2.to_multiset().remove(a));
        assert(q1.to_multiset() =~= q1.to_multiset().insert(a).remove(a));
        lemma_pair_count_reorder(q1, q2, h, p);
        let single = seq![a];
        assert(s2 =~= s2.take(j) + single + s2.skip(j + 1));
        assert(q2 =~= s2.take(j) + s2.skip(j + 1));
        lemma_pair_count_concat(s2.take(j) + single, s2.skip(j + 1), h, p);
        lemma_pair_count_concat(s2.take(j), single, h, p);
        lemma_pair_count_concat(s2.take(j), s2.skip(j + 1), h, p);
        assert(single.drop_last() =~= Seq::<(K, Option<(V, isize)>)>::empty());
        assert(single.last() == a);
        assert(pair_count(single.drop_last(), h, p) == 0);
        let c = pair_count(single, h, p);
        assert(c == pair_count(single.drop_last(), h, p) + match a.1 {
            Some(set) => if (h(a.0), set.1) == p { 1nat } else { 0nat },
            None => 0nat,
        });
        assert(pair_count(s1, h, p) == pair_count(q1, h, p) + c);
        assert(pair_count(s2, h, p) == pair_count(s2.take(j), h, p) + c + pair_count(s2.skip(j + 1), h, p));
    }
}

/// No entry of `s` matches: taking the matching entries out leaves `s`.
proof fn lemma_unmatched_all<K, V>(s: Seq<(K, V)>, m: spec_fn(K) -> bool)
    requires
        matching(s, m).len() == 0,
    ensures
        unmatched(s, m) == s,
    decreases s.len(),
{
    if s.len() > 0 {
        lemma_unmatched_all(s.drop_last(), m);
        assert(unmatched(s, m) =~= s);
    }
}

/// A run of calls that set pairwise unequal keys files under each pair as many entries as
/// calls set a key under it.
proof fn lemma_steps_filing<K, V>(steps: Seq<(K, Option<(V, isize)>)>, eq: spec_fn(K, K) -> bool, h: spec_fn(K) -> isize, p: (isize, isize))
    requires
        keys_hash_alike(eq, h),
        forall|i: int| 0 <= i < steps.len() ==> (#[trigger] steps[i]).1 is Some,
        forall|i: int, j: int| 0 <= i < j < steps.len() ==> !eq(#[trigger] steps[i].0, #[trigger] steps[j].0),
    ensures
        list_at(after_steps(Map::empty(), steps, eq, h), p).len() == pair_count(steps, h, p),
    decreases steps.len(),
{
    if steps.len() == 0 {
    } else {
        let q = steps.drop_last();
        assert forall|i: int| 0 <= i < q.len() implies (#[trigger] q[i]).1 is Some by {
            assert(q[i] == steps[i]);
        }
        assert forall|i: int, j: int| 0 <= i < j < q.len() implies !eq(#[trigger] q[i].0, #[trigger] q[j].0) by {
            assert(q[i] == steps[i] && q[j] == steps[j]);
        }
        lemma_steps_filing(q, eq, h, p);
        lemma_steps_lists(q, eq, h);
        let d0 = after_steps(Map::<(isize, isize), Seq<(K, V)>>::empty(), q, eq, h);
        let n = steps.len() - 1;
        let k = steps[n].0;
        let set = steps[n].1->Some_0;
        let m = equal_to(eq, k);
        assert(last_set(q, eq, k) is None) by {
            lemma_no_equal_key(q, eq, k);
            assert forall|i: int| 0 <= i < q.len() implies !eq(#[trigger] q[i].0, k) by {
                assert(q[i] == steps[i]);
                assert(!eq(steps[i].0, steps[n].0));
            }
        }
        law_steps_hold_keys_once(q, eq, h, k);
        lemma_sum_positive(d0.dom(), match_len(d0, h(k), m));
        if d0.contains_key(p) && p.0 == h(k) {
            assert(match_len(d0, h(k), m)(p) == 0);
            lemma_unmatched_all(d0[p], m);
        }
        lemma_after_set_lists(d0, h(k), m, set.1, (k, set.0));
        assert(unmatched(Seq::<(K, V)>::empty(), m) =~= Seq::<(K, V)>::empty());
    }
}

/// Where no key of a run is equal to `k`, the run leaves `k` unset.
proof fn lemma_no_equal_key<K, V>(steps: Seq<(K, Option<(V, isize)>)>, eq: spec_fn(K, K) -> bool, k: K)
    ensures
        (forall|i: int| 0 <= i < steps.len() ==> !eq(#[trigger] steps[i].0, k)) ==> last_set(steps, eq, k) is None,
    decreases steps.len(),
{
    if steps.len() > 0 {
        let q = steps.drop_last();
        lemma_no_equal_key(q, eq, k);
        if forall|i: int| 0 <= i < steps.len() ==> !eq(#[trigger] steps[i].0, k) {
            assert forall|i: int| 0 <= i < q.len() implies !eq(#[trigger] q[i].0, k) by {
                assert(q[i] == steps[i]);
            }
            assert(!eq(steps[steps.len() - 1].0, k));
        }
    }
}

/// Setting pairwise unequal keys in any order gives dictionaries that list their entries
/// under the same pairs and hash alike, so they compare equal.
pub proof fn law_steps_order_irrelevant<K, V>(
    steps1: Seq<(K, Option<(V, isize)>)>,
    steps2: Seq<(K, Option<(V, isize)>)>,
    eq: spec_fn(K, K) -> bool,
    h: spec_fn(K) -> isize,
)
    requires
        keys_hash_alike(eq, h),
        steps1.to_multiset() == steps2.to_multiset(),
        forall|i: int| 0 <= i < steps1.len() ==> (#[trigger] steps1[i]).1 is Some,
        forall|i: int| 0 <= i < steps2.len() ==> (#[trigger] steps2[i]).1 is Some,
        forall|i: int, j: int| 0 <= i < j < steps1.len() ==> !eq(#[trigger] steps1[i].0, #[trigger] steps1[j].0),
        forall|i: int, j: int| 0 <= i < j < steps2.len() ==> !eq(#[trigger] steps2[i].0, #[trigger] steps2[j].0),
    ensures
        entry_order(after_steps(Map::empty(), steps1, eq, h)) == entry_order(after_steps(Map::empty(), steps2, eq, h)),
        dict_hash_spec(after_steps(Map::empty(), steps1, eq, h)) == dict_hash_spec(after_steps(Map::empty(), steps2, eq, h)),
        rich_compare_spec(
            CompareOp::Eq,
            dict_hash_spec(after_steps(Map::empty(), steps1, eq, h)),
            dict_hash_spec(after_steps(Map::empty(), steps2, eq, h)),
        ),
{
    let d1 = after_steps(Map::<(isize, isize), Seq<(K, V)>>::empty(), steps1, eq, h);
    let d2 = after_steps(Map::<(isize, isize), Seq<(K, V)>>::empty(), steps2, eq, h);
    lemma_steps_lists(steps1, eq, h);
    lemma_steps_lists(steps2, eq, h);
    assert forall|p: (isize, isize)| #[trigger] list_at(d1, p).len() == list_at(d2, p).len() by {
        lemma_steps_filing(steps1, eq, h, p);
        lemma_steps_filing(steps2, eq, h, p);
        lemma_pair_count_reorder(steps1, steps2, h, p);
    }
    assert forall|p: (isize, isize)| d1.contains_key(p) == d2.contains_key(p) by {
        assert(list_at(d1, p).len() == list_at(d2, p).len());
    }
    assert(d1.dom() =~= d2.dom());
    assert forall|p: (isize, isize)| #[trigger] d1.contains_key(p) implies d1[p].len() == d2[p].len() by {
        assert(list_at(d1, p).len() == list_at(d2, p).len());
    }
    lemma_hash_by_filing(d1, d2);
}

/// Every entry that `unmatched` leaves is an entry of `s`.
proof fn lemma_unmatched_from<K, V>(s: Seq<(K, V)>, m: spec_fn(K) -> bool)
    ensures
        forall|i: int| 0 <= i < unmatched(s, m).len() ==> s.contains(#[trigger] unmatched(s, m)[i]),
    decreases s.len(),
{
    if s.len() > 0 {
        let q = s.drop_last();
        lemma_unmatched_from(q, m);
        let u = unmatched(q, m);
        assert forall|i: int| 0 <= i < unmatched(s, m).len() implies s.contains(#[trigger] unmatched(s, m)[i]) by {
            if i < u.len() {
                assert(unmatched(s, m)[i] == u[i]);
                let c = choose|c: int| 0 <= c < q.len() && q[c] == u[i];
                assert(s[c] == q[c]);
            } else {
                assert(unmatched(s, m)[i] == s[s.len() - 1]);
            }
        }
    }
}

/// A run of calls files every entry in the bucket of its key's hash.
proof fn lemma_steps_keys_hashed<K, V>(steps: Seq<(K, Option<(V, isize)>)>, eq: spec_fn(K, K) -> bool, h: spec_fn(K) -> isize)
    ensures
        forall|p: (isize, isize), i: int| #![trigger after_steps(Map::empty(), steps, eq, h)[p][i]]
            after_steps(Map::empty(), steps, eq, h).contains_key(p) && 0 <= i < after_steps(Map::empty(), steps, eq, h)[p].len()
            ==> h(after_steps(Map::empty(), steps, eq, h)[p][i].0) == p.0,
    decreases steps.len(),
{
    if steps.len() > 0 {
        let q = steps.drop_last();
        lemma_steps_keys_hashed(q, eq, h);
        let d0 = after_steps(Map::<(isize, isize), Seq<(K, V)>>::empty(), q, eq, h);
        let d = after_steps(Map::<(isize, isize), Seq<(K, V)>>::empty(), steps, eq, h);
        let k = steps.last().0;
        let m = equal_to(eq, k);
        assert forall|p: (isize, isize), i: int| #![trigger d[p][i]] d.contains_key(p) && 0 <= i < d[p].len() implies h(d[p][i].0) == p.0 by {
            let w = without_matches(d0, h(k), m);
            if w.contains_key(p) && p.0 == h(k) {
                lemma_unmatched_from(d0[p], m);
            }
            match steps.last().1 {
                Some(set) => {
                    if p == (h(k), set.1) && i == d[p].len() - 1 {
                        assert(d[p][i] == (k, set.0));
                    } else {
                        assert(w.contains_key(p));
                        assert(d[p][i] == w[p][i]);
                        if p.0 == h(k) {
                            let c = choose|c: int| 0 <= c < d0[p].len() && d0[p][c] == w[p][i];
                            assert(h(d0[p][c].0) == p.0);
                        }
                    }
                },
                None => {
                    if p.0 == h(k) {
                        let c = choose|c: int| 0 <= c < d0[p].len() && d0[p][c] == w[p][i];
                        assert(h(d0[p][c].0) == p.0);
                    }
                },
            }
        }
    }
}

/// Every position of a listing of pairs falls in the list of one of them: the pair at `r.0`,
/// at index `r.1` of its list.
proof fn lemma_flat_position<K, V>(d: Map<(isize, isize), Seq<(K, V)>>, ps: Seq<(isize, isize)>, pos: int) -> (r: (int, int))
    requires
        0 <= pos < flat(d, ps).len(),
    ensures
        0 <= r.0 < ps.len(),
        0 <= r.1 < d[ps[r.0]].len(),
        pos == flat(d, ps.take(r.0)).len() + r.1,
    decreases ps.len(),
{
    let q = ps.drop_last();
    if pos < flat(d, q).len() {
        let (i, j) = lemma_flat_position(d, q, pos);
        assert(q.take(i) =~= ps.take(i));
        assert(q[i] == ps[i]);
        (i, j)
    } else {
        let i = ps.len() - 1;
        assert(ps.take(i) =~= q);
        (i, pos - flat(d, q).len())
    }
}

/// Two entries of `s` whose keys satisfy `m` make at least two matches.
proof fn lemma_matching_two<K, V>(s: Seq<(K, V)>, m: spec_fn(K) -> bool, j1: int, j2: int)
    requires
        0 <= j1 < j2 < s.len(),
        m(s[j1].0),
        m(s[j2].0),
    ensures
        matching(s, m).len() >= 2,
    decreases s.len(),
{
    let q = s.drop_last();
    assert(q[j1] == s[j1]);
    if j2 == s.len() - 1 {
        lemma_matching_none(q, m);
    } else {
        assert(q[j2] == s[j2]);
        lemma_matching_two(q, m, j1, j2);
    }
}

/// Over any run of calls from an empty dictionary, its listing holds no two equal keys.
pub proof fn law_steps_list_keys_once<K, V>(steps: Seq<(K, Option<(V, isize)>)>, eq: spec_fn(K, K) -> bool, h: spec_fn(K) -> isize)
    requires
        keys_hash_alike(eq, h),
    ensures
        forall|a: int, b: int| 0 <= a < b < entries_in_order(after_steps(Map::empty(), steps, eq, h)).len()
            ==> !eq(#[trigger] entries_in_order(after_steps(Map::empty(), steps, eq, h))[a].0,
                #[trigger] entries_in_order(after_steps(Map::empty(), steps, eq, h))[b].0),
{
    let d = after_steps(Map::<(isize, isize), Seq<(K, V)>>::empty(), steps, eq, h);
    let es = entries_in_order(d);
    let ord = entry_order(d);
    lemma_steps_lists(steps, eq, h);
    lemma_steps_keys_hashed(steps, eq, h);
    lemma_listing_exists(d.dom());
    lemma_listing_set(d, ord);
    assert forall|a: int, b: int| 0 <= a < b < es.len() implies !eq(#[trigger] es[a].0, #[trigger] es[b].0) by {
        if eq(es[a].0, es[b].0) {
            let fl = flat(d, ord);
            let (ia, ja) = lemma_flat_position(d, ord, a);
            let (ib, jb) = lemma_flat_position(d, ord, b);
            lemma_flat_index(d, ord, ia, ja);
            lemma_flat_index(d, ord, ib, jb);
            let pa = ord[ia];
            let pb = ord[ib];
            let ka = d[pa][ja].0;
            let kb = d[pb][jb].0;
            assert(es[a].0 == ka && es[b].0 == kb);
            let m = equal_to(eq, ka);
            assert(m(ka) && m(kb));
            assert(d.contains_key(pa) && d.contains_key(pb));
            assert(h(ka) == pa.0);
            assert(h(kb) == pb.0);
            assert(h(ka) == h(kb));
            let f = match_len(d, h(ka), m);
            law_steps_hold_keys_once(steps, eq, h, ka);
            lemma_sum_remove(d.dom(), f, pa);
            if ia == ib {
                if ja < jb {
                    lemma_matching_two(d[pa], m, ja, jb);
                } else {
                    assert(ja != jb);
                    lemma_matching_two(d[pa], m, jb, ja);
                }
            } else {
                assert(pa != pb) by {
                    if ia < ib {
                        assert(lex_lt(ord[ia], ord[ib]));
                    } else {
                        assert(lex_lt(ord[ib], ord[ia]));
                    }
                }
                lemma_matching_none(d[pa], m);
                lemma_matching_none(d[pb], m);
                vstd::set_lib::lemma_len_subset(d.dom().remove(pa), d.dom());
                lemma_sum_remove(d.dom().remove(pa), f, pb);
            }
        }
    }
}

/// A dictionary without entries hashes to `0`.
pub proof fn law_dict_hash_empty<K, V>()
    ensures
        dict_hash_spec(Map::<(isize, isize), Seq<(K, V)>>::empty()) == 0,
{
    let d = Map::<(isize, isize), Seq<(K, V)>>::empty();
    let e = Seq::<(isize, isize)>::empty();
    assert(d.dom() =~= Set::<(isize, isize)>::empty());
    assert(lists_set_in_order(d.dom(), e));
    lemma_listing_unique(d.dom(), e, entry_order(d));
    assert(entry_hashes(d) =~= Seq::<isize>::empty());
}

/// The listing of pairs on which two maps agree is the same in both.
proof fn lemma_flat_agree<K, V>(d1: Map<(isize, isize), Seq<(K, V)>>, d2: Map<(isize, isize), Seq<(K, V)>>, ps: Seq<(isize, isize)>)
    requires
        forall|i: int| 0 <= i < ps.len() ==> #[trigger] d1[ps[i]] == d2[ps[i]],
    ensures
        flat(d1, ps) == flat(d2, ps),
    decreases ps.len(),
{
    if ps.len() > 0 {
        let q = ps.drop_last();
        assert forall|i: int| 0 <= i < q.len() implies #[trigger] d1[q[i]] == d2[q[i]] by {
            assert(q[i] == ps[i]);
        }
        lemma_flat_agree(d1, d2, q);
        assert(d1[ps[ps.len() - 1]] == d2[ps[ps.len() - 1]]);
    }
}

/// Every entry counts in a dictionary's hash: an entry filed under a pair of hashes beyond
/// all the dictionary's pairs comes last in its listing, and its combined key and value hash
/// is folded into the hash of the entries before it.
pub proof fn law_dict_hash_step<K, V>(d: Dict<K, V>, k_hash: isize, v_hash: isize, e: (K, V))
    requires
        d.wf(),
        forall|q: (isize, isize)| #[trigger] d@.contains_key(q) ==> lex_lt(q, (k_hash, v_hash)),
    ensures
        entry_order(with_entry(d@, k_hash, v_hash, e)) == entry_order(d@).push((k_hash, v_hash)),
        entries_in_order(with_entry(d@, k_hash, v_hash, e)) == entries_in_order(d@).push(e),
        dict_hash_spec(with_entry(d@, k_hash, v_hash, e)) == combine_spec(dict_hash_spec(d@), combine_spec(k_hash, v_hash)),
{
    d.lemma_wf();
    let p = (k_hash, v_hash);
    let d2 = with_entry(d@, k_hash, v_hash, e);
    let ord = entry_order(d@);
    lemma_listing_exists(d@.dom());
    assert(lists_set_in_order(d@.dom(), ord));
    assert(!d@.contains_key(p));
    let ord2 = ord.push(p);
    assert(lists_set_in_order(d2.dom(), ord2)) by {
        assert forall|i: int, j: int| 0 <= i < j < ord2.len() implies lex_lt(ord2[i], ord2[j]) by {
            if j == ord.len() {
                assert(d@.contains_key(ord[i]));
            }
        }
        assert forall|i: int| 0 <= i < ord2.len() implies #[trigger] d2.dom().contains(ord2[i]) by {
            if i < ord.len() {
                assert(d@.contains_key(ord[i]));
            }
        }
        assert forall|q: (isize, isize)| #[trigger] d2.dom().contains(q) implies ord2.contains(q) by {
            if q == p {
                assert(ord2[ord.len() as int] == p);
            } else {
                let i = choose|i: int| 0 <= i < ord.len() && ord[i] == q;
                assert(ord2[i] == q);
            }
        }
    }
    assert(d2.dom() =~= d@.dom().insert(p));
    lemma_listing_exists(d2.dom());
    lemma_listing_unique(d2.dom(), ord2, entry_order(d2));
    assert forall|i: int| 0 <= i < ord.len() implies #[trigger] d2[ord[i]] == d@[ord[i]] by {
        assert(d@.contains_key(ord[i]));
    }
    lemma_flat_agree(d2, d@, ord);
    assert(ord2.drop_last() =~= ord);
    assert(d2[p] == seq![e]);
    let tail = d2[p].map_values(|x: (K, V)| (p.0, p.1, x.0, x.1));
    assert(tail =~= seq![(k_hash, v_hash, e.0, e.1)]);
    assert(listing(d2) == listing(d@) + tail);
    assert(entries_in_order(d2) =~= entries_in_order(d@).push(e));
    assert(entry_hashes(d2) =~= entry_hashes(d@).push(combine_spec(k_hash, v_hash)));
    assert(entry_hashes(d2).drop_last() =~= entry_hashes(d@));
}

} // verus!
