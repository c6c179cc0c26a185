//! A dictionary that can itself be hashed: its entries are filed by the hash of their key,
//! then by the hash of their value; a key holds one value.

use crate::compare::{rich_compare, rich_compare_spec, CompareOp};
use crate::order::{
    lemma_iter_in_order, lemma_listing_unique, lemma_smaller_key_before, lex_lt, lists_in_order,
    lists_set_in_order, visited,
};
use crate::pyhash::{combine_hash, combine_spec, fold_hash};
use crate::sums::{lemma_sum_remove, sum_set};
use std::collections::BTreeMap;
use vstd::prelude::*;
use vstd::std_specs::iter::IteratorSpec;

verus! {

broadcast use {vstd::std_specs::btree::group_btree_axioms, vstd::laws_cmp::group_laws_cmp};

/// Dictionary which can be hashed. Requires both keys and values to be hashable.
///
/// An entry is filed under the pair (hash of its key, hash of its value). Entries whose keys
/// share a hash form a bucket, ordered by value hash; unequal keys whose two hashes both
/// collide are kept side by side, in the order in which they were set.
#[derive(Debug)]
pub struct Dict<K, V> {
    map: BTreeMap<isize, BTreeMap<isize, Vec<(K, V)>>>,
}

/// The closure `f` answers, on every key, what the predicate `m` says of it.
pub open spec fn agrees<K, F: Fn(&K) -> bool>(f: F, m: spec_fn(K) -> bool) -> bool {
    forall|k: &K, b: bool| #[trigger] f.ensures((k,), b) ==> b == m(*k)
}

/// The entries of `s` whose key satisfies `m`, in order.
pub open spec fn matching<K, V>(s: Seq<(K, V)>, m: spec_fn(K) -> bool) -> Seq<(K, V)>
    decreases s.len(),
{
    if s.len() == 0 {
        Seq::empty()
    } else {
        let r = matching(s.drop_last(), m);
        if m(s.last().0) {
            r.push(s.last())
        } else {
            r
        }
    }
}

/// The entries of `s` whose key does not satisfy `m`, in order.
pub open spec fn unmatched<K, V>(s: Seq<(K, V)>, m: spec_fn(K) -> bool) -> Seq<(K, V)>
    decreases s.len(),
{
    if s.len() == 0 {
        Seq::empty()
    } else {
        let r = unmatched(s.drop_last(), m);
        if m(s.last().0) {
            r
        } else {
            r.push(s.last())
        }
    }
}

/// The entries of the bucket `kh` of `d`, by value hash.
pub open spec fn bucket_of<K, V>(d: Map<(isize, isize), Seq<(K, V)>>, kh: isize) -> Map<isize, Seq<(K, V)>> {
    Map::new(|vh: isize| d.contains_key((kh, vh)), |vh: isize| d[(kh, vh)])
}

/// The lists of entries of a bucket, by value hash.
pub open spec fn bucket_model<K, V>(b: BTreeMap<isize, Vec<(K, V)>>) -> Map<isize, Seq<(K, V)>> {
    Map::new(|vh: isize| b@.contains_key(vh), |vh: isize| b@[vh]@)
}

/// The entries of bucket `b` under value hash `vh` whose key satisfies `m`.
pub open spec fn hits<K, V>(b: Map<isize, Seq<(K, V)>>, m: spec_fn(K) -> bool, vh: isize) -> Seq<(K, V)> {
    if b.contains_key(vh) {
        matching(b[vh], m)
    } else {
        Seq::empty()
    }
}

/// `vh` is the smallest value hash of bucket `b` under which a key satisfies `m`.
pub open spec fn is_first_hit<K, V>(b: Map<isize, Seq<(K, V)>>, m: spec_fn(K) -> bool, vh: isize) -> bool {
    &&& hits(b, m, vh).len() > 0
    &&& forall|w: isize| w < vh ==> #[trigger] hits(b, m, w).len() == 0
}

/// The value of the first entry of bucket `b` (by value hash, then by position) whose key
/// satisfies `m`, if any.
pub open spec fn first_found<K, V>(b: Map<isize, Seq<(K, V)>>, m: spec_fn(K) -> bool) -> Option<V> {
    if exists|vh: isize| is_first_hit(b, m, vh) {
        Some(hits(b, m, choose|vh: isize| is_first_hit(b, m, vh))[0].1)
    } else {
        None
    }
}

/// The value found for a key whose hash is `kh` and which is equal to exactly the keys that
/// satisfy `m`.
pub open spec fn lookup<K, V>(d: Map<(isize, isize), Seq<(K, V)>>, kh: isize, m: spec_fn(K) -> bool) -> Option<V> {
    first_found(bucket_of(d, kh), m)
}

/// Bucket `b` without the entries whose key satisfies `m`; emptied lists are dropped.
pub open spec fn purged<K, V>(b: Map<isize, Seq<(K, V)>>, m: spec_fn(K) -> bool) -> Map<isize, Seq<(K, V)>> {
    Map::new(|vh: isize| b.contains_key(vh) && unmatched(b[vh], m).len() > 0, |vh: isize| unmatched(b[vh], m))
}

/// `d` without the entries of bucket `kh` whose key satisfies `m`.
pub open spec fn without_matches<K, V>(d: Map<(isize, isize), Seq<(K, V)>>, kh: isize, m: spec_fn(K) -> bool) -> Map<(isize, isize), Seq<(K, V)>> {
    Map::new(
        |p: (isize, isize)| d.contains_key(p) && (p.0 != kh || unmatched(d[p], m).len() > 0),
        |p: (isize, isize)| if p.0 == kh { unmatched(d[p], m) } else { d[p] },
    )
}

/// `d` with entry `e` added last under `(kh, vh)`.
pub open spec fn with_entry<K, V>(d: Map<(isize, isize), Seq<(K, V)>>, kh: isize, vh: isize, e: (K, V)) -> Map<(isize, isize), Seq<(K, V)>> {
    d.insert((kh, vh), if d.contains_key((kh, vh)) { d[(kh, vh)].push(e) } else { seq![e] })
}

/// `d` after setting key `e.0` (hash `kh`, equal to exactly the keys that satisfy `m`) to
/// value `e.1` (hash `vh`): the entries of equal keys give way to the new entry.
pub open spec fn after_set<K, V>(d: Map<(isize, isize), Seq<(K, V)>>, kh: isize, m: spec_fn(K) -> bool, vh: isize, e: (K, V)) -> Map<(isize, isize), Seq<(K, V)>> {
    with_entry(without_matches(d, kh, m), kh, vh, e)
}

/// The length of the list under each pair of hashes.
pub open spec fn list_len<K, V>(d: Map<(isize, isize), Seq<(K, V)>>) -> spec_fn((isize, isize)) -> nat {
    |p: (isize, isize)| d[p].len()
}

/// The number of entries.
pub open spec fn count<K, V>(d: Map<(isize, isize), Seq<(K, V)>>) -> nat {
    sum_set(d.dom(), list_len(d))
}

/// The number of entries of bucket `kh` whose key satisfies `m`.
pub open spec fn match_count<K, V>(d: Map<(isize, isize), Seq<(K, V)>>, kh: isize, m: spec_fn(K) -> bool) -> nat {
    sum_set(d.dom(), match_len(d, kh, m))
}

/// The number of entries under each pair of hashes whose key has hash `kh` and satisfies `m`.
pub open spec fn match_len<K, V>(d: Map<(isize, isize), Seq<(K, V)>>, kh: isize, m: spec_fn(K) -> bool) -> spec_fn((isize, isize)) -> nat {
    |p: (isize, isize)| if p.0 == kh { matching(d[p], m).len() } else { 0 }
}

/// The pairs of hashes in the order in which the dictionary lists them.
pub open spec fn entry_order<K, V>(d: Map<(isize, isize), Seq<(K, V)>>) -> Seq<(isize, isize)> {
    choose|s: Seq<(isize, isize)>| lists_set_in_order(d.dom(), s)
}

/// The entries filed under the pairs `ps`, in that order, each with its pair.
pub open spec fn flat<K, V>(d: Map<(isize, isize), Seq<(K, V)>>, ps: Seq<(isize, isize)>) -> Seq<(isize, isize, K, V)>
    decreases ps.len(),
{
    if ps.len() == 0 {
        Seq::empty()
    } else {
        let p = ps.last();
        flat(d, ps.drop_last()) + d[p].map_values(|e: (K, V)| (p.0, p.1, e.0, e.1))
    }
}

/// Every entry, with its pair of hashes, in the dictionary's order.
pub open spec fn listing<K, V>(d: Map<(isize, isize), Seq<(K, V)>>) -> Seq<(isize, isize, K, V)> {
    flat(d, entry_order(d))
}

/// The entries in the dictionary's order.
pub open spec fn entries_in_order<K, V>(d: Map<(isize, isize), Seq<(K, V)>>) -> Seq<(K, V)> {
    listing(d).map_values(|x: (isize, isize, K, V)| (x.2, x.3))
}

/// The combined key and value hash of each entry, in order.
pub open spec fn entry_hashes<K, V>(d: Map<(isize, isize), Seq<(K, V)>>) -> Seq<isize> {
    listing(d).map_values(|x: (isize, isize, K, V)| combine_spec(x.0, x.1))
}

/// The hash of a dictionary: the entries' combined key and value hashes, folded in order.
pub open spec fn dict_hash_spec<K, V>(d: Map<(isize, isize), Seq<(K, V)>>) -> isize {
    fold_hash(entry_hashes(d))
}

/// The positions at which a walk visited lists of entries.
pub open spec fn hashes<'a, K, V>(s: Seq<(isize, isize, &'a Vec<(K, V)>)>) -> Seq<(isize, isize)> {
    s.map_values(|e: (isize, isize, &'a Vec<(K, V)>)| (e.0, e.1))
}

// ---------------------------------------------------------------------------------------
// Facts about the specifications.

/// If the key at `j` is the first in `s` to satisfy `m`, it heads the matching entries.
pub proof fn lemma_matching_first<K, V>(s: Seq<(K, V)>, m: spec_fn(K) -> bool, j: int)
    requires
        0 <= j < s.len(),
        m(s[j].0),
        forall|i: int| 0 <= i < j ==> !m(#[trigger] s[i].0),
    ensures
        matching(s, m).len() > 0,
        matching(s, m)[0] == s[j],
    decreases s.len(),
{
    if j == s.len() - 1 {
        lemma_matching_none(s.drop_last(), m);
    } else {
        assert forall|i: int| 0 <= i < j implies !m(#[trigger] s.drop_last()[i].0) by {
            assert(s.drop_last()[i] == s[i]);
        }
        lemma_matching_first(s.drop_last(), m, j);
    }
}

/// No key of `s` satisfies `m` exactly when no entry of `s` matches.
pub proof fn lemma_matching_none<K, V>(s: Seq<(K, V)>, m: spec_fn(K) -> bool)
    ensures
        (forall|i: int| 0 <= i < s.len() ==> !m(#[trigger] s[i].0)) <==> matching(s, m).len() == 0,
    decreases s.len(),
{
    if s.len() > 0 {
        lemma_matching_none(s.drop_last(), m);
        if forall|i: int| 0 <= i < s.len() ==> !m(#[trigger] s[i].0) {
            assert forall|i: int| 0 <= i < s.drop_last().len() implies !m(#[trigger] s.drop_last()[i].0) by {
                assert(s.drop_last()[i] == s[i]);
            }
        } else if matching(s, m).len() == 0 {
            let i = choose|i: int| 0 <= i < s.len() && m(#[trigger] s[i].0);
            if i < s.len() - 1 {
                assert(s.drop_last()[i] == s[i]);
            }
        }
    }
}

/// Every entry of `s` either matches or not: the two filters split its length.
pub proof fn lemma_matching_split<K, V>(s: Seq<(K, V)>, m: spec_fn(K) -> bool)
    ensures
        matching(s, m).len() + unmatched(s, m).len() == s.len(),
        forall|n: spec_fn(K) -> bool| (forall|k: K| !(m(k) && #[trigger] n(k))) ==> #[trigger] matching(unmatched(s, m), n) == matching(s, n),
    decreases s.len(),
{
    if s.len() > 0 {
        lemma_matching_split(s.drop_last(), m);
        assert forall|n: spec_fn(K) -> bool| (forall|k: K| !(m(k) && #[trigger] n(k))) implies #[trigger] matching(unmatched(s, m), n) == matching(s, n) by {
            let u = unmatched(s.drop_last(), m);
            assert(matching(u, n) == matching(s.drop_last(), n));
            if !m(s.last().0) {
                assert(u.push(s.last()).drop_last() =~= u);
            } else {
                assert(!n(s.last().0));
            }
        }
    }
}

/// The listing of a concatenation of pairs is the concatenation of the listings.
pub proof fn lemma_flat_concat<K, V>(d: Map<(isize, isize), Seq<(K, V)>>, a: Seq<(isize, isize)>, b: Seq<(isize, isize)>)
    ensures
        flat(d, a + b) == flat(d, a) + flat(d, b),
    decreases b.len(),
{
    if b.len() == 0 {
        assert(a + b =~= a);
    } else {
        assert((a + b).drop_last() =~= a + b.drop_last());
        lemma_flat_concat(d, a, b.drop_last());
        assert(flat(d, a + b) =~= flat(d, a) + flat(d, b));
    }
}

/// Listing pairs that are distinct lists as many entries as their lists hold.
pub proof fn lemma_flat_len<K, V>(d: Map<(isize, isize), Seq<(K, V)>>, ps: Seq<(isize, isize)>)
    requires
        ps.no_duplicates(),
    ensures
        flat(d, ps).len() == sum_set(ps.to_set(), list_len(d)),
    decreases ps.len(),
{
    if ps.len() == 0 {
        assert(ps.to_set() =~= Set::<(isize, isize)>::empty());
        crate::sums::lemma_sum_empty(list_len(d));
    } else {
        let q = ps.drop_last();
        assert(q.no_duplicates());
        lemma_flat_len(d, q);
        assert(q.to_set() =~= ps.to_set().remove(ps.last())) by {
            assert forall|x: (isize, isize)| q.to_set().contains(x) <==> ps.to_set().remove(ps.last()).contains(x) by {
                if q.to_set().contains(x) {
                    let i = choose|i: int| 0 <= i < q.len() && q[i] == x;
                    assert(ps[i] == x);
                }
                if ps.to_set().remove(ps.last()).contains(x) {
                    let i = choose|i: int| 0 <= i < ps.len() && ps[i] == x;
                    assert(q[i] == x);
                }
            }
        }
        assert(ps.to_set().contains(ps.last())) by {
            assert(ps[ps.len() - 1] == ps.last());
        }
        lemma_sum_remove(ps.to_set(), list_len(d), ps.last());
    }
}

/// A listing in order of a set holds each element once.
pub proof fn lemma_listing_set<K, V>(d: Map<(isize, isize), Seq<(K, V)>>, s: Seq<(isize, isize)>)
    requires
        lists_set_in_order(d.dom(), s),
    ensures
        s.no_duplicates(),
        s.to_set() =~= d.dom(),
        flat(d, s).len() == count(d),
{
    assert forall|i: int, j: int| 0 <= i < s.len() && 0 <= j < s.len() && i != j implies s[i] != s[j] by {
        if i < j {
            assert(lex_lt(s[i], s[j]));
        } else {
            assert(lex_lt(s[j], s[i]));
        }
    }
    assert forall|x: (isize, isize)| s.to_set().contains(x) <==> d.dom().contains(x) by {
        if s.to_set().contains(x) {
            let i = choose|i: int| 0 <= i < s.len() && s[i] == x;
        }
    }
    lemma_flat_len(d, s);
}

/// A value hash that is a first hit is the one `first_found` picks.
pub proof fn lemma_first_hit_unique<K, V>(b: Map<isize, Seq<(K, V)>>, m: spec_fn(K) -> bool, vh: isize)
    requires
        is_first_hit(b, m, vh),
    ensures
        first_found(b, m) == Some(hits(b, m, vh)[0].1),
{
    let c = choose|c: isize| is_first_hit(b, m, c);
    if c < vh {
        assert(hits(b, m, c).len() == 0);
    } else if vh < c {
        assert(hits(b, m, vh).len() == 0);
    }
}

/// Without any hit, nothing is found.
pub proof fn lemma_no_hit<K, V>(b: Map<isize, Seq<(K, V)>>, m: spec_fn(K) -> bool)
    requires
        forall|vh: isize| #[trigger] hits(b, m, vh).len() == 0,
    ensures
        first_found(b, m) is None,
{
    if exists|vh: isize| is_first_hit(b, m, vh) {
        let vh = choose|vh: isize| is_first_hit(b, m, vh);
        assert(hits(b, m, vh).len() == 0);
    }
}


/// A map that differs from `d` only under `p0`, where it may hold one entry more, and
/// elsewhere holds no longer lists, has at most one entry more.
pub proof fn lemma_count_grows_by_one<K, V>(d: Map<(isize, isize), Seq<(K, V)>>, e: Map<(isize, isize), Seq<(K, V)>>, p0: (isize, isize))
    requires
        d.dom().finite(),
        forall|p: (isize, isize)| #[trigger] e.contains_key(p) ==> p == p0 || d.contains_key(p),
        forall|p: (isize, isize)| #[trigger] e.contains_key(p) && p != p0 ==> e[p].len() <= d[p].len(),
        e.contains_key(p0) ==> e[p0].len() <= (if d.contains_key(p0) { d[p0].len() } else { 0 }) + 1,
    ensures
        e.dom().finite(),
        count(e) <= count(d) + 1,
{
    let u = d.dom().insert(p0);
    assert(e.dom().subset_of(u));
    vstd::set_lib::lemma_len_subset(e.dom(), u);
    let g = |p: (isize, isize)| if e.contains_key(p) { e[p].len() } else { 0nat };
    let f = |p: (isize, isize)| if d.contains_key(p) { d[p].len() } else { 0nat };
    let one = |p: (isize, isize)| if p == p0 { 1nat } else { 0nat };
    let fo = |p: (isize, isize)| f(p) + one(p);
    crate::sums::lemma_sum_subset(u, e.dom(), g);
    crate::sums::lemma_sum_eq(e.dom(), list_len(e), g);
    crate::sums::lemma_sum_subset(u, d.dom(), f);
    crate::sums::lemma_sum_eq(d.dom(), list_len(d), f);
    crate::sums::lemma_sum_le(u, fo, g);
    crate::sums::lemma_sum_add(u, f, one, fo);
    crate::sums::lemma_sum_remove(u, one, p0);
    crate::sums::lemma_sum_subset(u.remove(p0), Set::<(isize, isize)>::empty(), one);
    crate::sums::lemma_sum_empty(one);
}

/// A map whose lists are among those of `d` and no longer has no more entries.
pub proof fn lemma_count_shrinks<K, V>(d: Map<(isize, isize), Seq<(K, V)>>, e: Map<(isize, isize), Seq<(K, V)>>)
    requires
        d.dom().finite(),
        forall|p: (isize, isize)| #[trigger] e.contains_key(p) ==> d.contains_key(p) && e[p].len() <= d[p].len(),
    ensures
        e.dom().finite(),
        count(e) <= count(d),
{
    assert(e.dom().subset_of(d.dom()));
    vstd::set_lib::lemma_len_subset(e.dom(), d.dom());
    let g = |p: (isize, isize)| if e.contains_key(p) { e[p].len() } else { 0nat };
    crate::sums::lemma_sum_subset(d.dom(), e.dom(), g);
    crate::sums::lemma_sum_eq(e.dom(), list_len(e), g);
    crate::sums::lemma_sum_le(d.dom(), list_len(d), g);
}

/// Where the `j`-th entry of the `i`-th list of `ps` stands in the listing of `ps`.
pub proof fn lemma_flat_index<K, V>(d: Map<(isize, isize), Seq<(K, V)>>, ps: Seq<(isize, isize)>, i: int, j: int)
    requires
        0 <= i < ps.len(),
        0 <= j < d[ps[i]].len(),
    ensures
        flat(d, ps.take(i + 1)).len() == flat(d, ps.take(i)).len() + d[ps[i]].len(),
        flat(d, ps.take(i)).len() + j < flat(d, ps).len(),
        flat(d, ps)[flat(d, ps.take(i)).len() + j] == (ps[i].0, ps[i].1, d[ps[i]][j].0, d[ps[i]][j].1),
{
    assert(ps.take(i + 1).drop_last() =~= ps.take(i));
    assert(ps.take(i + 1).last() == ps[i]);
    lemma_flat_concat(d, ps.take(i + 1), ps.skip(i + 1));
    assert(ps.take(i + 1) + ps.skip(i + 1) =~= ps);
}

/// No entry left by `unmatched` satisfies the predicate it took out.
pub proof fn lemma_unmatched_none<K, V>(s: Seq<(K, V)>, m: spec_fn(K) -> bool)
    ensures
        matching(unmatched(s, m), m).len() == 0,
    decreases s.len(),
{
    if s.len() > 0 {
        lemma_unmatched_none(s.drop_last(), m);
        let u = unmatched(s.drop_last(), m);
        if !m(s.last().0) {
            assert(u.push(s.last()).drop_last() =~= u);
        }
    }
}

/// Two buckets with the same hits under `m` find the same value.
pub proof fn lemma_same_hits<K, V>(b1: Map<isize, Seq<(K, V)>>, b2: Map<isize, Seq<(K, V)>>, m: spec_fn(K) -> bool)
    requires
        forall|vh: isize| #[trigger] hits(b1, m, vh) == hits(b2, m, vh),
    ensures
        first_found(b1, m) == first_found(b2, m),
{
    if exists|vh: isize| is_first_hit(b1, m, vh) {
        let vh = choose|vh: isize| is_first_hit(b1, m, vh);
        assert(is_first_hit(b2, m, vh)) by {
            assert forall|w: isize| w < vh implies #[trigger] hits(b2, m, w).len() == 0 by {
                assert(hits(b1, m, w).len() == 0);
            }
        }
        lemma_first_hit_unique(b1, m, vh);
        lemma_first_hit_unique(b2, m, vh);
    } else if exists|vh: isize| is_first_hit(b2, m, vh) {
        let vh = choose|vh: isize| is_first_hit(b2, m, vh);
        assert(is_first_hit(b1, m, vh)) by {
            assert forall|w: isize| w < vh implies #[trigger] hits(b1, m, w).len() == 0 by {
                assert(hits(b2, m, w).len() == 0);
            }
        }
    }
}

/// Some element of `s` satisfies `p` at or before `i`, and none before it does.
pub proof fn lemma_first_index<X>(s: Seq<X>, p: spec_fn(X) -> bool, i: int)
    requires
        0 <= i < s.len(),
        p(s[i]),
    ensures
        exists|j: int| 0 <= j <= i && p(s[j]) && forall|k: int| 0 <= k < j ==> !p(#[trigger] s[k]),
    decreases i,
{
    if exists|k: int| 0 <= k < i && p(#[trigger] s[k]) {
        let k = choose|k: int| 0 <= k < i && p(#[trigger] s[k]);
        lemma_first_index(s, p, k);
    }
}

/// The first entry of `s` whose key satisfies `m`, as its value.
pub open spec fn first_value<K, V>(s: Seq<(K, V)>, m: spec_fn(K) -> bool) -> Option<V> {
    if matching(s, m).len() > 0 {
        Some(matching(s, m)[0].1)
    } else {
        None
    }
}

/// Splits a list into the entries whose key `matches` rejects, in order, and the value of
/// the first entry it accepts.
fn split_list<K, V, F: Fn(&K) -> bool>(list: Vec<(K, V)>, matches: &F) -> (r: (Vec<(K, V)>, Option<V>))
    requires
        forall|k: &K| #[trigger] matches.requires((k,)),
    ensures
        forall|m: spec_fn(K) -> bool| #[trigger] agrees(*matches, m) ==> r.0@ == unmatched(list@, m) && r.1 == first_value(list@, m),
        r.0@.len() <= list@.len(),
        r.1 is None ==> r.0@ == list@ && forall|i: int| 0 <= i < list@.len() ==> #[trigger] matches.ensures((&list@[i].0,), false),
{
    let ghost l0 = list@;
    let n0 = list.len();
    assert(l0.len() == n0);
    let mut flags: Vec<bool> = Vec::new();
    let mut j: usize = 0;
    while j < list.len()
        invariant
            0 <= j <= list@.len(),
            list@ == l0,
            flags@.len() == j,
            forall|k: &K| #[trigger] matches.requires((k,)),
            forall|i: int| 0 <= i < j ==> #[trigger] matches.ensures((&l0[i].0,), flags@[i]),
        decreases list@.len() - j,
    {
        let f = matches(&list[j].0);
        flags.push(f);
        j = j + 1;
    }
    let mut list = list;
    let mut rev: Vec<(K, V)> = Vec::new();
    while list.len() > 0
        invariant
            l0.len() == list@.len() + rev@.len(),
            forall|i: int| 0 <= i < list@.len() ==> #[trigger] list@[i] == l0[i],
            forall|i: int| 0 <= i < rev@.len() ==> #[trigger] rev@[i] == l0[l0.len() - 1 - i],
        decreases list@.len(),
    {
        let e = list.pop().unwrap();
        rev.push(e);
    }
    let mut kept: Vec<(K, V)> = Vec::new();
    let mut found: Option<V> = None;
    let mut j: usize = 0;
    assert(l0.take(0) =~= Seq::<(K, V)>::empty());
    while rev.len() > 0
        invariant
            l0.len() == j + rev@.len(),
            l0.len() <= usize::MAX,
            flags@.len() == l0.len(),
            forall|i: int| 0 <= i < rev@.len() ==> #[trigger] rev@[i] == l0[l0.len() - 1 - i],
            forall|i: int| 0 <= i < l0.len() ==> #[trigger] matches.ensures((&l0[i].0,), flags@[i]),
            forall|m: spec_fn(K) -> bool| #[trigger] agrees(*matches, m) ==> kept@ == unmatched(l0.take(j as int), m)
                && found == first_value(l0.take(j as int), m),
            kept@.len() <= j,
            found is None ==> kept@ == l0.take(j as int) && forall|i: int| 0 <= i < j ==> !flags@[i],
        decreases rev@.len(),
    {
        let e = rev.pop().unwrap();
        let f = flags[j];
        let ghost t0 = l0.take(j as int);
        let ghost t1 = l0.take(j + 1);
        let ghost kept0 = kept@;
        let ghost found0 = found;
        proof {
            assert(e == l0[j as int]);
            assert(t1.drop_last() =~= t0);
            assert(t1.last() == e);
        }
        if f {
            if found.is_none() {
                found = Some(e.1);
            }
        } else {
            kept.push(e);
        }
        proof {
            assert forall|m: spec_fn(K) -> bool| #[trigger] agrees(*matches, m) implies kept@ == unmatched(t1, m)
                && found == first_value(t1, m) by {
                assert(matches.ensures((&l0[j as int].0,), flags@[j as int]));
                assert(m(e.0) == f);
                let mt0 = matching(t0, m);
                if f {
                    assert(matching(t1, m) == mt0.push(e));
                    if mt0.len() == 0 {
                        assert(found0 is None);
                    }
                }
            }
            if found is None {
                assert(kept@ =~= t1);
            }
        }
        j = j + 1;
    }
    proof {
        assert(l0.take(l0.len() as int) =~= l0);
        if found is None {
            assert forall|i: int| 0 <= i < l0.len() implies #[trigger] matches.ensures((&l0[i].0,), false) by {
                assert(!flags@[i]);
            }
        }
    }
    (kept, found)
}


/// Takes out of a bucket every entry whose key `matches` accepts; lists left empty are
/// dropped. Also gives the value of the first entry taken out, by value hash.
#[verifier::spinoff_prover]
fn purge<K, V, F: Fn(&K) -> bool>(bucket: BTreeMap<isize, Vec<(K, V)>>, matches: &F) -> (r: (BTreeMap<isize, Vec<(K, V)>>, Option<V>))
    requires
        forall|k: &K| #[trigger] matches.requires((k,)),
    ensures
        forall|m: spec_fn(K) -> bool| #[trigger] agrees(*matches, m) ==> bucket_model(r.0) == purged(bucket_model(bucket), m)
            && r.1 == first_found(bucket_model(bucket), m),
        forall|vh: isize| #[trigger] r.0@.contains_key(vh) ==> bucket@.contains_key(vh) && r.0@[vh]@.len() > 0
            && r.0@[vh]@.len() <= bucket@[vh]@.len(),
        r.1 is None ==> forall|vh: isize| #[trigger] bucket@.contains_key(vh) && bucket@[vh]@.len() > 0
            ==> r.0@.contains_key(vh) && r.0@[vh]@ == bucket@[vh]@,
{
    let ghost b0 = bucket_model(bucket);
    let ghost bm = bucket@;
    let mut vhs: Vec<isize> = Vec::new();
    let it0 = bucket.iter();
    let ghost si = it0.remaining();
    let ghost ob = visited(si);
    proof {
        lemma_iter_in_order(&bucket, it0);
    }
    for kv in it: it0
        invariant
            it.seq() == si,
            ob == visited(si),
            vhs@.len() == it.index(),
            forall|a: int| 0 <= a < vhs@.len() ==> #[trigger] vhs@[a] == ob[a].0,
    {
        let (vh, _list) = kv;
        vhs.push(*vh);
    }
    proof {
        assert forall|a: int, c: int| 0 <= a < c < vhs@.len() implies vhs@[a] < vhs@[c] by {
            assert(vhs@[a] == ob[a].0 && vhs@[c] == ob[c].0);
        }
        assert forall|a: int| 0 <= a < vhs@.len() implies #[trigger] bm.contains_key(vhs@[a]) by {
            assert(vhs@[a] == ob[a].0);
        }
        assert forall|vh: isize| #[trigger] bm.contains_key(vh) implies exists|a: int| 0 <= a < vhs@.len() && vhs@[a] == vh by {
            let a = choose|a: int| 0 <= a < ob.len() && ob[a].0 == vh;
            assert(vhs@[a] == vh);
        }
    }
    let mut rest = bucket;
    let mut out: BTreeMap<isize, Vec<(K, V)>> = BTreeMap::new();
    let mut first: Option<V> = None;
    let mut i: usize = 0;
    while i < vhs.len()
        invariant
            0 <= i <= vhs@.len(),
            b0 == bucket_model(bucket),
            bm == bucket@,
            forall|k: &K| #[trigger] matches.requires((k,)),
            forall|a: int, c: int| 0 <= a < c < vhs@.len() ==> vhs@[a] < vhs@[c],
            forall|a: int| 0 <= a < vhs@.len() ==> #[trigger] bm.contains_key(vhs@[a]),
            forall|vh: isize| #[trigger] bm.contains_key(vh) ==> exists|a: int| 0 <= a < vhs@.len() && vhs@[a] == vh,
            forall|a: int| #![trigger vhs@[a]] i <= a < vhs@.len() ==> rest@.contains_key(vhs@[a]) && rest@[vhs@[a]] == bm[vhs@[a]],
            forall|vh: isize| #[trigger] out@.contains_key(vh) ==> exists|a: int| 0 <= a < i && vhs@[a] == vh,
            forall|vh: isize| #[trigger] out@.contains_key(vh) ==> bm.contains_key(vh) && out@[vh]@.len() > 0
                && out@[vh]@.len() <= bm[vh]@.len(),
            forall|m: spec_fn(K) -> bool, a: int| #![trigger agrees(*matches, m), vhs@[a]] agrees(*matches, m) && 0 <= a < i ==>
                (out@.contains_key(vhs@[a]) <==> unmatched(b0[vhs@[a]], m).len() > 0)
                && (out@.contains_key(vhs@[a]) ==> out@[vhs@[a]]@ == unmatched(b0[vhs@[a]], m)),
            forall|m: spec_fn(K) -> bool| #[trigger] agrees(*matches, m) ==> (first is None ==> forall|a: int| 0 <= a < i ==> #[trigger] matching(b0[vhs@[a]], m).len() == 0),
            forall|m: spec_fn(K) -> bool| #[trigger] agrees(*matches, m) ==> (first matches Some(v) ==> exists|a: int| 0 <= a < i
                && matching(b0[vhs@[a]], m).len() > 0 && v == matching(b0[vhs@[a]], m)[0].1
                && forall|c: int| 0 <= c < a ==> #[trigger] matching(b0[vhs@[c]], m).len() == 0),
            first is None ==> forall|a: int| #![trigger vhs@[a]] 0 <= a < i && bm[vhs@[a]]@.len() > 0 ==> out@.contains_key(vhs@[a])
                && out@[vhs@[a]]@ == bm[vhs@[a]]@,
        decreases vhs@.len() - i,
    {
        let vh = vhs[i];
        proof {
            assert(rest@.contains_key(vhs@[i as int]));
        }
        let ghost rest0 = rest@;
        let list = rest.remove(&vh).unwrap();
        proof {
            assert(list == bm[vh]);
            assert forall|a: int| i + 1 <= a < vhs@.len() implies #[trigger] rest@.contains_key(vhs@[a]) && rest@[vhs@[a]] == bm[vhs@[a]] by {
                assert(vhs@[i as int] < vhs@[a]);
                assert(rest0.contains_key(vhs@[a]) && rest0[vhs@[a]] == bm[vhs@[a]]);
            }
            assert(!out@.contains_key(vh)) by {
                if out@.contains_key(vh) {
                    let a = choose|a: int| 0 <= a < i && vhs@[a] == vh;
                    assert(vhs@[a] < vhs@[i as int]);
                }
            }
        }
        let ghost out0 = out@;
        let ghost first0 = first;
        let (kept, found) = split_list(list, matches);
        let ghost found_g = found;
        if first.is_none() {
            first = found;
        }
        let keep = kept.len() > 0;
        if keep {
            out.insert(vh, kept);
        }
        proof {
            assert(b0[vh] == bm[vh]@);
            assert forall|vh2: isize| #[trigger] out@.contains_key(vh2) implies exists|a: int| 0 <= a < i + 1 && vhs@[a] == vh2 by {
                if vh2 != vh {
                    assert(out0.contains_key(vh2));
                    let a = choose|a: int| 0 <= a < i && vhs@[a] == vh2;
                    assert(vhs@[a] == vh2);
                } else {
                    assert(vhs@[i as int] == vh2);
                }
            }
            assert forall|vh2: isize| #[trigger] out@.contains_key(vh2) implies bm.contains_key(vh2) && out@[vh2]@.len() > 0
                && out@[vh2]@.len() <= bm[vh2]@.len() by {
                if vh2 != vh {
                    assert(out0.contains_key(vh2));
                    assert(out@[vh2] == out0[vh2]);
                }
            }
            assert forall|m: spec_fn(K) -> bool, a: int| #![trigger agrees(*matches, m), vhs@[a]] agrees(*matches, m) && 0 <= a < i + 1 implies
                (out@.contains_key(vhs@[a]) <==> unmatched(b0[vhs@[a]], m).len() > 0)
                && (out@.contains_key(vhs@[a]) ==> out@[vhs@[a]]@ == unmatched(b0[vhs@[a]], m)) by {
                if a < i {
                    assert(vhs@[a] < vhs@[i as int]);
                    assert(out0.contains_key(vhs@[a]) == out@.contains_key(vhs@[a]));
                }
            }
            assert forall|m: spec_fn(K) -> bool| #[trigger] agrees(*matches, m) implies (first is None ==> forall|a: int| 0 <= a < i + 1 ==> #[trigger] matching(b0[vhs@[a]], m).len() == 0) by {
                if first is None {
                    assert(found_g is None);
                    assert forall|a: int| 0 <= a < i + 1 implies #[trigger] matching(b0[vhs@[a]], m).len() == 0 by {
                        if a == i {
                            assert(first_value(bm[vh]@, m) is None);
                        }
                    }
                }
            }
            assert forall|m: spec_fn(K) -> bool| #[trigger] agrees(*matches, m) implies (first matches Some(v) ==> exists|a: int| 0 <= a < i + 1
                && matching(b0[vhs@[a]], m).len() > 0 && v == matching(b0[vhs@[a]], m)[0].1
                && forall|c: int| 0 <= c < a ==> #[trigger] matching(b0[vhs@[c]], m).len() == 0) by {
                if first0 is None {
                    if let Some(v) = first {
                        assert(found_g == Some(v));
                        assert(first_value(bm[vh]@, m) == Some(v));
                        assert(vhs@[i as int] == vh);
                        assert(matching(b0[vhs@[i as int]], m).len() > 0);
                    }
                }
            }
            if first is None {
                assert(found_g is None);
                assert forall|a: int| #![trigger vhs@[a]] 0 <= a < i + 1 && bm[vhs@[a]]@.len() > 0 implies out@.contains_key(vhs@[a])
                    && out@[vhs@[a]]@ == bm[vhs@[a]]@ by {
                    if a < i {
                        assert(first0 is None);
                        assert(vhs@[a] < vhs@[i as int]);
                        assert(bm[vhs@[a]]@.len() > 0);
                        assert(0 <= a < i);
                        assert(out0.contains_key(vhs@[a]));
                        assert(out0[vhs@[a]]@ == bm[vhs@[a]]@);
                        assert(out@[vhs@[a]] == out0[vhs@[a]]);
                    } else {
                        assert(vhs@[a] == vh);
                        assert(kept@ == bm[vh]@);
                        assert(keep);
                    }
                }
            }
        }
        i = i + 1;
    }
    proof {
        assert forall|m: spec_fn(K) -> bool| #[trigger] agrees(*matches, m) implies bucket_model(out) == purged(b0, m)
            && first == first_found(b0, m) by {
            assert forall|vh: isize| #[trigger] bucket_model(out).contains_key(vh) == purged(b0, m).contains_key(vh) by {
                if bm.contains_key(vh) {
                    let a = choose|a: int| 0 <= a < vhs@.len() && vhs@[a] == vh;
                    assert(agrees(*matches, m) && 0 <= a < i);
                } else if out@.contains_key(vh) {
                    assert(bm.contains_key(vh));
                }
            }
            assert forall|vh: isize| #[trigger] bucket_model(out).contains_key(vh) implies bucket_model(out)[vh] == purged(b0, m)[vh] by {
                let a = choose|a: int| 0 <= a < i && vhs@[a] == vh;
                assert(agrees(*matches, m) && 0 <= a < i);
            }
            assert(bucket_model(out) =~= purged(b0, m));
            if first is None {
                assert forall|vh: isize| #[trigger] hits(b0, m, vh).len() == 0 by {
                    if b0.contains_key(vh) {
                        let a = choose|a: int| 0 <= a < vhs@.len() && vhs@[a] == vh;
                        assert(matching(b0[vhs@[a]], m).len() == 0);
                    }
                }
                lemma_no_hit(b0, m);
            } else {
                let v = first->Some_0;
                let a = choose|a: int| 0 <= a < i
                    && matching(b0[vhs@[a]], m).len() > 0 && v == matching(b0[vhs@[a]], m)[0].1
                    && forall|c: int| 0 <= c < a ==> #[trigger] matching(b0[vhs@[c]], m).len() == 0;
                let vh = vhs@[a];
                assert forall|w: isize| w < vh implies #[trigger] hits(b0, m, w).len() == 0 by {
                    if b0.contains_key(w) {
                        let c = choose|c: int| 0 <= c < vhs@.len() && vhs@[c] == w;
                        if c >= a {
                            if c > a {
                                assert(vhs@[a] < vhs@[c]);
                            }
                        }
                        assert(matching(b0[vhs@[c]], m).len() == 0);
                    }
                }
                assert(is_first_hit(b0, m, vh));
                lemma_first_hit_unique(b0, m, vh);
            }
        }
        if first is None {
            assert forall|vh: isize| #[trigger] bm.contains_key(vh) && bm[vh]@.len() > 0 implies out@.contains_key(vh) && out@[vh]@ == bm[vh]@ by {
                let a = choose|a: int| 0 <= a < vhs@.len() && vhs@[a] == vh;
                assert(0 <= a < i && bm[vhs@[a]]@.len() > 0);
            }
        }
    }
    (out, first)
}

impl<K, V> Default for Dict<K, V> {
    /// An empty dictionary.
    fn default() -> (d: Self)
        ensures
            d@ == Map::<(isize, isize), Seq<(K, V)>>::empty(),
    {
        Self::new()
    }
}

/// The list of entries under each pair (key hash, value hash) of the nested maps.
spec fn model<K, V>(map: BTreeMap<isize, BTreeMap<isize, Vec<(K, V)>>>) -> Map<(isize, isize), Seq<(K, V)>> {
    Map::new(
        |p: (isize, isize)| map@.contains_key(p.0) && map@[p.0]@.contains_key(p.1),
        |p: (isize, isize)| map@[p.0]@[p.1]@,
    )
}

/// No bucket and no list of the nested maps is empty, and they hold no more entries than a
/// `usize` counts.
spec fn wf_map<K, V>(map: BTreeMap<isize, BTreeMap<isize, Vec<(K, V)>>>) -> bool {
    &&& forall|kh: isize| #[trigger] map@.contains_key(kh) ==> exists|vh: isize| map@[kh]@.contains_key(vh)
    &&& forall|p: (isize, isize)| #[trigger] model(map).contains_key(p) ==> model(map)[p].len() > 0
    &&& model(map).dom().finite()
    &&& count(model(map)) <= usize::MAX
}

impl<K, V> View for Dict<K, V> {
    type V = Map<(isize, isize), Seq<(K, V)>>;

    /// The list of entries under each pair (key hash, value hash), in the order set.
    closed spec fn view(&self) -> Map<(isize, isize), Seq<(K, V)>> {
        model(self.map)
    }
}

impl<K: Clone, V: Clone> Clone for Dict<K, V> {
    /// A copy holding clones of the entries.
    fn clone(&self) -> (d: Self)
        ensures
            d@ == self@,
    {
        proof {
            use_type_invariant(self);
        }
        Dict { map: self.map.clone() }
    }
}

impl<K, V> Dict<K, V> {
    /// No bucket and no list is empty, and the number of entries fits in a `usize`.
    #[verifier::type_invariant]
    pub closed spec fn wf(&self) -> bool {
        wf_map(self.map)
    }

    /// What the invariant says of the entries: lists are not empty, there are finitely many,
    /// and no more than a `usize` counts.
    pub proof fn lemma_wf(&self)
        requires
            self.wf(),
        ensures
            forall|p: (isize, isize)| #[trigger] self@.contains_key(p) ==> self@[p].len() > 0,
            self@.dom().finite(),
            count(self@) <= usize::MAX,
    {
    }

    /// Constructor
    pub fn new() -> (d: Self)
        ensures
            d@ == Map::<(isize, isize), Seq<(K, V)>>::empty(),
    {
        let map: BTreeMap<isize, BTreeMap<isize, Vec<(K, V)>>> = BTreeMap::new();
        proof {
            assert(model(map) =~= Map::<(isize, isize), Seq<(K, V)>>::empty());
            crate::sums::lemma_sum_empty(list_len(model(map)));
            assert(model(map).dom() =~= Set::<(isize, isize)>::empty());
        }
        Dict { map }
    }

    /// The state of a walk that has gone through the first `i` buckets that `o` lists and
    /// visited the lists at positions `h`.
    spec fn walk_inv(&self, o: Seq<(isize, BTreeMap<isize, Vec<(K, V)>>)>, i: int, h: Seq<(isize, isize)>) -> bool {
        &&& forall|a: int, b: int| 0 <= a < b < h.len() ==> lex_lt(h[a], h[b])
        &&& forall|a: int| 0 <= a < h.len() ==> #[trigger] self@.dom().contains(h[a])
        &&& forall|a: int| 0 <= a < h.len() ==> exists|j: int| 0 <= j < i && o[j].0 == #[trigger] h[a].0
        &&& forall|p: (isize, isize)| #[trigger] self@.dom().contains(p) && (exists|j: int| 0 <= j < i && o[j].0 == p.0) ==> h.contains(p)
    }

    proof fn lemma_walk_step(
        &self,
        o: Seq<(isize, BTreeMap<isize, Vec<(K, V)>>)>,
        i: int,
        h: Seq<(isize, isize)>,
        ob: Seq<(isize, Vec<(K, V)>)>,
    )
        requires
            lists_in_order(self.map@, o),
            0 <= i < o.len(),
            self.walk_inv(o, i, h),
            lists_in_order(o[i].1@, ob),
        ensures
            self.walk_inv(o, i + 1, h + ob.map_values(|e: (isize, Vec<(K, V)>)| (o[i].0, e.0))),
    {
        let kh = o[i].0;
        let t = ob.map_values(|e: (isize, Vec<(K, V)>)| (kh, e.0));
        let h2 = h + t;
        assert(self.map@.contains_key(o[i].0));
        assert(self.map@[kh] == o[i].1);
        assert forall|a: int, b: int| 0 <= a < b < h2.len() implies lex_lt(h2[a], h2[b]) by {
            if b >= h.len() {
                if a < h.len() {
                    let j = choose|j: int| 0 <= j < i && o[j].0 == h[a].0;
                    assert(o[j].0 < o[i].0);
                } else {
                    assert(ob[a - h.len()].0 < ob[b - h.len()].0);
                }
            }
        }
        assert forall|a: int| 0 <= a < h2.len() implies #[trigger] self@.dom().contains(h2[a]) by {
            if a >= h.len() {
                assert(o[i].1@.contains_key(ob[a - h.len()].0));
            }
        }
        assert forall|a: int| 0 <= a < h2.len() implies exists|j: int| 0 <= j < i + 1 && o[j].0
            == #[trigger] h2[a].0 by {
            if a < h.len() {
                let j = choose|j: int| 0 <= j < i && o[j].0 == h[a].0;
                assert(o[j].0 == h2[a].0);
            } else {
                assert(o[i].0 == h2[a].0);
            }
        }
        assert forall|p: (isize, isize)| #[trigger] self@.dom().contains(p) && (exists|j: int|
            0 <= j < i + 1 && o[j].0 == p.0) implies h2.contains(p) by {
            let j = choose|j: int| 0 <= j < i + 1 && o[j].0 == p.0;
            if j < i {
                let a = choose|a: int| 0 <= a < h.len() && h[a] == p;
                assert(h2[a] == p);
            } else {
                assert(o[i].1@.contains_key(p.1));
                let c = choose|c: int| 0 <= c < ob.len() && ob[c].0 == p.1;
                assert(h2[h.len() + c] == p);
            }
        }
    }

    /// Visits every list of entries, by increasing key hash and, within a bucket, by
    /// increasing value hash.
    fn walk(&self) -> (r: Vec<(isize, isize, &Vec<(K, V)>)>)
        ensures
            lists_set_in_order(self@.dom(), hashes(r@)),
            hashes(r@) == entry_order(self@),
            forall|a: int| #![trigger r@[a]] 0 <= a < r@.len() ==> r@[a].2@ == self@[(r@[a].0, r@[a].1)],
    {
        let mut r: Vec<(isize, isize, &Vec<(K, V)>)> = Vec::new();
        let it0 = self.map.iter();
        let ghost s = it0.remaining();
        let ghost o = visited(s);
        proof {
            lemma_iter_in_order(&self.map, it0);
        }
        for kv in it: it0
            invariant
                it.seq() == s,
                o == visited(s),
                lists_in_order(self.map@, o),
                self.walk_inv(o, it.index(), hashes(r@)),
                forall|a: int| #![trigger r@[a]] 0 <= a < r@.len() ==> r@[a].2@ == self@[(r@[a].0, r@[a].1)],
        {
            let (kh, bucket) = kv;
            let ghost idx = it.index();
            let ghost r0 = r@;
            let in0 = bucket.iter();
            let ghost si = in0.remaining();
            let ghost ob = visited(si);
            proof {
                lemma_iter_in_order(bucket, in0);
                assert(o[idx] == (*kh, *bucket));
                assert(self.map@.contains_key(o[idx].0));
                assert(self.map@[*kh] == *bucket);
            }
            for e in jt: in0
                invariant
                    jt.seq() == si,
                    ob == visited(si),
                    lists_in_order(bucket@, ob),
                    self.map@.contains_key(*kh),
                    self.map@[*kh] == *bucket,
                    r@.len() == r0.len() + jt.index(),
                    hashes(r@) == hashes(r0) + ob.take(jt.index()).map_values(|e: (isize, Vec<(K, V)>)| (*kh, e.0)),
                    forall|a: int| #![trigger r@[a]] 0 <= a < r@.len() ==> r@[a].2@ == self@[(r@[a].0, r@[a].1)],
            {
                let (vh, list) = e;
                let ghost j = jt.index();
                proof {
                    assert(ob[j] == (*vh, *list));
                    assert(bucket@.contains_key(*vh));
                    assert(self@.contains_key((*kh, *vh)));
                }
                let ghost r_prev = r@;
                r.push((*kh, *vh, list));
                proof {
                    assert(hashes(r@) =~= hashes(r_prev).push((*kh, *vh)));
                    assert(ob.take(j + 1) == ob.take(j).push(ob[j]));
                    assert(hashes(r@) =~= hashes(r0) + ob.take(j + 1).map_values(|e: (isize, Vec<(K, V)>)| (*kh, e.0)));
                }
            }
            proof {
                assert(ob.take(ob.len() as int) == ob);
                self.lemma_walk_step(o, idx, hashes(r0), ob);
            }
        }
        proof {
            let h = hashes(r@);
            assert forall|p: (isize, isize)| #[trigger] self@.dom().contains(p) implies h.contains(p) by {
                assert(self.map@.contains_key(p.0));
                let j = choose|j: int| 0 <= j < o.len() && o[j].0 == p.0;
            }
            assert(lists_set_in_order(self@.dom(), h));
            assert(lists_set_in_order(self@.dom(), entry_order(self@)));
            lemma_listing_unique(self@.dom(), h, entry_order(self@));
        }
        r
    }

    /// Sets item with key and value. The key has hash `k_hash` and the value hash `v_hash`;
    /// `matches` tells whether a stored key is equal to the key set. Every entry of an equal
    /// key gives way to the new entry, which is filed last under `(k_hash, v_hash)`.
    pub fn set_item<F: Fn(&K) -> bool>(&mut self, k: K, k_hash: isize, v: V, v_hash: isize, matches: F)
        requires
            forall|k: &K| #[trigger] matches.requires((k,)),
            count(old(self)@) < usize::MAX,
        ensures
            forall|m: spec_fn(K) -> bool| #[trigger] agrees(matches, m) ==> final(self)@ == after_set(old(self)@, k_hash, m, v_hash, (k, v)),
            final(self)@.contains_key((k_hash, v_hash)),
            final(self)@[(k_hash, v_hash)].last() == (k, v),
            forall|p: (isize, isize)| p.0 != k_hash ==> (#[trigger] final(self)@.contains_key(p) <==> old(self)@.contains_key(p)),
            forall|p: (isize, isize)| p.0 != k_hash && #[trigger] final(self)@.contains_key(p) ==> final(self)@[p] == old(self)@[p],
    {
        let ghost d0 = self@;
        let mut taken: Dict<K, V> = Dict::new();
        std::mem::swap(self, &mut taken);
        proof {
            use_type_invariant(&taken);
            assert(taken@ == d0);
        }
        let mut map = taken.map;
        let ghost m0 = map@;
        let bucket = match map.remove(&k_hash) {
            Some(b) => b,
            None => BTreeMap::new(),
        };
        let ghost b0 = bucket;
        proof {
            if m0.contains_key(k_hash) {
                assert(bucket_model(b0) =~= bucket_of(d0, k_hash));
            } else {
                assert(bucket_model(b0) =~= bucket_of(d0, k_hash));
            }
        }
        let (mut bucket, _found) = purge(bucket, &matches);
        let ghost b1 = bucket;
        let mut list = match bucket.remove(&v_hash) {
            Some(l) => l,
            None => Vec::new(),
        };
        let ghost l1 = list@;
        list.push((k, v));
        bucket.insert(v_hash, list);
        let ghost b2 = bucket;
        map.insert(k_hash, bucket);
        let ghost d1 = model(map);
        proof {
            assert forall|p: (isize, isize)| p.0 != k_hash implies (#[trigger] d1.contains_key(p) <==> d0.contains_key(p))
                && (d1.contains_key(p) ==> d1[p] == d0[p]) by {
                if d0.contains_key(p) {
                    assert(m0.contains_key(p.0));
                }
            }
            assert(d1.contains_key((k_hash, v_hash)));
            assert(d1[(k_hash, v_hash)] == l1.push((k, v)));
            assert(l1 == if b1@.contains_key(v_hash) { b1@[v_hash]@ } else { Seq::<(K, V)>::empty() });
            assert forall|m: spec_fn(K) -> bool| #[trigger] agrees(matches, m) implies d1 == after_set(d0, k_hash, m, v_hash, (k, v)) by {
                let w = without_matches(d0, k_hash, m);
                let bo = bucket_of(d0, k_hash);
                assert(bucket_model(b1) == purged(bo, m));
                assert forall|p: (isize, isize)| p.0 == k_hash && p.1 != v_hash implies (#[trigger] d1.contains_key(p) <==> w.contains_key(p))
                    && (d1.contains_key(p) ==> d1[p] == w[p]) by {
                    assert(map@[k_hash] == b2);
                    assert(b2@.contains_key(p.1) == b1@.contains_key(p.1));
                    assert(d1.contains_key(p) == b1@.contains_key(p.1));
                    assert(bucket_model(b1).contains_key(p.1) == purged(bo, m).contains_key(p.1));
                    assert(bo.contains_key(p.1) == d0.contains_key(p));
                    if d1.contains_key(p) {
                        assert(b2@[p.1] == b1@[p.1]);
                        assert(d1[p] == bucket_model(b1)[p.1]);
                        assert(bo[p.1] == d0[p]);
                    }
                }
                assert(w.contains_key((k_hash, v_hash)) == purged(bo, m).contains_key(v_hash)) by {
                    if d0.contains_key((k_hash, v_hash)) {
                        assert(bo.contains_key(v_hash));
                    }
                }
                if w.contains_key((k_hash, v_hash)) {
                    assert(bucket_model(b1)[v_hash] == purged(bo, m)[v_hash]);
                    assert(bo[v_hash] == d0[(k_hash, v_hash)]);
                    assert(l1 == w[(k_hash, v_hash)]);
                } else {
                    assert(l1.push((k, v)) =~= seq![(k, v)]);
                }
                assert(d1 =~= after_set(d0, k_hash, m, v_hash, (k, v)));
            }
            assert forall|p: (isize, isize)| #[trigger] d1.contains_key(p) && p != (k_hash, v_hash) implies
                d0.contains_key(p) && d1[p].len() <= d0[p].len() && d1[p].len() > 0 by {
                if p.0 == k_hash {
                    assert(b1@.contains_key(p.1));
                    assert(b0@.contains_key(p.1));
                    assert(m0.contains_key(k_hash));
                }
            }
            assert(l1.len() <= if d0.contains_key((k_hash, v_hash)) { d0[(k_hash, v_hash)].len() } else { 0 }) by {
                if b1@.contains_key(v_hash) {
                    assert(b0@.contains_key(v_hash));
                    assert(m0.contains_key(k_hash));
                    assert(d0.contains_key((k_hash, v_hash)));
                }
            }
            lemma_count_grows_by_one(d0, d1, (k_hash, v_hash));
            assert forall|kh: isize| #[trigger] map@.contains_key(kh) implies exists|vh: isize| map@[kh]@.contains_key(vh) by {
                if kh == k_hash {
                    assert(map@[kh]@.contains_key(v_hash));
                } else {
                    assert(m0.contains_key(kh));
                    let vh = choose|vh: isize| m0[kh]@.contains_key(vh);
                    assert(map@[kh]@.contains_key(vh));
                }
            }
            assert(wf_map(map));
        }
        *self = Dict { map };
    }

    /// Remove item by key. The key has hash `k_hash`; `matches` tells whether a stored key
    /// is equal to it. Every entry of an equal key is taken out, and the value that a lookup
    /// of the key found before is returned.
    pub fn remove_item<F: Fn(&K) -> bool>(&mut self, k_hash: isize, matches: F) -> (r: Option<V>)
        requires
            forall|k: &K| #[trigger] matches.requires((k,)),
        ensures
            forall|m: spec_fn(K) -> bool| #[trigger] agrees(matches, m) ==> final(self)@ == without_matches(old(self)@, k_hash, m)
                && r == lookup(old(self)@, k_hash, m),
            r is None ==> final(self)@ == old(self)@,
            forall|p: (isize, isize)| p.0 != k_hash ==> (#[trigger] final(self)@.contains_key(p) <==> old(self)@.contains_key(p)),
            forall|p: (isize, isize)| p.0 != k_hash && #[trigger] final(self)@.contains_key(p) ==> final(self)@[p] == old(self)@[p],
    {
        let ghost d0 = self@;
        let mut taken: Dict<K, V> = Dict::new();
        std::mem::swap(self, &mut taken);
        proof {
            use_type_invariant(&taken);
            assert(taken@ == d0);
        }
        let mut map = taken.map;
        let ghost m0 = map@;
        let bucket = match map.remove(&k_hash) {
            Some(b) => b,
            None => {
                proof {
                    assert(map@ =~= m0);
                    assert(map@ == taken.map@);
                    assert(model(map) =~= d0);
                    assert forall|m: spec_fn(K) -> bool| #[trigger] agrees(matches, m) implies d0 == without_matches(d0, k_hash, m)
                        && lookup(d0, k_hash, m) is None by {
                        assert(d0 =~= without_matches(d0, k_hash, m));
                        assert forall|vh: isize| #[trigger] hits(bucket_of(d0, k_hash), m, vh).len() == 0 by {}
                        lemma_no_hit(bucket_of(d0, k_hash), m);
                    }
                }
                *self = Dict { map };
                return None;
            },
        };
        let ghost b0 = bucket;
        proof {
            assert(bucket_model(b0) =~= bucket_of(d0, k_hash));
        }
        let (bucket, found) = purge(bucket, &matches);
        let ghost b1 = bucket;
        if bucket.len() > 0 {
            map.insert(k_hash, bucket);
        }
        let ghost d1 = model(map);
        proof {
            assert forall|p: (isize, isize)| p.0 != k_hash implies (#[trigger] d1.contains_key(p) <==> d0.contains_key(p))
                && (d1.contains_key(p) ==> d1[p] == d0[p]) by {
                if d0.contains_key(p) {
                    assert(m0.contains_key(p.0));
                }
            }
            assert forall|p: (isize, isize)| p.0 == k_hash implies (#[trigger] d1.contains_key(p) <==> b1@.contains_key(p.1))
                && (d1.contains_key(p) ==> d1[p] == b1@[p.1]@) by {
                if b1@.len() == 0 {
                    assert(!b1@.contains_key(p.1));
                }
            }
            assert forall|m: spec_fn(K) -> bool| #[trigger] agrees(matches, m) implies d1 == without_matches(d0, k_hash, m) by {
                let bo = bucket_of(d0, k_hash);
                assert(bucket_model(b1) == purged(bo, m));
                assert forall|p: (isize, isize)| p.0 == k_hash implies (#[trigger] d1.contains_key(p) <==> without_matches(d0, k_hash, m).contains_key(p))
                    && (d1.contains_key(p) ==> d1[p] == without_matches(d0, k_hash, m)[p]) by {
                    assert(bucket_model(b1).contains_key(p.1) == purged(bo, m).contains_key(p.1));
                    assert(bo.contains_key(p.1) == d0.contains_key(p));
                    if d1.contains_key(p) {
                        assert(d1[p] == bucket_model(b1)[p.1]);
                        assert(bo[p.1] == d0[p]);
                    }
                }
                assert(d1 =~= without_matches(d0, k_hash, m));
            }
            assert forall|p: (isize, isize)| #[trigger] d1.contains_key(p) implies d0.contains_key(p) && d1[p].len() <= d0[p].len() && d1[p].len() > 0 by {
                if p.0 == k_hash {
                    assert(b0@.contains_key(p.1));
                }
            }
            lemma_count_shrinks(d0, d1);
            if found is None {
                assert forall|p: (isize, isize)| #[trigger] d0.contains_key(p) implies d1.contains_key(p) by {
                    if p.0 == k_hash {
                        assert(b0@.contains_key(p.1) && b0@[p.1]@.len() > 0);
                    }
                }
                assert(d1 =~= d0);
            }
            assert forall|kh: isize| #[trigger] map@.contains_key(kh) implies exists|vh: isize| map@[kh]@.contains_key(vh) by {
                if kh == k_hash {
                    assert(exists|vh: isize| b1@.contains_key(vh)) by {
                        if !(exists|vh: isize| b1@.contains_key(vh)) {
                            assert(b1@.dom() =~= Set::<isize>::empty());
                        }
                    }
                    let vh = choose|vh: isize| b1@.contains_key(vh);
                    assert(map@[kh]@.contains_key(vh));
                } else {
                    assert(m0.contains_key(kh));
                    let vh = choose|vh: isize| m0[kh]@.contains_key(vh);
                    assert(map@[kh]@.contains_key(vh));
                }
            }
            assert(wf_map(map));
        }
        *self = Dict { map };
        found
    }

    /// Gets item by key. The key looked up has hash `k_hash`; `matches` tells whether a
    /// stored key is equal to it. The value of the first equal key in the bucket is returned.
    pub fn get_item<F: Fn(&K) -> bool>(&self, k_hash: isize, matches: F) -> (r: Option<&V>)
        requires
            forall|k: &K| #[trigger] matches.requires((k,)),
        ensures
            forall|m: spec_fn(K) -> bool| #[trigger] agrees(matches, m) ==> match lookup(self@, k_hash, m) {
                Some(v) => r matches Some(x) && *x == v,
                None => r is None,
            },
            r matches Some(x) ==> exists|vh: isize, j: int| #![trigger self@[(k_hash, vh)][j]]
                self@.contains_key((k_hash, vh)) && 0 <= j < self@[(k_hash, vh)].len()
                && *x == self@[(k_hash, vh)][j].1 && matches.ensures((&self@[(k_hash, vh)][j].0,), true),
            r is None ==> forall|vh: isize, j: int| #![trigger self@[(k_hash, vh)][j]]
                self@.contains_key((k_hash, vh)) && 0 <= j < self@[(k_hash, vh)].len()
                ==> matches.ensures((&self@[(k_hash, vh)][j].0,), false),
    {
        let bucket = match self.map.get(&k_hash) {
            Some(b) => b,
            None => {
                proof {
                    assert forall|m: spec_fn(K) -> bool| #[trigger] agrees(matches, m) implies lookup(self@, k_hash, m) is None by {
                        assert forall|vh: isize| #[trigger] hits(bucket_of(self@, k_hash), m, vh).len() == 0 by {}
                        lemma_no_hit(bucket_of(self@, k_hash), m);
                    }
                }
                return None;
            },
        };
        let in0 = bucket.iter();
        let ghost si = in0.remaining();
        let ghost ob = visited(si);
        proof {
            lemma_iter_in_order(bucket, in0);
        }
        for e in jt: in0
            invariant
                jt.seq() == si,
                ob == visited(si),
                lists_in_order(bucket@, ob),
                self.map@.contains_key(k_hash),
                self.map@[k_hash] == *bucket,
                forall|k: &K| #[trigger] matches.requires((k,)),
                forall|t: int, j: int| 0 <= t < jt.index() && 0 <= j < ob[t].1@.len() ==> #[trigger] matches.ensures((&ob[t].1@[j].0,), false),
        {
            let (vh, list) = e;
            let ghost idx = jt.index();
            proof {
                assert(ob[idx] == (*vh, *list));
                assert(bucket@.contains_key(*vh));
                assert(self@.contains_key((k_hash, *vh)));
            }
            let mut j: usize = 0;
            #[verifier::loop_isolation(false)]
            while j < list.len()
                invariant
                    0 <= j <= list@.len(),
                    forall|k: &K| #[trigger] matches.requires((k,)),
                    forall|i: int| 0 <= i < j ==> #[trigger] matches.ensures((&list@[i].0,), false),
                decreases list@.len() - j,
            {
                let found = matches(&list[j].0);
                if found {
                    proof {
                        let b = bucket_of(self@, k_hash);
                        assert(b[*vh] == list@);
                        assert forall|m: spec_fn(K) -> bool| #[trigger] agrees(matches, m) implies lookup(self@, k_hash, m) == Some(list@[j as int].1) by {
                            assert forall|i: int| 0 <= i < j implies !m(#[trigger] list@[i].0) by {
                                assert(matches.ensures((&list@[i].0,), false));
                            }
                            lemma_matching_first(list@, m, j as int);
                            assert forall|w: isize| w < *vh implies #[trigger] hits(b, m, w).len() == 0 by {
                                if b.contains_key(w) {
                                    assert(bucket@.contains_key(w));
                                    lemma_smaller_key_before(bucket@, ob, idx, w);
                                    let t = choose|t: int| 0 <= t < idx && ob[t].0 == w;
                                    assert(b[w] == ob[t].1@);
                                    assert forall|i: int| 0 <= i < b[w].len() implies !m(#[trigger] b[w][i].0) by {
                                        assert(matches.ensures((&ob[t].1@[i].0,), false));
                                    }
                                    lemma_matching_none(b[w], m);
                                }
                            }
                            assert(is_first_hit(b, m, *vh));
                            lemma_first_hit_unique(b, m, *vh);
                        }
                        assert(self@[(k_hash, *vh)][j as int] == list@[j as int]);
                    }
                    return Some(&list[j].1);
                }
                j = j + 1;
            }
        }
        proof {
            let b = bucket_of(self@, k_hash);
            assert forall|vh: isize, j: int| #![trigger self@[(k_hash, vh)][j]]
                self@.contains_key((k_hash, vh)) && 0 <= j < self@[(k_hash, vh)].len()
                implies matches.ensures((&self@[(k_hash, vh)][j].0,), false) by {
                assert(bucket@.contains_key(vh));
                let t = choose|t: int| 0 <= t < ob.len() && ob[t].0 == vh;
                assert(self@[(k_hash, vh)] == ob[t].1@);
                assert(matches.ensures((&ob[t].1@[j].0,), false));
            }
            assert forall|m: spec_fn(K) -> bool| #[trigger] agrees(matches, m) implies lookup(self@, k_hash, m) is None by {
                assert forall|vh: isize| #[trigger] hits(b, m, vh).len() == 0 by {
                    if b.contains_key(vh) {
                        assert forall|i: int| 0 <= i < b[vh].len() implies !m(#[trigger] b[vh][i].0) by {
                            assert(matches.ensures((&self@[(k_hash, vh)][i].0,), false));
                        }
                        lemma_matching_none(b[vh], m);
                    }
                }
                lemma_no_hit(b, m);
            }
        }
        None
    }

    /// Every entry, by reference, with its pair of hashes, in the dictionary's order.
    fn walk_entries(&self) -> (r: Vec<(isize, isize, &K, &V)>)
        ensures
            r@.len() == listing(self@).len(),
            forall|a: int| #![trigger r@[a]] 0 <= a < r@.len() ==> (r@[a].0, r@[a].1, *r@[a].2, *r@[a].3) == listing(self@)[a],
    {
        let w = self.walk();
        let ghost ord = entry_order(self@);
        let ghost fl = listing(self@);
        let mut r: Vec<(isize, isize, &K, &V)> = Vec::new();
        let mut i: usize = 0;
        while i < w.len()
            invariant
                0 <= i <= w@.len(),
                hashes(w@) == ord,
                ord == entry_order(self@),
                fl == flat(self@, ord),
                forall|a: int| #![trigger w@[a]] 0 <= a < w@.len() ==> w@[a].2@ == self@[(w@[a].0, w@[a].1)],
                r@.len() == flat(self@, ord.take(i as int)).len(),
                forall|a: int| #![trigger r@[a]] 0 <= a < r@.len() ==> (r@[a].0, r@[a].1, *r@[a].2, *r@[a].3) == fl[a],
            decreases w@.len() - i,
        {
            let (kh, vh, list) = w[i];
            let ghost pre = r@.len();
            proof {
                assert(hashes(w@)[i as int] == (w@[i as int].0, w@[i as int].1));
                assert(ord[i as int] == (kh, vh));
                assert(ord.take(i + 1).drop_last() =~= ord.take(i as int));
            }
            let mut j: usize = 0;
            while j < list.len()
                invariant
                    0 <= j <= list@.len(),
                    list@ == self@[(kh, vh)],
                    ord[i as int] == (kh, vh),
                    0 <= i < ord.len(),
                    fl == flat(self@, ord),
                    pre == flat(self@, ord.take(i as int)).len(),
                    r@.len() == pre + j,
                    forall|a: int| #![trigger r@[a]] 0 <= a < r@.len() ==> (r@[a].0, r@[a].1, *r@[a].2, *r@[a].3) == fl[a],
                decreases list@.len() - j,
            {
                proof {
                    lemma_flat_index(self@, ord, i as int, j as int);
                }
                r.push((kh, vh, &list[j].0, &list[j].1));
                j = j + 1;
            }
            proof {
                if list@.len() > 0 {
                    lemma_flat_index(self@, ord, i as int, 0);
                } else {
                    assert(ord.take(i + 1).drop_last() =~= ord.take(i as int));
                    assert(ord.take(i + 1).last() == ord[i as int]);
                }
            }
            i = i + 1;
        }
        proof {
            assert(ord.take(w@.len() as int) =~= ord);
        }
        r
    }

    /// Hashes object: the hash of each entry's key hash and value hash, folded in order.
    pub fn hash(&self) -> (h: isize)
        ensures
            h == dict_hash_spec(self@),
    {
        let w = self.walk_entries();
        let ghost items = entry_hashes(self@);
        let mut acc: isize = 0;
        let mut i: usize = 0;
        assert(items.take(0) =~= Seq::<isize>::empty());
        while i < w.len()
            invariant
                0 <= i <= w@.len(),
                w@.len() == listing(self@).len(),
                forall|a: int| #![trigger w@[a]] 0 <= a < w@.len() ==> (w@[a].0, w@[a].1, *w@[a].2, *w@[a].3) == listing(self@)[a],
                items == entry_hashes(self@),
                acc == fold_hash(items.take(i as int)),
            decreases w@.len() - i,
        {
            let item = combine_hash(w[i].0, w[i].1);
            proof {
                assert(items[i as int] == item);
                assert(items.take(i + 1).drop_last() =~= items.take(i as int));
            }
            acc = combine_hash(acc, item);
            i = i + 1;
        }
        proof {
            assert(items.take(w@.len() as int) =~= items);
        }
        acc
    }

    /// Comparison which relies on hashes: equal when asked for equality and both hashes agree.
    pub fn richcmp(&self, other: &Self, op: CompareOp) -> (r: bool)
        ensures
            r == rich_compare_spec(op, dict_hash_spec(self@), dict_hash_spec(other@)),
    {
        let a = self.hash();
        let b = other.hash();
        rich_compare(op, a, b)
    }

    /// Iterator over both keys and values, in the dictionary's order.
    pub fn iter(&self) -> (r: Vec<(&K, &V)>)
        ensures
            r@.len() == entries_in_order(self@).len(),
            forall|i: int| #![trigger r@[i]] 0 <= i < r@.len() ==> (*r@[i].0, *r@[i].1) == entries_in_order(self@)[i],
    {
        let w = self.walk_entries();
        let mut r: Vec<(&K, &V)> = Vec::new();
        let mut i: usize = 0;
        while i < w.len()
            invariant
                0 <= i <= w@.len(),
                w@.len() == listing(self@).len(),
                forall|a: int| #![trigger w@[a]] 0 <= a < w@.len() ==> (w@[a].0, w@[a].1, *w@[a].2, *w@[a].3) == listing(self@)[a],
                r@.len() == i,
                forall|a: int| #![trigger r@[a]] 0 <= a < i ==> (*r@[a].0, *r@[a].1) == entries_in_order(self@)[a],
            decreases w@.len() - i,
        {
            r.push((w[i].2, w[i].3));
            i = i + 1;
        }
        r
    }

    /// Iterator over keys, in the dictionary's order.
    pub fn keys(&self) -> (r: Vec<&K>)
        ensures
            r@.len() == entries_in_order(self@).len(),
            forall|i: int| #![trigger r@[i]] 0 <= i < r@.len() ==> *r@[i] == entries_in_order(self@)[i].0,
    {
        let w = self.walk_entries();
        let mut r: Vec<&K> = Vec::new();
        let mut i: usize = 0;
        while i < w.len()
            invariant
                0 <= i <= w@.len(),
                w@.len() == listing(self@).len(),
                forall|a: int| #![trigger w@[a]] 0 <= a < w@.len() ==> (w@[a].0, w@[a].1, *w@[a].2, *w@[a].3) == listing(self@)[a],
                r@.len() == i,
                forall|a: int| #![trigger r@[a]] 0 <= a < i ==> *r@[a] == entries_in_order(self@)[a].0,
            decreases w@.len() - i,
        {
            r.push(w[i].2);
            i = i + 1;
        }
        r
    }

    /// Iterator over values, in the dictionary's order.
    pub fn values(&self) -> (r: Vec<&V>)
        ensures
            r@.len() == entries_in_order(self@).len(),
            forall|i: int| #![trigger r@[i]] 0 <= i < r@.len() ==> *r@[i] == entries_in_order(self@)[i].1,
    {
        let w = self.walk_entries();
        let mut r: Vec<&V> = Vec::new();
        let mut i: usize = 0;
        while i < w.len()
            invariant
                0 <= i <= w@.len(),
                w@.len() == listing(self@).len(),
                forall|a: int| #![trigger w@[a]] 0 <= a < w@.len() ==> (w@[a].0, w@[a].1, *w@[a].2, *w@[a].3) == listing(self@)[a],
                r@.len() == i,
                forall|a: int| #![trigger r@[a]] 0 <= a < i ==> *r@[a] == entries_in_order(self@)[a].1,
            decreases w@.len() - i,
        {
            r.push(w[i].3);
            i = i + 1;
        }
        r
    }

    /// Iterator which consumes object: the entries, in the dictionary's order.
    pub fn into_iter(self) -> (r: Vec<(K, V)>)
        ensures
            r@ == entries_in_order(self@),
    {
        let ghost d0 = self@;
        let mut order: Vec<(isize, isize)> = Vec::new();
        {
            let w = self.walk();
            let mut i: usize = 0;
            while i < w.len()
                invariant
                    0 <= i <= w@.len(),
                    order@ == hashes(w@).take(i as int),
                decreases w@.len() - i,
            {
                order.push((w[i].0, w[i].1));
                proof {
                    assert(hashes(w@).take(i + 1) =~= hashes(w@).take(i as int).push((w@[i as int].0, w@[i as int].1)));
                }
                i = i + 1;
            }
            proof {
                assert(hashes(w@).take(w@.len() as int) =~= hashes(w@));
            }
        }
        let ghost ord = order@;
        let ghost proj = |x: (isize, isize, K, V)| (x.2, x.3);
        proof {
            assert(lists_set_in_order(d0.dom(), ord));
            assert(flat(d0, ord.take(0)) =~= Seq::<(isize, isize, K, V)>::empty());
        }
        let mut map = self.map;
        let mut r: Vec<(K, V)> = Vec::new();
        let mut i: usize = 0;
        while i < order.len()
            invariant
                0 <= i <= order@.len(),
                ord == order@,
                ord == entry_order(d0),
                lists_set_in_order(d0.dom(), ord),
                forall|p: (isize, isize)| #[trigger] d0.contains_key(p) && !ord.take(i as int).contains(p)
                    ==> model(map).contains_key(p) && model(map)[p] == d0[p],
                r@ == flat(d0, ord.take(i as int)).map_values(proj),
                proj == |x: (isize, isize, K, V)| (x.2, x.3),
            decreases order@.len() - i,
        {
            let (kh, vh) = order[i];
            let ghost p = (kh, vh);
            let ghost t0 = ord.take(i as int);
            let ghost t1 = ord.take(i + 1);
            let ghost mm0 = map@;
            let ghost md0 = model(map);
            proof {
                assert(ord[i as int] == p);
                assert(d0.contains_key(p));
                assert(!t0.contains(p)) by {
                    if t0.contains(p) {
                        let a = choose|a: int| 0 <= a < i && t0[a] == p;
                        assert(lex_lt(ord[a], ord[i as int]));
                    }
                }
                assert(md0.contains_key(p));
            }
            let mut bucket = map.remove(&kh).unwrap();
            let mut list = bucket.remove(&vh).unwrap();
            map.insert(kh, bucket);
            let ghost l0 = list@;
            let ghost r0 = r@;
            r.append(&mut list);
            proof {
                assert(l0 == d0[p]);
                assert(model(map) =~= md0.remove(p));
                assert(t1 =~= t0.push(p));
                assert forall|q: (isize, isize)| #[trigger] d0.contains_key(q) && !t1.contains(q)
                    implies model(map).contains_key(q) && model(map)[q] == d0[q] by {
                    assert(q != p) by {
                        if q == p {
                            assert(t1[i as int] == p);
                        }
                    }
                    assert(!t0.contains(q)) by {
                        if t0.contains(q) {
                            let a = choose|a: int| 0 <= a < t0.len() && t0[a] == q;
                            assert(t1[a] == q);
                        }
                    }
                }
                assert(t1.drop_last() =~= t0);
                assert(flat(d0, t1) == flat(d0, t0) + d0[p].map_values(|e: (K, V)| (p.0, p.1, e.0, e.1)));
                assert(d0[p].map_values(|e: (K, V)| (p.0, p.1, e.0, e.1)).map_values(proj) =~= l0);
                assert(flat(d0, t1).map_values(proj) =~= flat(d0, t0).map_values(proj) + d0[p].map_values(|e: (K, V)| (p.0, p.1, e.0, e.1)).map_values(proj));
                assert(r@ =~= r0 + l0);
            }
            i = i + 1;
        }
        proof {
            assert(ord.take(order@.len() as int) =~= ord);
            assert(entries_in_order(d0) =~= flat(d0, ord).map_values(proj));
        }
        r
    }

    /// Iterator over keys which consumes object.
    pub fn into_keys(self) -> (r: Vec<K>)
        ensures
            r@ == entries_in_order(self@).map_values(|e: (K, V)| e.0),
    {
        let ghost es = entries_in_order(self@);
        let mut all = self.into_iter();
        let mut r: Vec<K> = Vec::new();
        // Move the keys out from the back, then restore their order.
        let mut back: Vec<K> = Vec::new();
        while all.len() > 0
            invariant
                es.len() == all@.len() + back@.len(),
                forall|a: int| 0 <= a < all@.len() ==> #[trigger] all@[a] == es[a],
                forall|a: int| 0 <= a < back@.len() ==> #[trigger] back@[a] == es[es.len() - 1 - a].0,
            decreases all@.len(),
        {
            let (k, _v) = all.pop().unwrap();
            back.push(k);
        }
        while back.len() > 0
            invariant
                es.len() == r@.len() + back@.len(),
                forall|a: int| 0 <= a < back@.len() ==> #[trigger] back@[a] == es[es.len() - 1 - a].0,
                forall|a: int| 0 <= a < r@.len() ==> #[trigger] r@[a] == es[a].0,
            decreases back@.len(),
        {
            let k = back.pop().unwrap();
            r.push(k);
        }
        proof {
            assert(r@ =~= es.map_values(|e: (K, V)| e.0));
        }
        r
    }

    /// Iterator over values which consumes object.
    pub fn into_values(self) -> (r: Vec<V>)
        ensures
            r@ == entries_in_order(self@).map_values(|e: (K, V)| e.1),
    {
        let ghost es = entries_in_order(self@);
        let mut all = self.into_iter();
        let mut r: Vec<V> = Vec::new();
        let mut back: Vec<V> = Vec::new();
        while all.len() > 0
            invariant
                es.len() == all@.len() + back@.len(),
                forall|a: int| 0 <= a < all@.len() ==> #[trigger] all@[a] == es[a],
                forall|a: int| 0 <= a < back@.len() ==> #[trigger] back@[a] == es[es.len() - 1 - a].1,
            decreases all@.len(),
        {
            let (_k, v) = all.pop().unwrap();
            back.push(v);
        }
        while back.len() > 0
            invariant
                es.len() == r@.len() + back@.len(),
                forall|a: int| 0 <= a < back@.len() ==> #[trigger] back@[a] == es[es.len() - 1 - a].1,
                forall|a: int| 0 <= a < r@.len() ==> #[trigger] r@[a] == es[a].1,
            decreases back@.len(),
        {
            let v = back.pop().unwrap();
            r.push(v);
        }
        proof {
            assert(r@ =~= es.map_values(|e: (K, V)| e.1));
        }
        r
    }

    /// Returns number of items in dictionary
    pub fn len(&self) -> (n: usize)
        ensures
            n == count(self@),
    {
        proof {
            use_type_invariant(self);
        }
        let w = self.walk();
        let ghost ord = entry_order(self@);
        proof {
            lemma_listing_set(self@, ord);
        }
        let mut n: usize = 0;
        let mut i: usize = 0;
        while i < w.len()
            invariant
                0 <= i <= w@.len(),
                hashes(w@) == ord,
                ord == entry_order(self@),
                forall|a: int| #![trigger w@[a]] 0 <= a < w@.len() ==> w@[a].2@ == self@[(w@[a].0, w@[a].1)],
                n == flat(self@, ord.take(i as int)).len(),
                flat(self@, ord).len() == count(self@),
                count(self@) <= usize::MAX,
            decreases w@.len() - i,
        {
            proof {
                assert(hashes(w@)[i as int] == (w@[i as int].0, w@[i as int].1));
                assert(ord.take(i + 1).drop_last() =~= ord.take(i as int));
                lemma_flat_concat(self@, ord.take(i + 1), ord.skip(i + 1));
                assert(ord.take(i + 1) + ord.skip(i + 1) =~= ord);
            }
            n = n + w[i].2.len();
            i = i + 1;
        }
        proof {
            assert(ord.take(i as int) =~= ord);
        }
        n
    }

    /// Checks whether dict is empty
    pub fn is_empty(&self) -> (b: bool)
        ensures
            b == (count(self@) == 0),
    {
        proof {
            use_type_invariant(self);
        }
        let b = self.map.len() == 0;
        proof {
            crate::sums::lemma_sum_positive(self@.dom(), list_len(self@));
            if b {
                assert(self@.dom() =~= Set::<(isize, isize)>::empty());
            } else {
                let kh = self.map@.dom().choose();
                assert(self.map@.contains_key(kh));
                let vh = choose|vh: isize| self.map@[kh]@.contains_key(vh);
                assert(self@.dom().contains((kh, vh)));
                assert(list_len(self@)((kh, vh)) > 0);
            }
        }
        b
    }
}

} // verus!
