//! Iterators that consume a dictionary: over its entries, its keys or its values, in the
//! dictionary's order.

use crate::dict::{entries_in_order, Dict};
use std::collections::VecDeque;
use vstd::prelude::*;

verus! {

/// What a call of `next` gives on an iterator whose items still to come are `s`, and the
/// items left after it.
pub open spec fn next_step<X>(s: Seq<X>) -> (Option<X>, Seq<X>) {
    if s.len() == 0 {
        (None, s)
    } else {
        (Some(s[0]), s.drop_first())
    }
}

/// The items left after `n` calls of `next` on an iterator whose items still to come are `s`.
pub open spec fn drained<X>(s: Seq<X>, n: nat) -> Seq<X>
    decreases n,
{
    if n == 0 {
        s
    } else {
        next_step(drained(s, (n - 1) as nat)).1
    }
}

/// What the call of `next` that follows `n` earlier calls gives.
pub open spec fn nth_next<X>(s: Seq<X>, n: nat) -> Option<X> {
    next_step(drained(s, n)).0
}

/// Iterator over the entries of a dictionary that it has taken over.
pub struct Items<K, V> {
    rest: VecDeque<(K, V)>,
}

impl<K, V> View for Items<K, V> {
    type V = Seq<(K, V)>;

    /// The entries still to come, in order.
    closed spec fn view(&self) -> Seq<(K, V)> {
        self.rest@
    }
}

impl<K, V> Items<K, V> {
    /// Takes over `dict`; the entries come in the dictionary's order.
    pub fn new(dict: Dict<K, V>) -> (it: Self)
        ensures
            it@ == entries_in_order(dict@),
    {
        let ghost es = entries_in_order(dict@);
        let mut all = dict.into_iter();
        let mut rest: VecDeque<(K, V)> = VecDeque::new();
        while all.len() > 0
            invariant
                es.len() == all@.len() + rest@.len(),
                forall|a: int| 0 <= a < all@.len() ==> #[trigger] all@[a] == es[a],
                forall|a: int| 0 <= a < rest@.len() ==> #[trigger] rest@[a] == es[all@.len() + a],
            decreases all@.len(),
        {
            let e = all.pop().unwrap();
            let ghost r0 = rest@;
            rest.push_front(e);
            proof {
                assert forall|a: int| 0 <= a < rest@.len() implies #[trigger] rest@[a] == es[all@.len() + a] by {
                    if a > 0 {
                        assert(rest@[a] == r0[a - 1]);
                    }
                }
            }
        }
        proof {
            assert(rest@ =~= es);
        }
        Items { rest }
    }

    /// The next entry, if any is left.
    pub fn next(&mut self) -> (r: Option<(K, V)>)
        ensures
            (r, final(self)@) == next_step(old(self)@),
            old(self)@.len() == 0 ==> r is None && final(self)@ == old(self)@,
            old(self)@.len() > 0 ==> r == Some(old(self)@[0]) && final(self)@ == old(self)@.drop_first(),
    {
        let r = self.rest.pop_front();
        proof {
            if old(self)@.len() > 0 {
                assert(self@ =~= old(self)@.drop_first());
            }
        }
        r
    }
}

/// Iterator over the keys of a dictionary that it has taken over.
pub struct Keys<K, V> {
    items: Items<K, V>,
}

impl<K, V> View for Keys<K, V> {
    type V = Seq<K>;

    /// The keys still to come, in order.
    closed spec fn view(&self) -> Seq<K> {
        self.items@.map_values(|e: (K, V)| e.0)
    }
}

impl<K, V> Keys<K, V> {
    /// Takes over `dict`; the keys come in the dictionary's order.
    pub fn new(dict: Dict<K, V>) -> (it: Self)
        ensures
            it@ == entries_in_order(dict@).map_values(|e: (K, V)| e.0),
    {
        let items = Items::new(dict);
        Keys { items }
    }

    /// The next key, if any is left.
    pub fn next(&mut self) -> (r: Option<K>)
        ensures
            (r, final(self)@) == next_step(old(self)@),
            old(self)@.len() == 0 ==> r is None && final(self)@ == old(self)@,
            old(self)@.len() > 0 ==> r == Some(old(self)@[0]) && final(self)@ == old(self)@.drop_first(),
    {
        match self.items.next() {
            Some((k, _v)) => {
                proof {
                    assert(self@ =~= old(self)@.drop_first());
                }
                Some(k)
            },
            None => None,
        }
    }
}

/// Iterator over the values of a dictionary that it has taken over.
pub struct Values<K, V> {
    items: Items<K, V>,
}

impl<K, V> View for Values<K, V> {
    type V = Seq<V>;

    /// The values still to come, in order.
    closed spec fn view(&self) -> Seq<V> {
        self.items@.map_values(|e: (K, V)| e.1)
    }
}

impl<K, V> Values<K, V> {
    /// Takes over `dict`; the values come in the dictionary's order.
    pub fn new(dict: Dict<K, V>) -> (it: Self)
        ensures
            it@ == entries_in_order(dict@).map_values(|e: (K, V)| e.1),
    {
        let items = Items::new(dict);
        Values { items }
    }

    /// The next value, if any is left.
    pub fn next(&mut self) -> (r: Option<V>)
        ensures
            (r, final(self)@) == next_step(old(self)@),
            old(self)@.len() == 0 ==> r is None && final(self)@ == old(self)@,
            old(self)@.len() > 0 ==> r == Some(old(self)@[0]) && final(self)@ == old(self)@.drop_first(),
    {
        match self.items.next() {
            Some((_k, v)) => {
                proof {
                    assert(self@ =~= old(self)@.drop_first());
                }
                Some(v)
            },
            None => None,
        }
    }
}

} // verus!
