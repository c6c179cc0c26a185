//! A list that can itself be hashed.

use crate::compare::{rich_compare, rich_compare_spec, CompareOp};
use crate::pyhash::{combine_hash, fold_hash};
use vstd::prelude::*;

verus! {

/// List which can be hashed. Requires all items to be hashable.
#[derive(Clone, Debug)]
pub struct List<T> {
    vec: Vec<T>,
}

/// Refusal of an index that names no item of a list.
#[derive(Clone, Copy, Debug, PartialEq, Eq, Structural)]
pub struct IndexError {
    /// The index asked for.
    pub index: isize,
}

/// The position that an index names: the index read as an unsigned machine word.
pub open spec fn position(idx: isize) -> int {
    if idx >= 0 {
        idx as int
    } else {
        idx + usize::MAX + 1
    }
}

/// The closure `f` answers, on every item, what `m` says of it.
pub open spec fn agrees_hash<T, E, F: Fn(&T) -> Result<isize, E>>(f: F, m: spec_fn(T) -> Result<isize, E>) -> bool {
    forall|x: &T, r: Result<isize, E>| #[trigger] f.ensures((x,), r) ==> r == m(*x)
}

/// The hashes that `m` gives the items of `s`, in order, or the first error it gives.
pub open spec fn item_hashes<T, E>(s: Seq<T>, m: spec_fn(T) -> Result<isize, E>) -> Result<Seq<isize>, E>
    decreases s.len(),
{
    if s.len() == 0 {
        Ok(Seq::empty())
    } else {
        match item_hashes(s.drop_last(), m) {
            Ok(hs) => match m(s.last()) {
                Ok(h) => Ok(hs.push(h)),
                Err(e) => Err(e),
            },
            Err(e) => Err(e),
        }
    }
}

/// The hash of a list whose items hash as `m` says: every item's hash, folded in order; or
/// the first error met.
pub open spec fn list_hash_spec<T, E>(s: Seq<T>, m: spec_fn(T) -> Result<isize, E>) -> Result<isize, E> {
    match item_hashes(s, m) {
        Ok(hs) => Ok(fold_hash(hs)),
        Err(e) => Err(e),
    }
}

impl<T> Default for List<T> {
    /// An empty list.
    fn default() -> (l: Self)
        ensures
            l@ == Seq::<T>::empty(),
    {
        Self::new()
    }
}

impl<T> View for List<T> {
    type V = Seq<T>;

    /// The items, in order.
    closed spec fn view(&self) -> Seq<T> {
        self.vec@
    }
}

impl<T> List<T> {
    /// An empty list.
    pub fn new() -> (l: Self)
        ensures
            l@ == Seq::<T>::empty(),
    {
        List { vec: Vec::new() }
    }

    /// The list of the given items.
    pub fn from_vec(vec: Vec<T>) -> (l: Self)
        ensures
            l@ == vec@,
    {
        List { vec }
    }

    /// The number of items.
    pub fn len(&self) -> (n: usize)
        ensures
            n == self@.len(),
    {
        self.vec.len()
    }

    /// The items, in order.
    pub fn iter(&self) -> (r: &[T])
        ensures
            r@ == self@,
    {
        self.vec.as_slice()
    }

    /// The item at index `idx`. An index is read as an unsigned machine word, so a negative
    /// one names no item of any list that memory can hold.
    pub fn get_item(&self, idx: isize) -> (r: Result<&T, IndexError>)
        ensures
            position(idx) < self@.len() ==> (r matches Ok(x) && *x == self@[position(idx)]),
            position(idx) >= self@.len() ==> r == Err::<&T, IndexError>(IndexError { index: idx }),
            0 <= idx < self@.len() ==> (r matches Ok(x) && *x == self@[idx as int]),
    {
        proof {
            lemma_position(idx);
        }
        let pos = to_position(idx);
        if pos < self.vec.len() {
            Ok(&self.vec[pos])
        } else {
            Err(IndexError { index: idx })
        }
    }

    /// Replaces the item at index `idx` by `value`; an index that names no item is refused
    /// and the list left as it was.
    pub fn set_item(&mut self, idx: isize, value: T) -> (r: Result<(), IndexError>)
        ensures
            position(idx) < old(self)@.len() ==> r is Ok && final(self)@ == old(self)@.update(position(idx), value),
            position(idx) >= old(self)@.len() ==> r == Err::<(), IndexError>(IndexError { index: idx })
                && final(self)@ == old(self)@,
            0 <= idx < old(self)@.len() ==> r is Ok && final(self)@ == old(self)@.update(idx as int, value),
    {
        proof {
            lemma_position(idx);
        }
        let pos = to_position(idx);
        if pos < self.vec.len() {
            self.vec.set(pos, value);
            Ok(())
        } else {
            Err(IndexError { index: idx })
        }
    }

    /// Hashes the list: every item's hash, as `item_hash` gives it, folded in order. An item
    /// that cannot be hashed stops the walk, and its error is returned.
    pub fn hash<E, F: Fn(&T) -> Result<isize, E>>(&self, item_hash: F) -> (h: Result<isize, E>)
        requires
            forall|x: &T| #[trigger] item_hash.requires((x,)),
        ensures
            forall|m: spec_fn(T) -> Result<isize, E>| #[trigger] agrees_hash(item_hash, m) ==> h == list_hash_spec(self@, m),
            h matches Ok(x) ==> exists|got: Seq<isize>| #![trigger fold_hash(got)]
                got.len() == self@.len()
                && (forall|a: int| 0 <= a < got.len() ==> #[trigger] item_hash.ensures((&self@[a],), Ok::<isize, E>(got[a])))
                && x == fold_hash(got),
            h matches Err(e) ==> exists|a: int| 0 <= a < self@.len() && #[trigger] item_hash.ensures((&self@[a],), Err::<isize, E>(e)),
    {
        let mut acc: isize = 0;
        let mut i: usize = 0;
        let ghost mut got: Seq<isize> = Seq::empty();
        while i < self.vec.len()
            invariant
                0 <= i <= self@.len(),
                forall|x: &T| #[trigger] item_hash.requires((x,)),
                got.len() == i,
                forall|a: int| 0 <= a < i ==> #[trigger] item_hash.ensures((&self@[a],), Ok::<isize, E>(got[a])),
                acc == fold_hash(got),
                forall|m: spec_fn(T) -> Result<isize, E>| #[trigger] agrees_hash(item_hash, m) ==> item_hashes(self@.take(i as int), m) == Ok::<Seq<isize>, E>(got),
            decreases self@.len() - i,
        {
            let r = item_hash(&self.vec[i]);
            proof {
                assert(self@.take(i + 1).drop_last() =~= self@.take(i as int));
                assert(self@.take(i + 1).last() == self@[i as int]);
            }
            match r {
                Ok(x) => {
                    proof {
                        assert(got.push(x).drop_last() =~= got);
                        got = got.push(x);
                    }
                    acc = combine_hash(acc, x);
                },
                Err(e) => {
                    proof {
                        assert forall|m: spec_fn(T) -> Result<isize, E>| #[trigger] agrees_hash(item_hash, m) implies Err::<isize, E>(e) == list_hash_spec(self@, m) by {
                            lemma_item_hashes_err(self@, m, i as int);
                        }
                    }
                    return Err(e);
                },
            }
            i = i + 1;
        }
        proof {
            assert(self@.take(i as int) =~= self@);
        }
        Ok(acc)
    }

    /// Comparison which relies on hashes: only equality is ever answered true, and then
    /// exactly when both hashes, with the item hashes that `item_hash` gives, agree. Any
    /// other comparison is false without hashing; for equality, an item that cannot be
    /// hashed gives its error.
    pub fn richcmp<E, F: Fn(&T) -> Result<isize, E> + Copy>(&self, other: &Self, op: CompareOp, item_hash: F) -> (r: Result<bool, E>)
        requires
            forall|x: &T| #[trigger] item_hash.requires((x,)),
        ensures
            op != CompareOp::Eq ==> r == Ok::<bool, E>(false),
            forall|m: spec_fn(T) -> Result<isize, E>| #[trigger] agrees_hash(item_hash, m) ==> r == if op != CompareOp::Eq {
                Ok(false)
            } else {
                match (list_hash_spec(self@, m), list_hash_spec(other@, m)) {
                    (Ok(a), Ok(b)) => Ok(rich_compare_spec(op, a, b)),
                    (Err(e), _) => Err(e),
                    (Ok(_), Err(e)) => Err(e),
                }
            },
    {
        match op {
            CompareOp::Eq => {},
            _ => return Ok(false),
        }
        let a = match self.hash(item_hash) {
            Ok(a) => a,
            Err(e) => return Err(e),
        };
        let b = match other.hash(item_hash) {
            Ok(b) => b,
            Err(e) => return Err(e),
        };
        Ok(rich_compare(op, a, b))
    }
}

/// Where the items before `i` hash without error and item `i` gives an error, the list's hash
/// is that error.
pub proof fn lemma_item_hashes_err<T, E>(s: Seq<T>, m: spec_fn(T) -> Result<isize, E>, i: int)
    requires
        0 <= i < s.len(),
        item_hashes(s.take(i), m) is Ok,
        m(s[i]) is Err,
    ensures
        item_hashes(s, m) == Err::<Seq<isize>, E>(m(s[i])->Err_0),
        list_hash_spec(s, m) == Err::<isize, E>(m(s[i])->Err_0),
    decreases s.len(),
{
    if i == s.len() - 1 {
        assert(s.drop_last() =~= s.take(i));
    } else {
        assert(s.drop_last().take(i) =~= s.take(i));
        lemma_item_hashes_err(s.drop_last(), m, i);
    }
}

/// A non-negative index names the item at that position; a negative one names a position
/// past every index that an `isize` can write, so past every item of any list that memory
/// can hold.
pub proof fn lemma_position(idx: isize)
    ensures
        0 <= idx ==> position(idx) == idx as int,
        idx < 0 ==> isize::MAX < position(idx) <= usize::MAX,
        0 <= position(idx) <= usize::MAX,
{
}

/// Reads an index as an unsigned machine word.
fn to_position(idx: isize) -> (p: usize)
    ensures
        p as int == position(idx),
{
    if idx >= 0 {
        idx as usize
    } else {
        usize::MAX - ((-(idx + 1)) as usize)
    }
}

} // verus!
