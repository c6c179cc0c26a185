//! Python's hash of machine integers, and the folding of hashes that the
//! containers use to hash themselves.

use vstd::prelude::*;

verus! {

/// The modulus of Python's numeric hash: `2^61 - 1` where pointers are 64 bits wide,
/// `2^31 - 1` where they are 32 bits wide (`sys.hash_info.modulus`).
pub open spec fn hash_modulus() -> int {
    if usize::BITS == 64 {
        0x1fff_ffff_ffff_ffff
    } else {
        0x7fff_ffff
    }
}

/// Python's `hash(n)` for an integer `n`: the remainder of `|n|` by the modulus, with the
/// sign of `n`; the value `-1` is reserved by CPython and becomes `-2`.
pub open spec fn int_hash_spec(n: int) -> int {
    let r = if n >= 0 {
        n % hash_modulus()
    } else {
        -((-n) % hash_modulus())
    };
    if r == -1 {
        -2
    } else {
        r
    }
}

/// The hash with which the containers combine an accumulated hash and the next one:
/// Python's hash of their wrapping sum.
pub open spec fn combine_spec(acc: isize, item: isize) -> isize {
    int_hash_spec(vstd::wrapping::isize_specs::wrapping_add(acc, item) as int) as isize
}

/// Left fold of `combine_spec` over `items`, starting from `0`.
pub open spec fn fold_hash(items: Seq<isize>) -> isize
    decreases items.len(),
{
    if items.len() == 0 {
        0
    } else {
        combine_spec(fold_hash(items.drop_last()), items.last())
    }
}

/// Python's `hash` of an integer.
pub fn int_hash(n: isize) -> (r: isize)
    ensures
        r as int == int_hash_spec(n as int),
{
    let p: i128 = if usize::BITS == 64 {
        0x1fff_ffff_ffff_ffff
    } else {
        0x7fff_ffff
    };
    let x: i128 = n as i128;
    let r: i128 = if x >= 0 {
        x % p
    } else {
        -((-x) % p)
    };
    let r: i128 = if r == -1 {
        -2
    } else {
        r
    };
    r as isize
}

/// Combines an accumulated hash with the next one.
pub fn combine_hash(acc: isize, item: isize) -> (r: isize)
    ensures
        r == combine_spec(acc, item),
{
    proof {
        lemma_int_hash_range(vstd::wrapping::isize_specs::wrapping_add(acc, item) as int);
    }
    int_hash(acc.wrapping_add(item))
}

/// The hash of an integer has an absolute value below the modulus, and is never `-1`.
pub proof fn lemma_int_hash_range(n: int)
    ensures
        -hash_modulus() < int_hash_spec(n) < hash_modulus(),
        int_hash_spec(n) != -1,
        isize::MIN <= int_hash_spec(n) <= isize::MAX,
{
}

/// Non-negative integers below the modulus hash to themselves.
pub proof fn lemma_int_hash_small(n: int)
    requires
        0 <= n < hash_modulus(),
    ensures
        int_hash_spec(n) == n,
{
}

/// Negative integers of absolute value below the modulus hash to themselves, but `-1`,
/// which CPython reserves and hashes to `-2`.
pub proof fn lemma_int_hash_small_negative(n: int)
    requires
        -hash_modulus() < n < 0,
    ensures
        n != -1 ==> int_hash_spec(n) == n,
        n == -1 ==> int_hash_spec(n) == -2,
{
}

/// An integer and its negation hash to values of opposite sign and equal size, but where
/// the size would be `1`: `hash(-1)` is `-2`.
pub proof fn lemma_int_hash_negation(n: int)
    requires
        n >= 0,
    ensures
        n % hash_modulus() != 1 ==> int_hash_spec(-n) == -int_hash_spec(n),
        n % hash_modulus() == 1 ==> int_hash_spec(n) == 1 && int_hash_spec(-n) == -2,
{
}

/// Non-negative integers that differ by the modulus hash alike.
pub proof fn lemma_int_hash_period(n: int)
    requires
        n >= 0,
    ensures
        int_hash_spec(n + hash_modulus()) == int_hash_spec(n),
        int_hash_spec(-(n + hash_modulus())) == int_hash_spec(-n),
{
    vstd::arithmetic::div_mod::lemma_mod_add_multiples_vanish(n, hash_modulus());
}

} // verus!
