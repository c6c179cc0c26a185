//! Rich comparison as Python asks for it.

use vstd::prelude::*;

verus! {

/// The comparison that Python's rich comparison asks for.
#[derive(Clone, Copy, Debug, PartialEq, Eq, Structural)]
pub enum CompareOp {
    Lt,
    Le,
    Eq,
    Ne,
    Gt,
    Ge,
}

/// The containers' rich comparison: true only for equality, and then exactly when the
/// two hashes are equal.
pub open spec fn rich_compare_spec(op: CompareOp, self_hash: isize, other_hash: isize) -> bool {
    op == CompareOp::Eq && self_hash == other_hash
}

/// Comparison which relies on hashes.
pub fn rich_compare(op: CompareOp, self_hash: isize, other_hash: isize) -> (r: bool)
    ensures
        r == rich_compare_spec(op, self_hash, other_hash),
        r <==> (op == CompareOp::Eq && self_hash == other_hash),
{
    match op {
        CompareOp::Eq => self_hash == other_hash,
        _ => false,
    }
}

} // verus!
