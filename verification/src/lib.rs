//! Hashable containers for Python values, as the Iroha Python bindings use them:
//! a dictionary whose entries are filed by the hash of their key and of their value,
//! and a list, both of which hash and compare by the hashes of their contents.
//!
//! The objects themselves are held as opaque values of a type parameter; what the
//! containers read of them (their Python hashes, key equality, integer values, their
//! rendering) is handed in by the caller.

pub mod order;
pub mod sums;
pub mod pyhash;
pub mod compare;
pub mod dict;
pub mod items;
pub mod laws;
pub mod list;
pub mod render;
