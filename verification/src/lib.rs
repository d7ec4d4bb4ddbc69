//! A red-black tree over `i32` keys: an ordered, self-balancing binary
//! search tree with insertion, deletion (under a selectable replacement
//! policy for two-child nodes), and an independent invariant checker.
//!
//! The tree is represented with exclusively owned child links; rotations
//! and recolorings are expressed as local rebuilds on the way back up the
//! search path, so every repair step of the classical insertion and
//! deletion fixup state machines is a pure structural transformation with
//! a proved contract.

pub mod tree;
pub mod insert;
pub mod delete;
pub mod order;
