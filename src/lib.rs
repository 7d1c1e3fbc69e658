//! An in-memory B+ tree with a verified rebalancing protocol.
//!
//! `bp_tree::BPTree` maps keys to values. Index nodes own their children; the
//! leaves live in an arena owned by the tree and form a doubly linked chain in key
//! order. Insertion splits full nodes one level above them, removal merges or
//! rebalances underflowing nodes one level above them, and the root grows or
//! collapses as needed. Every operation is proved to keep the tree well formed and
//! to act on its map view as stated.
use vstd::prelude::*;

pub mod bp_tree;
pub mod key;
pub mod node;

verus! {

} // verus!
