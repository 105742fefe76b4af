//! Persistent collections: every update returns a new version and leaves
//! the version it was made from as it was. The versions share the nodes
//! that an update did not touch.
//!
//! - `avl`: an ordered map and set, kept as an AVL tree.
//! - `trie`: a prefix tree with a bag of values at each path.
//! - `hashmap`: a hash map and set that keep their entries in a trie, at
//!   the path that the bits of the key's hash spell.
//! - `list`, `deque`: a singly linked list, and a queue made of two lists.
//!
//! `entries`, `order`, `scan` and `symbols` hold the models that the
//! contracts are stated over, with their lemmas.

pub mod avl;
pub mod deque;
pub mod entries;
pub mod hashmap;
pub mod list;
pub mod order;
pub mod scan;
pub mod symbols;
pub mod trie;

use vstd::prelude::*;

verus! {

/// The shared, immutable handle through which every node is held.
pub type RefCounter<T> = std::rc::Rc<T>;

/// The value that a handle gives access to.
pub open spec fn held<T>(handle: RefCounter<T>) -> T {
    *handle
}

} // verus!
