//! An in-memory B+ tree index from `u16` keys to `u16` payloads.
//!
//! Nodes live in an arena keyed by identifier, and the tree refers to them by
//! identifier only. A fresh tree keeps its entries in one bare leaf; the
//! insertion that takes this leaf over its capacity moves the entries into the
//! arena, and from then on every insertion splits the nodes that overflow and
//! every deletion merges or refills the nodes that underflow.
//!
//! The crate is laid out in layers:
//!
//! - `entry`, `node`, `tree`: the data and its storage.
//! - `view`, `steps`: the tree as plain data, and every step that changes it
//!   (placing and removing an entry, split, merge, borrow, growth, collapse)
//!   as a function on that data. `inserted` and `deleted` put the steps
//!   together, and the executable `insert` and `delete` are proved to compute
//!   just these.
//! - `shape`, `order`, `bag`: what it is for the arena to be a tree, for the
//!   tree to be a search tree, and what a tree holds.
//! - `keep_shape`, `keep_order`, `path`, `settle`, `reach`: the proofs that
//!   the steps keep all this.
//! - `laws`: what follows for insertion, deletion and lookup.
//!
//! Entries with the same key may be inserted side by side. What is promised
//! of lookups holds of a search tree, that is, as long as no key was inserted
//! while the tree already found it.

pub mod entry;
pub mod node;
pub mod view;
pub mod shape;
pub mod steps;
pub mod lists;
pub mod keep_shape;
pub mod path;
pub mod bag;
pub mod order;
pub mod keep_order;
pub mod search;
pub mod insert;
pub mod delete;
pub mod settle;
pub mod reach;
pub mod laws;
pub mod tree;

pub use entry::KeyValue;
pub use node::{Node, NodeType};
pub use tree::BPlusTree;
