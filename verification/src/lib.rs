//! A lazy concurrent skiplist based on the design of Heller, Herlihy, Luchangco,
//! and Moir.
//!
//! It uses fine-grained locking with optimistic lock-free traversal, validation
//! after acquiring locks, and logical deletion (marking) of removed nodes.
//!
//! ```ignore
//! let mut skiplist = SkipList::new();
//! skiplist.insert(1);
//! skiplist.insert(2);
//!
//! assert!(skiplist.contains(&1));
//! assert!(skiplist.contains(&2));
//! assert!(!skiplist.contains(&3));
//!
//! skiplist.remove(&1);
//! assert!(!skiplist.contains(&1));
//! ```
//!
//! [`SkipList`] has the operations of one thread. Those of many threads are made in
//! steps that may be interleaved: searches as [`search::Search`], walks as
//! [`walk::Cursor`], insertions and removals as [`operation::Insertion`] and
//! [`operation::Removal`]. These two search for a position and then make a
//! [`concurrent::Change`] there, until one of them is decided.
//!
//! A removal unlinks its node at all levels first and marks it then, under the locks of the
//! node and of its predecessors. So a node that is marked is fully unlinked: in a list in
//! which nothing is under way, no live node points to a marked one
//! ([`SkipList::law_live_nodes`]), and amid changes only one that an insertion holds, to
//! have it point to a new node, may do so
//! ([`concurrent::BusyList::law_live_nodes_amid_changes`]). If the mark came first, the
//! predecessors of every removed node would point to a marked one until it was unlinked.
//! Nobody acts on the node in between, since that takes its lock or those of its
//! predecessors.
pub mod comparison;
pub mod concurrent;
mod flights;
pub mod history;
pub mod laws;
pub mod meaning;
mod node;
pub mod operation;
pub mod order;
pub mod presence;
pub mod rng;
pub mod search;
mod shape;
pub mod skiplist;
pub mod spinlock;
mod towers;
pub mod walk;

pub use node::MAX_HEIGHT;
pub use skiplist::{Ref, SkipList};
