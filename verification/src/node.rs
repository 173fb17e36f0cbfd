//! The nodes of a skiplist.
use vstd::prelude::*;

use crate::spinlock::SpinLock;

verus! {

/// The number of levels of a skiplist.
pub const MAX_HEIGHT: usize = 32;

/// A place that has a successor list: the head of the list, or the node with an
/// index in the list's arena.
#[derive(Clone, Copy, Debug, PartialEq, Eq, Structural)]
pub enum Slot {
    Head,
    Node(usize),
}

/// All node data except for the element.
#[derive(Debug)]
pub(crate) struct NodeMeta {
    pub(crate) lock: SpinLock,
    /// Marked as removed from the list. No live node points to a marked node, except while
    /// a new node is being linked behind it.
    pub(crate) marked: bool,
    pub(crate) height: u8,
    /// The successor at each level, from the bottom up.
    pub(crate) pointers: Vec<Option<usize>>,
}

impl NodeMeta {
    /// The node has one pointer for each of its levels.
    pub(crate) open spec fn wf(&self) -> bool {
        &&& 1 <= self.height <= MAX_HEIGHT
        &&& self.pointers@.len() == self.height
    }

    /// Everything but the lock is the same.
    pub(crate) open spec fn same_body(&self, other: &NodeMeta) -> bool {
        &&& self.marked == other.marked
        &&& self.height == other.height
        &&& self.pointers@ == other.pointers@
    }

    /// An unlocked, unmarked node with the given successors.
    pub(crate) fn new(height: usize, pointers: Vec<Option<usize>>) -> (meta: Self)
        requires
            1 <= height <= MAX_HEIGHT,
            pointers@.len() == height,
        ensures
            meta.wf(),
            !meta.lock@,
            !meta.marked,
            meta.height == height,
            meta.pointers == pointers,
    {
        NodeMeta { lock: SpinLock::new(), marked: false, height: height as u8, pointers }
    }

    /// The successor at a level.
    pub(crate) fn next(&self, level: usize) -> (target: Option<usize>)
        requires
            self.wf(),
            level < self.height,
        ensures
            target == self.pointers@[level as int],
    {
        self.pointers[level]
    }

    /// Whether the node has been removed from the list.
    pub(crate) fn is_marked(&self) -> (marked: bool)
        ensures
            marked == self.marked,
    {
        self.marked
    }

    /// Marks the node as removed. Its lock must be held.
    pub(crate) fn mark(&mut self)
        requires
            old(self).lock@,
        ensures
            final(self).marked,
            final(self).lock == old(self).lock,
            final(self).height == old(self).height,
            final(self).pointers == old(self).pointers,
    {
        self.marked = true;
    }

    /// Sets the successor at a level. The node's lock must be held.
    pub(crate) fn link(&mut self, level: usize, target: Option<usize>)
        requires
            old(self).lock@,
            old(self).wf(),
            level < old(self).height,
        ensures
            final(self).pointers@ == old(self).pointers@.update(level as int, target),
            final(self).lock == old(self).lock,
            final(self).marked == old(self).marked,
            final(self).height == old(self).height,
    {
        self.pointers[level] = target;
    }
}

/// A node in the skiplist, with element data.
#[derive(Debug)]
pub(crate) struct Node<T> {
    pub(crate) element: T,
    pub(crate) inner: NodeMeta,
}

/// The slot of the node with a number; that of the head is `-1`.
pub(crate) open spec fn slot_of(entry: int) -> Slot {
    if entry < 0 {
        Slot::Head
    } else {
        Slot::Node(entry as usize)
    }
}

} // verus!
