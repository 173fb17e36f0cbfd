//! How the nodes of a skiplist hang together.
//!
//! A shape is what a skiplist is apart from its locks: the nodes that were ever
//! allocated, their pointers and marks, and which of them are in the list.
use vstd::prelude::*;

use crate::node::{Slot, MAX_HEIGHT};
use crate::order::{
    ascending, has_key, heights_with, key_order, lemma_equal_elements, lemma_follows,
    lemma_key_of_element, lemma_order_transfers, lemma_rank, lemma_with_element_ascending, lookup,
    precedes, rank, total_order, with_element, BorrowKey,
};
use crate::skiplist::Position;
use crate::towers::{
    last_before, lemma_last_before, lemma_neighbours, lemma_next_after_insert,
    lemma_next_after_remove, lemma_next_from, next_from,
};

verus! {

/// A node: its element, its successor at each level, and whether it has been
/// marked as removed.
pub(crate) struct Tower<T> {
    pub(crate) element: T,
    pub(crate) pointers: Seq<Option<usize>>,
    pub(crate) marked: bool,
}

/// The nodes of a skiplist, and those that are in the list, in order.
pub(crate) struct Shape<T> {
    pub(crate) head: Seq<Option<usize>>,
    pub(crate) towers: Seq<Tower<T>>,
    pub(crate) chain: Seq<usize>,
}

impl<T: Ord> Shape<T> {
    /// The slot exists.
    pub(crate) open spec fn has_slot(self, slot: Slot) -> bool {
        slot matches Slot::Node(i) ==> i < self.towers.len()
    }

    /// The successors of a slot.
    pub(crate) open spec fn pointers(self, slot: Slot) -> Seq<Option<usize>> {
        match slot {
            Slot::Head => self.head,
            Slot::Node(i) => self.towers[i as int].pointers,
        }
    }

    /// The number of levels of a slot.
    pub(crate) open spec fn height(self, slot: Slot) -> nat {
        self.pointers(slot).len()
    }

    /// The successor of a slot at a level.
    pub(crate) open spec fn ptr(self, slot: Slot, level: int) -> Option<usize> {
        self.pointers(slot)[level]
    }

    /// The node in a slot has been removed from the list.
    pub(crate) open spec fn marked(self, slot: Slot) -> bool {
        slot matches Slot::Node(i) && self.towers[i as int].marked
    }

    /// The slot at a position of the list; the head is at position `-1`.
    pub(crate) open spec fn slot_at(self, p: int) -> Slot {
        if p < 0 {
            Slot::Head
        } else {
            Slot::Node(self.chain[p])
        }
    }

    /// The position of a live slot in the list.
    pub(crate) open spec fn place_of(self, slot: Slot) -> int {
        match slot {
            Slot::Head => -1,
            Slot::Node(i) => self.chain.index_of(i),
        }
    }

    /// A pointer to the node at a position, or null past the end.
    pub(crate) open spec fn target(self, p: int) -> Option<usize> {
        if p < self.chain.len() {
            Some(self.chain[p])
        } else {
            None
        }
    }

    /// The elements of the list, in order.
    pub(crate) open spec fn elements(self) -> Seq<T> {
        Seq::new(self.chain.len(), |p: int| self.towers[self.chain[p] as int].element)
    }

    /// The heights of the list's nodes, in order.
    pub(crate) open spec fn heights(self) -> Seq<nat> {
        Seq::new(self.chain.len(), |p: int| self.towers[self.chain[p] as int].pointers.len())
    }

    /// The node at a position has a pointer at a level.
    pub(crate) open spec fn reaches(self, p: int, level: int) -> bool {
        if p < 0 {
            level < MAX_HEIGHT
        } else {
            level < self.heights()[p]
        }
    }

    /// The head has all levels, and every node at least one.
    pub(crate) open spec fn sized(self) -> bool {
        &&& self.towers.len() <= usize::MAX
        &&& self.head.len() == MAX_HEIGHT
        &&& forall|i: int|
            0 <= i < self.towers.len() ==> 1 <= (#[trigger] self.towers[i]).pointers.len()
                <= MAX_HEIGHT
    }

    /// A slot comes before another one in list order, whether or not their nodes
    /// are still in the list.
    pub(crate) open spec fn comes_before(self, a: Slot, b: Slot) -> bool {
        match (a, b) {
            (Slot::Head, Slot::Node(_)) => true,
            (Slot::Node(i), Slot::Node(j)) => precedes::<T, T>(
                self.towers[i as int].element,
                &self.towers[j as int].element,
            ),
            (_, Slot::Head) => false,
        }
    }

    /// A pointer from a slot at a level would lead forward in list order, to a node
    /// that reaches above the level.
    pub(crate) open spec fn leads_forward(self, s: Slot, l: int, target: Option<usize>) -> bool {
        target matches Some(i) ==> {
            &&& i < self.towers.len()
            &&& l < self.towers[i as int].pointers.len()
            &&& self.comes_before(s, Slot::Node(i))
        }
    }

    /// Every pointer, also that of a removed node, leads forward.
    pub(crate) open spec fn forward(self) -> bool {
        forall|s: Slot, l: int|
            self.has_slot(s) && 0 <= l < self.height(s) ==> self.leads_forward(
                s,
                l,
                #[trigger] self.ptr(s, l),
            )
    }

    /// What it takes to search the list: it holds at every moment, also in the
    /// midst of changes.
    pub(crate) open spec fn traversable(self) -> bool {
        &&& self.sized()
        &&& self.forward()
    }

    /// The chain lists the unmarked nodes, each once.
    pub(crate) open spec fn chain_wf(self) -> bool {
        &&& self.chain.no_duplicates()
        &&& forall|p: int|
            0 <= p < self.chain.len() ==> (#[trigger] self.chain[p]) < self.towers.len()
        &&& forall|i: usize|
            i < self.towers.len() ==> (#[trigger] self.marked(Slot::Node(i))
                <==> !self.chain.contains(i))
    }

    /// Every live node points, at each of its levels, to the next node of the
    /// chain that reaches above the level.
    pub(crate) open spec fn linked(self) -> bool {
        forall|p: int, l: int| -1 <= p < self.chain.len() && 0 <= l && self.reaches(p, l)
            ==> #[trigger] self.ptr(self.slot_at(p), l) == self.target(
            next_from(self.heights(), p + 1, l),
        )
    }

    /// The invariant of a list in which no change is under way.
    pub(crate) open spec fn structure(self) -> bool {
        &&& self.traversable()
        &&& self.chain_wf()
        &&& ascending(self.elements())
        &&& self.linked()
    }

    /// The shape has the nodes of another one, and perhaps more: a node keeps
    /// its index, its element and its height, even when it is removed.
    pub(crate) open spec fn extends(self, other: Self) -> bool {
        &&& self.towers.len() >= other.towers.len()
        &&& forall|i: int|
            0 <= i < other.towers.len() ==> {
                &&& (#[trigger] self.towers[i]).element == other.towers[i].element
                &&& self.towers[i].pointers.len() == other.towers[i].pointers.len()
            }
    }

    /// The shape came from another one by changes: the nodes are kept, and a mark is
    /// never taken back.
    pub(crate) open spec fn grown_from(self, other: Self) -> bool {
        &&& self.extends(other)
        &&& forall|i: int|
            0 <= i < other.towers.len() && other.towers[i].marked ==> (
            #[trigger] self.towers[i]).marked
    }

    pub(crate) proof fn lemma_comes_before_transitive(self, a: Slot, b: Slot, c: Slot)
        requires
            total_order::<T>(),
            a == b || self.comes_before(a, b),
            self.comes_before(b, c),
        ensures
            self.comes_before(a, c),
    {
        if let (Slot::Node(i), Slot::Node(j), Slot::Node(k)) = (a, b, c) {
            if a != b {
                lemma_order_transfers::<T, T>(
                    self.towers[i as int].element,
                    self.towers[j as int].element,
                    &self.towers[k as int].element,
                );
            }
        }
    }

    pub(crate) proof fn lemma_comes_before_irreflexive(self, a: Slot)
        requires
            total_order::<T>(),
        ensures
            !self.comes_before(a, a),
    {
        if let Slot::Node(i) = a {
            lemma_follows(self.towers[i as int].element, self.towers[i as int].element);
        }
    }

    /// The nodes that come after a slot.
    pub(crate) open spec fn after(self, slot: Slot) -> Set<int> {
        Set::new(
            |i: int|
                0 <= i < self.towers.len() && self.comes_before(slot, Slot::Node(i as usize)),
        )
    }

    /// There are fewer nodes after a node than after a slot that comes before it.
    pub(crate) proof fn lemma_after(self, a: Slot, b: Slot)
        requires
            total_order::<T>(),
            self.sized(),
            self.has_slot(b),
            self.comes_before(a, b),
        ensures
            self.after(b).len() < self.after(a).len(),
    {
        let all = vstd::set_lib::set_int_range(0, self.towers.len() as int);
        vstd::set_lib::lemma_int_range(0, self.towers.len() as int);
        assert(self.after(a).subset_of(all));
        vstd::set_lib::lemma_len_subset(self.after(a), all);
        if let Slot::Node(j) = b {
            assert forall|i: int| self.after(b).contains(i) implies self.after(a).remove(
                j as int,
            ).contains(i) by {
                self.lemma_comes_before_transitive(a, b, Slot::Node(i as usize));
                self.lemma_comes_before_irreflexive(b);
            }
            assert(self.after(a).contains(j as int));
            vstd::set_lib::lemma_len_subset(self.after(b), self.after(a).remove(j as int));
        }
    }

    /// There are no more live nodes than nodes.
    pub(crate) proof fn lemma_chain_fits(self)
        requires
            self.chain_wf(),
        ensures
            self.chain.len() <= self.towers.len(),
    {
        let ints = self.chain.map_values(|i: usize| i as int);
        let all = vstd::set_lib::set_int_range(0, self.towers.len() as int);
        vstd::set_lib::lemma_int_range(0, self.towers.len() as int);
        assert(ints.no_duplicates());
        ints.unique_seq_to_set();
        assert(ints.to_set().subset_of(all));
        vstd::set_lib::lemma_len_subset(ints.to_set(), all);
    }
}

/// The single writes of which a change consists.
impl<T: Ord> Shape<T> {
    /// A pointer has been set.
    pub(crate) open spec fn set_ptr(self, slot: Slot, level: int, target: Option<usize>) -> Self {
        match slot {
            Slot::Head => Shape { head: self.head.update(level, target), ..self },
            Slot::Node(i) => {
                let tower = self.towers[i as int];
                let pointers = tower.pointers.update(level, target);
                Shape { towers: self.towers.update(i as int, Tower { pointers, ..tower }), ..self }
            },
        }
    }

    /// A node has been marked as removed.
    pub(crate) open spec fn set_marked(self, node: Option<usize>) -> Self {
        match node {
            None => self,
            Some(i) => Shape {
                towers: self.towers.update(
                    i as int,
                    Tower { marked: true, ..self.towers[i as int] },
                ),
                ..self
            },
        }
    }

    /// A node has been allocated.
    pub(crate) open spec fn push(self, tower: Tower<T>) -> Self {
        Shape { towers: self.towers.push(tower), ..self }
    }

    /// Another sequence of nodes makes up the list.
    pub(crate) open spec fn with_chain(self, chain: Seq<usize>) -> Self {
        Shape { chain, ..self }
    }

    /// The pointers of a slot after [`Self::rewired`].
    pub(crate) open spec fn rewired_pointers(
        self,
        at: &Position,
        from: int,
        to: int,
        targets: Seq<Option<usize>>,
        slot: Slot,
    ) -> Seq<Option<usize>> {
        Seq::new(
            self.height(slot),
            |l: int|
                if from <= l < to && at.preds@[l] == slot {
                    targets[l]
                } else {
                    self.ptr(slot, l)
                },
        )
    }

    /// The predecessors of a position have got new pointers, at the levels of a
    /// range.
    pub(crate) open spec fn rewired(
        self,
        at: &Position,
        from: int,
        to: int,
        targets: Seq<Option<usize>>,
    ) -> Self {
        Shape {
            head: self.rewired_pointers(at, from, to, targets, Slot::Head),
            towers: Seq::new(
                self.towers.len(),
                |i: int|
                    Tower {
                        pointers: self.rewired_pointers(
                            at,
                            from,
                            to,
                            targets,
                            Slot::Node(i as usize),
                        ),
                        ..self.towers[i]
                    },
            ),
            chain: self.chain,
        }
    }

    /// Nothing is rewired at an empty range of levels.
    pub(crate) proof fn lemma_rewired_none(
        self,
        at: &Position,
        to: int,
        targets: Seq<Option<usize>>,
    )
        requires
            self.sized(),
        ensures
            self.rewired(at, to, to, targets) == self,
    {
        let r = self.rewired(at, to, to, targets);
        assert(r.head =~= self.head);
        assert forall|i: int| 0 <= i < self.towers.len() implies #[trigger] r.towers[i]
            == self.towers[i] by {
            assert(r.towers[i].pointers =~= self.towers[i].pointers);
        }
        assert(r.towers =~= self.towers);
    }

    /// Rewiring goes level by level.
    pub(crate) proof fn lemma_rewired_step(
        self,
        at: &Position,
        from: int,
        to: int,
        targets: Seq<Option<usize>>,
    )
        requires
            self.sized(),
            0 <= from < to,
            self.has_slot(at.preds@[from]),
            from < self.height(at.preds@[from]),
        ensures
            self.rewired(at, from, to, targets) == self.rewired(at, from + 1, to, targets).set_ptr(
                at.preds@[from],
                from,
                targets[from],
            ),
    {
        let r = self.rewired(at, from, to, targets);
        let s = self.rewired(at, from + 1, to, targets).set_ptr(
            at.preds@[from],
            from,
            targets[from],
        );
        assert(r.head =~= s.head);
        assert forall|i: int| 0 <= i < self.towers.len() implies #[trigger] r.towers[i]
            == s.towers[i] by {
            assert(r.towers[i].pointers =~= s.towers[i].pointers);
        }
        assert(r.towers =~= s.towers);
    }

    pub(crate) proof fn lemma_set_ptr(self, slot: Slot, level: int, target: Option<usize>)
        requires
            self.traversable(),
            self.has_slot(slot),
            0 <= level < self.height(slot),
            self.leads_forward(slot, level, target),
        ensures
            self.set_ptr(slot, level, target).traversable(),
            self.set_ptr(slot, level, target).grown_from(self),
    {
        let r = self.set_ptr(slot, level, target);
        assert forall|s: Slot, l: int|
            r.has_slot(s) && 0 <= l < r.height(s) implies r.leads_forward(
            s,
            l,
            #[trigger] r.ptr(s, l),
        ) by {
            assert(self.leads_forward(s, l, self.ptr(s, l)));
            assert(r.ptr(s, l) == if s == slot && l == level {
                target
            } else {
                self.ptr(s, l)
            });
        }
    }

    pub(crate) proof fn lemma_set_marked(self, node: Option<usize>)
        requires
            self.traversable(),
            node matches Some(i) ==> i < self.towers.len(),
        ensures
            self.set_marked(node).traversable(),
            self.set_marked(node).grown_from(self),
    {
        let r = self.set_marked(node);
        assert forall|s: Slot, l: int|
            r.has_slot(s) && 0 <= l < r.height(s) implies r.leads_forward(
            s,
            l,
            #[trigger] r.ptr(s, l),
        ) by {
            assert(self.leads_forward(s, l, self.ptr(s, l)));
        }
    }

    /// Whether a list can be searched does not depend on which nodes are in it.
    pub(crate) proof fn lemma_with_chain(self, chain: Seq<usize>)
        requires
            self.traversable(),
        ensures
            self.with_chain(chain).traversable(),
            self.with_chain(chain).grown_from(self),
    {
        let r = self.with_chain(chain);
        assert forall|s: Slot, l: int|
            r.has_slot(s) && 0 <= l < r.height(s) implies r.leads_forward(
            s,
            l,
            #[trigger] r.ptr(s, l),
        ) by {
            assert(self.leads_forward(s, l, self.ptr(s, l)));
        }
    }

    pub(crate) proof fn lemma_push(self, tower: Tower<T>)
        requires
            self.traversable(),
            self.towers.len() < usize::MAX,
            1 <= tower.pointers.len() <= MAX_HEIGHT,
            forall|l: int|
                0 <= l < tower.pointers.len() ==> self.would_precede(
                    tower.element,
                    l,
                    #[trigger] tower.pointers[l],
                ),
        ensures
            self.push(tower).traversable(),
            self.push(tower).grown_from(self),
    {
        let r = self.push(tower);
        assert forall|s: Slot, l: int|
            r.has_slot(s) && 0 <= l < r.height(s) implies r.leads_forward(
            s,
            l,
            #[trigger] r.ptr(s, l),
        ) by {
            if self.has_slot(s) {
                assert(self.leads_forward(s, l, self.ptr(s, l)));
            } else {
                assert(self.would_precede(tower.element, l, tower.pointers[l]));
            }
        }
    }

    /// A pointer at a level of a node with the element would lead forward.
    pub(crate) open spec fn would_precede(self, element: T, l: int, target: Option<usize>) -> bool {
        target matches Some(i) ==> {
            &&& i < self.towers.len()
            &&& l < self.towers[i as int].pointers.len()
            &&& precedes::<T, T>(element, &self.towers[i as int].element)
        }
    }
}

/// Walks along the lowest level.
impl<T: Ord> Shape<T> {
    /// Where a number of steps along the lowest level leads from a slot.
    pub(crate) open spec fn walk(self, s: Slot, n: nat) -> Option<Slot>
        decreases n,
    {
        if n == 0 {
            Some(s)
        } else {
            match self.ptr(s, 0) {
                Some(i) => self.walk(Slot::Node(i), (n - 1) as nat),
                None => None,
            }
        }
    }

    /// A walk from the slot comes to the node.
    pub(crate) open spec fn walks_to(self, s: Slot, e: usize) -> bool {
        exists|n: nat| #[trigger] self.walk(s, n) == Some(Slot::Node(e))
    }

    /// A walk along a pointer comes to the node.
    pub(crate) open spec fn leads_to(self, pointer: Option<usize>, e: usize) -> bool {
        pointer matches Some(i) && self.walks_to(Slot::Node(i), e)
    }

    /// A walk goes forward, from slot to slot.
    pub(crate) proof fn lemma_walk(self, s: Slot, n: nat)
        requires
            total_order::<T>(),
            self.traversable(),
            self.has_slot(s),
        ensures
            self.walk(s, n) matches Some(x) ==> {
                &&& self.has_slot(x)
                &&& n > 0 ==> self.comes_before(s, x)
            },
        decreases n,
    {
        if n > 0 {
            assert(self.leads_forward(s, 0, self.ptr(s, 0)));
            if let Some(i) = self.ptr(s, 0) {
                self.lemma_walk(Slot::Node(i), (n - 1) as nat);
                if let Some(x) = self.walk(Slot::Node(i), (n - 1) as nat) {
                    if n > 1 {
                        self.lemma_comes_before_transitive(s, Slot::Node(i), x);
                    }
                }
            }
        }
    }

    /// In a list in which no change is under way, a walk goes along the chain.
    pub(crate) proof fn lemma_walk_along(self, p: int, n: nat)
        requires
            self.structure(),
            -1 <= p,
            p + n < self.chain.len(),
        ensures
            self.walk(self.slot_at(p), n) == Some(self.slot_at(p + n)),
        decreases n,
    {
        if n > 0 {
            assert(p >= 0 ==> self.towers[self.chain[p] as int].pointers.len() >= 1);
            assert(self.towers[self.chain[p + 1] as int].pointers.len() >= 1);
            assert(self.reaches(p, 0));
            assert(self.ptr(self.slot_at(p), 0) == self.target(
                next_from(self.heights(), p + 1, 0),
            ));
            self.lemma_walk_along(p + 1, (n - 1) as nat);
        }
    }

    /// What a live slot points to is live.
    pub(crate) proof fn lemma_live_ptr(self, s: Slot, l: int)
        requires
            self.structure(),
            self.has_slot(s),
            !self.marked(s),
            0 <= l < self.height(s),
        ensures
            self.ptr(s, l) matches Some(c) ==> c < self.towers.len() && !self.marked(
                Slot::Node(c),
            ),
    {
        let p = self.place_of(s);
        assert(self.slot_at(p) == s);
        assert(self.reaches(p, l));
        let q = next_from(self.heights(), p + 1, l);
        lemma_next_from(self.heights(), p + 1, l);
        assert(self.ptr(self.slot_at(p), l) == self.target(q));
        if q < self.chain.len() {
            assert(self.chain.contains(self.chain[q]));
        }
    }

    /// Of two live nodes, one comes before the other.
    pub(crate) proof fn lemma_live_apart(self, a: usize, b: usize)
        requires
            self.structure(),
            a < self.towers.len(),
            b < self.towers.len(),
            !self.marked(Slot::Node(a)),
            !self.marked(Slot::Node(b)),
        ensures
            a == b || self.comes_before(Slot::Node(a), Slot::Node(b)) || self.comes_before(
                Slot::Node(b),
                Slot::Node(a),
            ),
    {
        let (p, q) = (self.place_of(Slot::Node(a)), self.place_of(Slot::Node(b)));
        assert(self.slot_at(p) == Slot::Node(a) && self.slot_at(q) == Slot::Node(b));
        if p < q {
            assert(precedes::<T, T>(self.elements()[p], &self.elements()[q]));
        } else if q < p {
            assert(precedes::<T, T>(self.elements()[q], &self.elements()[p]));
        }
    }

    /// What a slot leads to that has the key of a node, on the way to that node, is the node.
    pub(crate) proof fn lemma_awaited_match<Q>(self, pred: Slot, l: int, key: &Q) where
        T: BorrowKey<Q>,
        Q: Ord + ?Sized,

        requires
            self.traversable(),
            key_order::<T, Q>(),
            self.has_slot(pred),
            0 <= l < self.height(pred),
            self.awaited(pred, key),
            self.ptr(pred, l) matches Some(c) && has_key(self.towers[c as int].element, key),
        ensures
            forall|good: Set<Slot>, e: usize| #[trigger]
                self.guided(good, e) && has_key(self.towers[e as int].element, key)
                    ==> self.ptr(pred, l) == Some(e),
    {
        let c = self.ptr(pred, l)->0;
        assert(self.leads_forward(pred, l, self.ptr(pred, l)));
        assert forall|good: Set<Slot>, e: usize| #[trigger]
            self.guided(good, e) && has_key(self.towers[e as int].element, key) implies self.ptr(
            pred,
            l,
        ) == Some(e) by {
            let (x, y) = (self.towers[c as int].element, self.towers[e as int].element);
            lemma_key_of_element(y, key);
            assert(has_key(x, key) <==> has_key::<T, T>(x, &y));
            lemma_follows(x, y);
            lemma_follows(y, x);
            assert(good.contains(pred));
            assert(self.keeps_to(good, c, e));
        }
    }

    /// A walk from a live slot comes to every live node behind it.
    pub(crate) proof fn lemma_live_walk(self, s: Slot, e: usize)
        requires
            total_order::<T>(),
            self.structure(),
            self.has_slot(s),
            e < self.towers.len(),
            !self.marked(s),
            !self.marked(Slot::Node(e)),
            self.comes_before(s, Slot::Node(e)),
        ensures
            self.walks_to(s, e),
            self.ptr(s, 0) matches Some(c) && c < self.towers.len() && (c == e
                || self.comes_before(Slot::Node(c), Slot::Node(e))),
    {
        let (p, q) = (self.place_of(s), self.place_of(Slot::Node(e)));
        let end = Slot::Node(e);
        assert(self.slot_at(p) == s);
        assert(self.slot_at(q) == end);
        self.lemma_comes_before_irreflexive(end);
        if q < p {
            assert(precedes::<T, T>(self.elements()[q], &self.elements()[p]));
            self.lemma_comes_before_transitive(end, s, end);
        }
        assert(p < q);
        self.lemma_walk_along(p, (q - p) as nat);
        self.lemma_walk_along(p, 1);
        assert(self.walk(s, 1) == Some(self.slot_at(p + 1)));
        let c = self.ptr(s, 0)->0;
        assert(self.walk(Slot::Node(c), 0) == Some(Slot::Node(c)));
        assert(c == self.chain[p + 1]);
        if p + 1 < q {
            assert(precedes::<T, T>(self.elements()[p + 1], &self.elements()[q]));
        }
    }

    /// From the slots of a set, which has the head, no search for a node goes astray: a walk
    /// from a slot before the node comes to it, and pointers of such a slot lead to slots of
    /// the set, or to the node or past it.
    pub(crate) open spec fn guided(self, good: Set<Slot>, e: usize) -> bool {
        &&& e < self.towers.len()
        &&& good.contains(Slot::Head)
        &&& forall|s: Slot|
            self.has_slot(s) && #[trigger] good.contains(s) && self.comes_before(s, Slot::Node(e))
                ==> {
                &&& self.walks_to(s, e)
                &&& forall|l: int|
                    0 <= l < self.height(s) ==> (#[trigger] self.ptr(s, l) matches Some(c)
                        ==> self.keeps_to(good, c, e))
            }
    }

    /// A node is one of a set if it comes before another node, and is that one unless it comes
    /// after it.
    pub(crate) open spec fn keeps_to(self, good: Set<Slot>, c: usize, e: usize) -> bool {
        let (next, end) = (Slot::Node(c), Slot::Node(e));
        if self.comes_before(next, end) {
            good.contains(next)
        } else {
            c == e || self.comes_before(end, next)
        }
    }

    /// A search for the key that has come to a slot has not missed a node that has the key and
    /// to which it was guided.
    pub(crate) open spec fn awaited<Q>(self, pred: Slot, key: &Q) -> bool where
        T: BorrowKey<Q>,
        Q: Ord + ?Sized,
     {
        forall|good: Set<Slot>, e: usize| #[trigger]
            self.guided(good, e) && has_key(self.towers[e as int].element, key) ==> {
                &&& good.contains(pred)
                &&& self.comes_before(pred, Slot::Node(e))
            }
    }

    pub(crate) proof fn lemma_awaited_step<Q>(self, pred: Slot, l: int, key: &Q) where
        T: BorrowKey<Q>,
        Q: Ord + ?Sized,

        requires
            self.traversable(),
            key_order::<T, Q>(),
            self.has_slot(pred),
            0 <= l < self.height(pred),
            self.awaited(pred, key),
            self.ptr(pred, l) matches Some(c) && precedes(self.towers[c as int].element, key),
        ensures
            self.awaited(Slot::Node(self.ptr(pred, l)->0), key),
    {
        let c = self.ptr(pred, l)->0;
        assert(self.leads_forward(pred, l, self.ptr(pred, l)));
        assert forall|good: Set<Slot>, e: usize| #[trigger]
            self.guided(good, e) && has_key(self.towers[e as int].element, key) implies {
            &&& good.contains(Slot::Node(c))
            &&& self.comes_before(Slot::Node(c), Slot::Node(e))
        } by {
            lemma_key_of_element(self.towers[e as int].element, key);
            assert(precedes::<T, T>(
                self.towers[c as int].element,
                &self.towers[e as int].element,
            ));
        }
    }

    pub(crate) proof fn lemma_awaited_end<Q>(self, pred: Slot, key: &Q) where
        T: BorrowKey<Q>,
        Q: Ord + ?Sized,

        requires
            self.traversable(),
            key_order::<T, Q>(),
            self.has_slot(pred),
            self.awaited(pred, key),
            self.ptr(pred, 0) matches Some(c) ==> {
                &&& !precedes(self.towers[c as int].element, key)
                &&& !has_key(self.towers[c as int].element, key)
            },
        ensures
            forall|good: Set<Slot>, e: usize|
                !(#[trigger] self.guided(good, e) && has_key(self.towers[e as int].element, key)),
    {
        assert forall|good: Set<Slot>, e: usize|
            !(#[trigger] self.guided(good, e) && has_key(self.towers[e as int].element, key)) by {
            if self.guided(good, e) && has_key(self.towers[e as int].element, key) {
                let end = Slot::Node(e);
                lemma_key_of_element(self.towers[e as int].element, key);
                assert(self.walks_to(pred, e));
                let n = choose|n: nat| #[trigger] self.walk(pred, n) == Some(end);
                self.lemma_comes_before_irreflexive(pred);
                assert(n > 0);
                let c = self.ptr(pred, 0)->0;
                assert(self.leads_forward(pred, 0, self.ptr(pred, 0)));
                self.lemma_walk(Slot::Node(c), (n - 1) as nat);
                if c != e {
                    assert(self.comes_before(Slot::Node(c), end));
                    assert(precedes::<T, T>(
                        self.towers[c as int].element,
                        &self.towers[e as int].element,
                    ));
                }
            }
        }
    }

    /// In a list in which no change is under way, all live slots guide to every live node.
    pub(crate) proof fn lemma_guided(self, e: usize) -> (good: Set<Slot>)
        requires
            total_order::<T>(),
            self.structure(),
            e < self.towers.len(),
            !self.marked(Slot::Node(e)),
        ensures
            self.guided(good, e),
    {
        let good = Set::new(|s: Slot| self.has_slot(s) && !self.marked(s));
        assert forall|s: Slot|
            self.has_slot(s) && #[trigger] good.contains(s) && self.comes_before(
                s,
                Slot::Node(e),
            ) implies {
            &&& self.walks_to(s, e)
            &&& forall|l: int|
                0 <= l < self.height(s) ==> (#[trigger] self.ptr(s, l) matches Some(c)
                    ==> self.keeps_to(good, c, e))
        } by {
            self.lemma_live_walk(s, e);
            assert forall|l: int| 0 <= l < self.height(s) implies (#[trigger] self.ptr(
                s,
                l,
            ) matches Some(c) ==> self.keeps_to(good, c, e)) by {
                self.lemma_live_ptr(s, l);
                if let Some(c) = self.ptr(s, l) {
                    self.lemma_live_apart(c, e);
                }
            }
        }
        good
    }

    /// Walks depend on the pointers of the lowest level alone, and not on nodes that
    /// nobody points to.
    pub(crate) proof fn lemma_walk_same(self, before: Self, s: Slot, n: nat)
        requires
            before.traversable(),
            before.has_slot(s),
            forall|x: Slot|
                before.has_slot(x) ==> #[trigger] self.ptr(x, 0) == before.ptr(x, 0),
        ensures
            self.walk(s, n) == before.walk(s, n),
        decreases n,
    {
        if n > 0 {
            assert(before.leads_forward(s, 0, before.ptr(s, 0)));
            assert(self.ptr(s, 0) == before.ptr(s, 0));
            if let Some(i) = before.ptr(s, 0) {
                self.lemma_walk_same(before, Slot::Node(i), (n - 1) as nat);
            }
        }
    }

    /// A walk goes on after a walk.
    pub(crate) proof fn lemma_walk_on(self, s: Slot, n: nat, x: Slot, m: nat)
        requires
            self.walk(s, n) == Some(x),
        ensures
            self.walk(s, n + m) == self.walk(x, m),
        decreases n,
    {
        if n > 0 {
            if let Some(i) = self.ptr(s, 0) {
                self.lemma_walk_on(Slot::Node(i), (n - 1) as nat, x, m);
            }
        }
    }

    /// Setting a pointer does not change walks that do not leave its slot.
    proof fn lemma_walk_before(self, q: Slot, t: Option<usize>, s: Slot, n: nat)
        requires
            self.traversable(),
            self.has_slot(q),
            self.has_slot(s),
            forall|m: nat| m < n ==> #[trigger] self.walk(s, m) != Some(q),
        ensures
            self.set_ptr(q, 0, t).walk(s, n) == self.walk(s, n),
        decreases n,
    {
        let r = self.set_ptr(q, 0, t);
        if n > 0 {
            assert(self.walk(s, 0) != Some(q));
            assert(r.ptr(s, 0) == self.ptr(s, 0));
            assert(self.leads_forward(s, 0, self.ptr(s, 0)));
            if let Some(i) = self.ptr(s, 0) {
                assert forall|m: nat| m < n - 1 implies #[trigger] self.walk(Slot::Node(i), m)
                    != Some(q) by {
                    assert(self.walk(s, m + 1) != Some(q));
                }
                self.lemma_walk_before(q, t, Slot::Node(i), (n - 1) as nat);
            }
        }
    }

    /// A walk to a slot can be cut short where it first comes to that slot, and setting
    /// the pointer of that slot does not change it.
    pub(crate) proof fn lemma_walk_to_slot(self, q: Slot, t: Option<usize>, s: Slot, n: nat)
        requires
            total_order::<T>(),
            self.traversable(),
            self.has_slot(q),
            self.has_slot(s),
            self.walk(s, n) == Some(q),
        ensures
            self.set_ptr(q, 0, t).walk(s, n) == Some(q),
    {
        assert forall|m: nat| m < n implies #[trigger] self.walk(s, m) != Some(q) by {
            if self.walk(s, m) == Some(q) {
                self.lemma_walk_on(s, m, q, (n - m) as nat);
                self.lemma_walk(q, (n - m) as nat);
                self.lemma_comes_before_irreflexive(q);
            }
        }
        self.lemma_walk_before(q, t, s, n);
    }

    /// Walks from behind a slot do not depend on the pointer of that slot.
    pub(crate) proof fn lemma_walk_behind(self, q: Slot, t: Option<usize>, s: Slot, n: nat)
        requires
            total_order::<T>(),
            self.traversable(),
            self.has_slot(q),
            self.has_slot(s),
            self.comes_before(q, s),
        ensures
            self.set_ptr(q, 0, t).walk(s, n) == self.walk(s, n),
    {
        assert forall|m: nat| m < n implies #[trigger] self.walk(s, m) != Some(q) by {
            if self.walk(s, m) == Some(q) {
                self.lemma_walk(s, m);
                if m > 0 {
                    self.lemma_comes_before_transitive(q, s, q);
                }
                self.lemma_comes_before_irreflexive(q);
            }
        }
        self.lemma_walk_before(q, t, s, n);
    }

    /// What a walk comes to, it still comes to after a pointer has been set whose new
    /// target leads there too.
    pub(crate) proof fn lemma_walk_kept(self, q: Slot, t: Option<usize>, s: Slot, e: usize)
        requires
            total_order::<T>(),
            self.traversable(),
            self.has_slot(q),
            self.has_slot(s),
            0 < self.height(q),
            self.leads_forward(q, 0, t),
            self.leads_to(self.ptr(q, 0), e) ==> self.leads_to(t, e),
            self.walks_to(s, e),
        ensures
            self.set_ptr(q, 0, t).walks_to(s, e),
    {
        let r = self.set_ptr(q, 0, t);
        let n = choose|n: nat| #[trigger] self.walk(s, n) == Some(Slot::Node(e));
        if exists|m: nat| m < n && #[trigger] self.walk(s, m) == Some(q) {
            let m = choose|m: nat| m < n && #[trigger] self.walk(s, m) == Some(q);
            self.lemma_walk_on(s, m, q, (n - m) as nat);
            assert(self.walk(q, (n - m) as nat) == Some(Slot::Node(e)));
            let d = self.ptr(q, 0)->0;
            assert(self.walk(Slot::Node(d), (n - m - 1) as nat) == Some(Slot::Node(e)));
            assert(self.leads_to(self.ptr(q, 0), e));
            let i = t->0;
            let k = choose|k: nat| #[trigger] self.walk(Slot::Node(i), k) == Some(Slot::Node(e));
            self.lemma_walk_behind(q, t, Slot::Node(i), k);
            self.lemma_walk_to_slot(q, t, s, m);
            assert(r.ptr(q, 0) == t);
            assert(r.walk(q, k + 1) == r.walk(Slot::Node(i), k));
            r.lemma_walk_on(s, m, q, k + 1);
            assert(r.walk(s, m + (k + 1)) == Some(Slot::Node(e)));
        } else {
            self.lemma_walk_before(q, t, s, n);
            assert(r.walk(s, n) == Some(Slot::Node(e)));
        }
    }

    /// A pointer leads to all the live nodes to which another one leads.
    pub(crate) open spec fn sees_all(
        self,
        settled: Self,
        pointer: Option<usize>,
        other: Option<usize>,
    ) -> bool {
        forall|e: usize|
            e < settled.towers.len() && !settled.marked(Slot::Node(e)) && #[trigger] self.leads_to(
                other,
                e,
            ) ==> self.leads_to(pointer, e)
    }

    /// A pointer still leads to all the live nodes to which another one leads after a
    /// live slot has got a pointer that leads to all of them to which its old one led.
    pub(crate) proof fn lemma_sees_all_kept(
        self,
        settled: Self,
        q: Slot,
        t: Option<usize>,
        pointer: Option<usize>,
        other: Option<usize>,
    )
        requires
            total_order::<T>(),
            self.traversable(),
            self.has_slot(q),
            settled.has_slot(q),
            !settled.marked(q),
            0 < self.height(q),
            self.leads_forward(q, 0, t),
            self.sees_all(settled, t, self.ptr(q, 0)),
            self.sees_all(settled, pointer, other),
            pointer matches Some(i) ==> i < self.towers.len(),
            other matches Some(i) ==> i < self.towers.len(),
            settled.towers.len() == self.towers.len(),
        ensures
            self.set_ptr(q, 0, t).sees_all(settled, pointer, other),
    {
        let r = self.set_ptr(q, 0, t);
        let was = self.ptr(q, 0);
        self.lemma_set_ptr(q, 0, t);
        assert(r.set_ptr(q, 0, was) == self) by {
            let back = r.set_ptr(q, 0, was);
            match q {
                Slot::Head => {
                    assert(back.head =~= self.head);
                },
                Slot::Node(i) => {
                    assert(back.towers[i as int].pointers =~= self.towers[i as int].pointers);
                    assert(back.towers =~= self.towers);
                },
            }
        }
        assert forall|e: usize|
            e < settled.towers.len() && !settled.marked(Slot::Node(e)) && #[trigger] r.leads_to(
                other,
                e,
            ) implies r.leads_to(pointer, e) by {
            let d = Slot::Node(other->0);
            let n = choose|n: nat| #[trigger] r.walk(d, n) == Some(Slot::Node(e));
            if exists|m: nat| m < n && #[trigger] r.walk(d, m) == Some(q) {
                let m = choose|m: nat| m < n && #[trigger] r.walk(d, m) == Some(q);
                r.lemma_walk(d, m);
                r.lemma_walk_on(d, m, q, (n - m) as nat);
                r.lemma_walk_to_slot(q, was, d, m);
                let iq = q->Node_0;
                assert(self.walk(d, m) == Some(Slot::Node(iq)));
                assert(self.leads_to(other, iq));
                let x = Slot::Node(pointer->0);
                let k = choose|k: nat| #[trigger] self.walk(x, k) == Some(Slot::Node(iq));
                self.lemma_walk_to_slot(q, t, x, k);
                r.lemma_walk_on(x, k, q, (n - m) as nat);
                assert(r.walk(x, k + (n - m) as nat) == Some(Slot::Node(e)));
            } else {
                r.lemma_walk_before(q, was, d, n);
                assert(self.walk(d, n) == Some(Slot::Node(e)));
                assert(self.leads_to(other, e));
                self.lemma_walk_kept(q, t, Slot::Node(pointer->0), e);
            }
        }
    }

    /// Which live nodes a pointer leads to does not depend on the upper levels, nor on
    /// nodes that nobody points to.
    pub(crate) proof fn lemma_sees_all_same(
        self,
        settled: Self,
        before: Self,
        settled_before: Self,
        pointer: Option<usize>,
        other: Option<usize>,
    )
        requires
            total_order::<T>(),
            before.traversable(),
            forall|x: Slot|
                before.has_slot(x) ==> #[trigger] self.ptr(x, 0) == before.ptr(x, 0),
            before.sees_all(settled_before, pointer, other),
            pointer matches Some(i) ==> i < before.towers.len(),
            other matches Some(i) ==> i < before.towers.len(),
            settled_before.towers.len() == before.towers.len(),
            forall|x: Slot|
                before.has_slot(x) && #[trigger] settled_before.marked(x) ==> settled.marked(x),
        ensures
            self.sees_all(settled, pointer, other),
    {
        assert forall|e: usize|
            e < settled.towers.len() && !settled.marked(Slot::Node(e)) && #[trigger] self.leads_to(
                other,
                e,
            ) implies self.leads_to(pointer, e) by {
            let d = Slot::Node(other->0);
            let n = choose|n: nat| #[trigger] self.walk(d, n) == Some(Slot::Node(e));
            self.lemma_walk_same(before, d, n);
            before.lemma_walk(d, n);
            assert(before.leads_to(other, e));
            let x = Slot::Node(pointer->0);
            let k = choose|k: nat| #[trigger] before.walk(x, k) == Some(Slot::Node(e));
            self.lemma_walk_same(before, x, k);
            assert(self.walk(x, k) == Some(Slot::Node(e)));
        }
    }
}

/// Positions of keys.
impl<T: Ord> Shape<T> {
    /// From the top level down, the predecessors of a position come in list order.
    pub(crate) open spec fn preds_ascend(self, at: &Position) -> bool {
        forall|l: int, m: int|
            #![trigger at.preds@[l], at.preds@[m]]
            0 <= l < m < MAX_HEIGHT ==> at.preds@[l] == at.preds@[m] || self.comes_before(
                at.preds@[m],
                at.preds@[l],
            )
    }

    /// The elements left of a position sort before a key, and no others do.
    pub(crate) open spec fn splits<Q>(self, key: &Q, k: int) -> bool where
        T: BorrowKey<Q>,
        Q: Ord + ?Sized,
     {
        &&& 0 <= k <= self.chain.len()
        &&& forall|i: int| 0 <= i < k ==> precedes(#[trigger] self.elements()[i], key)
        &&& forall|i: int|
            k <= i < self.chain.len() ==> !precedes(#[trigger] self.elements()[i], key)
        &&& forall|i: int|
            k < i < self.chain.len() ==> !has_key(#[trigger] self.elements()[i], key)
    }

    /// The element at a position has the key.
    pub(crate) open spec fn is_at<Q>(self, key: &Q, k: int) -> bool where
        T: BorrowKey<Q>,
        Q: Ord + ?Sized,
     {
        0 <= k < self.chain.len() && has_key(self.elements()[k], key)
    }

    /// The position is that of the key in the list as it is.
    pub(crate) open spec fn fresh<Q>(self, at: &Position, key: &Q) -> bool where
        T: BorrowKey<Q>,
        Q: Ord + ?Sized,
     {
        let k = rank(self.elements(), key);
        &&& forall|l: int|
            0 <= l < MAX_HEIGHT ==> {
                &&& #[trigger] at.preds@[l] == self.slot_at(last_before(self.heights(), k, l))
                &&& at.succs@[l] == self.target(next_from(self.heights(), k, l))
            }
        &&& at.existing == if self.is_at(key, k) {
            self.target(k)
        } else {
            None
        }
    }

    /// Below a height, the position is position `k` of the list as it is, and the
    /// existing node, if there is one, is the node there.
    pub(crate) open spec fn located(self, at: &Position, height: int, k: int) -> bool {
        &&& 0 <= k <= self.chain.len()
        &&& 1 <= height <= MAX_HEIGHT
        &&& forall|l: int|
            0 <= l < height ==> {
                &&& #[trigger] at.preds@[l] == self.slot_at(last_before(self.heights(), k, l))
                &&& at.succs@[l] == self.target(next_from(self.heights(), k, l))
            }
        &&& at.existing matches Some(e) ==> {
            &&& k < self.chain.len()
            &&& e == self.chain[k]
            &&& height == self.heights()[k]
        }
    }

    /// The position could be that of the key: every predecessor sorts before the
    /// key, no successor does, and the existing node, if there is one, has the key
    /// and is a successor. This speaks of what never changes in a node, so it stays
    /// true of a position while the list is changed.
    pub(crate) open spec fn describes<Q>(self, at: &Position, key: &Q) -> bool where
        T: BorrowKey<Q>,
        Q: Ord + ?Sized,
     {
        &&& forall|l: int|
            0 <= l < MAX_HEIGHT ==> self.describes_level(
                #[trigger] at.preds@[l],
                at.succs@[l],
                key,
                l,
            )
        &&& self.preds_ascend(at)
        &&& match at.existing {
            Some(e) => {
                &&& e < self.towers.len()
                &&& has_key(self.towers[e as int].element, key)
                &&& exists|l: int|
                    0 <= l < self.towers[e as int].pointers.len() && #[trigger] at.succs@[l]
                        == Some(e)
            },
            None => forall|l: int, i: usize|
                0 <= l < MAX_HEIGHT && #[trigger] at.succs@[l] == Some(i) ==> !has_key(
                    #[trigger] self.towers[i as int].element,
                    key,
                ),
        }
    }

    pub(crate) open spec fn describes_level<Q>(
        self,
        pred: Slot,
        succ: Option<usize>,
        key: &Q,
        l: int,
    ) -> bool where T: BorrowKey<Q>, Q: Ord + ?Sized {
        &&& pred matches Slot::Node(i) ==> {
            &&& i < self.towers.len()
            &&& l < self.towers[i as int].pointers.len()
            &&& precedes(self.towers[i as int].element, key)
        }
        &&& succ matches Some(i) ==> {
            &&& i < self.towers.len()
            &&& !precedes(self.towers[i as int].element, key)
        }
    }

    /// At a level, the predecessor is still in the list and still followed by the
    /// successor.
    pub(crate) open spec fn valid_at(self, at: &Position, l: int) -> bool {
        &&& !self.marked(at.preds@[l])
        &&& self.ptr(at.preds@[l], l) == at.succs@[l]
    }

    /// The position is still valid at all levels below a height.
    pub(crate) open spec fn validated(self, at: &Position, height: int) -> bool {
        forall|l: int| 0 <= l < height ==> self.valid_at(at, l)
    }

    /// A position goes on describing a key while the list is changed.
    pub(crate) proof fn lemma_describes_extends<Q>(self, before: Self, at: &Position, key: &Q) where
        T: BorrowKey<Q>,
        Q: Ord + ?Sized,

        requires
            self.extends(before),
            before.describes(at, key),
        ensures
            self.describes(at, key),
    {
        assert forall|l: int| 0 <= l < MAX_HEIGHT implies self.describes_level(
            #[trigger] at.preds@[l],
            at.succs@[l],
            key,
            l,
        ) by {
            assert(before.describes_level(at.preds@[l], at.succs@[l], key, l));
        }
        assert forall|l: int, m: int|
            #![trigger at.preds@[l], at.preds@[m]]
            0 <= l < m < MAX_HEIGHT implies at.preds@[l] == at.preds@[m] || self.comes_before(
            at.preds@[m],
            at.preds@[l],
        ) by {
            assert(before.describes_level(at.preds@[l], at.succs@[l], key, l));
            assert(before.describes_level(at.preds@[m], at.succs@[m], key, m));
        }
        match at.existing {
            Some(e) => {
                let l = choose|l: int|
                    0 <= l < before.towers[e as int].pointers.len() && #[trigger] at.succs@[l]
                        == Some(e);
                assert(at.succs@[l] == Some(e) && l < self.towers[e as int].pointers.len());
            },
            None => {
                assert forall|l: int, i: usize|
                    0 <= l < MAX_HEIGHT && #[trigger] at.succs@[l] == Some(i) implies !has_key(
                    #[trigger] self.towers[i as int].element,
                    key,
                ) by {
                    assert(before.describes_level(at.preds@[l], at.succs@[l], key, l));
                    assert(!has_key(before.towers[i as int].element, key));
                }
            },
        }
    }

    /// A position that describes a key describes the existing element, if there is
    /// one.
    pub(crate) proof fn lemma_describes_existing<Q>(self, at: &Position, key: &Q) where
        T: BorrowKey<Q>,
        Q: Ord + ?Sized,

        requires
            key_order::<T, Q>(),
            self.describes(at, key),
            at.existing is Some,
        ensures
            self.describes::<T>(at, &self.towers[at.existing->0 as int].element),
    {
        let e = at.existing->0;
        let element = self.towers[e as int].element;
        lemma_key_of_element(element, key);
        assert forall|l: int| 0 <= l < MAX_HEIGHT implies self.describes_level::<T>(
            #[trigger] at.preds@[l],
            at.succs@[l],
            &element,
            l,
        ) by {
            assert(self.describes_level(at.preds@[l], at.succs@[l], key, l));
        }
        lemma_follows(element, element);
    }

    /// A position that has just been searched for is valid at all levels.
    pub(crate) proof fn lemma_fresh<Q>(self, at: &Position, key: &Q) where
        T: BorrowKey<Q>,
        Q: Ord + ?Sized,

        requires
            self.structure(),
            key_order::<T, Q>(),
            self.fresh(at, key),
        ensures
            self.describes(at, key),
            self.validated(at, MAX_HEIGHT as int),
            at.existing matches Some(e) ==> !self.marked(Slot::Node(e)),
    {
        let h = self.heights();
        let s = self.elements();
        let k = rank(s, key);
        lemma_rank(s, key);
        assert forall|l: int| 0 <= l < MAX_HEIGHT implies self.describes_level(
            #[trigger] at.preds@[l],
            at.succs@[l],
            key,
            l,
        ) && self.valid_at(at, l) by {
            let p = last_before(h, k, l);
            let q = next_from(h, k, l);
            lemma_last_before(h, k, l);
            lemma_next_from(h, k, l);
            lemma_neighbours(h, p, k, l);
            assert(self.reaches(p, l));
            assert(self.ptr(self.slot_at(p), l) == self.target(next_from(h, p + 1, l)));
            if p >= 0 {
                assert(precedes(s[p], key));
                assert(self.chain.contains(self.chain[p]));
                assert(!self.marked(Slot::Node(self.chain[p])));
            }
            if q < s.len() {
                assert(!precedes(s[q], key));
            }
        }
        assert forall|l: int, m: int|
            #![trigger at.preds@[l], at.preds@[m]]
            0 <= l < m < MAX_HEIGHT implies at.preds@[l] == at.preds@[m] || self.comes_before(
            at.preds@[m],
            at.preds@[l],
        ) by {
            let (p, q) = (last_before(h, k, m), last_before(h, k, l));
            lemma_last_before(h, k, l);
            lemma_last_before(h, k, m);
            if p >= 0 && p != q {
                assert(p < q);
                assert(precedes::<T, T>(s[p], &s[q]));
            }
        }
        match at.existing {
            Some(e) => {
                assert(self.chain.contains(e));
                assert(at.preds@[0] == self.slot_at(last_before(h, k, 0)));
                assert(at.succs@[0] == Some(e));
            },
            None => {
                assert forall|l: int, i: usize|
                    0 <= l < MAX_HEIGHT && #[trigger] at.succs@[l] == Some(i) implies !has_key(
                    #[trigger] self.towers[i as int].element,
                    key,
                ) by {
                    assert(at.preds@[l] == self.slot_at(last_before(h, k, l)));
                    let q = next_from(h, k, l);
                    lemma_next_from(h, k, l);
                    assert(s[q] == self.towers[i as int].element);
                }
            },
        }
    }

    /// A position that describes a key and is valid below the height of the node
    /// to be put there or taken from there is, below that height, the key's
    /// position in the list as it is, however old it may be.
    pub(crate) proof fn lemma_validated<Q>(self, at: &Position, key: &Q, height: int) where
        T: BorrowKey<Q>,
        Q: Ord + ?Sized,

        requires
            self.structure(),
            key_order::<T, Q>(),
            self.describes(at, key),
            1 <= height <= MAX_HEIGHT,
            at.existing matches Some(e) ==> height == self.height(Slot::Node(e)),
            self.validated(at, height),
        ensures
            self.splits(key, rank(self.elements(), key)),
            self.located(at, height, rank(self.elements(), key)),
            at.existing == if self.is_at(key, rank(self.elements(), key)) {
                self.target(rank(self.elements(), key))
            } else {
                None
            },
            at.existing is Some ==> forall|l: int|
                0 <= l < height ==> #[trigger] at.succs@[l] == at.existing,
    {
        let h = self.heights();
        let s = self.elements();
        let k = rank(s, key);
        lemma_rank(s, key);
        assert forall|l: int| 0 <= l < height implies {
            &&& #[trigger] at.preds@[l] == self.slot_at(last_before(h, k, l))
            &&& at.succs@[l] == self.target(next_from(h, k, l))
        } by {
            assert(self.valid_at(at, l));
            assert(self.describes_level(at.preds@[l], at.succs@[l], key, l));
            let p = self.place_of(at.preds@[l]);
            assert(self.slot_at(p) == at.preds@[l]);
            assert(self.reaches(p, l));
            assert(self.ptr(self.slot_at(p), l) == self.target(next_from(h, p + 1, l)));
            let q = next_from(h, p + 1, l);
            lemma_next_from(h, p + 1, l);
            if p >= 0 {
                assert(precedes(s[p], key));
            }
            if q < s.len() {
                assert(!precedes(s[q], key));
            }
            lemma_neighbours(h, p, k, l);
        }
        assert(at.preds@[0] == self.slot_at(last_before(h, k, 0)));
        match at.existing {
            Some(e) => {
                let l = choose|l: int|
                    0 <= l < self.towers[e as int].pointers.len() && #[trigger] at.succs@[l]
                        == Some(e);
                assert(at.preds@[l] == self.slot_at(last_before(h, k, l)));
                let q = next_from(h, k, l);
                lemma_next_from(h, k, l);
                assert(s[q] == self.towers[e as int].element);
                assert(q == k);
                assert forall|m: int| 0 <= m < height implies #[trigger] at.succs@[m] == Some(
                    e,
                ) by {
                    assert(at.preds@[m] == self.slot_at(last_before(h, k, m)));
                    assert(next_from(h, k, m) == k);
                }
            },
            None => {
                if k < s.len() {
                    assert(at.succs@[0] == Some(self.chain[k]));
                    assert(s[k] == self.towers[self.chain[k] as int].element);
                }
            },
        }
    }
}

/// Whole changes.
impl<T: Ord> Shape<T> {
    /// The node that an insertion at a position allocates.
    pub(crate) open spec fn new_tower(self, at: &Position, height: int, element: T) -> Tower<T> {
        Tower {
            element,
            pointers: Seq::new(
                height as nat,
                |l: int|
                    match at.existing {
                        Some(e) => self.ptr(Slot::Node(e), l),
                        None => at.succs@[l],
                    },
            ),
            marked: false,
        }
    }

    /// Where an insertion has the predecessors point: to the new node.
    pub(crate) open spec fn to_new_tower(self, height: int) -> Seq<Option<usize>> {
        Seq::new(height as nat, |l: int| Some(self.towers.len() as usize))
    }

    /// An element has been inserted at a position: a node was allocated, the
    /// predecessors point to it, and the node that it replaces, if there is one,
    /// is marked.
    pub(crate) open spec fn inserted(self, at: &Position, height: int, element: T) -> Self {
        let id = self.towers.len() as usize;
        let k = rank::<T, T>(self.elements(), &element);
        self.push(self.new_tower(at, height, element)).rewired(
            at,
            0,
            height,
            self.to_new_tower(height),
        ).set_marked(at.existing).with_chain(
            if at.existing is Some {
                self.chain.update(k, id)
            } else {
                self.chain.insert(k, id)
            },
        )
    }

    /// The node at position `k` of the list, found as the existing one at a
    /// position, has been removed: the predecessors point to its successors, and
    /// it is marked.
    pub(crate) open spec fn removed(self, at: &Position, k: int) -> Self {
        let gone = self.slot_at(k);
        self.rewired(at, 0, self.height(gone) as int, self.pointers(gone)).set_marked(
            at.existing,
        ).with_chain(self.chain.remove(k))
    }

    /// The pointers that a new node gets at a position lead forward from it.
    pub(crate) proof fn lemma_new_tower(self, at: &Position, height: int, element: T, l: int)
        requires
            self.structure(),
            total_order::<T>(),
            self.describes::<T>(at, &element),
            self.located(at, height, rank::<T, T>(self.elements(), &element)),
            0 <= l < height,
        ensures
            self.would_precede(element, l, self.new_tower(at, height, element).pointers[l]),
    {
        let k = rank::<T, T>(self.elements(), &element);
        match at.existing {
            Some(e) => {
                let s = Slot::Node(e);
                assert(self.leads_forward(s, l, self.ptr(s, l)));
                if let Some(i) = self.ptr(s, l) {
                    lemma_equal_elements::<T, T>(
                        self.towers[e as int].element,
                        element,
                        &self.towers[i as int].element,
                    );
                }
            },
            None => {
                assert(self.describes_level(at.preds@[l], at.succs@[l], &element, l));
                if let Some(i) = at.succs@[l] {
                    lemma_rank::<T, T>(self.elements(), &element);
                    lemma_next_from(self.heights(), k, l);
                    lemma_follows(element, self.towers[i as int].element);
                }
            },
        }
    }

    /// What an insertion leaves as it was, and what it changes.
    pub(crate) proof fn lemma_inserted_parts(self, at: &Position, height: int, element: T)
        requires
            self.sized(),
            self.towers.len() < usize::MAX,
            at.existing matches Some(e) ==> e < self.towers.len(),
            1 <= height <= MAX_HEIGHT,
            forall|l: int| 0 <= l < height ==> self.has_slot(#[trigger] at.preds@[l]),
        ensures
            ({
                let r = self.inserted(at, height, element);
                let id = self.towers.len() as usize;
                &&& r.towers.len() == self.towers.len() + 1
                &&& r.towers[id as int] == self.new_tower(at, height, element)
                &&& r.grown_from(self)
                &&& forall|s: Slot|
                    self.has_slot(s) ==> (#[trigger] r.marked(s) <==> self.marked(s) || (
                    at.existing matches Some(e) && s == Slot::Node(e)))
                &&& forall|s: Slot, l: int|
                    self.has_slot(s) && 0 <= l < self.height(s) ==> #[trigger] r.ptr(s, l) == if l
                        < height && at.preds@[l] == s {
                        Some(id)
                    } else {
                        self.ptr(s, l)
                    }
                &&& forall|s: Slot| self.has_slot(s) ==> #[trigger] r.height(s) == self.height(s)
            }),
    {
        let r = self.inserted(at, height, element);
        let id = self.towers.len() as usize;
        let new = self.new_tower(at, height, element);
        assert(r.towers[id as int].pointers =~= new.pointers);
    }

    proof fn lemma_inserted_chain(self, at: &Position, height: int, element: T, k: int)
        requires
            self.structure(),
            self.towers.len() < usize::MAX,
            k == rank::<T, T>(self.elements(), &element),
            self.located(at, height, k),
            forall|l: int| 0 <= l < height ==> self.has_slot(#[trigger] at.preds@[l]),
        ensures
            self.inserted(at, height, element).chain_wf(),
    {
        let r = self.inserted(at, height, element);
        let id = self.towers.len() as usize;
        let old_chain = self.chain;
        let chain = r.chain;
        let shift: int = if at.existing is Some {
            0
        } else {
            1
        };
        self.lemma_inserted_parts(at, height, element);
        assert(forall|p: int| 0 <= p < k ==> chain[p] == old_chain[p]);
        assert(chain[k] == id);
        assert(forall|p: int| k < p < chain.len() ==> chain[p] == old_chain[p - shift]);
        assert forall|i: usize| i < r.towers.len() implies (#[trigger] r.marked(Slot::Node(i))
            <==> !chain.contains(i)) by {
            if i == id {
                assert(chain.contains(i));
            } else {
                assert(self.has_slot(Slot::Node(i)));
                assert(self.marked(Slot::Node(i)) <==> !old_chain.contains(i));
                if chain.contains(i) {
                    let p = chain.index_of(i);
                    assert(chain[p] == i);
                    let b = if p < k {
                        p
                    } else {
                        p - shift
                    };
                    assert(old_chain[b] == i);
                    assert(at.existing is Some ==> b != k);
                }
                if old_chain.contains(i) {
                    let b = old_chain.index_of(i);
                    assert(old_chain[b] == i);
                    if b < k {
                        assert(chain[b] == i);
                    } else if !(at.existing is Some && b == k) {
                        assert(chain[b + shift] == i);
                    }
                }
            }
        }
    }

    proof fn lemma_inserted_link(
        self,
        at: &Position,
        height: int,
        element: T,
        k: int,
        p: int,
        l: int,
    )
        requires
            self.structure(),
            self.towers.len() < usize::MAX,
            k == rank::<T, T>(self.elements(), &element),
            self.located(at, height, k),
            forall|m: int| 0 <= m < height ==> self.has_slot(#[trigger] at.preds@[m]),
            self.inserted(at, height, element).heights() == if at.existing is Some {
                self.heights()
            } else {
                self.heights().insert(k, height as nat)
            },
            -1 <= p < self.inserted(at, height, element).chain.len(),
            0 <= l,
            self.inserted(at, height, element).reaches(p, l),
        ensures
            ({
                let r = self.inserted(at, height, element);
                r.ptr(r.slot_at(p), l) == r.target(next_from(r.heights(), p + 1, l))
            }),
    {
        let r = self.inserted(at, height, element);
        let id = self.towers.len() as usize;
        let h = self.heights();
        let replaced = at.existing is Some;
        self.lemma_inserted_parts(at, height, element);
        if !replaced {
            lemma_next_after_insert(h, k, height as nat, p, l);
        }
        if p == k {
            assert(r.slot_at(p) == Slot::Node(id));
            if replaced {
                assert(self.reaches(k, l));
                assert(self.ptr(self.slot_at(k), l) == self.target(next_from(h, k + 1, l)));
                lemma_next_from(h, k + 1, l);
            } else {
                assert(at.preds@[l] == self.slot_at(last_before(h, k, l)));
                lemma_next_from(h, k, l);
            }
        } else {
            let b = if p < k || replaced {
                p
            } else {
                p - 1
            };
            let slot = self.slot_at(b);
            assert(r.slot_at(p) == slot);
            assert(self.has_slot(slot));
            assert(self.reaches(b, l));
            assert(self.ptr(slot, l) == self.target(next_from(h, b + 1, l)));
            lemma_next_from(h, b + 1, l);
            if l < height {
                assert(at.preds@[l] == self.slot_at(last_before(h, k, l)));
                lemma_last_before(h, k, l);
            }
            if p < k {
                lemma_neighbours(h, p, k, l);
            }
        }
    }

    proof fn lemma_inserted_contents(self, at: &Position, height: int, element: T, k: int)
        requires
            self.structure(),
            total_order::<T>(),
            self.towers.len() < usize::MAX,
            k == rank::<T, T>(self.elements(), &element),
            self.splits::<T>(&element, k),
            self.located(at, height, k),
            at.existing is Some <==> self.is_at::<T>(&element, k),
            forall|l: int| 0 <= l < height ==> self.has_slot(#[trigger] at.preds@[l]),
        ensures
            ({
                let r = self.inserted(at, height, element);
                &&& r.elements() == with_element(self.elements(), element)
                &&& r.heights() == heights_with(
                    self.elements(),
                    self.heights(),
                    element,
                    height as nat,
                )
            }),
    {
        let r = self.inserted(at, height, element);
        let id = self.towers.len() as usize;
        self.lemma_inserted_parts(at, height, element);
        let replaced = at.existing is Some;
        assert(lookup::<T, T>(self.elements(), &element) is Some <==> replaced);
        let contents = with_element(self.elements(), element);
        let tops = heights_with(self.elements(), self.heights(), element, height as nat);
        assert forall|p: int| 0 <= p < r.chain.len() implies #[trigger] r.elements()[p]
            == contents[p] && r.heights()[p] == tops[p] by {
            if p < k {
                assert(r.chain[p] == self.chain[p]);
            } else if p > k {
                assert(r.chain[p] == self.chain[if replaced {
                    p
                } else {
                    p - 1
                }]);
            } else {
                assert(r.chain[p] == id);
            }
        }
        assert(r.elements() =~= contents);
        assert(r.heights() =~= tops);
    }

    proof fn lemma_inserted_forward(self, at: &Position, height: int, element: T)
        requires
            self.structure(),
            total_order::<T>(),
            self.towers.len() < usize::MAX,
            self.describes::<T>(at, &element),
            self.located(at, height, rank::<T, T>(self.elements(), &element)),
        ensures
            self.inserted(at, height, element).traversable(),
    {
        let r = self.inserted(at, height, element);
        let id = self.towers.len() as usize;
        assert forall|l: int| 0 <= l < height implies self.has_slot(#[trigger] at.preds@[l]) by {
            assert(self.describes_level(at.preds@[l], at.succs@[l], &element, l));
        }
        self.lemma_inserted_parts(at, height, element);
        assert forall|s: Slot, l: int|
            r.has_slot(s) && 0 <= l < r.height(s) implies r.leads_forward(
            s,
            l,
            #[trigger] r.ptr(s, l),
        ) by {
            if self.has_slot(s) {
                assert(r.height(s) == self.height(s));
                assert(self.leads_forward(s, l, self.ptr(s, l)));
                if l < height {
                    assert(self.describes_level(at.preds@[l], at.succs@[l], &element, l));
                }
            } else {
                assert(s == Slot::Node(id));
                self.lemma_new_tower(at, height, element, l);
            }
        }
        assert forall|i: int| 0 <= i < r.towers.len() implies 1 <= (
        #[trigger] r.towers[i]).pointers.len() <= MAX_HEIGHT by {
            if i != id {
                assert(r.towers[i].pointers.len() == self.towers[i].pointers.len());
            }
        }
    }

    /// An insertion at a valid position keeps the invariant and puts the element
    /// into the contents.
    pub(crate) proof fn lemma_inserted(self, at: &Position, height: int, element: T)
        requires
            self.structure(),
            total_order::<T>(),
            self.towers.len() < usize::MAX,
            self.describes::<T>(at, &element),
            1 <= height <= MAX_HEIGHT,
            at.existing matches Some(e) ==> height == self.height(Slot::Node(e)),
            self.validated(at, height),
        ensures
            ({
                let r = self.inserted(at, height, element);
                &&& r.structure()
                &&& r.grown_from(self)
                &&& r.elements() == with_element(self.elements(), element)
                &&& r.heights() == heights_with(
                    self.elements(),
                    self.heights(),
                    element,
                    height as nat,
                )
                &&& lookup::<T, T>(self.elements(), &element) is Some <==> at.existing is Some
            }),
    {
        let r = self.inserted(at, height, element);
        let k = rank::<T, T>(self.elements(), &element);
        self.lemma_validated::<T>(at, &element, height);
        assert forall|l: int| 0 <= l < height implies self.has_slot(#[trigger] at.preds@[l]) by {
            assert(self.describes_level(at.preds@[l], at.succs@[l], &element, l));
        }
        self.lemma_inserted_parts(at, height, element);
        self.lemma_inserted_forward(at, height, element);
        self.lemma_inserted_chain(at, height, element, k);
        self.lemma_inserted_contents(at, height, element, k);
        lemma_with_element_ascending(self.elements(), element);
        assert forall|p: int, l: int|
            -1 <= p < r.chain.len() && 0 <= l && r.reaches(p, l) implies #[trigger] r.ptr(
            r.slot_at(p),
            l,
        ) == r.target(next_from(r.heights(), p + 1, l)) by {
            self.lemma_inserted_link(at, height, element, k, p, l);
        }
    }

    /// What a removal leaves as it was, and what it changes.
    pub(crate) proof fn lemma_removed_parts(self, at: &Position, k: int)
        requires
            self.sized(),
            0 <= k < self.chain.len(),
            self.chain[k] < self.towers.len(),
            at.existing == Some(self.chain[k]),
        ensures
            ({
                let r = self.removed(at, k);
                let gone = self.slot_at(k);
                &&& r.towers.len() == self.towers.len()
                &&& r.grown_from(self)
                &&& forall|s: Slot|
                    self.has_slot(s) ==> (#[trigger] r.marked(s) <==> self.marked(s) || s == gone)
                &&& forall|s: Slot, l: int|
                    self.has_slot(s) && 0 <= l < self.height(s) ==> #[trigger] r.ptr(s, l) == if l
                        < self.height(gone) && at.preds@[l] == s {
                        self.ptr(gone, l)
                    } else {
                        self.ptr(s, l)
                    }
                &&& forall|s: Slot| self.has_slot(s) ==> #[trigger] r.height(s) == self.height(s)
            }),
    {
    }

    proof fn lemma_removed_chain(self, at: &Position, k: int)
        requires
            self.structure(),
            0 <= k < self.chain.len(),
            at.existing == Some(self.chain[k]),
        ensures
            self.removed(at, k).chain_wf(),
    {
        let r = self.removed(at, k);
        let old_chain = self.chain;
        let chain = r.chain;
        self.lemma_removed_parts(at, k);
        assert(forall|p: int| 0 <= p < k ==> chain[p] == old_chain[p]);
        assert(forall|p: int| k <= p < chain.len() ==> chain[p] == old_chain[p + 1]);
        assert forall|i: usize| i < r.towers.len() implies (#[trigger] r.marked(Slot::Node(i))
            <==> !chain.contains(i)) by {
            assert(self.has_slot(Slot::Node(i)));
            assert(self.marked(Slot::Node(i)) <==> !old_chain.contains(i));
            if chain.contains(i) {
                let p = chain.index_of(i);
                let b = if p < k {
                    p
                } else {
                    p + 1
                };
                assert(old_chain[b] == i);
            }
            if old_chain.contains(i) {
                let b = old_chain.index_of(i);
                assert(old_chain[b] == i);
                if b < k {
                    assert(chain[b] == i);
                } else if b > k {
                    assert(chain[b - 1] == i);
                }
            }
        }
    }

    proof fn lemma_removed_link(self, at: &Position, k: int, p: int, l: int)
        requires
            self.structure(),
            0 <= k < self.chain.len(),
            at.existing == Some(self.chain[k]),
            self.located(at, self.heights()[k] as int, k),
            self.removed(at, k).heights() == self.heights().remove(k),
            -1 <= p < self.chain.len() - 1,
            0 <= l,
            self.removed(at, k).reaches(p, l),
        ensures
            ({
                let r = self.removed(at, k);
                r.ptr(r.slot_at(p), l) == r.target(next_from(r.heights(), p + 1, l))
            }),
    {
        let r = self.removed(at, k);
        let h = self.heights();
        self.lemma_removed_parts(at, k);
        let b = if p < k {
            p
        } else {
            p + 1
        };
        let slot = self.slot_at(b);
        assert(r.slot_at(p) == slot);
        assert(self.has_slot(slot));
        assert(self.reaches(b, l));
        assert(self.ptr(slot, l) == self.target(next_from(h, b + 1, l)));
        lemma_next_from(h, b + 1, l);
        lemma_next_after_remove(h, k, p, l);
        if l < h[k] {
            assert(at.preds@[l] == self.slot_at(last_before(h, k, l)));
            lemma_last_before(h, k, l);
            assert(self.reaches(k, l));
            assert(self.ptr(self.slot_at(k), l) == self.target(next_from(h, k + 1, l)));
            lemma_next_from(h, k + 1, l);
        }
        if p < k {
            lemma_neighbours(h, p, k, l);
        }
    }

    /// The pointers that the predecessors get from a removed node lead forward.
    pub(crate) proof fn lemma_bypass(self, at: &Position, k: int, l: int)
        requires
            self.structure(),
            total_order::<T>(),
            0 <= k < self.chain.len(),
            self.located(at, self.heights()[k] as int, k),
            0 <= l < self.heights()[k],
        ensures
            self.has_slot(at.preds@[l]),
            l < self.height(at.preds@[l]),
            self.comes_before(at.preds@[l], self.slot_at(k)),
            self.leads_forward(at.preds@[l], l, self.ptr(self.slot_at(k), l)),
    {
        let h = self.heights();
        let p = last_before(h, k, l);
        let s = self.elements();
        assert(at.preds@[l] == self.slot_at(p));
        lemma_last_before(h, k, l);
        if p >= 0 {
            assert(precedes::<T, T>(s[p], &s[k]));
        }
        assert(self.leads_forward(self.slot_at(k), l, self.ptr(self.slot_at(k), l)));
        if let Some(j) = self.ptr(self.slot_at(k), l) {
            self.lemma_comes_before_transitive(at.preds@[l], self.slot_at(k), Slot::Node(j));
        }
    }

    /// At every level of a node, its predecessor there comes before it.
    pub(crate) proof fn lemma_bypass_all(self, at: &Position, k: int)
        requires
            self.structure(),
            total_order::<T>(),
            0 <= k < self.chain.len(),
            self.located(at, self.heights()[k] as int, k),
        ensures
            forall|l: int|
                0 <= l < self.heights()[k] ==> {
                    &&& self.comes_before(#[trigger] at.preds@[l], self.slot_at(k))
                    &&& at.preds@[l] != self.slot_at(k)
                },
    {
        assert forall|l: int| 0 <= l < self.heights()[k] implies {
            &&& self.comes_before(#[trigger] at.preds@[l], self.slot_at(k))
            &&& at.preds@[l] != self.slot_at(k)
        } by {
            self.lemma_bypass(at, k, l);
            self.lemma_comes_before_irreflexive(self.slot_at(k));
        }
    }

    /// The removal of a node at a valid position keeps the invariant and takes the
    /// element out of the contents.
    pub(crate) proof fn lemma_removed(self, at: &Position, k: int)
        requires
            self.structure(),
            total_order::<T>(),
            0 <= k < self.chain.len(),
            at.existing == Some(self.chain[k]),
            self.located(at, self.heights()[k] as int, k),
        ensures
            ({
                let r = self.removed(at, k);
                &&& r.structure()
                &&& r.grown_from(self)
                &&& r.elements() == self.elements().remove(k)
                &&& r.heights() == self.heights().remove(k)
            }),
    {
        let r = self.removed(at, k);
        let h = self.heights();
        self.lemma_removed_parts(at, k);
        assert forall|p: int| 0 <= p < r.chain.len() implies #[trigger] r.elements()[p]
            == self.elements().remove(k)[p] && r.heights()[p] == h.remove(k)[p] by {
            let b = if p < k {
                p
            } else {
                p + 1
            };
            assert(r.chain[p] == self.chain[b]);
        }
        assert(r.elements() =~= self.elements().remove(k));
        assert(r.heights() =~= h.remove(k));
        self.lemma_removed_chain(at, k);
        assert forall|p: int, l: int|
            -1 <= p < r.chain.len() && 0 <= l && r.reaches(p, l) implies #[trigger] r.ptr(
            r.slot_at(p),
            l,
        ) == r.target(next_from(r.heights(), p + 1, l)) by {
            self.lemma_removed_link(at, k, p, l);
        }
        assert forall|s: Slot, l: int|
            r.has_slot(s) && 0 <= l < r.height(s) implies r.leads_forward(
            s,
            l,
            #[trigger] r.ptr(s, l),
        ) by {
            assert(r.height(s) == self.height(s));
            assert(self.leads_forward(s, l, self.ptr(s, l)));
            if l < h[k] {
                self.lemma_bypass(at, k, l);
            }
        }
        assert(ascending(r.elements())) by {
            assert forall|i: int, j: int|
                #![trigger r.elements()[i], r.elements()[j]]
                0 <= i < j < r.elements().len() implies precedes::<T, T>(
                r.elements()[i],
                &r.elements()[j],
            ) by {
                assert(precedes::<T, T>(
                    self.elements()[if i < k {
                        i
                    } else {
                        i + 1
                    }],
                    &self.elements()[if j < k {
                        j
                    } else {
                        j + 1
                    }],
                ));
            }
        }
    }

    /// Nothing has been removed but what has the key, and removed nodes point where they
    /// did.
    pub(crate) open spec fn spares<Q>(self, before: Self, key: &Q) -> bool where
        T: BorrowKey<Q>,
        Q: Ord + ?Sized,
     {
        &&& forall|s: Slot|
            before.has_slot(s) && !before.marked(s) && #[trigger] self.marked(s) ==> has_key(
                before.towers[s->0 as int].element,
                key,
            )
        &&& forall|s: Slot|
            before.has_slot(s) && self.marked(s) ==> #[trigger] self.ptr(s, 0) == before.ptr(s, 0)
    }

    /// A walk that comes to a node still comes to it, if the node is still in the list.
    pub(crate) open spec fn keeps_view(self, before: Self) -> bool {
        forall|s: Slot, e: usize|
            before.has_slot(s) && e < before.towers.len() && !self.marked(Slot::Node(e))
                && #[trigger] before.walks_to(s, e) ==> self.walks_to(s, e)
    }

    /// A whole change sets one pointer of the lowest level, as far as walks are concerned.
    proof fn lemma_view_of_change(self, before: Self, q: Slot, t: Option<usize>)
        requires
            total_order::<T>(),
            before.traversable(),
            before.has_slot(q),
            0 < before.height(q),
            before.leads_forward(q, 0, t),
            before.sees_all(self, t, before.ptr(q, 0)),
            self.towers.len() == before.towers.len(),
            forall|x: Slot|
                before.has_slot(x) ==> #[trigger] self.ptr(x, 0) == if x == q {
                    t
                } else {
                    before.ptr(x, 0)
                },
        ensures
            self.keeps_view(before),
    {
        let middle = before.set_ptr(q, 0, t);
        before.lemma_set_ptr(q, 0, t);
        assert forall|s: Slot, e: usize|
            before.has_slot(s) && e < before.towers.len() && !self.marked(Slot::Node(e))
                && #[trigger] before.walks_to(s, e) implies self.walks_to(s, e) by {
            before.lemma_walk_kept(q, t, s, e);
            let n = choose|n: nat| #[trigger] middle.walk(s, n) == Some(Slot::Node(e));
            assert forall|x: Slot| middle.has_slot(x) implies #[trigger] self.ptr(x, 0)
                == middle.ptr(x, 0) by {
                assert(before.sized());
                if let Slot::Node(i) = x {
                    assert(before.towers[i as int].pointers.len() >= 1);
                }
            }
            self.lemma_walk_same(middle, s, n);
            assert(self.walk(s, n) == Some(Slot::Node(e)));
        }
    }

    /// Walks along the lowest level miss nothing by an insertion.
    pub(crate) proof fn lemma_inserted_view(self, at: &Position, height: int, element: T)
        requires
            self.structure(),
            total_order::<T>(),
            self.towers.len() < usize::MAX,
            self.describes::<T>(at, &element),
            1 <= height <= MAX_HEIGHT,
            at.existing matches Some(e) ==> height == self.height(Slot::Node(e)),
            self.validated(at, height),
        ensures
            self.inserted(at, height, element).keeps_view(self),
    {
        let r = self.inserted(at, height, element);
        let id = self.towers.len() as usize;
        let new = Slot::Node(id);
        let q = at.preds@[0];
        let tower = self.new_tower(at, height, element);
        let pushed = self.push(tower);
        let k = rank::<T, T>(self.elements(), &element);
        self.lemma_validated::<T>(at, &element, height);
        assert forall|l: int| 0 <= l < height implies self.has_slot(#[trigger] at.preds@[l]) by {
            assert(self.describes_level(at.preds@[l], at.succs@[l], &element, l));
        }
        self.lemma_inserted_parts(at, height, element);
        assert forall|l: int| 0 <= l < tower.pointers.len() implies self.would_precede(
            tower.element,
            l,
            #[trigger] tower.pointers[l],
        ) by {
            self.lemma_new_tower(at, height, element, l);
        }
        self.lemma_push(tower);
        assert(self.describes_level(q, at.succs@[0], &element, 0));
        assert(self.valid_at(at, 0));
        assert(q == self.slot_at(last_before(self.heights(), k, 0)));
        assert(pushed.ptr(q, 0) == self.ptr(q, 0));
        assert(pushed.sees_all(r, Some(id), at.succs@[0])) by {
            assert forall|e: usize|
                e < r.towers.len() && !r.marked(Slot::Node(e)) && #[trigger] pushed.leads_to(
                    at.succs@[0],
                    e,
                ) implies pushed.leads_to(Some(id), e) by {
                let first = Slot::Node(at.succs@[0]->0);
                let n = choose|n: nat| #[trigger] pushed.walk(first, n) == Some(Slot::Node(e));
                assert(pushed.ptr(new, 0) == tower.pointers[0]);
                if let Some(x) = at.existing {
                    assert(at.succs@[0] == Some(x));
                    assert(r.marked(Slot::Node(x)));
                    assert(n > 0);
                    assert(pushed.ptr(first, 0) == self.ptr(first, 0));
                    assert(pushed.walk(new, n) == Some(Slot::Node(e)));
                } else {
                    assert(pushed.walk(new, n + 1) == pushed.walk(first, n));
                }
            }
        }
        assert forall|x: Slot| pushed.has_slot(x) implies #[trigger] r.ptr(x, 0) == if x == q {
            Some(id)
        } else {
            pushed.ptr(x, 0)
        } by {
            if x == new {
                assert(r.towers[id as int] == tower);
            } else {
                assert(self.has_slot(x));
                assert(0 < self.height(x)) by {
                    if let Slot::Node(i) = x {
                        assert(self.towers[i as int].pointers.len() >= 1);
                    }
                }
                assert(pushed.ptr(x, 0) == self.ptr(x, 0));
            }
        }
        r.lemma_view_of_change(pushed, q, Some(id));
        assert forall|s: Slot, e: usize|
            self.has_slot(s) && e < self.towers.len() && !r.marked(Slot::Node(e))
                && #[trigger] self.walks_to(s, e) implies r.walks_to(s, e) by {
            let n = choose|n: nat| #[trigger] self.walk(s, n) == Some(Slot::Node(e));
            assert forall|x: Slot| self.has_slot(x) implies #[trigger] pushed.ptr(x, 0)
                == self.ptr(x, 0) by {}
            pushed.lemma_walk_same(self, s, n);
            assert(pushed.walks_to(s, e));
        }
    }

    /// Walks along the lowest level miss nothing by a removal.
    pub(crate) proof fn lemma_removed_view(self, at: &Position, k: int)
        requires
            self.structure(),
            total_order::<T>(),
            0 <= k < self.chain.len(),
            at.existing == Some(self.chain[k]),
            self.located(at, self.heights()[k] as int, k),
        ensures
            self.removed(at, k).keeps_view(self),
    {
        let r = self.removed(at, k);
        let gone = self.slot_at(k);
        let q = at.preds@[0];
        self.lemma_removed_parts(at, k);
        self.lemma_bypass(at, k, 0);
        let t = self.ptr(gone, 0);
        let h = self.heights();
        assert(q == self.slot_at(last_before(h, k, 0)));
        assert(at.succs@[0] == Some(self.chain[k]));
        let p = last_before(h, k, 0);
        lemma_last_before(h, k, 0);
        lemma_neighbours(h, p, k, 0);
        assert(self.reaches(p, 0));
        assert(self.ptr(self.slot_at(p), 0) == self.target(next_from(h, p + 1, 0)));
        assert(self.ptr(q, 0) == Some(self.chain[k]));
        assert(self.sees_all(r, t, self.ptr(q, 0))) by {
            assert forall|e: usize|
                e < r.towers.len() && !r.marked(Slot::Node(e)) && #[trigger] self.leads_to(
                    self.ptr(q, 0),
                    e,
                ) implies self.leads_to(t, e) by {
                let n = choose|n: nat| #[trigger] self.walk(gone, n) == Some(Slot::Node(e));
                assert(r.marked(gone));
                assert(n > 0);
                assert(self.walk(Slot::Node(t->0), (n - 1) as nat) == Some(Slot::Node(e)));
            }
        }
        assert forall|x: Slot| self.has_slot(x) implies #[trigger] r.ptr(x, 0) == if x == q {
            t
        } else {
            self.ptr(x, 0)
        } by {
            assert(0 < self.height(x)) by {
                if let Slot::Node(i) = x {
                    assert(self.towers[i as int].pointers.len() >= 1);
                }
            }
        }
        r.lemma_view_of_change(self, q, t);
    }
}

} // verus!
