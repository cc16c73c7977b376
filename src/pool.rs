use vstd::prelude::*;

verus! {

/// The null address: no node lives there.
pub const NULL: usize = 0;

/// Whether `a` has the shape of a node address: non-null and 2-aligned, so
/// that its low bit is free to carry a tag.
pub open spec fn is_node_address(a: int) -> bool {
    a >= 2 && a % 2 == 0
}

/// The cell index behind a node address.
pub open spec fn cell_of(a: int) -> int {
    a / 2 - 1
}

/// Distinct node addresses use distinct cells.
pub proof fn lemma_cell_injective(a: int, b: int)
    requires
        is_node_address(a),
        is_node_address(b),
        a != b,
    ensures
        cell_of(a) != cell_of(b),
{
}

/// A node of a linked structure: one payload and two links. Singly linked
/// structures leave `prev` null.
pub struct Node<T> {
    pub data: T,
    pub next: usize,
    pub prev: usize,
}

/// The node storage of a structure: each allocation gets a fresh 2-aligned
/// address, and a freed address is never handed out again, so a stale
/// address can never reach another node.
pub struct NodePool<T> {
    cells: Vec<Option<Node<T>>>,
}

impl<T> NodePool<T> {
    pub closed spec fn view(&self) -> Seq<Option<Node<T>>> {
        self.cells@
    }

    /// Node `a` has been allocated and not yet freed.
    pub open spec fn live(&self, a: int) -> bool {
        &&& is_node_address(a)
        &&& 0 <= cell_of(a) < self@.len()
        &&& self@[cell_of(a)] is Some
    }

    /// The node stored at a live address.
    pub open spec fn node(&self, a: int) -> Node<T> {
        self@[cell_of(a)]->Some_0
    }

    /// Room for one more allocation.
    pub open spec fn has_room(&self) -> bool {
        2 * (self@.len() + 2) <= usize::MAX
    }

    /// The address that the next allocation returns.
    pub open spec fn next_address(&self) -> int {
        2 * (self@.len() + 1) as int
    }

    /// `self` and `other` agree on every cell but the one of address `a`.
    pub open spec fn same_except(&self, other: &Self, a: int) -> bool {
        &&& self@.len() == other@.len()
        &&& forall|i: int| 0 <= i < self@.len() && i != cell_of(a) ==> #[trigger] self@[i] == other@[i]
    }

    pub fn new() -> (r: Self)
        ensures
            r@ == Seq::<Option<Node<T>>>::empty(),
    {
        NodePool { cells: Vec::new() }
    }

    /// Stores a node with payload `data` and the given links at a fresh address.
    pub fn allocate(&mut self, data: T, next: usize, prev: usize) -> (a: usize)
        requires
            old(self).has_room(),
        ensures
            a == old(self).next_address(),
            is_node_address(a as int),
            cell_of(a as int) == old(self)@.len(),
            final(self)@ == old(self)@.push(Some(Node { data, next, prev })),
            final(self).live(a as int),
    {
        let a = 2 * (self.cells.len() + 1);
        self.cells.push(Some(Node { data, next, prev }));
        a
    }

    /// The node at a live address.
    pub fn get(&self, a: usize) -> (r: &Node<T>)
        requires
            self.live(a as int),
        ensures
            *r == self.node(a as int),
    {
        self.cells[a / 2 - 1].as_ref().unwrap()
    }

    fn take_cell(&mut self, a: usize) -> (r: Node<T>)
        requires
            old(self).live(a as int),
        ensures
            r == old(self).node(a as int),
            final(self)@ == old(self)@.update(cell_of(a as int), None),
    {
        let i = a / 2 - 1;
        let mut cell: Option<Node<T>> = None;
        self.cells.set_and_swap(i, &mut cell);
        cell.unwrap()
    }

    /// Points the `next` link of a live node at `to`.
    pub fn set_next(&mut self, a: usize, to: usize)
        requires
            old(self).live(a as int),
        ensures
            final(self)@ == old(self)@.update(cell_of(a as int), Some(Node { data: old(self).node(a as int).data, next: to, prev: old(self).node(a as int).prev })),
    {
        let mut n = self.take_cell(a);
        n.next = to;
        self.cells.set(a / 2 - 1, Some(n));
    }

    /// Points the `prev` link of a live node at `to`.
    pub fn set_prev(&mut self, a: usize, to: usize)
        requires
            old(self).live(a as int),
        ensures
            final(self)@ == old(self)@.update(cell_of(a as int), Some(Node { data: old(self).node(a as int).data, next: old(self).node(a as int).next, prev: to })),
    {
        let mut n = self.take_cell(a);
        n.prev = to;
        self.cells.set(a / 2 - 1, Some(n));
    }

    /// Moves the payload out of a live node, leaving a default one behind.
    pub fn take_data(&mut self, a: usize) -> (r: T)
        where
            T: Default,
        requires
            old(self).live(a as int),
        ensures
            r == old(self).node(a as int).data,
            final(self).same_except(old(self), a as int),
            final(self).live(a as int),
            final(self).node(a as int).next == old(self).node(a as int).next,
            final(self).node(a as int).prev == old(self).node(a as int).prev,
            call_ensures(T::default, (), final(self).node(a as int).data),
    {
        let n = self.take_cell(a);
        let Node { data, next, prev } = n;
        self.cells.set(a / 2 - 1, Some(Node { data: T::default(), next, prev }));
        data
    }

    /// Releases a live node and hands back its payload; its address stays
    /// retired for good.
    pub fn free(&mut self, a: usize) -> (r: T)
        requires
            old(self).live(a as int),
        ensures
            r == old(self).node(a as int).data,
            final(self)@ == old(self)@.update(cell_of(a as int), None),
    {
        self.take_cell(a).data
    }

    /// Whether `a` holds a live node.
    pub fn is_live(&self, a: usize) -> (r: bool)
        ensures
            r == self.live(a as int),
    {
        if a < 2 || a % 2 != 0 {
            return false;
        }
        let i = a / 2 - 1;
        i < self.cells.len() && self.cells[i].is_some()
    }
}

} // verus!
