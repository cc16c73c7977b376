use vstd::prelude::*;
use crate::hp::{HazardPointerArray, HazardPointerGuard, ProtectedPointer, bit_set, has_free_slots, holds_address, lemma_bit_set_or, lemma_clear_bit, lemma_restore_bit, lemma_retire_untouched, lemma_retired_or_freed, lemma_set_bits_commute, lemma_take_slot};
use crate::model::{after_dequeue, dequeued, enqueued};
use crate::pool::{Node, NodePool, NULL, cell_of, lemma_cell_injective};

verus! {

/// A node of the optimistic queue: payload, `next` towards the head and
/// `prev` towards the tail.
pub type QueueNode<T> = Node<T>;

/// Ladan-Mozes & Shavit optimistic FIFO queue, built on a doubly linked list
/// whose `next` links run from the tail towards the head and whose `prev`
/// links run from the head towards the tail. An enqueue publishes the new
/// node with one swing of the tail; the `prev` link of the old tail is set
/// afterwards, so a `prev` link may be missing until `fix` repairs it.
pub struct OMSQueue<T> {
    head: usize,
    tail: usize,
    nodes: NodePool<T>,
    chain: Ghost<Seq<usize>>,
}

impl<T: Default> OMSQueue<T> {
    /// Node addresses from the sentinel (head) to the tail.
    pub closed spec fn chain(&self) -> Seq<usize> {
        self.chain@
    }

    pub closed spec fn nodes(&self) -> NodePool<T> {
        self.nodes
    }

    pub closed spec fn wf(&self) -> bool {
        let c = self.chain@;
        &&& c.len() >= 1
        &&& c[0] == self.head
        &&& c.last() == self.tail
        &&& c.no_duplicates()
        &&& forall|i: int| 0 <= i < c.len() ==> self.nodes.live(#[trigger] c[i] as int)
        &&& forall|i: int| 0 <= i < c.len() - 1 ==> #[trigger] self.nodes.node(c[i + 1] as int).next == c[i]
        &&& forall|i: int| 0 <= i < c.len() - 1 ==> {
            let p = #[trigger] self.nodes.node(c[i] as int).prev;
            p == c[i + 1] || p == NULL
        }
        &&& self.nodes.node(self.tail as int).prev == NULL
    }

    /// Every `prev` link along the chain is in place.
    pub closed spec fn prev_complete(&self) -> bool {
        let c = self.chain@;
        forall|i: int| 0 <= i < c.len() - 1 ==> #[trigger] self.nodes.node(c[i] as int).prev == c[i + 1]
    }

    /// `self` differs from `other` at most in `prev` links of its chain.
    pub closed spec fn same_but_prev(&self, other: &Self) -> bool {
        let c = self.chain@;
        &&& c == other.chain@
        &&& self.head == other.head
        &&& self.tail == other.tail
        &&& self.nodes@.len() == other.nodes@.len()
        &&& forall|k: int| 0 <= k < self.nodes@.len() ==> (#[trigger] self.nodes@[k] is Some <==> other.nodes@[k] is Some)
        &&& forall|k: int| 0 <= k < self.nodes@.len() && self.nodes@[k] is Some ==> {
            &&& #[trigger] self.nodes@[k]->Some_0.data == other.nodes@[k]->Some_0.data
            &&& self.nodes@[k]->Some_0.next == other.nodes@[k]->Some_0.next
        }
    }

    /// The queued values, front first.
    pub closed spec fn view(&self) -> Seq<T> {
        Seq::new((self.chain@.len() - 1) as nat, |i: int| self.nodes.node(self.chain@[i + 1] as int).data)
    }

    /// No node the queue links to has been freed, and none of them waits on
    /// the retire list of a guard that works on it: a scan can never free a
    /// linked node, so every node the operations read is alive.
    pub proof fn law_linked_nodes_alive(&self, guard: &HazardPointerGuard, array: &HazardPointerArray)
        requires
            self.wf(),
        ensures
            forall|i: int| 0 <= i < self.chain().len() ==> self.nodes().live(#[trigger] self.chain()[i] as int),
            self.accepts(guard, array) ==> forall|k: int| 0 <= k < guard.retired().len() ==> !self.chain().contains(#[trigger] guard.retired()[k]),
    {
    }

    /// There is room for one more node.
    pub open spec fn can_grow(&self) -> bool {
        self.nodes().has_room()
    }

    /// `guard` may work on this queue: it leases its band in `array`, its
    /// free slots are null, and its retire list holds only unlinked nodes of
    /// this queue.
    /// A guard serves one structure, whose nodes its retire list holds.
    pub open spec fn accepts(&self, guard: &HazardPointerGuard, array: &HazardPointerArray) -> bool {
        &&& guard.wf()
        &&& array.wf()
        &&& guard.leases(*array)
        &&& guard.slots_match(*array)
        &&& guard.retired_in(&self.nodes())
        &&& forall|k: int| 0 <= k < guard.retired().len() ==> !self.chain().contains(#[trigger] guard.retired()[k])
    }

    /// An empty queue: head and tail both on a default-valued sentinel.
    pub fn new() -> (r: Self)
        ensures
            r.wf(),
            r@ == Seq::<T>::empty(),
            r.nodes()@.len() == 1,
    {
        let mut nodes = NodePool::new();
        let dummy = nodes.allocate(T::default(), NULL, NULL);
        let r = OMSQueue { head: dummy, tail: dummy, nodes, chain: Ghost(Seq::empty().push(dummy)) };
        assert(r@ =~= Seq::<T>::empty());
        r
    }

    /// Appends `value`: the new node's `next` is set to the protected tail,
    /// the tail swung to the new node, and then the old tail's `prev` link
    /// set to the new node.
    pub fn enqueue(&mut self, value: T, guard: &mut HazardPointerGuard, array: &mut HazardPointerArray) -> (r: bool)
        requires
            old(self).wf(),
            old(self).can_grow(),
            old(self).accepts(&*old(guard), &*old(array)),
            has_free_slots(old(guard).available(), 1),
        ensures
            r,
            final(self).wf(),
            final(self).nodes()@.len() == old(self).nodes()@.len() + 1,
            final(self)@ == enqueued(old(self)@, value),
            final(self).accepts(&*final(guard), &*final(array)),
            final(guard).band() == old(guard).band(),
            final(guard).retired() == old(guard).retired(),
            final(guard).available() == old(guard).available(),
            final(array).slots() == old(array).slots(),
            final(array).registry() == old(array).registry(),
            final(self).chain() == old(self).chain().push(final(self).chain().last()),
            final(self).nodes().node(final(self).chain().last() as int).next == old(self).chain().last(),
            final(self).nodes().node(old(self).chain().last() as int).prev == final(self).chain().last(),
            old(self).prev_complete() ==> final(self).prev_complete(),
    {
        let ghost x = guard.available();
        proof { lemma_take_slot(x, 0); }
        let ghost c = self.chain@;
        let ghost pool0 = self.nodes@;
        let ghost slots0 = array.slots();
        let new_node = self.nodes.allocate(value, NULL, NULL);
        let tail = self.tail;
        let protected_tail = match guard.protect(array, tail) {
            Ok(p) => p,
            Err(_) => return false,
        };
        self.nodes.set_next(new_node, tail);
        self.tail = new_node;
        self.nodes.set_prev(tail, new_node);
        guard.unprotect(array, &protected_tail);
        self.chain = Ghost(c.push(new_node));
        proof {
            assert(array.slots() =~= slots0) by {
                assert(slots0[guard.start() + protected_tail.index()] == 0);
            }
            assert forall|i: int| 0 <= i < c.len() implies cell_of(#[trigger] c[i] as int) < pool0.len() by {
                assert(old(self).nodes.live(c[i] as int));
            }
            assert(!c.contains(new_node)) by {
                if c.contains(new_node) {
                    let k = choose|k: int| 0 <= k < c.len() && c[k] == new_node;
                    assert(cell_of(c[k] as int) < pool0.len());
                }
            }
            let c2 = self.chain@;
            let n = c.len();
            // Cells of the old chain other than the old tail keep their nodes.
            assert forall|i: int| 0 <= i < n - 1 implies self.nodes@[cell_of(#[trigger] c[i] as int)] == pool0[cell_of(c[i] as int)] by {
                assert(c[i] != c[n - 1]);
                assert(old(self).nodes.live(c[i] as int));
                lemma_cell_injective(c[i] as int, tail as int);
            }
            assert(self.nodes.node(tail as int).prev == new_node);
            assert(self.nodes.node(tail as int).next == old(self).nodes.node(tail as int).next);
            assert(self.nodes.node(tail as int).data == old(self).nodes.node(tail as int).data);
            assert(self.nodes.node(new_node as int).next == tail);
            assert(self.nodes.node(new_node as int).prev == NULL);
            assert(self.nodes.node(new_node as int).data == value);
            assert forall|i: int| 0 <= i < c2.len() implies self.nodes.live(#[trigger] c2[i] as int) by {
                if i < n {
                    assert(c2[i] == c[i]);
                    assert(old(self).nodes.live(c[i] as int));
                    if i < n - 1 {
                        assert(self.nodes@[cell_of(c[i] as int)] == pool0[cell_of(c[i] as int)]);
                    }
                }
            }
            assert forall|i: int| 0 <= i < c2.len() - 1 implies #[trigger] self.nodes.node(c2[i + 1] as int).next == c2[i] by {
                if i < n - 1 {
                    assert(c2[i] == c[i] && c2[i + 1] == c[i + 1]);
                    assert(old(self).nodes.node(c[i + 1] as int).next == c[i]);
                    if i + 1 < n - 1 {
                        assert(self.nodes@[cell_of(c[i + 1] as int)] == pool0[cell_of(c[i + 1] as int)]);
                    }
                } else {
                    assert(c2[i] == tail && c2[i + 1] == new_node);
                }
            }
            assert forall|i: int| 0 <= i < c2.len() - 1 implies {
                let p = #[trigger] self.nodes.node(c2[i] as int).prev;
                p == c2[i + 1] || p == NULL
            } by {
                if i < n - 1 {
                    assert(c2[i] == c[i] && c2[i + 1] == c[i + 1]);
                    assert(self.nodes@[cell_of(c[i] as int)] == pool0[cell_of(c[i] as int)]);
                    let p = old(self).nodes.node(c[i] as int).prev;
                    assert(p == c[i + 1] || p == NULL);
                } else {
                    assert(c2[i] == tail && c2[i + 1] == new_node);
                }
            }
            assert(self@ =~= old(self)@.push(value)) by {
                assert forall|i: int| 0 <= i < self@.len() - 1 implies self@[i] == old(self)@[i] by {
                    assert(c2[i + 1] == c[i + 1]);
                    if i + 1 < n - 1 {
                        assert(self.nodes@[cell_of(c[i + 1] as int)] == pool0[cell_of(c[i + 1] as int)]);
                    }
                }
            }
            let rl = guard.retired();
            assert forall|k: int| 0 <= k < rl.len() implies self.nodes.live(#[trigger] rl[k] as int) by {
                assert(old(self).nodes.live(rl[k] as int));
                if rl[k] != tail {
                    lemma_cell_injective(rl[k] as int, tail as int);
                }
            }
            assert forall|k: int| 0 <= k < rl.len() implies !self.chain().contains(#[trigger] rl[k]) by {
                assert(old(self).nodes.live(rl[k] as int));
                assert(cell_of(rl[k] as int) < pool0.len());
                if self.chain().contains(rl[k]) {
                    let m = choose|m: int| 0 <= m < c2.len() && c2[m] == rl[k];
                    if m < n {
                        assert(c[m] == rl[k]);
                    }
                }
            }
        }
        proof {
            let c2 = self.chain@;
            let n = c.len();
            if old(self).prev_complete() {
                assert forall|i: int| 0 <= i < c2.len() - 1 implies #[trigger] self.nodes.node(c2[i] as int).prev == c2[i + 1] by {
                    if i < n - 1 {
                        assert(c2[i] == c[i] && c2[i + 1] == c[i + 1]);
                        assert(c[i] != c[n - 1]);
                        assert(old(self).nodes.live(c[i] as int));
                        lemma_cell_injective(c[i] as int, tail as int);
                        assert(self.nodes@[cell_of(c[i] as int)] == pool0[cell_of(c[i] as int)]);
                        assert(old(self).nodes.node(c[i] as int).prev == c[i + 1]);
                    } else {
                        assert(c2[i] == tail && c2[i + 1] == new_node);
                    }
                }
            }
        }
        true
    }

    /// Repairs missing `prev` links: walks from the tail towards the head
    /// along `next`. Each node is protected before it is read: its `next`
    /// link is read under protection, the protection then moves to the node
    /// that link leads to, and that node's `prev` link, if missing, is set to
    /// the node it was reached from. Gives up both protections at the end.
    fn fix(&mut self, head: ProtectedPointer, tail: ProtectedPointer, guard: &mut HazardPointerGuard, array: &mut HazardPointerArray)
        requires
            old(self).wf(),
            head.ptr() == old(self).chain()[0],
            tail.ptr() == old(self).chain().last(),
            head.index() < 16,
            tail.index() < 16,
            head.index() != tail.index(),
            old(guard).wf(),
            old(array).wf(),
            old(guard).leases(*old(array)),
            old(guard).slots_match(*old(array)),
            !bit_set(old(guard).available(), head.index() as u64),
            !bit_set(old(guard).available(), tail.index() as u64),
            old(array).slots()[old(guard).start() + head.index()] == head.ptr(),
            old(array).slots()[old(guard).start() + tail.index()] == tail.ptr(),
        ensures
            final(self).wf(),
            final(self).same_but_prev(&*old(self)),
            final(self).prev_complete(),
            final(guard).wf(),
            final(array).wf(),
            final(guard).leases(*final(array)),
            final(guard).slots_match(*final(array)),
            final(guard).band() == old(guard).band(),
            final(guard).retired() == old(guard).retired(),
            final(guard).available() == (old(guard).available() | (1u64 << tail.index() as u64)) | (1u64 << head.index() as u64),
            final(array).registry() == old(array).registry(),
            final(array).slots() == old(array).slots().update(old(guard).start() + tail.index(), 0usize).update(old(guard).start() + head.index(), 0usize),
    {
        let ghost c = self.chain@;
        let ghost n = c.len();
        let ghost start = guard.start();
        let ghost a0 = guard.available();
        let ghost hi = head.index();
        let ghost ti = tail.index();
        let ghost base = array.slots().update(start + ti, 0usize);
        let mut current = tail;
        let ghost mut j: int = n - 1;
        proof {
            assert(start + 16 <= 64);
            assert(array.slots() =~= base.update(start + ti, c[j]));
        }
        while current.as_ptr() != head.as_ptr()
            invariant
                self.wf(),
                self.same_but_prev(&*old(self)),
                c == self.chain@,
                n == c.len(),
                head.ptr() == c[0],
                head.index() == hi,
                hi < 16,
                0 <= j < n,
                current.ptr() == c[j],
                current.index() < 16,
                current.index() != hi,
                forall|i: int| j <= i < n - 1 ==> #[trigger] self.nodes.node(c[i] as int).prev == c[i + 1],
                !bit_set(guard.available(), hi as u64),
                !bit_set(guard.available(), current.index() as u64),
                guard.available() | (1u64 << current.index() as u64) == a0 | (1u64 << ti as u64),
                guard.wf(),
                array.wf(),
                guard.leases(*array),
                guard.slots_match(*array),
                guard.start() == start,
                guard.band() == old(guard).band(),
                guard.retired() == old(guard).retired(),
                array.registry() == old(array).registry(),
                start + 16 <= 64,
                base.len() == 64,
                base == old(array).slots().update(start + ti, 0usize),
                base[start + hi] == head.ptr(),
                base[start + current.index()] == 0,
                array.slots() == base.update(start + current.index(), c[j]),
            decreases j,
        {
            proof {
                assert(j > 0) by {
                    if j == 0 {
                        assert(current.ptr() == head.ptr());
                    }
                }
                let k = j - 1;
                assert(c[k + 1] == c[j]);
                assert(self.nodes.node(c[k + 1] as int).next == c[k]);
            }
            let next = self.nodes.get(current.as_ptr()).next;
            let ghost pre = *self;
            let ghost ci = current.index() as u64;
            let ghost avail0 = guard.available();
            guard.unprotect(array, &current);
            let ghost avail1 = guard.available();
            proof {
                assert(array.slots() =~= base);
                lemma_bit_set_or(avail0, ci, ci);
                lemma_bit_set_or(avail0, ci, hi as u64);
                assert(avail1 != 0) by {
                    assert(avail1 == 0 ==> (avail1 >> ci) & 1u64 == 0u64) by (bit_vector);
                }
                reveal_with_fuel(has_free_slots, 2);
                lemma_take_slot(avail1, 0);
                let li = crate::hp::lowest_set_bit(avail1);
                assert(array.slots()[guard.start() + li as int] == 0);
            }
            let protected_next = match guard.protect(array, next) {
                Ok(p) => p,
                Err(_) => return,
            };
            proof {
                let ni = protected_next.index() as u64;
                lemma_clear_bit(avail1, ni, hi as u64);
                lemma_clear_bit(avail1, ni, ni);
                assert(ni != hi as u64);
                assert(base[start + ni] == 0);
                assert(array.slots() == base.update(start + ni, c[j - 1]));
            }
            if self.nodes.get(next).prev == NULL {
                self.nodes.set_prev(next, current.as_ptr());
            }
            proof {
                assert(c[j - 1] != c[n - 1]);
                assert(self.nodes.node(next as int).prev == c[j]) by {
                    let p = pre.nodes.node(c[j - 1] as int).prev;
                    assert(p == c[j] || p == NULL);
                }
                assert forall|i: int| 0 <= i < n && i != j - 1 implies self.nodes@[cell_of(#[trigger] c[i] as int)] == pre.nodes@[cell_of(c[i] as int)] by {
                    assert(c[i] != c[j - 1]);
                    assert(pre.nodes.live(c[i] as int));
                    lemma_cell_injective(c[i] as int, next as int);
                }
                assert forall|i: int| 0 <= i < n implies self.nodes.live(#[trigger] c[i] as int) by {
                    assert(pre.nodes.live(c[i] as int));
                }
                assert forall|i: int| 0 <= i < n - 1 implies #[trigger] self.nodes.node(c[i + 1] as int).next == c[i] by {
                    assert(pre.nodes.node(c[i + 1] as int).next == c[i]);
                    assert(pre.nodes.live(c[i + 1] as int));
                }
                assert forall|i: int| 0 <= i < n - 1 implies {
                    let p = #[trigger] self.nodes.node(c[i] as int).prev;
                    p == c[i + 1] || p == NULL
                } by {
                    let p = pre.nodes.node(c[i] as int).prev;
                    assert(p == c[i + 1] || p == NULL);
                }
                assert forall|i: int| j - 1 <= i < n - 1 implies #[trigger] self.nodes.node(c[i] as int).prev == c[i + 1] by {
                    if i >= j {
                        assert(pre.nodes.node(c[i] as int).prev == c[i + 1]);
                    }
                }
                assert(self.nodes.node(self.tail as int).prev == NULL) by {
                    assert(pre.nodes.node(c[n - 1] as int).prev == NULL);
                }
                assert forall|k: int| 0 <= k < self.nodes@.len() && self.nodes@[k] is Some implies {
                    &&& #[trigger] self.nodes@[k]->Some_0.data == old(self).nodes@[k]->Some_0.data
                    &&& self.nodes@[k]->Some_0.next == old(self).nodes@[k]->Some_0.next
                } by {
                    assert(pre.nodes@[k] is Some);
                }
                lemma_restore_bit(avail1, protected_next.index() as u64);
                j = j - 1;
            }
            current = protected_next;
        }
        proof {
            assert(j == 0) by {
                if j != 0 {
                    assert(c[j] != c[0]);
                }
            }
        }
        let ghost avail_end = guard.available();
        let ghost ce = current.index() as u64;
        guard.unprotect(array, &head);
        guard.unprotect(array, &current);
        proof {
            lemma_set_bits_commute(avail_end, hi as u64, ce);
            assert(array.slots() =~= old(array).slots().update(start + ti, 0usize).update(start + hi, 0usize));
        }
    }

    /// Takes the front value. Head and tail are protected; equal, they mean
    /// an empty queue. Otherwise the head's `prev` link leads to the front
    /// node, which is protected, becomes the new head (the new sentinel) and
    /// gives up its value, while the old head is retired through the guard.
    /// A missing `prev` link is first repaired with `fix`, then the
    /// dequeue starts over.
    pub fn dequeue(&mut self, guard: &mut HazardPointerGuard, array: &mut HazardPointerArray) -> (r: Option<T>)
        requires
            old(self).wf(),
            old(self).accepts(&*old(guard), &*old(array)),
            has_free_slots(old(guard).available(), 2),
            old(self)@.len() > 0 ==> has_free_slots(old(guard).available(), 3),
        ensures
            r == dequeued(old(self)@),
            final(self).wf(),
            final(self).nodes()@.len() == old(self).nodes()@.len(),
            final(self)@ == after_dequeue(old(self)@),
            final(self).accepts(&*final(guard), &*final(array)),
            final(guard).band() == old(guard).band(),
            final(guard).available() == old(guard).available(),
            final(array).slots() == old(array).slots(),
            final(array).registry() == old(array).registry(),
            old(self)@.len() > 0 ==> {
                let h = old(self).chain()[0];
                final(guard).retired().contains(h) || !final(self).nodes().live(h as int)
            },
            old(self)@.len() > 0 ==> final(self).chain()[0] == old(self).chain()[1],
            old(self)@.len() > 0 ==> call_ensures(T::default, (), final(self).nodes().node(final(self).chain()[0] as int).data),
    {
        let mut tries: u8 = 2;
        loop
            invariant
                self.wf(),
                self@ == old(self)@,
                self.nodes@.len() == old(self).nodes@.len(),
                self.chain@ == old(self).chain@,
                self.accepts(&*guard, &*array),
                guard.band() == old(guard).band(),
                guard.available() == old(guard).available(),
                has_free_slots(old(guard).available(), 2),
                old(self)@.len() > 0 ==> has_free_slots(old(guard).available(), 3),
                array.slots() == old(array).slots(),
                array.registry() == old(array).registry(),
                1 <= tries <= 2,
                tries == 1 ==> self.prev_complete(),
            decreases tries,
        {
            let ghost x = guard.available();
            proof {
                lemma_take_slot(x, 1);
                lemma_take_slot(x & !(1u64 << crate::hp::lowest_set_bit(x)), 0);
                if self@.len() > 0 {
                    lemma_take_slot(x, 2);
                    lemma_take_slot(x & !(1u64 << crate::hp::lowest_set_bit(x)), 1);
                }
            }
            let ghost c = self.chain@;
            let ghost n = c.len();
            let ghost pre = *self;
            let ghost slots0 = array.slots();
            let ghost retired0 = guard.retired();
            let head = self.head;
            let protected_head = match guard.protect(array, head) {
                Ok(p) => p,
                Err(_) => return None,
            };
            let tail = self.tail;
            let protected_tail = match guard.protect(array, tail) {
                Ok(p) => p,
                Err(_) => return None,
            };
            let ghost i0 = protected_head.index() as u64;
            let ghost i1 = protected_tail.index() as u64;
            let ghost a1 = x & !(1u64 << i0);
            let ghost a2 = a1 & !(1u64 << i1);
            proof {
                assert(bit_set(x, i1));
                assert(!bit_set(a2, i0)) by {
                    lemma_clear_bit(a1, i1, i0);
                }
                assert(!bit_set(a2, i1)) by {
                    lemma_clear_bit(a1, i1, i1);
                }
                lemma_restore_bit(a1, i1);
                lemma_restore_bit(x, i0);
                assert(slots0[guard.start() + i0] == 0);
                assert(slots0[guard.start() + i1] == 0);
            }
            if head == tail {
                guard.unprotect(array, &protected_tail);
                guard.unprotect(array, &protected_head);
                proof {
                    assert(array.slots() =~= slots0);
                    assert(n == 1) by {
                        if n > 1 {
                            assert(c[0] != c[n - 1]);
                        }
                    }
                }
                return None;
            }
            proof {
                assert(n > 1);
                assert(self.nodes.live(c[1] as int));
                let p = self.nodes.node(c[0] as int).prev;
                assert(p == c[1] || p == NULL);
            }
            let head_prev = self.nodes.get(head).prev;
            if head_prev != NULL {
                let protected_prev = match guard.protect(array, head_prev) {
                    Ok(p) => p,
                    Err(_) => return None,
                };
                let ghost i2 = protected_prev.index() as u64;
                proof {
                    assert(bit_set(a2, i2));
                    assert(bit_set(x, i2)) by {
                        lemma_clear_bit(a1, i1, i2);
                        lemma_clear_bit(x, i0, i2);
                    }
                    assert(slots0[guard.start() + i2] == 0);
                    lemma_restore_bit(a2, i2);
                    lemma_set_bits_commute(a2 & !(1u64 << i2), i0, i1);
                    lemma_set_bits_commute(a2 & !(1u64 << i2), i0, i2);
                    lemma_set_bits_commute((a2 & !(1u64 << i2)) | (1u64 << i1), i0, i2);
                    lemma_set_bits_commute(a2 & !(1u64 << i2), i1, i2);
                }
                self.head = head_prev;
                let data = self.nodes.take_data(head_prev);
                let ghost pool2 = self.nodes@;
                proof {
                    assert(head_prev == c[1]);
                    assert forall|k: int| 0 <= k < retired0.len() implies self.nodes.live(#[trigger] retired0[k] as int) by {
                        assert(pre.nodes.live(retired0[k] as int));
                        if retired0[k] == head_prev {
                            assert(c.contains(head_prev));
                        }
                        lemma_cell_injective(retired0[k] as int, head_prev as int);
                    }
                    assert(head != head_prev) by {
                        assert(c[0] != c[1]);
                    }
                    lemma_cell_injective(head as int, head_prev as int);
                }
                guard.retire_node(array, &mut self.nodes, protected_head);
                let ghost slots_r = array.slots();
                guard.unprotect(array, &protected_tail);
                guard.unprotect(array, &protected_prev);
                self.chain = Ghost(c.drop_first());
                proof {
                    let list = retired0.push(head);
                    lemma_retire_untouched(list, slots_r, pool2, self.nodes@, guard.retired());
                    assert(array.slots() =~= slots0);
                    assert(list[list.len() - 1] == head);
                    assert(pre.nodes.live(head as int));
                    lemma_retired_or_freed(list, slots_r, pool2, self.nodes@, guard.retired(), head);
                    let c2 = self.chain@;
                    assert forall|i: int| 0 <= i < c2.len() implies self.nodes@[cell_of(#[trigger] c2[i] as int)] == pool2[cell_of(c2[i] as int)] by {
                        assert(c2[i] == c[i + 1]);
                        assert(pre.nodes.live(c[i + 1] as int));
                        let a = c2[i] as int;
                        assert(2 * (cell_of(a) + 1) == a);
                        assert(!holds_address(list, a)) by {
                            if holds_address(list, a) {
                                let k = choose|k: int| 0 <= k < list.len() && list[k] as int == a;
                                if k < retired0.len() {
                                    assert(retired0[k] == c[i + 1]);
                                    assert(c.contains(c[i + 1]));
                                } else {
                                    assert(c[0] == c[i + 1]);
                                }
                            }
                        }
                    }
                    // Apart from the new sentinel, whose value moved out, the chain's nodes are as before.
                    assert forall|i: int| 1 <= i < c2.len() implies pool2[cell_of(#[trigger] c2[i] as int)] == pre.nodes@[cell_of(c2[i] as int)] by {
                        assert(c2[i] == c[i + 1]);
                        assert(c[i + 1] != c[1]);
                        assert(pre.nodes.live(c[i + 1] as int));
                        lemma_cell_injective(c[i + 1] as int, head_prev as int);
                    }
                    assert forall|i: int| 0 <= i < c2.len() implies self.nodes.live(#[trigger] c2[i] as int) by {
                        assert(self.nodes@[cell_of(c2[i] as int)] == pool2[cell_of(c2[i] as int)]);
                        assert(c2[i] == c[i + 1]);
                        assert(pre.nodes.live(c[i + 1] as int));
                        if i >= 1 {
                            assert(pool2[cell_of(c2[i] as int)] == pre.nodes@[cell_of(c2[i] as int)]);
                        }
                    }
                    assert forall|i: int| 0 <= i < c2.len() - 1 implies #[trigger] self.nodes.node(c2[i + 1] as int).next == c2[i] by {
                        assert(self.nodes@[cell_of(c2[i + 1] as int)] == pool2[cell_of(c2[i + 1] as int)]);
                        assert(pool2[cell_of(c2[i + 1] as int)] == pre.nodes@[cell_of(c2[i + 1] as int)]);
                        assert(c2[i] == c[i + 1] && c2[i + 1] == c[i + 2]);
                        assert(pre.nodes.node(c[i + 2] as int).next == c[i + 1]);
                    }
                    assert forall|i: int| 0 <= i < c2.len() - 1 implies {
                        let p = #[trigger] self.nodes.node(c2[i] as int).prev;
                        p == c2[i + 1] || p == NULL
                    } by {
                        assert(self.nodes@[cell_of(c2[i] as int)] == pool2[cell_of(c2[i] as int)]);
                        assert(c2[i] == c[i + 1] && c2[i + 1] == c[i + 2]);
                        let p = pre.nodes.node(c[i + 1] as int).prev;
                        assert(p == c[i + 2] || p == NULL);
                        if i >= 1 {
                            assert(pool2[cell_of(c2[i] as int)] == pre.nodes@[cell_of(c2[i] as int)]);
                        }
                    }
                    assert(self.nodes.node(self.tail as int).prev == NULL) by {
                        assert(c2[c2.len() - 1] == self.tail);
                        assert(self.nodes@[cell_of(self.tail as int)] == pool2[cell_of(self.tail as int)]);
                        if c2.len() > 1 {
                            assert(pool2[cell_of(c2[c2.len() - 1] as int)] == pre.nodes@[cell_of(c2[c2.len() - 1] as int)]);
                        }
                    }
                    assert(self@ =~= pre@.drop_first()) by {
                        assert forall|i: int| 0 <= i < self@.len() implies self@[i] == pre@[i + 1] by {
                            assert(c2[i + 1] == c[i + 2]);
                            assert(self.nodes@[cell_of(c2[i + 1] as int)] == pool2[cell_of(c2[i + 1] as int)]);
                            assert(pool2[cell_of(c2[i + 1] as int)] == pre.nodes@[cell_of(c2[i + 1] as int)]);
                        }
                    }
                    assert(data == pre@[0]);
                    let rl = guard.retired();
                    assert forall|k: int| 0 <= k < rl.len() implies !self.chain().contains(#[trigger] rl[k]) by {
                        assert(rl.contains(rl[k]));
                        assert(list.contains(rl[k]));
                        if self.chain().contains(rl[k]) {
                            let m = choose|m: int| 0 <= m < c2.len() && c2[m] == rl[k];
                            assert(holds_address(list, c2[m] as int));
                        }
                    }
                }
                return Some(data);
            }
            proof {
                assert(tries == 2) by {
                    if tries == 1 {
                        assert(self.nodes.node(c[0] as int).prev == c[1]);
                    }
                }
            }
            self.fix(protected_head, protected_tail, guard, array);
            proof {
                assert(array.slots() =~= slots0);
                assert(self@ =~= pre@) by {
                    assert forall|i: int| 0 <= i < self@.len() implies self@[i] == pre@[i] by {
                        assert(pre.nodes.live(c[i + 1] as int));
                    }
                }
                let rl = guard.retired();
                assert forall|k: int| 0 <= k < rl.len() implies self.nodes.live(#[trigger] rl[k] as int) by {
                    assert(pre.nodes.live(rl[k] as int));
                }
            }
            tries = tries - 1;
        }
    }
}

} // verus!
