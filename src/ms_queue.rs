use vstd::prelude::*;
use crate::hp::{HazardPointerArray, HazardPointerGuard, has_free_slots, lemma_restore_bit, lemma_retire_untouched, lemma_retired_or_freed, lemma_set_bits_commute, lemma_take_slot};
use crate::model::{after_dequeue, dequeued, enqueued};
use crate::pool::{NodePool, NULL, cell_of, lemma_cell_injective};
pub use crate::pool::Node;

verus! {

/// Michael & Scott FIFO queue. `head` is the sentinel, `tail` the last node;
/// `next` links run from head to tail, and the values are those of the
/// nodes after the sentinel.
pub struct MSQueue<T> {
    head: usize,
    tail: usize,
    nodes: NodePool<T>,
    chain: Ghost<Seq<usize>>,
}

impl<T: Default> MSQueue<T> {
    /// Node addresses from the sentinel to the tail.
    pub closed spec fn chain(&self) -> Seq<usize> {
        self.chain@
    }

    pub closed spec fn nodes(&self) -> NodePool<T> {
        self.nodes
    }

    pub closed spec fn wf(&self) -> bool {
        let c = self.chain@;
        &&& c.len() >= 1
        &&& c[0] == self.head
        &&& c.last() == self.tail
        &&& c.no_duplicates()
        &&& forall|i: int| 0 <= i < c.len() ==> self.nodes.live(#[trigger] c[i] as int)
        &&& forall|i: int| 0 <= i < c.len() - 1 ==> #[trigger] self.nodes.node(c[i] as int).next == c[i + 1]
        &&& self.nodes.node(self.tail as int).next == NULL
    }

    /// The queued values, front first.
    pub closed spec fn view(&self) -> Seq<T> {
        Seq::new((self.chain@.len() - 1) as nat, |i: int| self.nodes.node(self.chain@[i + 1] as int).data)
    }

    /// No node the queue links to has been freed, and none of them waits on
    /// the retire list of a guard that works on it: a scan can never free a
    /// linked node, so every node the operations read is alive.
    pub proof fn law_linked_nodes_alive(&self, guard: &HazardPointerGuard, array: &HazardPointerArray)
        requires
            self.wf(),
        ensures
            forall|i: int| 0 <= i < self.chain().len() ==> self.nodes().live(#[trigger] self.chain()[i] as int),
            self.accepts(guard, array) ==> forall|k: int| 0 <= k < guard.retired().len() ==> !self.chain().contains(#[trigger] guard.retired()[k]),
    {
    }

    /// There is room for one more node.
    pub open spec fn can_grow(&self) -> bool {
        self.nodes().has_room()
    }

    /// `guard` may work on this queue: it leases its band in `array`, its
    /// free slots are null, and its retire list holds only unlinked nodes of
    /// this queue.
    /// A guard serves one structure, whose nodes its retire list holds.
    pub open spec fn accepts(&self, guard: &HazardPointerGuard, array: &HazardPointerArray) -> bool {
        &&& guard.wf()
        &&& array.wf()
        &&& guard.leases(*array)
        &&& guard.slots_match(*array)
        &&& guard.retired_in(&self.nodes())
        &&& forall|k: int| 0 <= k < guard.retired().len() ==> !self.chain().contains(#[trigger] guard.retired()[k])
    }

    /// An empty queue: head and tail both on a default-valued sentinel.
    pub fn new() -> (r: Self)
        ensures
            r.wf(),
            r@ == Seq::<T>::empty(),
            r.nodes()@.len() == 1,
    {
        let mut nodes = NodePool::new();
        let dummy = nodes.allocate(T::default(), NULL, NULL);
        let r = MSQueue { head: dummy, tail: dummy, nodes, chain: Ghost(Seq::empty().push(dummy)) };
        assert(r@ =~= Seq::<T>::empty());
        r
    }

    /// Appends `value`: the tail is protected, the new node linked after it,
    /// and the tail advanced to the new node. The tail never lags here,
    /// since every operation completes before the next one starts.
    pub fn enqueue(&mut self, value: T, guard: &mut HazardPointerGuard, array: &mut HazardPointerArray) -> (r: bool)
        requires
            old(self).wf(),
            old(self).can_grow(),
            old(self).accepts(&*old(guard), &*old(array)),
            has_free_slots(old(guard).available(), 1),
        ensures
            r,
            final(self).wf(),
            final(self).nodes()@.len() == old(self).nodes()@.len() + 1,
            final(self)@ == enqueued(old(self)@, value),
            final(self).accepts(&*final(guard), &*final(array)),
            final(guard).band() == old(guard).band(),
            final(guard).retired() == old(guard).retired(),
            final(guard).available() == old(guard).available(),
            final(array).slots() == old(array).slots(),
            final(array).registry() == old(array).registry(),
    {
        let ghost x = guard.available();
        proof { lemma_take_slot(x, 0); }
        let ghost c = self.chain@;
        let ghost pool0 = self.nodes@;
        let ghost slots0 = array.slots();
        let new_node = self.nodes.allocate(value, NULL, NULL);
        let tail = self.tail;
        let protected_tail = match guard.protect(array, tail) {
            Ok(p) => p,
            Err(_) => return false,
        };
        self.nodes.set_next(tail, new_node);
        self.tail = new_node;
        guard.unprotect(array, &protected_tail);
        self.chain = Ghost(c.push(new_node));
        proof {
            assert(array.slots() =~= slots0) by {
                assert(slots0[guard.start() + protected_tail.index()] == 0);
            }
            assert forall|i: int| 0 <= i < c.len() implies cell_of(#[trigger] c[i] as int) < pool0.len() by {
                assert(self.nodes.live(c[i] as int));
            }
            assert(!c.contains(new_node)) by {
                if c.contains(new_node) {
                    let k = choose|k: int| 0 <= k < c.len() && c[k] == new_node;
                    assert(cell_of(c[k] as int) < pool0.len());
                }
            }
            let c2 = self.chain@;
            assert forall|i: int| 0 <= i < c2.len() - 1 implies #[trigger] self.nodes.node(c2[i] as int).next == c2[i + 1] by {
                if i < c.len() - 1 {
                    assert(c[i] != c[c.len() - 1]);
                    assert(old(self).nodes.live(c[i] as int));
                    lemma_cell_injective(c[i] as int, tail as int);
                    assert(c2[i] == c[i] && c2[i + 1] == c[i + 1]);
                    assert(self.nodes@[cell_of(c[i] as int)] == pool0[cell_of(c[i] as int)]);
                    assert(old(self).nodes.node(c[i] as int).next == c[i + 1]);
                } else {
                    assert(c2[i] == tail);
                    assert(c2[i + 1] == new_node);
                    assert(self.nodes.node(tail as int).next == new_node);
                }
            }
            assert(self@ =~= old(self)@.push(value)) by {
                assert forall|i: int| 0 <= i < self@.len() - 1 implies self@[i] == old(self)@[i] by {
                    assert(c2[i + 1] == c[i + 1]);
                }
            }
            let rl = guard.retired();
            assert forall|k: int| 0 <= k < rl.len() implies !self.chain().contains(#[trigger] rl[k]) by {
                assert(cell_of(rl[k] as int) < pool0.len());
                if self.chain().contains(rl[k]) {
                    let m = choose|m: int| 0 <= m < c2.len() && c2[m] == rl[k];
                    if m < c.len() {
                        assert(c[m] == rl[k]);
                    }
                }
            }
        }
        true
    }

    /// Takes the front value: the sentinel and its successor are protected,
    /// the head advanced to the successor, whose value is moved out (it
    /// becomes the new sentinel), and the old sentinel retired through the
    /// guard. An empty queue gives `None`.
    pub fn dequeue(&mut self, guard: &mut HazardPointerGuard, array: &mut HazardPointerArray) -> (r: Option<T>)
        requires
            old(self).wf(),
            old(self).accepts(&*old(guard), &*old(array)),
            has_free_slots(old(guard).available(), 1),
            old(self)@.len() > 0 ==> has_free_slots(old(guard).available(), 2),
        ensures
            r == dequeued(old(self)@),
            final(self).wf(),
            final(self).nodes()@.len() == old(self).nodes()@.len(),
            final(self)@ == after_dequeue(old(self)@),
            final(self).accepts(&*final(guard), &*final(array)),
            final(guard).band() == old(guard).band(),
            final(guard).available() == old(guard).available(),
            final(array).slots() == old(array).slots(),
            final(array).registry() == old(array).registry(),
            old(self)@.len() > 0 ==> {
                let h = old(self).chain()[0];
                final(guard).retired().contains(h) || !final(self).nodes().live(h as int)
            },
            old(self)@.len() > 0 ==> final(self).chain()[0] == old(self).chain()[1],
            old(self)@.len() > 0 ==> call_ensures(T::default, (), final(self).nodes().node(final(self).chain()[0] as int).data),
    {
        let ghost x = guard.available();
        proof {
            lemma_take_slot(x, 0);
            if self@.len() > 0 {
                lemma_take_slot(x, 1);
            }
        }
        let ghost c = self.chain@;
        let ghost slots0 = array.slots();
        let ghost retired0 = guard.retired();
        let head = self.head;
        let protected_head = match guard.protect(array, head) {
            Ok(p) => p,
            Err(_) => return None,
        };
        let head_next = self.nodes.get(head).next;
        let protected_next = match guard.protect(array, head_next) {
            Ok(p) => p,
            Err(_) => {
                guard.unprotect(array, &protected_head);
                proof {
                    assert(array.slots() =~= slots0) by {
                        assert(slots0[guard.start() + protected_head.index()] == 0);
                    }
                    assert(c.len() == 1) by {
                        if c.len() > 1 {
                            assert(self.nodes.live(c[1] as int));
                        }
                    }
                }
                return None;
            },
        };
        proof {
            assert(c.len() > 1);
            assert(c[1] == head_next);
            lemma_take_slot(x & !(1u64 << protected_head.index() as u64), 0);
        }
        self.head = head_next;
        let ghost pool1 = self.nodes@;
        let data = self.nodes.take_data(head_next);
        let ghost pool2 = self.nodes@;
        proof {
            assert forall|k: int| 0 <= k < retired0.len() implies self.nodes.live(#[trigger] retired0[k] as int) by {
                assert(old(self).nodes.live(retired0[k] as int));
                if retired0[k] == head_next {
                    assert(c.contains(head_next));
                }
                lemma_cell_injective(retired0[k] as int, head_next as int);
            }
            assert(head != head_next) by {
                assert(c[0] != c[1]);
            }
            lemma_cell_injective(head as int, head_next as int);
        }
        let ghost i0 = protected_head.index() as u64;
        guard.retire_node(array, &mut self.nodes, protected_head);
        let ghost slots_r = array.slots();
        guard.unprotect(array, &protected_next);
        self.chain = Ghost(c.drop_first());
        proof {
            let list = retired0.push(head);
            lemma_retire_untouched(list, slots_r, pool2, self.nodes@, guard.retired());
            let i1 = protected_next.index() as u64;
            let a1 = x & !(1u64 << i0);
            assert(crate::hp::bit_set(a1, i1) && crate::hp::bit_set(x, i1));
            assert(array.slots() =~= slots0) by {
                assert(slots0[guard.start() + i0] == 0);
                assert(slots0[guard.start() + i1] == 0);
            }
            lemma_set_bits_commute(a1 & !(1u64 << i1), i0, i1);
            lemma_restore_bit(a1, i1);
            assert(list[list.len() - 1] == head);
            lemma_retired_or_freed(list, slots_r, pool2, self.nodes@, guard.retired(), head);
            let c2 = self.chain@;
            // Nodes of the new chain are on no retire list, so the scan kept them.
            assert forall|i: int| 0 <= i < c2.len() implies !crate::hp::holds_address(list, #[trigger] c2[i] as int) by {
                assert(c2[i] == c[i + 1]);
                if crate::hp::holds_address(list, c2[i] as int) {
                    let k = choose|k: int| 0 <= k < list.len() && list[k] as int == c2[i] as int;
                    if k < retired0.len() {
                        assert(retired0[k] == c[i + 1]);
                        assert(c.contains(c[i + 1]));
                    } else {
                        assert(c[0] == c[i + 1]);
                    }
                }
            }
            assert forall|i: int| 0 <= i < c2.len() implies self.nodes@[cell_of(#[trigger] c2[i] as int)] == pool2[cell_of(c2[i] as int)] by {
                assert(c2[i] == c[i + 1]);
                assert(old(self).nodes.live(c[i + 1] as int));
                let a = c2[i] as int;
                assert(2 * (cell_of(a) + 1) == a);
                assert(!crate::hp::holds_address(list, 2 * (cell_of(a) + 1)));
            }
            assert forall|i: int| 0 <= i < c2.len() implies self.nodes.live(#[trigger] c2[i] as int) by {
                assert(self.nodes@[cell_of(c2[i] as int)] == pool2[cell_of(c2[i] as int)]);
                assert(c2[i] == c[i + 1]);
                assert(old(self).nodes.live(c[i + 1] as int));
                if c2[i] != head_next {
                    lemma_cell_injective(c2[i] as int, head_next as int);
                }
            }
            assert forall|i: int| 0 <= i < c2.len() - 1 implies #[trigger] self.nodes.node(c2[i] as int).next == c2[i + 1] by {
                assert(self.nodes@[cell_of(c2[i] as int)] == pool2[cell_of(c2[i] as int)]);
                assert(c2[i] == c[i + 1] && c2[i + 1] == c[i + 2]);
                assert(old(self).nodes.node(c[i + 1] as int).next == c[i + 2]);
                assert(old(self).nodes.live(c[i + 1] as int));
                if c2[i] != head_next {
                    lemma_cell_injective(c2[i] as int, head_next as int);
                }
            }
            assert(self.nodes@[cell_of(self.tail as int)] == pool2[cell_of(self.tail as int)]) by {
                assert(c2[c2.len() - 1] == self.tail);
            }
            if self.tail != head_next {
                lemma_cell_injective(self.tail as int, head_next as int);
            }
            assert(self@ =~= old(self)@.drop_first()) by {
                assert forall|i: int| 0 <= i < self@.len() implies self@[i] == old(self)@[i + 1] by {
                    assert(c2[i + 1] == c[i + 2]);
                    assert(self.nodes@[cell_of(c2[i + 1] as int)] == pool2[cell_of(c2[i + 1] as int)]);
                    assert(old(self).nodes.live(c[i + 2] as int));
                    lemma_cell_injective(c[i + 2] as int, head_next as int);
                }
            }
            assert(data == old(self)@[0]);
            let rl = guard.retired();
            assert forall|k: int| 0 <= k < rl.len() implies !self.chain().contains(#[trigger] rl[k]) by {
                assert(rl.contains(rl[k]));
                assert(list.contains(rl[k]));
                if self.chain().contains(rl[k]) {
                    let m = choose|m: int| 0 <= m < c2.len() && c2[m] == rl[k];
                    let j = choose|j: int| 0 <= j < list.len() && list[j] == rl[k];
                    assert(crate::hp::holds_address(list, c2[m] as int));
                }
            }
        }
        Some(data)
    }
}

} // verus!
