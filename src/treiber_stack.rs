use vstd::prelude::*;
use crate::hp::{HazardPointerArray, HazardPointerGuard, has_free_slots, holds_address, lemma_retire_untouched, lemma_retired_or_freed, lemma_take_slot};
use crate::model::{after_pop, popped, pushed};
use crate::pool::{NodePool, NULL, cell_of, lemma_cell_injective};

verus! {

/// Treiber LIFO stack: `head` is the top node (null when empty) and `next`
/// links run from the top down to the bottom.
pub struct TreiberStack<T> {
    head: usize,
    nodes: NodePool<T>,
    chain: Ghost<Seq<usize>>,
}

impl<T: Default> TreiberStack<T> {
    /// Node addresses from the top down.
    pub closed spec fn chain(&self) -> Seq<usize> {
        self.chain@
    }

    pub closed spec fn nodes(&self) -> NodePool<T> {
        self.nodes
    }

    pub closed spec fn wf(&self) -> bool {
        let c = self.chain@;
        &&& c.len() == 0 <==> self.head == NULL
        &&& c.len() > 0 ==> c[0] == self.head && self.nodes.node(c.last() as int).next == NULL
        &&& c.no_duplicates()
        &&& forall|i: int| 0 <= i < c.len() ==> self.nodes.live(#[trigger] c[i] as int)
        &&& forall|i: int| 0 <= i < c.len() - 1 ==> #[trigger] self.nodes.node(c[i] as int).next == c[i + 1]
    }

    /// The stacked values, bottom first: the top is the last.
    pub closed spec fn view(&self) -> Seq<T> {
        let c = self.chain@;
        Seq::new(c.len(), |i: int| self.nodes.node(c[c.len() - 1 - i] as int).data)
    }

    /// No node the stack links to has been freed, and none of them waits on
    /// the retire list of a guard that works on it: a scan can never free a
    /// linked node, so every node the operations read is alive.
    pub proof fn law_linked_nodes_alive(&self, guard: &HazardPointerGuard, array: &HazardPointerArray)
        requires
            self.wf(),
        ensures
            forall|i: int| 0 <= i < self.chain().len() ==> self.nodes().live(#[trigger] self.chain()[i] as int),
            self.accepts(guard, array) ==> forall|k: int| 0 <= k < guard.retired().len() ==> !self.chain().contains(#[trigger] guard.retired()[k]),
    {
    }

    /// There is room for one more node.
    pub open spec fn can_grow(&self) -> bool {
        self.nodes().has_room()
    }

    /// `guard` may work on this stack: it leases its band in `array`, its
    /// free slots are null, and its retire list holds only unlinked nodes of
    /// this stack.
    /// A guard serves one structure, whose nodes its retire list holds.
    pub open spec fn accepts(&self, guard: &HazardPointerGuard, array: &HazardPointerArray) -> bool {
        &&& guard.wf()
        &&& array.wf()
        &&& guard.leases(*array)
        &&& guard.slots_match(*array)
        &&& guard.retired_in(&self.nodes())
        &&& forall|k: int| 0 <= k < guard.retired().len() ==> !self.chain().contains(#[trigger] guard.retired()[k])
    }

    /// An empty stack.
    pub fn new() -> (r: Self)
        ensures
            r.wf(),
            r@ == Seq::<T>::empty(),
            r.nodes()@.len() == 0,
    {
        let r = TreiberStack { head: NULL, nodes: NodePool::new(), chain: Ghost(Seq::empty()) };
        assert(r@ =~= Seq::<T>::empty());
        r
    }

    /// Pushes `data`: a new node pointing at the current top becomes the top.
    /// Node addresses are 2-aligned by construction, which leaves their low
    /// bit free for tagging.
    pub fn push(&mut self, data: T)
        requires
            old(self).wf(),
            old(self).can_grow(),
        ensures
            final(self).wf(),
            final(self).nodes()@.len() == old(self).nodes()@.len() + 1,
            final(self)@ == pushed(old(self)@, data),
            forall|g: HazardPointerGuard, a: HazardPointerArray| #[trigger] old(self).accepts(&g, &a) ==> final(self).accepts(&g, &a),
    {
        let ghost c = self.chain@;
        let ghost pool0 = self.nodes@;
        let head = self.head;
        let new_node = self.nodes.allocate(data, head, NULL);
        self.head = new_node;
        self.chain = Ghost(Seq::empty().push(new_node) + c);
        proof {
            let c2 = self.chain@;
            assert forall|i: int| 0 <= i < c.len() implies cell_of(#[trigger] c[i] as int) < pool0.len() by {
                assert(old(self).nodes.live(c[i] as int));
            }
            assert(!c.contains(new_node)) by {
                if c.contains(new_node) {
                    let k = choose|k: int| 0 <= k < c.len() && c[k] == new_node;
                    assert(cell_of(c[k] as int) < pool0.len());
                }
            }
            assert forall|i: int| 0 <= i < c2.len() implies self.nodes.live(#[trigger] c2[i] as int) by {
                if i > 0 {
                    assert(c2[i] == c[i - 1]);
                    assert(old(self).nodes.live(c[i - 1] as int));
                }
            }
            assert forall|i: int| 0 <= i < c2.len() - 1 implies #[trigger] self.nodes.node(c2[i] as int).next == c2[i + 1] by {
                if i > 0 {
                    assert(c2[i] == c[i - 1] && c2[i + 1] == c[i]);
                    assert(old(self).nodes.node(c[i - 1] as int).next == c[i]);
                    assert(old(self).nodes.live(c[i - 1] as int));
                } else {
                    assert(c2[1] == c[0]);
                }
            }
            if c.len() > 0 {
                assert(c2.last() == c.last());
                assert(old(self).nodes.live(c.last() as int));
            }
            assert(c2.no_duplicates()) by {
                assert forall|i: int, j: int| 0 <= i < c2.len() && 0 <= j < c2.len() && i != j implies c2[i] != c2[j] by {
                    if i > 0 && j > 0 {
                        assert(c2[i] == c[i - 1] && c2[j] == c[j - 1]);
                    } else if i == 0 {
                        assert(c2[j] == c[j - 1]);
                        assert(c.contains(c[j - 1]));
                    } else {
                        assert(c2[i] == c[i - 1]);
                        assert(c.contains(c[i - 1]));
                    }
                }
            }
            assert(self@ =~= old(self)@.push(data)) by {
                assert forall|i: int| 0 <= i < old(self)@.len() implies self@[i] == old(self)@[i] by {
                    assert(c2[c2.len() - 1 - i] == c[c.len() - 1 - i]);
                    assert(old(self).nodes.live(c[c.len() - 1 - i] as int));
                }
            }
            assert forall|g: HazardPointerGuard, a: HazardPointerArray| #[trigger] old(self).accepts(&g, &a) implies self.accepts(&g, &a) by {
                let rl = g.retired();
                assert forall|k: int| 0 <= k < rl.len() implies self.nodes.live(#[trigger] rl[k] as int) by {
                    assert(old(self).nodes.live(rl[k] as int));
                }
                assert forall|k: int| 0 <= k < rl.len() implies !self.chain().contains(#[trigger] rl[k]) by {
                    assert(old(self).nodes.live(rl[k] as int));
                    if self.chain().contains(rl[k]) {
                        let m = choose|m: int| 0 <= m < c2.len() && c2[m] == rl[k];
                        if m > 0 {
                            assert(c2[m] == c[m - 1]);
                            assert(c.contains(c[m - 1]));
                        }
                    }
                }
            }
        }
    }

    /// Pops the top value: the top node is protected, the head moved to its
    /// successor, the value moved out and the node retired through the
    /// guard. An empty stack gives `None`.
    pub fn pop(&mut self, guard: &mut HazardPointerGuard, array: &mut HazardPointerArray) -> (r: Option<T>)
        requires
            old(self).wf(),
            old(self).accepts(&*old(guard), &*old(array)),
            old(self)@.len() > 0 ==> has_free_slots(old(guard).available(), 1),
        ensures
            r == popped(old(self)@),
            final(self).wf(),
            final(self).nodes()@.len() == old(self).nodes()@.len(),
            final(self)@ == after_pop(old(self)@),
            final(self).accepts(&*final(guard), &*final(array)),
            final(guard).band() == old(guard).band(),
            final(guard).available() == old(guard).available(),
            final(array).slots() == old(array).slots(),
            final(array).registry() == old(array).registry(),
            old(self)@.len() > 0 ==> {
                let h = old(self).chain()[0];
                final(guard).retired().contains(h) || !final(self).nodes().live(h as int)
            },
    {
        let ghost x = guard.available();
        proof {
            if self@.len() > 0 {
                lemma_take_slot(x, 0);
            }
        }
        let ghost c = self.chain@;
        let ghost slots0 = array.slots();
        let ghost retired0 = guard.retired();
        let head = self.head;
        let protected_head = match guard.protect(array, head) {
            Ok(p) => p,
            Err(_) => {
                proof { assert(self@ =~= Seq::<T>::empty()); }
                return None;
            },
        };
        let next = self.nodes.get(head).next;
        self.head = next;
        let data = self.nodes.take_data(head);
        let ghost pool2 = self.nodes@;
        proof {
            assert forall|k: int| 0 <= k < retired0.len() implies self.nodes.live(#[trigger] retired0[k] as int) by {
                assert(old(self).nodes.live(retired0[k] as int));
                if retired0[k] == head {
                    assert(c.contains(head));
                }
                lemma_cell_injective(retired0[k] as int, head as int);
            }
        }
        let ghost i0 = protected_head.index();
        guard.retire_node(array, &mut self.nodes, protected_head);
        self.chain = Ghost(c.drop_first());
        proof {
            let list = retired0.push(head);
            lemma_retire_untouched(list, array.slots(), pool2, self.nodes@, guard.retired());
            assert(array.slots() =~= slots0) by {
                assert(slots0[guard.start() + i0] == 0);
            }
            assert(old(self).nodes.live(head as int));
            assert(list[list.len() - 1] == head);
            lemma_retired_or_freed(list, array.slots(), pool2, self.nodes@, guard.retired(), head);
            let c2 = self.chain@;
            assert forall|i: int| 0 <= i < c2.len() implies self.nodes@[cell_of(#[trigger] c2[i] as int)] == old(self).nodes@[cell_of(c2[i] as int)] by {
                assert(c2[i] == c[i + 1]);
                assert(old(self).nodes.live(c[i + 1] as int));
                let a = c2[i] as int;
                assert(2 * (cell_of(a) + 1) == a);
                assert(!holds_address(list, a)) by {
                    if holds_address(list, a) {
                        let k = choose|k: int| 0 <= k < list.len() && list[k] as int == a;
                        if k < retired0.len() {
                            assert(retired0[k] == c[i + 1]);
                            assert(c.contains(c[i + 1]));
                        } else {
                            assert(c[0] == c[i + 1]);
                        }
                    }
                }
                assert(c[0] != c[i + 1]);
                lemma_cell_injective(head as int, a);
            }
            assert forall|i: int| 0 <= i < c2.len() implies self.nodes.live(#[trigger] c2[i] as int) by {
                assert(self.nodes@[cell_of(c2[i] as int)] == old(self).nodes@[cell_of(c2[i] as int)]);
                assert(c2[i] == c[i + 1]);
                assert(old(self).nodes.live(c[i + 1] as int));
            }
            assert forall|i: int| 0 <= i < c2.len() - 1 implies #[trigger] self.nodes.node(c2[i] as int).next == c2[i + 1] by {
                assert(self.nodes@[cell_of(c2[i] as int)] == old(self).nodes@[cell_of(c2[i] as int)]);
                assert(c2[i] == c[i + 1] && c2[i + 1] == c[i + 2]);
                assert(old(self).nodes.node(c[i + 1] as int).next == c[i + 2]);
            }
            if c2.len() > 0 {
                assert(self.nodes@[cell_of(c2.last() as int)] == old(self).nodes@[cell_of(c2.last() as int)]);
                assert(c2.last() == c.last());
                assert(next == c[1]);
            } else {
                assert(next == NULL);
            }
            assert(self@ =~= old(self)@.drop_last()) by {
                assert forall|i: int| 0 <= i < self@.len() implies self@[i] == old(self)@[i] by {
                    assert(c2[c2.len() - 1 - i] == c[c.len() - 1 - i]);
                    assert(self.nodes@[cell_of(c2[c2.len() - 1 - i] as int)] == old(self).nodes@[cell_of(c2[c2.len() - 1 - i] as int)]);
                }
            }
            assert(data == old(self)@.last());
            let rl = guard.retired();
            assert forall|k: int| 0 <= k < rl.len() implies !self.chain().contains(#[trigger] rl[k]) by {
                assert(rl.contains(rl[k]));
                assert(list.contains(rl[k]));
                if self.chain().contains(rl[k]) {
                    let m = choose|m: int| 0 <= m < c2.len() && c2[m] == rl[k];
                    let j = choose|j: int| 0 <= j < list.len() && list[j] == rl[k];
                    if j < retired0.len() {
                        assert(retired0[j] == c[m + 1]);
                        assert(c.contains(c[m + 1]));
                    } else {
                        assert(c[0] == c[m + 1]);
                    }
                }
            }
        }
        Some(data)
    }
}

} // verus!
