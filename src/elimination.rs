use vstd::prelude::*;
use crate::pool::{NodePool, cell_of};

verus! {

/// Number of meeting slots.
pub const ELIMINATION_ARRAY_SIZE: usize = 8;

/// A slot with nobody waiting in it.
pub const EMPTY: usize = 0;

/// A slot where a popper waits for a value.
pub const POP: usize = 1;

/// Why an elimination attempt found no partner.
#[derive(Debug, PartialEq, Eq)]
pub enum EliminationError {
    NoSlotsAvailable,
    NoRendezvous,
}

/// Relies on `rand::random_range`: a value drawn uniformly from `0..n`, so
/// below `n`.
#[verifier::external_body]
fn random_below(n: usize) -> (r: usize)
    requires
        n > 0,
    ensures
        r < n,
{
    rand::random_range(0..n)
}

/// `w` with its tag bit cleared.
pub open spec fn untagged(w: usize) -> usize {
    w & !1usize
}

proof fn lemma_untagged_even(w: usize)
    ensures
        untagged(w) % 2 == 0,
{
    assert((w & !1usize) % 2 == 0) by (bit_vector);
}

/// Every untagged offer in `slots` is a live node of `pool`.
pub open spec fn offers_live<T>(slots: Seq<usize>, pool: NodePool<T>) -> bool {
    forall|i: int| 0 <= i < slots.len() && slots[i] != EMPTY && slots[i] % 2 == 0 ==> pool.live(#[trigger] slots[i] as int)
}

/// The elimination array of a stack: slots where a push and a pop that
/// meet cancel out without touching the stack. A slot holds `EMPTY`, `POP`
/// (a popper waiting), an offered node address (a pusher waiting), or an
/// offered address with its low bit set (handed to a waiting popper).
/// Offered words are 2-aligned node addresses, so the low bit is free.
///
/// The array has a single owner: between publishing a word and looking at
/// its slot again, no other party can act on it.
pub struct EliminationArray {
    slots: Vec<usize>,
}

/// What a popper does with the word it observed in a slot.
#[derive(Debug, PartialEq, Eq)]
pub enum PopStep {
    /// The slot is empty: post a pop request there.
    Request,
    /// The slot holds an untagged offer: take that node.
    Take(usize),
    /// The slot is taken by another popper (a request, or an offer handed to one).
    Skip,
}

/// The word a pusher of `node` writes over the word `observed`: its offer
/// over an empty slot, its node tagged over a waiting pop request, and
/// nothing over any other word.
pub fn push_decision(observed: usize, node: usize) -> (w: Option<usize>)
    requires
        node != EMPTY,
        node % 2 == 0,
    ensures
        observed == EMPTY ==> w == Some(node),
        observed == POP ==> w == Some(node | 1),
        observed != EMPTY && observed != POP ==> w is None,
{
    if observed == EMPTY {
        Some(node)
    } else if observed == POP {
        Some(node | 1)
    } else {
        None
    }
}

/// How a published offer ends: the node went to a popper when the slot
/// changed while the pusher waited (`taken`) or when withdrawing it failed;
/// only a successful withdrawal of an untaken offer is no rendezvous.
pub fn offer_result(taken: bool, withdrawn: bool) -> (r: Result<(), EliminationError>)
    ensures
        r == if taken || !withdrawn {
            Ok::<(), EliminationError>(())
        } else {
            Err::<(), EliminationError>(EliminationError::NoRendezvous)
        },
{
    if taken || !withdrawn {
        Ok(())
    } else {
        Err(EliminationError::NoRendezvous)
    }
}

/// What a popper does on observing the word `observed`.
pub fn pop_decision(observed: usize) -> (d: PopStep)
    ensures
        observed == EMPTY ==> d == PopStep::Request,
        observed != EMPTY && observed % 2 == 0 ==> d == PopStep::Take(observed),
        observed % 2 == 1 ==> d == PopStep::Skip,
{
    if observed == EMPTY {
        PopStep::Request
    } else if observed % 2 == 0 {
        PopStep::Take(observed)
    } else {
        PopStep::Skip
    }
}

/// What a popper whose request was answered with `filled` takes: the
/// node's address, tag bit cleared; a word that holds no address is no
/// rendezvous.
pub fn take_answer(filled: usize) -> (r: Result<usize, EliminationError>)
    ensures
        r == if untagged(filled) == EMPTY {
            Err::<usize, EliminationError>(EliminationError::NoRendezvous)
        } else {
            Ok::<usize, EliminationError>(untagged(filled))
        },
        r is Ok ==> r->Ok_0 % 2 == 0 && r->Ok_0 != EMPTY,
{
    let node = filled & !1usize;
    proof { lemma_untagged_even(filled); }
    if node == EMPTY {
        return Err(EliminationError::NoRendezvous);
    }
    Ok(node)
}

impl EliminationArray {
    /// The word in each slot.
    pub closed spec fn view(&self) -> Seq<usize> {
        self.slots@
    }

    pub open spec fn wf(&self) -> bool {
        self@.len() == ELIMINATION_ARRAY_SIZE
    }

    /// All slots empty.
    pub fn new() -> (r: Self)
        ensures
            r.wf(),
            r@ == Seq::new(ELIMINATION_ARRAY_SIZE as nat, |i: int| EMPTY),
    {
        let mut slots: Vec<usize> = Vec::new();
        let mut i: usize = 0;
        while i < ELIMINATION_ARRAY_SIZE
            invariant
                i <= ELIMINATION_ARRAY_SIZE,
                slots@ == Seq::new(i as nat, |j: int| EMPTY),
            decreases ELIMINATION_ARRAY_SIZE - i,
        {
            slots.push(EMPTY);
            i = i + 1;
        }
        EliminationArray { slots }
    }

    /// The word in slot `i`.
    pub fn slot(&self, i: usize) -> (r: usize)
        requires
            i < self@.len(),
        ensures
            r == self@[i as int],
    {
        self.slots[i]
    }

    /// Tries to hand `node` to a popper. Probes random slots: in an empty
    /// one it publishes the offer, looks again, and withdraws it unless a
    /// popper took it; in a slot where a popper waits, it hands the node
    /// over with the tag bit set. `Ok` means the node now belongs to that
    /// popper; on `Err` the caller still owns it and the array is as before.
    pub fn try_push(&mut self, node: usize) -> (r: Result<(), EliminationError>)
        requires
            old(self).wf(),
            node != EMPTY,
            node % 2 == 0,
        ensures
            final(self).wf(),
            r is Ok ==> exists|i: int| 0 <= i < ELIMINATION_ARRAY_SIZE && old(self)@[i] == POP && final(self)@ == old(self)@.update(i, node | 1),
            r is Err ==> final(self)@ == old(self)@,
            (forall|i: int| 0 <= i < ELIMINATION_ARRAY_SIZE ==> #[trigger] old(self)@[i] == EMPTY) ==> r == Err::<(), EliminationError>(EliminationError::NoRendezvous),
            (forall|i: int| 0 <= i < ELIMINATION_ARRAY_SIZE ==> #[trigger] old(self)@[i] != EMPTY && old(self)@[i] != POP) ==> r == Err::<(), EliminationError>(EliminationError::NoSlotsAvailable),
    {
        let mut attempt: usize = 0;
        while attempt < ELIMINATION_ARRAY_SIZE
            invariant
                self@ == old(self)@,
                self.wf(),
                node != EMPTY,
                node % 2 == 0,
                (forall|i: int| 0 <= i < ELIMINATION_ARRAY_SIZE ==> #[trigger] old(self)@[i] == EMPTY) ==> attempt == 0,
            decreases ELIMINATION_ARRAY_SIZE - attempt,
        {
            let slot_id = random_below(ELIMINATION_ARRAY_SIZE);
            let observed = self.slots[slot_id];
            match push_decision(observed, node) {
                Some(word) => {
                    self.slots.set(slot_id, word);
                    if observed == POP {
                        // the waiting popper takes the node
                        return Ok(());
                    }
                    let taken = self.slots[slot_id] != node;
                    let withdrawn = !taken;
                    if withdrawn {
                        self.slots.set(slot_id, EMPTY);
                    }
                    proof {
                        assert(self@ =~= old(self)@);
                    }
                    return offer_result(taken, withdrawn);
                },
                None => {},
            }
            attempt = attempt + 1;
        }
        Err(EliminationError::NoSlotsAvailable)
    }

    /// Tries to take a node from a pusher. Probes random slots: in an empty
    /// one it posts a pop request, looks again, and withdraws the request
    /// unless a pusher answered it; a slot holding an untagged offer is
    /// emptied and its node taken; tagged slots belong to other poppers and
    /// are passed over. `Ok` gives the taken node's address; on `Err` the
    /// array is as before.
    pub fn try_pop(&mut self) -> (r: Result<usize, EliminationError>)
        requires
            old(self).wf(),
        ensures
            final(self).wf(),
            r is Ok ==> r->Ok_0 % 2 == 0 && r->Ok_0 != EMPTY,
            r is Ok ==> exists|i: int| 0 <= i < ELIMINATION_ARRAY_SIZE && old(self)@[i] == r->Ok_0 && final(self)@ == old(self)@.update(i, EMPTY),
            r is Err ==> final(self)@ == old(self)@,
            (forall|i: int| 0 <= i < ELIMINATION_ARRAY_SIZE ==> #[trigger] old(self)@[i] == EMPTY) ==> r == Err::<usize, EliminationError>(EliminationError::NoRendezvous),
            (forall|i: int| 0 <= i < ELIMINATION_ARRAY_SIZE ==> #[trigger] old(self)@[i] % 2 == 1) ==> r == Err::<usize, EliminationError>(EliminationError::NoSlotsAvailable),
    {
        let mut attempt: usize = 0;
        while attempt < ELIMINATION_ARRAY_SIZE
            invariant
                self@ == old(self)@,
                self.wf(),
                (forall|i: int| 0 <= i < ELIMINATION_ARRAY_SIZE ==> #[trigger] old(self)@[i] == EMPTY) ==> attempt == 0,
            decreases ELIMINATION_ARRAY_SIZE - attempt,
        {
            let slot_id = random_below(ELIMINATION_ARRAY_SIZE);
            let observed = self.slots[slot_id];
            match pop_decision(observed) {
                PopStep::Request => {
                    self.slots.set(slot_id, POP);
                    let filled = self.slots[slot_id];
                    self.slots.set(slot_id, EMPTY);
                    proof {
                        assert(self@ =~= old(self)@);
                    }
                    if filled != POP {
                        return take_answer(filled);
                    }
                    return Err(EliminationError::NoRendezvous);
                },
                PopStep::Take(offered) => {
                    self.slots.set(slot_id, EMPTY);
                    return Ok(offered);
                },
                PopStep::Skip => {},
            }
            attempt = attempt + 1;
        }
        Err(EliminationError::NoSlotsAvailable)
    }

    /// Takes a node offered through the array and hands over its payload:
    /// the node is freed here, by the popper, without going through any
    /// retire list, since it was never linked into the stack.
    pub fn try_pop_data<T>(&mut self, pool: &mut NodePool<T>) -> (r: Result<T, EliminationError>)
        requires
            old(self).wf(),
            offers_live(old(self)@, *old(pool)),
        ensures
            final(self).wf(),
            r is Ok ==> exists|i: int| {
                let a = #[trigger] old(self)@[i];
                &&& 0 <= i < ELIMINATION_ARRAY_SIZE
                &&& a != EMPTY && a % 2 == 0
                &&& final(self)@ == old(self)@.update(i, EMPTY)
                &&& r->Ok_0 == old(pool).node(a as int).data
                &&& final(pool)@ == old(pool)@.update(cell_of(a as int), None)
            },
            r is Err ==> final(self)@ == old(self)@ && final(pool)@ == old(pool)@,
            (forall|i: int| 0 <= i < ELIMINATION_ARRAY_SIZE ==> #[trigger] old(self)@[i] == EMPTY) ==> r is Err,
    {
        match self.try_pop() {
            Ok(node) => {
                let ghost i = choose|i: int| 0 <= i < ELIMINATION_ARRAY_SIZE && old(self)@[i] == node && self@ == old(self)@.update(i, EMPTY);
                proof {
                    assert(pool.live(old(self)@[i] as int));
                }
                Ok(pool.free(node))
            },
            Err(e) => Err(e),
        }
    }
}

} // verus!
