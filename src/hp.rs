use vstd::prelude::*;
use vstd::std_specs::bits::{u64_trailing_zeros, axiom_u64_trailing_zeros};
use crate::pool::{Node, NodePool, is_node_address, cell_of};

verus! {

/// Number of thread bands in the table.
pub const MAX_THREADS: usize = 4;

/// Hazard slots owned by each band.
pub const HP_PER_THREAD: usize = 16;

/// Total number of hazard slots in the table.
pub const SLOT_COUNT: usize = MAX_THREADS * HP_PER_THREAD;

/// A retire list longer than this triggers a scan.
pub const SCAN_THRESHOLD: usize = 2 * HP_PER_THREAD;

/// Band bitmap with every band free.
pub const ALL_BANDS_FREE: u64 = 0xf;

/// In-band bitmap with every slot free.
pub const ALL_SLOTS_FREE: u64 = 0xffff;

/// Bit `i` of `x` is set.
pub open spec fn bit_set(x: u64, i: u64) -> bool {
    (x >> i) & 1u64 == 1u64
}

/// The index of the lowest set bit of `x` (64 when `x` is zero).
pub open spec fn lowest_set_bit(x: u64) -> u64 {
    u64_trailing_zeros(x) as u64
}

/// At least `k` bits of `x` are set: `k` protections in a row, each taking
/// the lowest free slot, all find one.
pub open spec fn has_free_slots(x: u64, k: nat) -> bool
    decreases k,
{
    if k == 0 {
        true
    } else {
        x != 0 && has_free_slots(x & !(1u64 << lowest_set_bit(x)), (k - 1) as nat)
    }
}

/// Some slot of the table holds `a`.
pub open spec fn is_protected(slots: Seq<usize>, a: usize) -> bool {
    slots.contains(a)
}

/// Some entry of `s` is the address `a`.
pub open spec fn holds_address(s: Seq<usize>, a: int) -> bool {
    exists|k: int| 0 <= k < s.len() && s[k] as int == a
}

/// `after` is `before` with exactly the nodes at the addresses in `gone` released.
pub open spec fn released<N>(before: Seq<Option<Node<N>>>, after: Seq<Option<Node<N>>>, gone: Seq<usize>) -> bool {
    &&& after.len() == before.len()
    &&& forall|i: int|
        0 <= i < before.len() ==> #[trigger] after[i] == if holds_address(gone, 2 * (i + 1)) {
            None::<Node<N>>
        } else {
            before[i]
        }
}

proof fn lemma_lowest_set_bit_below(x: u64, n: u64)
    requires
        x != 0,
        n == 4 || n == 16,
        n == 4 ==> x <= 0xf,
        n == 16 ==> x <= 0xffff,
    ensures
        lowest_set_bit(x) < n,
        bit_set(x, lowest_set_bit(x)),
{
    axiom_u64_trailing_zeros(x);
    let t = u64_trailing_zeros(x) as u64;
    assert(x <= 0xf && 4 <= t < 64 ==> (x >> t) & 1u64 == 0u64) by (bit_vector);
    assert(x <= 0xffff && 16 <= t < 64 ==> (x >> t) & 1u64 == 0u64) by (bit_vector);
}

proof fn lemma_bit_clear(x: u64, k: u64, b: u64)
    requires
        k < 64,
        b < 64,
        bit_set(x, k),
    ensures
        bit_set(x ^ (1u64 << k), b) == (b != k && bit_set(x, b)),
{
    assert((x >> k) & 1u64 == 1u64 && k < 64 && b < 64 ==> ((((x ^ (1u64 << k)) >> b) & 1u64 == 1u64) == (b != k && (x >> b) & 1u64 == 1u64))) by (bit_vector);
}

pub proof fn lemma_bit_set_or(x: u64, k: u64, b: u64)
    requires
        k < 64,
        b < 64,
    ensures
        bit_set(x | (1u64 << k), b) == (b == k || bit_set(x, b)),
{
    assert(k < 64 && b < 64 ==> ((((x | (1u64 << k)) >> b) & 1u64 == 1u64) == (b == k || (x >> b) & 1u64 == 1u64))) by (bit_vector);
}

/// The process-wide table of hazard slots: `MAX_THREADS` bands of
/// `HP_PER_THREAD` slots, and a bitmap whose set bits are the free bands.
pub struct HazardPointerArray {
    p_list: Vec<usize>,
    thread_registry: u64,
}

/// Why `register_thread` gave no guard.
#[derive(Debug, PartialEq, Eq)]
pub enum RegisterThreadError {
    NoAvailableIndices,
}

/// Why `protect` gave no handle.
#[derive(Debug, PartialEq, Eq)]
pub enum ProtectionError {
    NoAvailableIndices,
    NullPointer,
}

impl HazardPointerArray {
    /// The address in each slot (null when the slot is unused).
    pub closed spec fn slots(&self) -> Seq<usize> {
        self.p_list@
    }

    /// The free-band bitmap.
    pub closed spec fn registry(&self) -> u64 {
        self.thread_registry
    }

    pub open spec fn wf(&self) -> bool {
        &&& self.slots().len() == SLOT_COUNT
        &&& self.registry() <= ALL_BANDS_FREE
        &&& forall|j: int| 0 <= j < SLOT_COUNT && bit_set(self.registry(), (j / HP_PER_THREAD as int) as u64) ==> #[trigger] self.slots()[j] == 0
    }

    /// An empty table: every slot null, every band free.
    pub fn new() -> (r: Self)
        ensures
            r.wf(),
            r.slots() == Seq::new(SLOT_COUNT as nat, |i: int| 0usize),
            r.registry() == ALL_BANDS_FREE,
    {
        let mut p_list: Vec<usize> = Vec::new();
        let mut i: usize = 0;
        while i < SLOT_COUNT
            invariant
                i <= SLOT_COUNT,
                p_list@ == Seq::new(i as nat, |j: int| 0usize),
            decreases SLOT_COUNT - i,
        {
            p_list.push(0);
            i = i + 1;
        }
        HazardPointerArray { p_list, thread_registry: ALL_BANDS_FREE }
    }

    /// Leases the lowest free band to the calling thread; fails when all
    /// bands are taken.
    pub fn register_thread(&mut self) -> (r: Result<HazardPointerGuard, RegisterThreadError>)
        requires
            old(self).wf(),
        ensures
            final(self).wf(),
            final(self).slots() == old(self).slots(),
            old(self).registry() == 0 <==> r is Err,
            r is Err ==> final(self).registry() == old(self).registry(),
            r is Ok ==> {
                let g = r->Ok_0;
                let band = lowest_set_bit(old(self).registry());
                &&& band < MAX_THREADS
                &&& bit_set(old(self).registry(), band)
                &&& final(self).registry() == old(self).registry() ^ (1u64 << band)
                &&& g.wf()
                &&& g.band() == band
                &&& g.available() == ALL_SLOTS_FREE
                &&& g.retired() == Seq::<usize>::empty()
                &&& g.leases(*final(self))
                &&& g.idle_in(*final(self))
                &&& g.slots_match(*final(self))
            },
    {
        let thread_registry = self.thread_registry;
        if thread_registry == 0 {
            return Err(RegisterThreadError::NoAvailableIndices);
        }
        proof { lemma_lowest_set_bit_below(thread_registry, 4); }
        let band = thread_registry.trailing_zeros() as u64;
        let next = thread_registry ^ (1u64 << band);
        assert(thread_registry <= 0xf && band < 4 ==> thread_registry ^ (1u64 << band) <= 0xf)
            by (bit_vector);
        self.thread_registry = next;
        proof {
            lemma_bit_clear(thread_registry, band, band);
            assert forall|j: int| 0 <= j < SLOT_COUNT && bit_set(self.registry(), (j / HP_PER_THREAD as int) as u64) implies #[trigger] self.slots()[j] == 0 by {
                lemma_bit_clear(thread_registry, band, (j / HP_PER_THREAD as int) as u64);
            }
            assert forall|i: int| 0 <= i < HP_PER_THREAD implies #[trigger] self.p_list@[band * HP_PER_THREAD + i] == 0 by {
                let j = band * HP_PER_THREAD + i;
                assert(j / HP_PER_THREAD as int == band);
            }
        }
        Ok(
            HazardPointerGuard {
                starting_idx: (band as usize) * HP_PER_THREAD,
                available_indices: ALL_SLOTS_FREE,
                d_list: Vec::new(),
            },
        )
    }

    /// The address in slot `i` of the table.
    pub fn slot(&self, i: usize) -> (r: usize)
        requires
            self.wf(),
            i < SLOT_COUNT,
        ensures
            r == self.slots()[i as int],
    {
        self.p_list[i]
    }

    /// Whether some slot holds `a`.
    fn protects(&self, a: usize) -> (r: bool)
        requires
            self.wf(),
        ensures
            r == is_protected(self.slots(), a),
    {
        let mut i: usize = 0;
        while i < self.p_list.len()
            invariant
                i <= self.p_list@.len(),
                forall|j: int| 0 <= j < i ==> self.p_list@[j] != a,
            decreases self.p_list@.len() - i,
        {
            if self.p_list[i] == a {
                return true;
            }
            i = i + 1;
        }
        false
    }
}

/// A thread's lease on one band: the in-band free-slot bitmap and the list of
/// retired nodes awaiting reclamation.
pub struct HazardPointerGuard {
    starting_idx: usize,
    available_indices: u64,
    d_list: Vec<usize>,
}

/// A node address published in one slot of a guard's band.
pub struct ProtectedPointer {
    ptr: usize,
    index: usize,
}

impl ProtectedPointer {
    pub closed spec fn ptr(&self) -> usize {
        self.ptr
    }

    pub closed spec fn index(&self) -> usize {
        self.index
    }

    /// The protected address, the handle given up; the slot itself is
    /// released separately with `unprotect_index`.
    pub fn into_raw(self) -> (r: usize)
        ensures
            r == self.ptr(),
    {
        self.ptr
    }

    /// The slot of the band that holds the address.
    pub fn slot_index(&self) -> (r: usize)
        ensures
            r == self.index(),
    {
        self.index
    }

    /// The protected address.
    pub fn as_ptr(&self) -> (r: usize)
        ensures
            r == self.ptr(),
    {
        self.ptr
    }
}

impl HazardPointerGuard {
    /// The band this guard leases.
    pub closed spec fn band(&self) -> u64 {
        (self.starting_idx / HP_PER_THREAD) as u64
    }

    /// The first table slot of the band.
    pub closed spec fn start(&self) -> int {
        self.starting_idx as int
    }

    /// In-band bitmap: bit `i` set means slot `i` is free.
    pub closed spec fn available(&self) -> u64 {
        self.available_indices
    }

    /// Retired node addresses not yet reclaimed.
    pub closed spec fn retired(&self) -> Seq<usize> {
        self.d_list@
    }

    pub open spec fn wf(&self) -> bool {
        &&& self.band() < MAX_THREADS
        &&& self.start() == self.band() * HP_PER_THREAD
        &&& self.available() <= ALL_SLOTS_FREE
    }

    /// The guard's band is leased in `array`: its bit is clear in the free-band bitmap.
    pub open spec fn leases(&self, array: HazardPointerArray) -> bool {
        !bit_set(array.registry(), self.band())
    }

    /// No slot of the band is in use, and every slot of it is null.
    pub open spec fn idle_in(&self, array: HazardPointerArray) -> bool {
        &&& self.available() == ALL_SLOTS_FREE
        &&& forall|i: int| 0 <= i < HP_PER_THREAD ==> #[trigger] array.slots()[self.start() + i] == 0
    }

    /// Each free slot of the band is null in `array`.
    pub open spec fn slots_match(&self, array: HazardPointerArray) -> bool {
        forall|i: int| 0 <= i < HP_PER_THREAD && bit_set(self.available(), i as u64) ==> #[trigger] array.slots()[self.start() + i] == 0
    }

    /// Every retired address is a distinct live node of `pool`.
    pub open spec fn retired_in<N>(&self, pool: &NodePool<N>) -> bool {
        &&& self.retired().no_duplicates()
        &&& forall|i: int| 0 <= i < self.retired().len() ==> pool.live(#[trigger] self.retired()[i] as int)
    }

    /// Number of retired nodes awaiting reclamation.
    pub fn retired_count(&self) -> (r: usize)
        ensures
            r == self.retired().len(),
    {
        self.d_list.len()
    }

    /// The first table slot of the band.
    pub fn starting_index(&self) -> (r: usize)
        ensures
            r == self.start(),
    {
        self.starting_idx
    }

    /// Publishes `data_ptr` in the lowest free slot of the band.
    pub fn protect(&mut self, array: &mut HazardPointerArray, data_ptr: usize) -> (r: Result<ProtectedPointer, ProtectionError>)
        requires
            old(self).wf(),
            old(array).wf(),
            old(self).leases(*old(array)),
        ensures
            final(self).wf(),
            final(array).wf(),
            final(self).band() == old(self).band(),
            final(self).retired() == old(self).retired(),
            final(array).registry() == old(array).registry(),
            old(self).slots_match(*old(array)) ==> final(self).slots_match(*final(array)),
            data_ptr == 0 ==> r == Err::<ProtectedPointer, ProtectionError>(ProtectionError::NullPointer),
            data_ptr != 0 && old(self).available() == 0 ==> r == Err::<ProtectedPointer, ProtectionError>(ProtectionError::NoAvailableIndices),
            r is Err ==> final(self).available() == old(self).available() && final(array).slots() == old(array).slots(),
            data_ptr != 0 && old(self).available() != 0 ==> r is Ok,
            r is Ok ==> {
                let p = r->Ok_0;
                let i = lowest_set_bit(old(self).available());
                &&& i < HP_PER_THREAD
                &&& bit_set(old(self).available(), i)
                &&& p.ptr() == data_ptr
                &&& p.index() == i
                &&& final(self).available() == old(self).available() & !(1u64 << i)
                &&& final(array).slots() == old(array).slots().update(old(self).start() + i, data_ptr)
            },
    {
        if data_ptr == 0 {
            return Err(ProtectionError::NullPointer);
        }
        let current = self.available_indices;
        if current == 0 {
            return Err(ProtectionError::NoAvailableIndices);
        }
        proof { lemma_lowest_set_bit_below(current, 16); }
        let offset = current.trailing_zeros() as u64;
        assert(current <= 0xffff ==> current & !(1u64 << offset) <= 0xffff) by (bit_vector);
        self.available_indices = current & !(1u64 << offset);
        let idx = self.starting_idx + offset as usize;
        array.p_list.set(idx, data_ptr);
        proof {
            if old(self).slots_match(*old(array)) {
                assert forall|i: int| 0 <= i < HP_PER_THREAD && bit_set(self.available(), i as u64) implies #[trigger] array.slots()[self.start() + i] == 0 by {
                    lemma_clear_bit(current, offset, i as u64);
                    assert(old(array).slots()[old(self).start() + i] == 0);
                }
            }
        }
        Ok(ProtectedPointer { ptr: data_ptr, index: offset as usize })
    }

    /// Clears the slot of `protected_pointer` and returns it to the band.
    pub fn unprotect(&mut self, array: &mut HazardPointerArray, protected_pointer: &ProtectedPointer)
        requires
            old(self).wf(),
            old(array).wf(),
            old(self).leases(*old(array)),
            protected_pointer.index() < HP_PER_THREAD,
        ensures
            final(self).wf(),
            final(array).wf(),
            final(self).band() == old(self).band(),
            final(self).retired() == old(self).retired(),
            final(array).registry() == old(array).registry(),
            final(self).available() == old(self).available() | (1u64 << protected_pointer.index() as u64),
            final(array).slots() == old(array).slots().update(old(self).start() + protected_pointer.index(), 0usize),
            old(self).slots_match(*old(array)) ==> final(self).slots_match(*final(array)),
    {
        let index = protected_pointer.index;
        array.p_list.set(self.starting_idx + index, 0);
        let indices = self.available_indices;
        let bit = 1u64 << index as u64;
        assert(indices <= 0xffff && (index as u64) < 16 ==> indices | (1u64 << (index as u64)) <= 0xffff) by (bit_vector);
        self.available_indices = indices | bit;
        proof {
            if old(self).slots_match(*old(array)) {
                assert forall|i: int| 0 <= i < HP_PER_THREAD && bit_set(self.available(), i as u64) implies #[trigger] array.slots()[self.start() + i] == 0 by {
                    lemma_bit_set_or(indices, index as u64, i as u64);
                    if i != index {
                        assert(old(array).slots()[old(self).start() + i] == 0);
                    }
                }
            }
        }
    }

    /// Releases the slot of `protected_pointer` and retires its node.
    pub fn retire_node<N>(&mut self, array: &mut HazardPointerArray, pool: &mut NodePool<N>, protected_pointer: ProtectedPointer)
        requires
            old(self).wf(),
            old(array).wf(),
            old(self).leases(*old(array)),
            protected_pointer.index() < HP_PER_THREAD,
            old(self).retired_in(&*old(pool)),
            old(pool).live(protected_pointer.ptr() as int),
            !old(self).retired().contains(protected_pointer.ptr()),
        ensures
            final(self).wf(),
            final(array).wf(),
            final(self).band() == old(self).band(),
            final(array).registry() == old(array).registry(),
            final(self).available() == old(self).available() | (1u64 << protected_pointer.index() as u64),
            final(array).slots() == old(array).slots().update(old(self).start() + protected_pointer.index(), 0usize),
            final(self).retired_in(&*final(pool)),
            old(self).slots_match(*old(array)) ==> final(self).slots_match(*final(array)),
            retire_outcome(old(self).retired().push(protected_pointer.ptr()), final(array).slots(), old(pool)@, final(pool)@, final(self).retired()),
    {
        self.unprotect(array, &protected_pointer);
        let ptr = protected_pointer.into_raw();
        self.retire_raw_pointer(array, pool, ptr);
    }

    /// Adds `ptr` to the retire list; once the list grows past the scan
    /// threshold, reclaims every retired node that no slot protects.
    pub fn retire_raw_pointer<N>(&mut self, array: &HazardPointerArray, pool: &mut NodePool<N>, ptr: usize)
        requires
            old(self).wf(),
            array.wf(),
            old(self).retired_in(&*old(pool)),
            old(pool).live(ptr as int),
            !old(self).retired().contains(ptr),
        ensures
            final(self).wf(),
            final(self).band() == old(self).band(),
            final(self).available() == old(self).available(),
            final(self).retired_in(&*final(pool)),
            retire_outcome(old(self).retired().push(ptr), array.slots(), old(pool)@, final(pool)@, final(self).retired()),
    {
        self.d_list.push(ptr);
        if self.d_list.len() > SCAN_THRESHOLD {
            self.scan(array, pool);
        }
    }

    /// Reclaims every retired node whose address no slot of the table holds,
    /// and keeps the rest, in order.
    fn scan<N>(&mut self, array: &HazardPointerArray, pool: &mut NodePool<N>)
        requires
            old(self).wf(),
            array.wf(),
            old(self).retired_in(&*old(pool)),
        ensures
            final(self).wf(),
            final(self).band() == old(self).band(),
            final(self).available() == old(self).available(),
            final(self).retired_in(&*final(pool)),
            final(self).retired() == kept_after_scan(old(self).retired(), array.slots()),
            released(old(pool)@, final(pool)@, freed_by_scan(old(self).retired(), array.slots())),
    {
        let mut old_list: Vec<usize> = Vec::new();
        core::mem::swap(&mut old_list, &mut self.d_list);
        let ghost slots = array.slots();
        let ghost pool0 = pool@;
        let ghost list = old_list@;
        let mut i: usize = 0;
        while i < old_list.len()
            invariant
                array.wf(),
                slots == array.slots(),
                list == old_list@,
                i <= list.len(),
                list.no_duplicates(),
                forall|k: int| 0 <= k < list.len() ==> #[trigger] is_node_address(list[k] as int) && 0 <= cell_of(list[k] as int) < pool0.len() && pool0[cell_of(list[k] as int)] is Some,
                self.d_list@ == kept_after_scan(list.take(i as int), slots),
                released(pool0, pool@, freed_by_scan(list.take(i as int), slots)),
                self.starting_idx == old(self).starting_idx,
                self.available_indices == old(self).available_indices,
            decreases list.len() - i,
        {
            let a = old_list[i];
            proof {
                assert(list.take(i + 1).drop_last() == list.take(i as int));
                reveal(Seq::filter);
                assert(!list.take(i as int).contains(a)) by {
                    if list.take(i as int).contains(a) {
                        let k = choose|k: int| 0 <= k < i && list.take(i as int)[k] == a;
                        assert(list[k] == list[i as int]);
                    }
                }
            }
            let ghost g0 = freed_by_scan(list.take(i as int), slots);
            let ghost g1 = freed_by_scan(list.take(i + 1), slots);
            proof {
                if holds_address(g0, a as int) {
                    let k = choose|k: int| 0 <= k < g0.len() && g0[k] as int == a as int;
                    assert(g0.contains(g0[k]));
                    list.take(i as int).lemma_filter_contains_rev(|x: usize| !is_protected(slots, x), g0[k]);
                }
                assert(is_node_address(list[i as int] as int));
                assert(pool@[cell_of(a as int)] == pool0[cell_of(a as int)]);
            }
            if array.protects(a) {
                self.d_list.push(a);
                proof { assert(g1 == g0); }
            } else {
                pool.free(a);
                proof {
                    assert(g1 == g0.push(a));
                    assert forall|c: int| 0 <= c < pool0.len() implies #[trigger] pool@[c] == if holds_address(g1, 2 * (c + 1)) {
                        None::<Node<N>>
                    } else {
                        pool0[c]
                    } by {
                        if 2 * (c + 1) == a as int {
                            assert(g1[g1.len() - 1] == a);
                        } else {
                            if holds_address(g1, 2 * (c + 1)) {
                                let k = choose|k: int| 0 <= k < g1.len() && g1[k] as int == 2 * (c + 1);
                                assert(g0[k] == g1[k]);
                            }
                            if holds_address(g0, 2 * (c + 1)) {
                                let k = choose|k: int| 0 <= k < g0.len() && g0[k] as int == 2 * (c + 1);
                                assert(g1[k] == g0[k]);
                            }
                        }
                    }
                }
            }
            i = i + 1;
        }
        proof {
            assert(list.take(list.len() as int) == list);
            lemma_scan_keeps_live(list, slots, pool0, pool@);
        }
    }

    /// Gives the band back to the table: a last scan, then every slot of the
    /// band cleared and the band marked free. Retired nodes that some slot
    /// still protects stay unreclaimed.
    pub fn unregister_thread<N>(self, array: &mut HazardPointerArray, pool: &mut NodePool<N>)
        requires
            self.wf(),
            old(array).wf(),
            self.leases(*old(array)),
            self.retired_in(&*old(pool)),
        ensures
            final(array).wf(),
            final(array).slots() == Seq::new(SLOT_COUNT as nat, |j: int|
                if self.start() <= j < self.start() + HP_PER_THREAD { 0usize } else { old(array).slots()[j] }),
            final(array).registry() == old(array).registry() | (1u64 << self.band()),
            released(old(pool)@, final(pool)@, freed_by_scan(self.retired(), old(array).slots())),
    {
        let mut me = self;
        me.scan(array, pool);
        let start = me.starting_idx;
        let ghost slots0 = array.p_list@;
        let mut i: usize = 0;
        while i < HP_PER_THREAD
            invariant
                i <= HP_PER_THREAD,
                start + HP_PER_THREAD <= SLOT_COUNT,
                array.thread_registry == old(array).thread_registry,
                slots0 == old(array).p_list@,
                array.p_list@ == Seq::new(SLOT_COUNT as nat, |j: int|
                    if start <= j < start + i { 0usize } else { slots0[j] }),
            decreases HP_PER_THREAD - i,
        {
            array.p_list.set(start + i, 0);
            proof {
                assert(array.p_list@ =~= Seq::new(SLOT_COUNT as nat, |j: int|
                    if start <= j < start + i + 1 { 0usize } else { slots0[j] }));
            }
            i = i + 1;
        }
        let band = (start / HP_PER_THREAD) as u64;
        let reg = array.thread_registry;
        assert(reg <= 0xf && band < 4 ==> reg | (1u64 << band) <= 0xf) by (bit_vector);
        array.thread_registry = reg | (1u64 << band);
        proof {
            assert forall|j: int| 0 <= j < SLOT_COUNT && bit_set(array.registry(), (j / HP_PER_THREAD as int) as u64) implies #[trigger] array.slots()[j] == 0 by {
                let b = (j / HP_PER_THREAD as int) as u64;
                lemma_bit_set_or(reg, band, b);
                if b == band {
                    assert(start <= j < start + HP_PER_THREAD);
                } else {
                    assert(bit_set(old(array).registry(), b));
                }
            }
        }
    }
}

/// The retired addresses that a scan keeps: those some slot protects.
pub open spec fn kept_after_scan(retired: Seq<usize>, slots: Seq<usize>) -> Seq<usize> {
    retired.filter(|a: usize| is_protected(slots, a))
}

/// The retired addresses that a scan reclaims: those no slot protects.
pub open spec fn freed_by_scan(retired: Seq<usize>, slots: Seq<usize>) -> Seq<usize> {
    retired.filter(|a: usize| !is_protected(slots, a))
}

/// What a retire leaves behind: either the list simply grew, or it was long
/// enough to be scanned against `slots`.
pub open spec fn retire_outcome<N>(list: Seq<usize>, slots: Seq<usize>, before: Seq<Option<Node<N>>>, after: Seq<Option<Node<N>>>, kept: Seq<usize>) -> bool {
    if list.len() > SCAN_THRESHOLD {
        &&& kept == kept_after_scan(list, slots)
        &&& released(before, after, freed_by_scan(list, slots))
    } else {
        &&& kept == list
        &&& after == before
    }
}

proof fn lemma_filter_no_duplicates(list: Seq<usize>, pred: spec_fn(usize) -> bool)
    requires
        list.no_duplicates(),
    ensures
        list.filter(pred).no_duplicates(),
    decreases list.len(),
{
    reveal(Seq::filter);
    if list.len() > 0 {
        let rest = list.drop_last();
        assert(rest.no_duplicates()) by {
            assert forall|i: int, j: int| 0 <= i < rest.len() && 0 <= j < rest.len() && i != j implies rest[i] != rest[j] by {
                assert(rest[i] == list[i] && rest[j] == list[j]);
            }
        }
        lemma_filter_no_duplicates(rest, pred);
        let sub = rest.filter(pred);
        if pred(list.last()) {
            assert(!sub.contains(list.last())) by {
                if sub.contains(list.last()) {
                    rest.lemma_filter_contains_rev(pred, list.last());
                    let k = choose|k: int| 0 <= k < rest.len() && rest[k] == list.last();
                    assert(list[k] == list[list.len() - 1]);
                }
            }
            let out = sub.push(list.last());
            assert forall|i: int, j: int| 0 <= i < out.len() && 0 <= j < out.len() && i != j implies out[i] != out[j] by {
                if i < sub.len() && j < sub.len() {
                    assert(out[i] == sub[i] && out[j] == sub[j]);
                } else if i < sub.len() {
                    assert(out[i] == sub[i]);
                    assert(sub.contains(sub[i]));
                } else if j < sub.len() {
                    assert(out[j] == sub[j]);
                    assert(sub.contains(sub[j]));
                }
            }
        }
    }
}

proof fn lemma_scan_keeps_live<N>(list: Seq<usize>, slots: Seq<usize>, before: Seq<Option<Node<N>>>, after: Seq<Option<Node<N>>>)
    requires
        list.no_duplicates(),
        forall|k: int| 0 <= k < list.len() ==> #[trigger] is_node_address(list[k] as int) && 0 <= cell_of(list[k] as int) < before.len() && before[cell_of(list[k] as int)] is Some,
        released(before, after, freed_by_scan(list, slots)),
    ensures
        kept_after_scan(list, slots).no_duplicates(),
        forall|k: int| 0 <= k < kept_after_scan(list, slots).len() ==> {
            let a = #[trigger] kept_after_scan(list, slots)[k] as int;
            is_node_address(a) && 0 <= cell_of(a) < after.len() && after[cell_of(a)] is Some
        },
{
    let keep = |a: usize| is_protected(slots, a);
    let drop = |a: usize| !is_protected(slots, a);
    let kept = kept_after_scan(list, slots);
    let gone = freed_by_scan(list, slots);
    lemma_filter_no_duplicates(list, keep);
    assert forall|k: int| 0 <= k < kept.len() implies {
        let a = #[trigger] kept[k] as int;
        is_node_address(a) && 0 <= cell_of(a) < after.len() && after[cell_of(a)] is Some
    } by {
        let a = kept[k];
        assert(kept.contains(a));
        list.lemma_filter_contains_rev(keep, a);
        let j = choose|j: int| 0 <= j < list.len() && list[j] == a;
        assert(is_node_address(list[j] as int));
        let c = cell_of(a as int);
        assert(2 * (c + 1) == a as int);
        if holds_address(gone, a as int) {
            let m = choose|m: int| 0 <= m < gone.len() && gone[m] as int == a as int;
            assert(gone.contains(gone[m]));
            list.lemma_filter_contains_rev(drop, gone[m]);
        }
        assert(after[c] == before[c]);
    }
}

/// What any retire leaves alone: the pool keeps its size, every node whose
/// address is not on the list stays as it was, and the list keeps no address
/// it did not hold.
pub proof fn lemma_retire_untouched<N>(list: Seq<usize>, slots: Seq<usize>, before: Seq<Option<Node<N>>>, after: Seq<Option<Node<N>>>, kept: Seq<usize>)
    requires
        retire_outcome(list, slots, before, after, kept),
    ensures
        after.len() == before.len(),
        forall|i: int| 0 <= i < before.len() && !holds_address(list, 2 * (i + 1)) ==> #[trigger] after[i] == before[i],
        forall|x: usize| kept.contains(x) ==> list.contains(x),
{
    let keep = |a: usize| is_protected(slots, a);
    let drop = |a: usize| !is_protected(slots, a);
    if list.len() > SCAN_THRESHOLD {
        let gone = freed_by_scan(list, slots);
        assert forall|i: int| 0 <= i < before.len() && !holds_address(list, 2 * (i + 1)) implies #[trigger] after[i] == before[i] by {
            if holds_address(gone, 2 * (i + 1)) {
                let m = choose|m: int| 0 <= m < gone.len() && gone[m] as int == 2 * (i + 1);
                assert(gone.contains(gone[m]));
                list.lemma_filter_contains_rev(drop, gone[m]);
                let k = choose|k: int| 0 <= k < list.len() && list[k] == gone[m];
                assert(list[k] as int == 2 * (i + 1));
            }
        }
        assert forall|x: usize| kept.contains(x) implies list.contains(x) by {
            list.lemma_filter_contains_rev(keep, x);
        }
    }
}

/// The index of the lowest set bit, from the bits themselves.
proof fn lemma_lowest_set_bit_is(x: u64, t: u64)
    requires
        t < 64,
        bit_set(x, t),
        forall|j: u64| j < t ==> !#[trigger] bit_set(x, j),
    ensures
        lowest_set_bit(x) == t,
{
    axiom_u64_trailing_zeros(x);
    assert(x != 0) by {
        assert(((x >> t) & 1u64 == 1u64) ==> x != 0) by (bit_vector);
    }
    let z = u64_trailing_zeros(x) as u64;
    if z < t {
        assert(bit_set(x, z));
    } else if z > t {
        assert((x >> t) & 1u64 == 0u64);
    }
}

/// A guard with `k + 1` free slots also has `k`.
pub proof fn lemma_has_free_slots_weaken(x: u64, k: nat)
    requires
        has_free_slots(x, k + 1),
    ensures
        has_free_slots(x, k),
    decreases k,
{
    if k > 0 {
        lemma_has_free_slots_weaken(x & !(1u64 << lowest_set_bit(x)), (k - 1) as nat);
    }
}

/// A freshly registered guard, all of whose slots are free, has the three
/// free slots that the most demanding operation takes.
pub proof fn lemma_fresh_guard_has_free_slots()
    ensures
        has_free_slots(ALL_SLOTS_FREE, 3),
        has_free_slots(ALL_SLOTS_FREE, 2),
        has_free_slots(ALL_SLOTS_FREE, 1),
{
    assert(bit_set(0xffff, 0) && bit_set(0xfffe, 1) && !bit_set(0xfffe, 0) && bit_set(0xfffc, 2)
        && !bit_set(0xfffc, 0) && !bit_set(0xfffc, 1)
        && 0xffffu64 & !(1u64 << 0u64) == 0xfffe && 0xfffeu64 & !(1u64 << 1u64) == 0xfffc
        && 0xfffcu64 & !(1u64 << 2u64) == 0xfff8) by (bit_vector);
    lemma_lowest_set_bit_is(0xffff, 0);
    assert forall|j: u64| j < 1 implies !#[trigger] bit_set(0xfffe, j) by { assert(j == 0); }
    lemma_lowest_set_bit_is(0xfffe, 1);
    assert forall|j: u64| j < 2 implies !#[trigger] bit_set(0xfffc, j) by { assert(j == 0 || j == 1); }
    lemma_lowest_set_bit_is(0xfffc, 2);
    reveal_with_fuel(has_free_slots, 4);
    lemma_has_free_slots_weaken(ALL_SLOTS_FREE, 2);
    lemma_has_free_slots_weaken(ALL_SLOTS_FREE, 1);
}

/// Clearing bit `i` leaves every other bit as it was.
pub proof fn lemma_clear_bit(x: u64, i: u64, j: u64)
    requires
        i < 64,
        j < 64,
    ensures
        bit_set(x & !(1u64 << i), j) == (j != i && bit_set(x, j)),
{
    assert(i < 64 && j < 64 ==> ((((x & !(1u64 << i)) >> j) & 1u64 == 1u64) == (j != i && (x >> j) & 1u64 == 1u64))) by (bit_vector);
}

/// Clearing a set bit and setting it again gives back the bitmap.
pub proof fn lemma_restore_bit(x: u64, i: u64)
    requires
        i < 64,
        bit_set(x, i),
    ensures
        (x & !(1u64 << i)) | (1u64 << i) == x,
{
    assert(i < 64 && (x >> i) & 1u64 == 1u64 ==> (x & !(1u64 << i)) | (1u64 << i) == x) by (bit_vector);
}

/// Setting two bits does not depend on their order.
pub proof fn lemma_set_bits_commute(x: u64, i: u64, j: u64)
    ensures
        (x | (1u64 << i)) | (1u64 << j) == (x | (1u64 << j)) | (1u64 << i),
{
    assert((x | (1u64 << i)) | (1u64 << j) == (x | (1u64 << j)) | (1u64 << i)) by (bit_vector);
}

/// What a successful protection of a guard with `k + 1` free slots leaves:
/// `k` free slots, the taken bit clear, every other bit kept.
pub proof fn lemma_take_slot(x: u64, k: nat)
    requires
        has_free_slots(x, k + 1),
        x <= ALL_SLOTS_FREE,
    ensures
        x != 0,
        lowest_set_bit(x) < HP_PER_THREAD,
        bit_set(x, lowest_set_bit(x)),
        has_free_slots(x & !(1u64 << lowest_set_bit(x)), k),
        (x & !(1u64 << lowest_set_bit(x))) <= ALL_SLOTS_FREE,
        (x & !(1u64 << lowest_set_bit(x))) | (1u64 << lowest_set_bit(x)) == x,
        forall|j: u64| j < 64 ==> #[trigger] bit_set(x & !(1u64 << lowest_set_bit(x)), j) == (j != lowest_set_bit(x) && bit_set(x, j)),
{
    lemma_lowest_set_bit_below(x, 16);
    let i = lowest_set_bit(x);
    lemma_restore_bit(x, i);
    assert(x <= 0xffff ==> x & !(1u64 << i) <= 0xffff) by (bit_vector);
    assert forall|j: u64| j < 64 implies #[trigger] bit_set(x & !(1u64 << i), j) == (j != i && bit_set(x, j)) by {
        lemma_clear_bit(x, i, j);
    }
}

/// A retire leaves each address of the list either still on the retire
/// list or freed.
pub proof fn lemma_retired_or_freed<N>(list: Seq<usize>, slots: Seq<usize>, before: Seq<Option<Node<N>>>, after: Seq<Option<Node<N>>>, kept: Seq<usize>, a: usize)
    requires
        retire_outcome(list, slots, before, after, kept),
        list.contains(a),
        is_node_address(a as int),
        0 <= cell_of(a as int) < before.len(),
    ensures
        kept.contains(a) || after[cell_of(a as int)] is None,
{
    if list.len() > SCAN_THRESHOLD {
        let k = choose|k: int| 0 <= k < list.len() && list[k] == a;
        broadcast use vstd::seq_lib::group_filter_ensures;
        assert(list[k] == a);
        if !is_protected(slots, a) {
            let gone = freed_by_scan(list, slots);
            assert(gone.contains(a));
            let m = choose|m: int| 0 <= m < gone.len() && gone[m] == a;
            assert(2 * (cell_of(a as int) + 1) == a as int);
            assert(holds_address(gone, 2 * (cell_of(a as int) + 1)));
        }
    }
}

/// A scan never frees an address that some slot of its snapshot holds:
/// whatever a reader has published and not yet cleared stays allocated.
pub proof fn law_scan_spares_protected(retired: Seq<usize>, slots: Seq<usize>, a: usize)
    requires
        is_protected(slots, a),
    ensures
        !freed_by_scan(retired, slots).contains(a),
        retired.contains(a) ==> kept_after_scan(retired, slots).contains(a),
{
    broadcast use vstd::seq_lib::group_filter_ensures;
    if retired.contains(a) {
        let k = choose|k: int| 0 <= k < retired.len() && retired[k] == a;
        assert(retired[k] == a);
    }
}

/// Once no slot of the table holds an address, as after every guard has
/// released its band, a scan reclaims every retired node and keeps none.
pub proof fn law_unprotected_retirees_are_reclaimed(retired: Seq<usize>, slots: Seq<usize>)
    requires
        forall|i: int| 0 <= i < slots.len() ==> #[trigger] slots[i] == 0,
        forall|k: int| 0 <= k < retired.len() ==> #[trigger] retired[k] != 0,
    ensures
        kept_after_scan(retired, slots) == Seq::<usize>::empty(),
        freed_by_scan(retired, slots) == retired,
    decreases retired.len(),
{
    reveal(Seq::filter);
    if retired.len() > 0 {
        let rest = retired.drop_last();
        assert forall|k: int| 0 <= k < rest.len() implies #[trigger] rest[k] != 0 by {
            assert(rest[k] == retired[k]);
        }
        law_unprotected_retirees_are_reclaimed(rest, slots);
        assert(!is_protected(slots, retired.last())) by {
            if slots.contains(retired.last()) {
                let i = choose|i: int| 0 <= i < slots.len() && slots[i] == retired.last();
                assert(retired[retired.len() - 1] != 0);
            }
        }
        assert(rest.push(retired.last()) == retired);
    }
}

} // verus!
