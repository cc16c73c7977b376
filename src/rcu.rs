use vstd::prelude::*;
use crate::pool::{NodePool, NULL, cell_of, is_node_address, lemma_cell_injective};

verus! {

/// The low bit of the packed word: the current epoch.
pub const CONTROL_BIT: usize = 1;

/// `p` with epoch `e` in its low bit.
pub open spec fn packed(p: usize, e: usize) -> usize {
    p | e
}

proof fn lemma_pack(p: usize, e: usize)
    requires
        p % 2 == 0,
        e < 2,
    ensures
        (p | e) & CONTROL_BIT == e,
        (p | e) & !CONTROL_BIT == p,
{
    assert(p % 2 == 0 && e < 2 ==> (p | e) & 1usize == e && (p | e) & !1usize == p) by (bit_vector);
}

/// A single-writer, many-reader cell. The packed word holds the address of
/// the current version with the epoch in its low bit; the version it
/// replaced is kept in `previous_ptr` for one more update, and `readers`
/// counts, per epoch, the threads reading that epoch. Each registered
/// reading thread has its own pair of nested read counts in `nested`, so a
/// thread's repeated reads of one epoch count once in `readers`.
pub struct Rcu<T> {
    ptr_and_epoch: usize,
    previous_ptr: usize,
    readers: [usize; 2],
    nested: Vec<[usize; 2]>,
    versions: NodePool<T>,
}

/// A reading thread registered with one cell: it indexes that cell's table
/// of per-thread read counts.
pub struct ReaderId {
    index: usize,
}

/// A read of one version: its address, the epoch it was read in, and the
/// reader that holds it.
pub struct RcuReadGuard {
    ptr: usize,
    epoch: usize,
    reader: usize,
}

/// How many of the counts in `s` are not zero.
pub open spec fn active(s: Seq<usize>) -> nat
    decreases s.len(),
{
    if s.len() == 0 {
        0
    } else {
        active(s.drop_last()) + if s.last() > 0 { 1nat } else { 0nat }
    }
}

proof fn lemma_active_update(s: Seq<usize>, k: int, v: usize)
    requires
        0 <= k < s.len(),
    ensures
        active(s.update(k, v)) + (if s[k] > 0 { 1nat } else { 0nat }) == active(s) + (if v > 0 { 1nat } else { 0nat }),
    decreases s.len(),
{
    if k == s.len() - 1 {
        assert(s.update(k, v).drop_last() == s.drop_last());
    } else {
        lemma_active_update(s.drop_last(), k, v);
        assert(s.update(k, v).drop_last() == s.drop_last().update(k, v));
    }
}

impl ReaderId {
    pub closed spec fn index(&self) -> usize {
        self.index
    }
}

impl RcuReadGuard {
    pub closed spec fn ptr(&self) -> usize {
        self.ptr
    }

    pub closed spec fn epoch(&self) -> usize {
        self.epoch
    }

    pub closed spec fn reader(&self) -> usize {
        self.reader
    }
}

impl<T> Rcu<T> {
    /// Address of the current version.
    pub closed spec fn current_ptr(&self) -> usize {
        (self.ptr_and_epoch & !CONTROL_BIT) as usize
    }

    /// The current epoch, 0 or 1.
    pub closed spec fn epoch(&self) -> usize {
        (self.ptr_and_epoch & CONTROL_BIT) as usize
    }

    /// Address of the version that the last update replaced, or null.
    pub closed spec fn previous_ptr(&self) -> usize {
        self.previous_ptr
    }

    /// Threads reading each epoch.
    pub closed spec fn readers(&self) -> Seq<usize> {
        self.readers@
    }

    pub closed spec fn versions(&self) -> NodePool<T> {
        self.versions
    }

    /// Number of registered reading threads.
    pub closed spec fn reader_slots(&self) -> nat {
        self.nested@.len()
    }

    /// Reads that reader `k` holds in epoch `e`.
    pub closed spec fn nested(&self, k: int, e: int) -> usize {
        self.nested@[k][e]
    }

    /// Every reader's count for epoch `e`.
    pub open spec fn epoch_counts(&self, e: int) -> Seq<usize> {
        Seq::new(self.reader_slots(), |k: int| self.nested(k, e))
    }

    /// `g` is a read still held: its reader has a read open in its epoch.
    pub open spec fn live(&self, g: &RcuReadGuard) -> bool {
        &&& g.epoch() < 2
        &&& g.reader() < self.reader_slots()
        &&& self.nested(g.reader() as int, g.epoch() as int) > 0
    }

    /// At most two versions are alive, the current one and the one it
    /// replaced, and no other is ever reachable again.
    pub closed spec fn wf(&self) -> bool {
        let cur = self.current_ptr();
        let prev = self.previous_ptr;
        &&& self.epoch() < 2
        &&& self.ptr_and_epoch == packed(cur, self.epoch())
        &&& self.versions.live(cur as int)
        &&& prev != cur
        &&& prev == NULL || self.versions.live(prev as int)
        &&& forall|k: int| 0 <= k < self.versions@.len() && #[trigger] self.versions@[k] is Some ==>
                k == cell_of(cur as int) || (prev != NULL && k == cell_of(prev as int))
        &&& self.readers@.len() == 2
        &&& self.readers@[0] == active(self.epoch_counts(0))
        &&& self.readers@[1] == active(self.epoch_counts(1))
    }

    /// The current value.
    pub closed spec fn view(&self) -> T {
        self.versions.node(self.current_ptr() as int).data
    }

    /// The value that a read guard pins.
    pub closed spec fn pinned(&self, g: &RcuReadGuard) -> T {
        self.versions.node(g.ptr as int).data
    }

    /// `g` pins a version that is still alive: the current one in the
    /// current epoch, or the replaced one in the other epoch.
    pub open spec fn holds(&self, g: &RcuReadGuard) -> bool {
        ||| g.epoch() == self.epoch() && g.ptr() == self.current_ptr()
        ||| g.epoch() != self.epoch() && g.epoch() < 2 && g.ptr() == self.previous_ptr() && g.ptr() != NULL
    }

    /// A cell holding `data` in epoch 0, with no reader and no replaced version.
    pub fn new(data: T) -> (r: Self)
        requires
            vstd::layout::align_of::<T>() % 2 == 0,
        ensures
            r.wf(),
            r@ == data,
            r.epoch() == 0,
            r.readers() == seq![0usize, 0usize],
            r.previous_ptr() == NULL,
            r.versions()@.len() == 1,
            r.reader_slots() == 0,
    {
        let mut versions = NodePool::new();
        let data_ptr = versions.allocate(data, NULL, NULL);
        proof { lemma_pack(data_ptr, 0); }
        let r = Rcu { ptr_and_epoch: data_ptr | 0, previous_ptr: NULL, readers: [0, 0], nested: Vec::new(), versions };
        assert(r.readers() =~= seq![0usize, 0usize]);
        assert(r.epoch_counts(0) =~= Seq::<usize>::empty());
        assert(r.epoch_counts(1) =~= Seq::<usize>::empty());
        r
    }

    /// A well-formed cell is in epoch 0 or 1, and its current version is alive.
    pub proof fn lemma_epoch_bit(&self)
        requires
            self.wf(),
        ensures
            self.epoch() < 2,
            self.versions().live(self.current_ptr() as int),
            self.readers().len() == 2,
            self.readers()[0] == active(self.epoch_counts(0)),
            self.readers()[1] == active(self.epoch_counts(1)),
    {
    }

    /// A read still held keeps its epoch's reader count above zero.
    pub proof fn lemma_live_read_counted(&self, g: &RcuReadGuard)
        requires
            self.wf(),
            self.live(g),
        ensures
            self.readers()[g.epoch() as int] > 0,
    {
        let s = self.epoch_counts(g.epoch() as int);
        lemma_active_update(s, g.reader() as int, 0);
    }

    /// `self` and `other` hold the same versions in the same places, in
    /// the same epoch.
    pub open spec fn same_versions(&self, other: &Self) -> bool {
        &&& self.current_ptr() == other.current_ptr()
        &&& self.epoch() == other.epoch()
        &&& self.previous_ptr() == other.previous_ptr()
        &&& self.versions() == other.versions()
    }

    /// Registers a reading thread, with no read open.
    pub fn register_reader(&mut self) -> (r: ReaderId)
        requires
            old(self).wf(),
        ensures
            final(self).wf(),
            final(self).same_versions(&*old(self)),
            final(self).readers() == old(self).readers(),
            r.index() == old(self).reader_slots(),
            final(self).reader_slots() == old(self).reader_slots() + 1,
            final(self).nested(r.index() as int, 0) == 0,
            final(self).nested(r.index() as int, 1) == 0,
            forall|k: int, e: int| 0 <= k < old(self).reader_slots() ==> #[trigger] final(self).nested(k, e) == old(self).nested(k, e),
    {
        let index = self.nested.len();
        self.nested.push([0, 0]);
        proof {
            assert forall|e: int| 0 <= e < 2 implies active(#[trigger] self.epoch_counts(e)) == active(old(self).epoch_counts(e)) by {
                assert(self.epoch_counts(e).drop_last() =~= old(self).epoch_counts(e));
            }
        }
        ReaderId { index }
    }

    /// Reads the current version: the packed word gives its address and
    /// epoch, and the epoch's reader count goes up when this reader held no
    /// read of that epoch yet.
    pub fn read(&mut self, reader: &ReaderId) -> (g: RcuReadGuard)
        requires
            old(self).wf(),
            reader.index() < old(self).reader_slots(),
            old(self).readers()[old(self).epoch() as int] < usize::MAX,
            old(self).nested(reader.index() as int, old(self).epoch() as int) < usize::MAX,
        ensures
            final(self).wf(),
            final(self).same_versions(&*old(self)),
            g.ptr() == old(self).current_ptr(),
            g.epoch() == old(self).epoch(),
            g.epoch() < 2,
            g.reader() == reader.index(),
            final(self).holds(&g),
            final(self).live(&g),
            final(self).pinned(&g) == old(self)@,
            final(self).reader_slots() == old(self).reader_slots(),
            forall|k: int, e: int| 0 <= k < old(self).reader_slots() && 0 <= e < 2 ==> #[trigger] final(self).nested(k, e) == if k == g.reader() && e == g.epoch() {
                (old(self).nested(k, e) + 1) as usize
            } else {
                old(self).nested(k, e)
            },
            final(self).readers() == if old(self).nested(g.reader() as int, g.epoch() as int) == 0 {
                old(self).readers().update(g.epoch() as int, (old(self).readers()[g.epoch() as int] + 1) as usize)
            } else {
                old(self).readers()
            },
    {
        let ptr_and_epoch = self.ptr_and_epoch;
        let epoch = ptr_and_epoch & CONTROL_BIT;
        let k = reader.index;
        let mut counts = self.nested[k];
        if counts[epoch] == 0 {
            self.readers[epoch] = self.readers[epoch] + 1;
        }
        counts[epoch] = counts[epoch] + 1;
        self.nested.set(k, counts);
        proof {
            let e = epoch as int;
            let s0 = old(self).epoch_counts(e);
            lemma_active_update(s0, k as int, counts[e]);
            assert(self.epoch_counts(e) =~= s0.update(k as int, counts[e]));
            assert(self.epoch_counts(1 - e) =~= old(self).epoch_counts(1 - e));
        }
        RcuReadGuard { ptr: ptr_and_epoch & !CONTROL_BIT, epoch, reader: k }
    }

    /// Threads reading epoch `epoch`.
    pub fn reader_count(&self, epoch: usize) -> (r: usize)
        requires
            epoch < 2,
        ensures
            r == self.readers()[epoch as int],
    {
        self.readers[epoch]
    }

    /// The current epoch.
    pub fn current_epoch(&self) -> (r: usize)
        requires
            self.wf(),
        ensures
            r == self.epoch(),
    {
        self.ptr_and_epoch & CONTROL_BIT
    }

    /// The value that `g` pins.
    pub fn get(&self, g: &RcuReadGuard) -> (r: &T)
        requires
            self.wf(),
            self.holds(g),
        ensures
            *r == self.pinned(g),
            g.ptr() == self.current_ptr() ==> *r == self@,
    {
        &self.versions.get(g.ptr).data
    }

    /// Ends the read `g`: its reader's count for its epoch goes down, and
    /// the epoch's reader count with it when that was the reader's last read
    /// of the epoch.
    pub fn release(&mut self, g: RcuReadGuard)
        requires
            old(self).wf(),
            old(self).live(&g),
        ensures
            final(self).wf(),
            final(self).same_versions(&*old(self)),
            final(self).reader_slots() == old(self).reader_slots(),
            forall|k: int, e: int| 0 <= k < old(self).reader_slots() && 0 <= e < 2 ==> #[trigger] final(self).nested(k, e) == if k == g.reader() && e == g.epoch() {
                (old(self).nested(k, e) - 1) as usize
            } else {
                old(self).nested(k, e)
            },
            final(self).readers() == if old(self).nested(g.reader() as int, g.epoch() as int) == 1 {
                old(self).readers().update(g.epoch() as int, (old(self).readers()[g.epoch() as int] - 1) as usize)
            } else {
                old(self).readers()
            },
    {
        proof { old(self).lemma_live_read_counted(&g); }
        let epoch = g.epoch;
        let k = g.reader;
        let mut counts = self.nested[k];
        counts[epoch] = counts[epoch] - 1;
        if counts[epoch] == 0 {
            self.readers[epoch] = self.readers[epoch] - 1;
        }
        self.nested.set(k, counts);
        proof {
            let e = epoch as int;
            let s0 = old(self).epoch_counts(e);
            lemma_active_update(s0, k as int, counts[e]);
            assert(self.epoch_counts(e) =~= s0.update(k as int, counts[e]));
            assert(self.epoch_counts(1 - e) =~= old(self).epoch_counts(1 - e));
        }
    }

    /// Reads that `reader` holds open in `epoch`.
    pub fn nested_count(&self, reader: &ReaderId, epoch: usize) -> (r: usize)
        requires
            reader.index() < self.reader_slots(),
            epoch < 2,
        ensures
            r == self.nested(reader.index() as int, epoch as int),
    {
        self.nested[reader.index][epoch]
    }

    /// With no reader left in `sync_epoch`, makes `ptr` the replaced
    /// version and frees the one it replaced before, unless that is `ptr`
    /// itself or null.
    fn synchronize(&mut self, sync_epoch: usize, ptr: usize)
        requires
            sync_epoch < 2,
            old(self).readers()[sync_epoch as int] == 0,
            old(self).previous_ptr() == NULL || old(self).versions().live(old(self).previous_ptr() as int),
        ensures
            final(self).ptr_and_epoch == old(self).ptr_and_epoch,
            final(self).readers == old(self).readers,
            final(self).nested == old(self).nested,
            final(self).previous_ptr == ptr,
            old(self).previous_ptr != NULL && old(self).previous_ptr != ptr ==> final(self).versions@ == old(self).versions@.update(cell_of(old(self).previous_ptr as int), None),
            !(old(self).previous_ptr != NULL && old(self).previous_ptr != ptr) ==> final(self).versions == old(self).versions,
    {
        let previous_ptr = self.previous_ptr;
        self.previous_ptr = ptr;
        if previous_ptr != NULL && previous_ptr != ptr {
            self.versions.free(previous_ptr);
        }
    }

    /// Installs `data` as the current version in the other epoch. It waits
    /// for that epoch to have no reader, so here it asks that none be left;
    /// the version it replaces stays readable until the next update. No
    /// read still held loses its version: a held read keeps its epoch's
    /// reader count above zero, so it is never in the epoch being drained.
    pub fn update(&mut self, data: T)
        requires
            old(self).wf(),
            old(self).versions().has_room(),
            old(self).readers()[1 - old(self).epoch()] == 0,
        ensures
            final(self).wf(),
            final(self).versions()@.len() == old(self).versions()@.len() + 1,
            final(self)@ == data,
            final(self).epoch() == 1 - old(self).epoch(),
            final(self).previous_ptr() == old(self).current_ptr(),
            final(self).versions().live(old(self).current_ptr() as int),
            old(self).previous_ptr() != NULL ==> !final(self).versions().live(old(self).previous_ptr() as int),
            final(self).readers() == old(self).readers(),
            final(self).reader_slots() == old(self).reader_slots(),
            forall|k: int, e: int| #[trigger] final(self).nested(k, e) == old(self).nested(k, e),
            forall|g: RcuReadGuard| #[trigger] old(self).holds(&g) && old(self).live(&g) ==>
                final(self).holds(&g) && final(self).live(&g) && final(self).pinned(&g) == old(self).pinned(&g),
    {
        self.install(data);
    }

    /// Like `update`, but gives up, allocating nothing, when the other epoch
    /// still has readers.
    pub fn try_update(&mut self, data: T) -> (r: bool)
        requires
            old(self).wf(),
            old(self).versions().has_room(),
        ensures
            final(self).wf(),
            final(self).versions()@.len() == old(self).versions()@.len() + if r { 1int } else { 0int },
            r == (old(self).readers()[1 - old(self).epoch()] == 0),
            !r ==> final(self).same_versions(&*old(self)),
            !r ==> final(self)@ == old(self)@,
            r ==> final(self)@ == data,
            r ==> final(self).epoch() == 1 - old(self).epoch(),
            r ==> final(self).previous_ptr() == old(self).current_ptr(),
            final(self).versions().live(old(self).current_ptr() as int),
            r && old(self).previous_ptr() != NULL ==> !final(self).versions().live(old(self).previous_ptr() as int),
            final(self).readers() == old(self).readers(),
            final(self).reader_slots() == old(self).reader_slots(),
            forall|k: int, e: int| #[trigger] final(self).nested(k, e) == old(self).nested(k, e),
            forall|g: RcuReadGuard| #[trigger] old(self).holds(&g) && old(self).live(&g) ==>
                final(self).holds(&g) && final(self).live(&g) && final(self).pinned(&g) == old(self).pinned(&g),
    {
        let next_epoch = (self.ptr_and_epoch & CONTROL_BIT) ^ CONTROL_BIT;
        proof {
            let e = self.ptr_and_epoch & CONTROL_BIT;
            assert(e < 2 ==> e ^ 1usize == 1 - e) by (bit_vector);
        }
        if self.readers[next_epoch] != 0 {
            return false;
        }
        self.install(data);
        true
    }

    /// The body of an update once the other epoch has no reader: a fresh
    /// version holding `data` becomes current in that epoch.
    fn install(&mut self, data: T)
        requires
            old(self).wf(),
            old(self).versions().has_room(),
            old(self).readers()[1 - old(self).epoch()] == 0,
        ensures
            final(self).wf(),
            final(self).versions()@.len() == old(self).versions()@.len() + 1,
            final(self)@ == data,
            final(self).epoch() == 1 - old(self).epoch(),
            final(self).previous_ptr() == old(self).current_ptr(),
            final(self).versions().live(old(self).current_ptr() as int),
            old(self).previous_ptr() != NULL ==> !final(self).versions().live(old(self).previous_ptr() as int),
            final(self).readers() == old(self).readers(),
            final(self).reader_slots() == old(self).reader_slots(),
            forall|k: int, e: int| #[trigger] final(self).nested(k, e) == old(self).nested(k, e),
            forall|g: RcuReadGuard| #[trigger] old(self).holds(&g) && old(self).live(&g) ==>
                final(self).holds(&g) && final(self).live(&g) && final(self).pinned(&g) == old(self).pinned(&g),
    {
        let ghost pool0 = self.versions@;
        let new_data_ptr = self.versions.allocate(data, NULL, NULL);
        let current_ptr_and_epoch = self.ptr_and_epoch;
        let current_epoch = current_ptr_and_epoch & CONTROL_BIT;
        let next_epoch = current_epoch ^ CONTROL_BIT;
        let current_ptr = current_ptr_and_epoch & !CONTROL_BIT;
        proof {
            assert(current_epoch < 2 ==> current_epoch ^ 1usize == 1 - current_epoch) by (bit_vector);
            assert(old(self).versions.live(current_ptr as int));
            assert(cell_of(current_ptr as int) < pool0.len());
            let prev = old(self).previous_ptr;
            if prev != NULL {
                assert(old(self).versions.live(prev as int));
                lemma_cell_injective(prev as int, new_data_ptr as int);
            }
        }
        self.synchronize(next_epoch, current_ptr);
        proof { lemma_pack(new_data_ptr, next_epoch); }
        self.ptr_and_epoch = new_data_ptr | next_epoch;
        proof {
            let prev = old(self).previous_ptr;
            lemma_cell_injective(current_ptr as int, new_data_ptr as int);
            if prev != NULL {
                lemma_cell_injective(prev as int, current_ptr as int);
            }
            assert(self.versions.live(new_data_ptr as int));
            assert(self.versions.live(current_ptr as int));
            assert forall|k: int| 0 <= k < self.versions@.len() && #[trigger] self.versions@[k] is Some implies
                k == cell_of(new_data_ptr as int) || k == cell_of(current_ptr as int) by {
                if k < pool0.len() {
                    assert(pool0[k] is Some);
                }
            }
            assert(self.epoch_counts(0) =~= old(self).epoch_counts(0));
            assert(self.epoch_counts(1) =~= old(self).epoch_counts(1));
            assert forall|g: RcuReadGuard| #[trigger] old(self).holds(&g) && old(self).live(&g) implies
                self.holds(&g) && self.live(&g) && self.pinned(&g) == old(self).pinned(&g) by {
                old(self).lemma_live_read_counted(&g);
                assert(g.ptr() == current_ptr);
            }
        }
    }
}

} // verus!
