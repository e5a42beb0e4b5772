use vstd::prelude::*;

use crate::handle::{InstanceError, ModelHandle};
use crate::raw::{apply_writes, lemma_record_bytes_index, record_bytes, BufferWrite, InstanceRaw, INSTANCE_SIZE};

verus! {

/// One model's instances: a sparse set over slot ids `0..capacity`.
///
/// `dense[0..live]` holds the live records packed together; `sparse[s]` is the
/// dense position of slot `s` when it is live; `dense_to_slot` maps a dense
/// position back to its slot; `free_list` is a stack of released slot ids.
/// Positions of `dense` at or past `live` hold stale records: removal leaves
/// them as they were, and so does the GPU buffer.
pub struct InstanceGroup {
    model: ModelHandle,
    dense: Vec<InstanceRaw>,
    sparse: Vec<Option<u16>>,
    dense_to_slot: Vec<u16>,
    free_list: Vec<u16>,
    max_instances: u16,
    num_instances: u16,
}

/// `w` lies within `next`'s buffer, and it carries any GPU buffer that mirrors
/// `prev` to one that mirrors `next`.
pub open spec fn write_keeps_sync(prev: InstanceGroup, next: InstanceGroup, w: BufferWrite) -> bool {
    &&& w.fits(next.capacity())
    &&& forall|gpu: Seq<InstanceRaw>| #[trigger] prev.synced(gpu) ==> next.synced(w.apply(gpu))
}

impl InstanceGroup {
    /// Number of slots, fixed when the group is made.
    pub closed spec fn capacity(self) -> nat {
        self.max_instances as nat
    }

    /// Number of live instances.
    pub closed spec fn live_count(self) -> nat {
        self.num_instances as nat
    }

    /// The model the group belongs to.
    pub closed spec fn model(self) -> ModelHandle {
        self.model
    }

    /// The dense record array, `capacity` long.
    pub closed spec fn dense(self) -> Seq<InstanceRaw> {
        self.dense@
    }

    /// Dense position of each slot, `None` for a slot that is not live.
    pub closed spec fn sparse(self) -> Seq<Option<u16>> {
        self.sparse@
    }

    /// Slot of each dense position; meaningful below `live_count`.
    pub closed spec fn dense_to_slot(self) -> Seq<u16> {
        self.dense_to_slot@
    }

    /// Released slot ids; the last one is reused first.
    pub closed spec fn free_list(self) -> Seq<u16> {
        self.free_list@
    }

    /// The sparse-set invariant. With `high = live + free_list.len()`, slot
    /// ids at or past `high` have never been handed out since the last bulk set.
    pub open spec fn wf(self) -> bool {
        let cap = self.capacity();
        let live = self.live_count();
        let high = live + self.free_list().len();
        &&& self.dense().len() == cap
        &&& self.sparse().len() == cap
        &&& self.dense_to_slot().len() == cap
        &&& high <= cap
        &&& forall|s: int|
            0 <= s < cap && #[trigger] self.sparse()[s] is Some ==> {
                &&& self.sparse()[s]->0 < live
                &&& self.dense_to_slot()[self.sparse()[s]->0 as int] == s
            }
        &&& forall|p: int|
            0 <= p < live ==> {
                &&& #[trigger] self.dense_to_slot()[p] < high
                &&& self.sparse()[self.dense_to_slot()[p] as int] == Some(p as u16)
            }
        &&& forall|s: int| high <= s < cap ==> #[trigger] self.sparse()[s] is None
        &&& forall|i: int|
            0 <= i < self.free_list().len() ==> {
                &&& #[trigger] self.free_list()[i] < high
                &&& self.sparse()[self.free_list()[i] as int] is None
            }
        &&& self.free_list().no_duplicates()
    }

    pub open spec fn is_live(self, slot: u16) -> bool {
        slot < self.capacity() && self.sparse()[slot as int] is Some
    }

    /// Dense position of a live slot.
    pub open spec fn pos_of(self, slot: u16) -> int {
        self.sparse()[slot as int]->0 as int
    }

    /// Record that a live slot resolves to.
    pub open spec fn resolve(self, slot: u16) -> InstanceRaw {
        self.dense()[self.pos_of(slot)]
    }

    /// The instances of the group: each live slot with its record.
    pub open spec fn contents(self) -> Map<u16, InstanceRaw> {
        Map::new(|s: u16| self.is_live(s), |s: u16| self.resolve(s))
    }

    /// The live records in dense order: what the GPU buffer must begin with.
    pub open spec fn mirror(self) -> Seq<InstanceRaw> {
        self.dense().take(self.live_count() as int)
    }

    /// `gpu`, a buffer of `capacity` records, begins with the live records.
    pub open spec fn synced(self, gpu: Seq<InstanceRaw>) -> bool {
        &&& gpu.len() == self.capacity()
        &&& gpu.take(self.live_count() as int) == self.mirror()
    }

    /// `next` is `self` after `record` was added under `slot`, and `w` is the
    /// write that mirrors the change.
    pub open spec fn adds(self, next: Self, record: InstanceRaw, slot: u16, w: BufferWrite) -> bool {
        let pos = self.live_count();
        &&& slot == (if self.free_list().len() > 0 {
            self.free_list().last()
        } else {
            pos as u16
        })
        &&& slot < self.capacity()
        &&& !self.is_live(slot)
        &&& next.capacity() == self.capacity()
        &&& next.model() == self.model()
        &&& next.live_count() == pos + 1
        &&& next.contents() == self.contents().insert(slot, record)
        &&& next.dense() == self.dense().update(pos as int, record)
        &&& next.sparse() == self.sparse().update(slot as int, Some(pos as u16))
        &&& next.dense_to_slot() == self.dense_to_slot().update(pos as int, slot)
        &&& next.free_list() == (if self.free_list().len() > 0 {
            self.free_list().drop_last()
        } else {
            self.free_list()
        })
        &&& w.first == pos
        &&& w.records@ == seq![record]
        &&& write_keeps_sync(self, next, w)
    }

    /// A group of `max_instances` slots, none of them live.
    pub fn new_empty(model: ModelHandle, max_instances: u16) -> (r: Self)
        ensures
            r.wf(),
            r.model() == model,
            r.capacity() == max_instances,
            r.live_count() == 0,
            r.free_list() == Seq::<u16>::empty(),
            r.contents() == Map::<u16, InstanceRaw>::empty(),
    {
        let blank = InstanceRaw { bytes: [0u8; INSTANCE_SIZE] };
        let mut dense: Vec<InstanceRaw> = Vec::new();
        let mut sparse: Vec<Option<u16>> = Vec::new();
        let mut dense_to_slot: Vec<u16> = Vec::new();
        let mut i: u16 = 0;
        while i < max_instances
            invariant
                i <= max_instances,
                dense@.len() == i,
                dense_to_slot@.len() == i,
                sparse@.len() == i,
                forall|s: int| 0 <= s < i ==> #[trigger] sparse@[s] is None,
            decreases max_instances - i,
        {
            dense.push(blank);
            sparse.push(None);
            dense_to_slot.push(0);
            i += 1;
        }
        let r = InstanceGroup {
            model,
            dense,
            sparse,
            dense_to_slot,
            free_list: Vec::new(),
            max_instances,
            num_instances: 0,
        };
        assert(r.contents() =~= Map::<u16, InstanceRaw>::empty());
        r
    }

    /// Adds `record` under a slot taken from the top of the free list, or under
    /// the next fresh slot id when the free list is empty. Fails when the group
    /// is full.
    pub fn add(&mut self, record: InstanceRaw) -> (r: Result<(u16, BufferWrite), InstanceError>)
        requires
            old(self).wf(),
        ensures
            final(self).wf(),
            r is Err <==> old(self).live_count() == old(self).capacity(),
            r matches Err(e) ==> e == InstanceError::CapacityExceeded && *final(self) == *old(self),
            r matches Ok((slot, w)) ==> old(self).adds(*final(self), record, slot, w),
    {
        if self.num_instances == self.max_instances {
            return Err(InstanceError::CapacityExceeded);
        }
        let ghost prev = *self;
        let pos = self.num_instances;
        let slot = match self.free_list.pop() {
            Some(s) => s,
            None => pos,
        };
        proof {
            if prev.free_list@.len() > 0 {
                let n = prev.free_list@.len() - 1;
                assert(prev.free_list@[n] == slot);
                assert forall|i: int| 0 <= i < self.free_list@.len() implies self.free_list@[i] != slot by {
                    assert(prev.free_list@[i] == self.free_list@[i]);
                }
            }
        }
        self.dense.set(pos as usize, record);
        self.sparse.set(slot as usize, Some(pos));
        self.dense_to_slot.set(pos as usize, slot);
        self.num_instances = pos + 1;
        let mut records: Vec<InstanceRaw> = Vec::new();
        records.push(record);
        let w = BufferWrite { first: pos, records };
        proof {
            let next = *self;
            assert forall|p: int| 0 <= p < next.live_count() implies {
                &&& #[trigger] next.dense_to_slot()[p] < next.live_count() + next.free_list().len()
                &&& next.sparse()[next.dense_to_slot()[p] as int] == Some(p as u16)
            } by {
                if p < pos {
                    assert(prev.dense_to_slot()[p] != slot);
                }
            }
            assert(next.contents() =~= prev.contents().insert(slot, record));
            assert forall|gpu: Seq<InstanceRaw>| #[trigger] prev.synced(gpu) implies next.synced(w.apply(gpu)) by {
                prev.lemma_synced_prefix(gpu);
                assert(w.apply(gpu).take(pos + 1) =~= next.mirror());
            }
        }
        Ok((slot, w))
    }

    /// A buffer that mirrors the group holds each live record at its dense position.
    proof fn lemma_synced_prefix(self, gpu: Seq<InstanceRaw>)
        requires
            self.wf(),
            self.synced(gpu),
        ensures
            forall|i: int| 0 <= i < self.live_count() ==> gpu[i] == #[trigger] self.dense()[i],
    {
        assert forall|i: int| 0 <= i < self.live_count() implies gpu[i] == #[trigger] self.dense()[i] by {
            assert(gpu.take(self.live_count() as int)[i] == self.mirror()[i]);
        }
    }

    /// `next` is `self` after the record of live `slot` was replaced by `record`,
    /// and `w` is the write that mirrors the change.
    pub open spec fn updates(self, next: Self, slot: u16, record: InstanceRaw, w: BufferWrite) -> bool {
        let pos = self.pos_of(slot);
        &&& self.is_live(slot)
        &&& next.capacity() == self.capacity()
        &&& next.model() == self.model()
        &&& next.live_count() == self.live_count()
        &&& next.contents() == self.contents().insert(slot, record)
        &&& next.dense() == self.dense().update(pos, record)
        &&& next.sparse() == self.sparse()
        &&& next.dense_to_slot() == self.dense_to_slot()
        &&& next.free_list() == self.free_list()
        &&& w.first == pos
        &&& w.records@ == seq![record]
        &&& write_keeps_sync(self, next, w)
    }

    /// Replaces the record of a live slot, in place. Fails when `slot` is not live.
    pub fn update(&mut self, slot: u16, record: InstanceRaw) -> (r: Result<BufferWrite, InstanceError>)
        requires
            old(self).wf(),
        ensures
            final(self).wf(),
            r is Err <==> !old(self).is_live(slot),
            r matches Err(e) ==> e == InstanceError::InvalidHandle && *final(self) == *old(self),
            r matches Ok(w) ==> old(self).updates(*final(self), slot, record, w),
    {
        if slot >= self.max_instances {
            return Err(InstanceError::InvalidHandle);
        }
        let pos = match self.sparse[slot as usize] {
            Some(p) => p,
            None => {
                return Err(InstanceError::InvalidHandle);
            },
        };
        let ghost prev = *self;
        self.dense.set(pos as usize, record);
        let mut records: Vec<InstanceRaw> = Vec::new();
        records.push(record);
        let w = BufferWrite { first: pos, records };
        proof {
            let next = *self;
            assert(next.contents() =~= prev.contents().insert(slot, record));
            assert forall|gpu: Seq<InstanceRaw>| #[trigger] prev.synced(gpu) implies next.synced(w.apply(gpu)) by {
                prev.lemma_synced_prefix(gpu);
                assert(w.apply(gpu).take(next.live_count() as int) =~= next.mirror());
            }
        }
        Ok(w)
    }

    /// The live slot ids.
    pub open spec fn live_slots(self) -> Set<u16> {
        Set::new(|s: u16| self.is_live(s))
    }

    /// Slot id at a dense position.
    pub open spec fn slot_at(self, pos: int) -> u16 {
        self.dense_to_slot()[pos]
    }

    /// `next` is `self` after live `slot` was removed, and `w` is the write that
    /// mirrors the change. The last live record moves into the freed position.
    pub open spec fn removes(self, next: Self, slot: u16, w: BufferWrite) -> bool {
        let pos = self.pos_of(slot);
        let last = self.live_count() - 1;
        let moved = self.slot_at(last);
        &&& self.is_live(slot)
        &&& next.capacity() == self.capacity()
        &&& next.model() == self.model()
        &&& next.live_count() == last
        &&& next.contents() == self.contents().remove(slot)
        &&& next.free_list() == self.free_list().push(slot)
        &&& w.first == pos
        &&& if pos != last {
            &&& next.dense() == self.dense().update(pos, self.dense()[last])
            &&& next.sparse() == self.sparse().update(moved as int, Some(pos as u16)).update(
                slot as int,
                None,
            )
            &&& next.dense_to_slot() == self.dense_to_slot().update(pos, moved)
            &&& w.records@ == seq![self.dense()[last]]
        } else {
            &&& next.dense() == self.dense()
            &&& next.sparse() == self.sparse().update(slot as int, None)
            &&& next.dense_to_slot() == self.dense_to_slot()
            &&& w.records@.len() == 0
        }
        &&& write_keeps_sync(self, next, w)
    }

    /// Removes a live slot: the last live record is copied into its dense
    /// position, so the live records stay packed, and the slot id goes on top
    /// of the free list. Fails when `slot` is not live.
    pub fn remove(&mut self, slot: u16) -> (r: Result<BufferWrite, InstanceError>)
        requires
            old(self).wf(),
        ensures
            final(self).wf(),
            r is Err <==> !old(self).is_live(slot),
            r matches Err(e) ==> e == InstanceError::InvalidHandle && *final(self) == *old(self),
            r matches Ok(w) ==> old(self).removes(*final(self), slot, w),
    {
        if slot >= self.max_instances {
            return Err(InstanceError::InvalidHandle);
        }
        let pos = match self.sparse[slot as usize] {
            Some(p) => p,
            None => {
                return Err(InstanceError::InvalidHandle);
            },
        };
        let ghost prev = *self;
        let last = self.num_instances - 1;
        let mut records: Vec<InstanceRaw> = Vec::new();
        if pos != last {
            let moved = self.dense_to_slot[last as usize];
            let rec = self.dense[last as usize];
            self.dense.set(pos as usize, rec);
            self.sparse.set(moved as usize, Some(pos));
            self.dense_to_slot.set(pos as usize, moved);
            records.push(rec);
        }
        self.num_instances = last;
        self.sparse.set(slot as usize, None);
        self.free_list.push(slot);
        let w = BufferWrite { first: pos, records };
        proof {
            let next = *self;
            let moved = prev.slot_at(last as int);
            assert(moved == slot <==> pos == last);
            assert forall|i: int| 0 <= i < next.free_list().len() implies {
                &&& #[trigger] next.free_list()[i] < next.live_count() + next.free_list().len()
                &&& next.sparse()[next.free_list()[i] as int] is None
            } by {
                if i < prev.free_list().len() {
                    assert(prev.free_list()[i] == next.free_list()[i]);
                }
            }
            assert forall|i: int, j: int|
                0 <= i < next.free_list().len() && 0 <= j < next.free_list().len() && i != j
                implies next.free_list()[i] != next.free_list()[j] by {
                if i < prev.free_list().len() {
                    assert(prev.free_list()[i] == next.free_list()[i]);
                }
                if j < prev.free_list().len() {
                    assert(prev.free_list()[j] == next.free_list()[j]);
                }
            }
            assert forall|p: int| 0 <= p < next.live_count() implies {
                &&& #[trigger] next.dense_to_slot()[p] < next.live_count() + next.free_list().len()
                &&& next.sparse()[next.dense_to_slot()[p] as int] == Some(p as u16)
            } by {
                if p != pos {
                    assert(prev.sparse()[prev.dense_to_slot()[p] as int] == Some(p as u16));
                }
            }
            assert(next.contents() =~= prev.contents().remove(slot));
            assert forall|gpu: Seq<InstanceRaw>| #[trigger] prev.synced(gpu) implies next.synced(w.apply(gpu)) by {
                prev.lemma_synced_prefix(gpu);
                assert(w.apply(gpu).take(next.live_count() as int) =~= next.mirror());
            }
        }
        Ok(w)
    }

    /// `next` is `self` after its live set was replaced by `records`, slot `i`
    /// holding `records[i]` at dense position `i`, and `w` is the one write
    /// that mirrors the change.
    pub open spec fn bulk_sets(self, next: Self, records: Seq<InstanceRaw>, w: BufferWrite) -> bool {
        let n = records.len();
        &&& n <= self.capacity()
        &&& next.capacity() == self.capacity()
        &&& next.model() == self.model()
        &&& next.live_count() == n
        &&& next.contents() == Map::new(|s: u16| s < n, |s: u16| records[s as int])
        &&& next.dense() == records + self.dense().skip(n as int)
        &&& forall|s: int| 0 <= s < n ==> #[trigger] next.sparse()[s] == Some(s as u16)
        &&& forall|s: int| n <= s < self.capacity() ==> #[trigger] next.sparse()[s] is None
        &&& forall|p: int| 0 <= p < n ==> #[trigger] next.dense_to_slot()[p] == p
        &&& next.free_list() == Seq::<u16>::empty()
        &&& w.first == 0
        &&& w.records@ == records
        &&& write_keeps_sync(self, next, w)
    }

    /// Replaces the whole live set by `records` and empties the free list.
    /// Fails, changing nothing, when there are more records than slots.
    pub fn bulk_set(&mut self, records: &[InstanceRaw]) -> (r: Result<BufferWrite, InstanceError>)
        requires
            old(self).wf(),
        ensures
            final(self).wf(),
            r is Err <==> records@.len() > old(self).capacity(),
            r matches Err(e) ==> e == InstanceError::CapacityExceeded && *final(self) == *old(self),
            r matches Ok(w) ==> old(self).bulk_sets(*final(self), records@, w),
    {
        if records.len() > self.max_instances as usize {
            return Err(InstanceError::CapacityExceeded);
        }
        let ghost prev = *self;
        let n = records.len() as u16;
        let mut written: Vec<InstanceRaw> = Vec::new();
        let mut i: u16 = 0;
        while i < n
            invariant
                n == records@.len(),
                n <= self.max_instances,
                i <= n,
                self.max_instances == prev.max_instances,
                self.model == prev.model,
                self.dense@.len() == prev.dense@.len(),
                self.sparse@.len() == prev.sparse@.len(),
                self.dense_to_slot@.len() == prev.dense_to_slot@.len(),
                prev.wf(),
                written@ == records@.take(i as int),
                self.dense@ == records@.take(i as int) + prev.dense@.skip(i as int),
                forall|s: int| 0 <= s < i ==> #[trigger] self.sparse@[s] == Some(s as u16),
                forall|p: int| 0 <= p < i ==> #[trigger] self.dense_to_slot@[p] == p,
            decreases n - i,
        {
            let rec = records[i as usize];
            self.dense.set(i as usize, rec);
            self.sparse.set(i as usize, Some(i));
            self.dense_to_slot.set(i as usize, i);
            written.push(rec);
            proof {
                assert(records@.take(i as int + 1) =~= records@.take(i as int).push(rec));
                assert(self.dense@ =~= records@.take(i as int + 1) + prev.dense@.skip(i as int + 1));
            }
            i += 1;
        }
        let cap = self.max_instances;
        let mut j: u16 = n;
        while j < cap
            invariant
                n == records@.len(),
                n <= j <= cap,
                cap == self.max_instances,
                self.max_instances == prev.max_instances,
                self.model == prev.model,
                self.dense@ == records@ + prev.dense@.skip(n as int),
                self.sparse@.len() == prev.sparse@.len(),
                self.dense_to_slot@.len() == prev.dense_to_slot@.len(),
                prev.wf(),
                written@ == records@,
                forall|s: int| 0 <= s < n ==> #[trigger] self.sparse@[s] == Some(s as u16),
                forall|s: int| n <= s < j ==> #[trigger] self.sparse@[s] is None,
                forall|p: int| 0 <= p < n ==> #[trigger] self.dense_to_slot@[p] == p,
            decreases cap - j,
        {
            self.sparse.set(j as usize, None);
            j += 1;
        }
        self.free_list = Vec::new();
        self.num_instances = n;
        let w = BufferWrite { first: 0, records: written };
        proof {
            let next = *self;
            assert(records@.take(n as int) =~= records@);
            assert(next.contents() =~= Map::new(|s: u16| s < n, |s: u16| records@[s as int]));
            assert(next.mirror() =~= records@);
            assert forall|gpu: Seq<InstanceRaw>| #[trigger] prev.synced(gpu) implies next.synced(w.apply(gpu)) by {
                assert(w.apply(gpu).take(n as int) =~= next.mirror());
            }
        }
        Ok(w)
    }

    /// `next` is `self` after `records[i]` was added under `slots[i]`, for each
    /// `i` in order, and `ws` are the writes that mirror the change, in order.
    pub open spec fn adds_all(self, next: Self, records: Seq<InstanceRaw>, slots: Seq<u16>, ws: Seq<BufferWrite>) -> bool {
        &&& slots.len() == records.len()
        &&& ws.len() == records.len()
        &&& next.capacity() == self.capacity()
        &&& next.model() == self.model()
        &&& next.live_count() == self.live_count() + records.len()
        &&& slots.no_duplicates()
        &&& forall|i: int| 0 <= i < slots.len() ==> !self.is_live(#[trigger] slots[i]) && slots[i] < self.capacity()
        &&& forall|i: int| 0 <= i < slots.len() ==> next.is_live(#[trigger] slots[i]) && next.resolve(slots[i]) == records[i]
        &&& forall|t: u16| #[trigger] self.is_live(t) ==> next.is_live(t) && next.resolve(t) == self.resolve(t)
        &&& forall|t: u16| #[trigger] next.is_live(t) ==> self.is_live(t) || slots.contains(t)
        &&& forall|i: int| 0 <= i < ws.len() ==> (#[trigger] ws[i]).fits(self.capacity())
        &&& forall|gpu: Seq<InstanceRaw>| #[trigger] self.synced(gpu) ==> next.synced(apply_writes(gpu, ws))
    }

    /// Adds every record of `records`, in order, each as `add` would. Fails,
    /// changing nothing, when they do not all fit.
    pub fn add_all(&mut self, records: &[InstanceRaw]) -> (r: Result<(Vec<u16>, Vec<BufferWrite>), InstanceError>)
        requires
            old(self).wf(),
        ensures
            final(self).wf(),
            r is Err <==> old(self).live_count() + records@.len() > old(self).capacity(),
            r matches Err(e) ==> e == InstanceError::CapacityExceeded && *final(self) == *old(self),
            r matches Ok((slots, ws)) ==> old(self).adds_all(*final(self), records@, slots@, ws@),
    {
        if records.len() > (self.max_instances - self.num_instances) as usize {
            return Err(InstanceError::CapacityExceeded);
        }
        let ghost g0 = *self;
        let mut slots: Vec<u16> = Vec::new();
        let mut ws: Vec<BufferWrite> = Vec::new();
        let mut i: usize = 0;
        while i < records.len()
            invariant
                g0.wf(),
                self.wf(),
                g0.live_count() + records@.len() <= g0.capacity(),
                i <= records@.len(),
                self.capacity() == g0.capacity(),
                self.model() == g0.model(),
                self.live_count() == g0.live_count() + i,
                slots@.len() == i,
                ws@.len() == i,
                slots@.no_duplicates(),
                forall|j: int| 0 <= j < i ==> !g0.is_live(#[trigger] slots@[j]) && slots@[j] < g0.capacity(),
                forall|j: int| 0 <= j < i ==> self.is_live(#[trigger] slots@[j]) && self.resolve(slots@[j]) == records@[j],
                forall|t: u16| #[trigger] g0.is_live(t) ==> self.is_live(t) && self.resolve(t) == g0.resolve(t),
                forall|t: u16| #[trigger] self.is_live(t) ==> g0.is_live(t) || slots@.contains(t),
                forall|j: int| 0 <= j < i ==> (#[trigger] ws@[j]).fits(g0.capacity()),
                forall|gpu: Seq<InstanceRaw>| #[trigger] g0.synced(gpu) ==> self.synced(apply_writes(gpu, ws@)),
            decreases records@.len() - i,
        {
            let ghost prev = *self;
            let ghost prev_slots = slots@;
            let ghost prev_ws = ws@;
            let rec = records[i];
            let added = self.add(rec);
            match added {
                Ok((slot, w)) => {
                    proof {
                        let next = *self;
                        assert(next.contents().contains_key(slot));
                        assert forall|j: int| 0 <= j < i implies prev_slots[j] != slot by {
                            assert(prev.is_live(prev_slots[j]));
                        }
                        assert forall|t: u16| #[trigger] prev.is_live(t) implies next.is_live(t) && next.resolve(t) == prev.resolve(t) by {
                            assert(prev.contents().contains_key(t));
                            assert(next.contents().contains_key(t));
                        }
                        assert forall|t: u16| #[trigger] next.is_live(t) implies prev.is_live(t) || t == slot by {
                            assert(next.contents().contains_key(t));
                        }
                        assert forall|gpu: Seq<InstanceRaw>| #[trigger] g0.synced(gpu) implies next.synced(apply_writes(gpu, prev_ws.push(w))) by {
                            assert(prev_ws.push(w).drop_last() =~= prev_ws);
                            assert(prev.synced(apply_writes(gpu, prev_ws)));
                        }
                    }
                    slots.push(slot);
                    ws.push(w);
                    proof {
                        assert(slots@ == prev_slots.push(slot));
                        assert forall|t: u16| #[trigger] self.is_live(t) implies g0.is_live(t) || slots@.contains(t) by {
                            if !prev.is_live(t) {
                                assert(t == slot);
                                assert(slots@[i as int] == slot);
                            } else if !g0.is_live(t) {
                                let j = choose|j: int| 0 <= j < prev_slots.len() && prev_slots[j] == t;
                                assert(slots@[j] == t);
                            }
                        }
                        assert forall|j: int| 0 <= j < i + 1 implies self.is_live(#[trigger] slots@[j]) && self.resolve(slots@[j]) == records@[j] by {
                            if j < i {
                                assert(slots@[j] == prev_slots[j]);
                                assert(prev.is_live(prev_slots[j]));
                            }
                        }
                    }
                },
                Err(_) => {
                    assert(false);
                },
            }
            i += 1;
        }
        Ok((slots, ws))
    }

    /// Number of live instances.
    pub fn len(&self) -> (r: u64)
        ensures
            r == self.live_count(),
    {
        self.num_instances as u64
    }

    /// Number of slots reserved for the model.
    pub fn max_instances(&self) -> (r: u16)
        ensures
            r == self.capacity(),
    {
        self.max_instances
    }

    /// The model the group belongs to.
    pub fn model_handle(&self) -> (r: ModelHandle)
        ensures
            r == self.model(),
    {
        self.model
    }

    /// Size in bytes of the GPU buffer that mirrors the group.
    pub fn buffer_size(&self) -> (r: u64)
        ensures
            r == self.capacity() * INSTANCE_SIZE,
    {
        self.max_instances as u64 * INSTANCE_SIZE as u64
    }

    /// The record that `slot` resolves to, if it is live.
    pub fn get(&self, slot: u16) -> (r: Option<InstanceRaw>)
        requires
            self.wf(),
        ensures
            r == (if self.is_live(slot) { Some(self.resolve(slot)) } else { None::<InstanceRaw> }),
    {
        match self.position(slot) {
            Some(p) => Some(self.dense[p as usize]),
            None => None,
        }
    }

    /// The dense position of `slot`, if it is live.
    pub fn position(&self, slot: u16) -> (r: Option<u16>)
        requires
            self.wf(),
        ensures
            r == (if self.is_live(slot) { Some(self.pos_of(slot) as u16) } else { None::<u16> }),
            r matches Some(p) ==> p < self.live_count(),
    {
        if slot >= self.max_instances {
            None
        } else {
            self.sparse[slot as usize]
        }
    }
}

/// In a well-formed group the number of live instances is the number of live
/// slots, and `sparse` and `dense_to_slot` are inverse to each other between
/// the live slots and the dense positions `0..live_count`. Every operation
/// keeps a group well formed, so this holds after any sequence of them.
pub proof fn lemma_sparse_set_consistent(g: InstanceGroup)
    requires
        g.wf(),
    ensures
        g.live_count() == g.live_slots().len(),
        forall|s: u16| #[trigger] g.is_live(s) ==> 0 <= g.pos_of(s) < g.live_count() && g.slot_at(g.pos_of(s)) == s,
        forall|p: int| 0 <= p < g.live_count() ==> g.is_live(#[trigger] g.slot_at(p)) && g.pos_of(g.slot_at(p)) == p,
{
    let live = g.live_count() as int;
    let slots = g.dense_to_slot().take(live);
    assert forall|i: int, j: int| 0 <= i < slots.len() && 0 <= j < slots.len() && i != j implies slots[i] != slots[j] by {
        assert(g.sparse()[g.dense_to_slot()[i] as int] == Some(i as u16));
        assert(g.sparse()[g.dense_to_slot()[j] as int] == Some(j as u16));
    }
    slots.unique_seq_to_set();
    assert forall|s: u16| g.live_slots().contains(s) implies slots.to_set().contains(s) by {
        let p = g.pos_of(s);
        assert(g.sparse()[s as int] is Some);
        assert(slots[p] == s);
    }
    assert forall|s: u16| slots.to_set().contains(s) implies g.live_slots().contains(s) by {
        let p = choose|p: int| 0 <= p < slots.len() && slots[p] == s;
        assert(g.dense_to_slot()[p] < g.capacity());
    }
    assert(g.live_slots() =~= slots.to_set());
    assert forall|p: int| 0 <= p < g.live_count() implies g.is_live(#[trigger] g.slot_at(p)) && g.pos_of(g.slot_at(p)) == p by {
        assert(g.dense_to_slot()[p] < g.capacity());
    }
    assert forall|s: u16| #[trigger] g.is_live(s) implies 0 <= g.pos_of(s) < g.live_count() && g.slot_at(g.pos_of(s)) == s by {
        assert(g.sparse()[s as int] is Some);
    }
}

/// A buffer in sync with a group begins, byte for byte, with the bytes of the
/// group's live records in dense order.
pub proof fn lemma_synced_bytes(g: InstanceGroup, gpu: Seq<InstanceRaw>)
    requires
        g.wf(),
        g.synced(gpu),
    ensures
        record_bytes(gpu).take(g.live_count() * INSTANCE_SIZE) == record_bytes(g.mirror()),
{
    let r = INSTANCE_SIZE as int;
    let live = g.live_count() as int;
    lemma_record_bytes_index(gpu);
    lemma_record_bytes_index(g.mirror());
    let lhs = record_bytes(gpu).take(live * r);
    assert forall|b: int| 0 <= b < lhs.len() implies lhs[b] == record_bytes(g.mirror())[b] by {
        let i = b / r;
        let k = b % r;
        assert(b == i * r + k);
        assert(record_bytes(gpu)[i * r + k] == gpu[i].bytes@[k]);
        assert(record_bytes(g.mirror())[i * r + k] == g.mirror()[i].bytes@[k]);
        assert(gpu.take(live)[i] == gpu[i]);
    }
    assert(lhs =~= record_bytes(g.mirror()));
}

/// Adding `record` gives a handle that resolves to `record`, and leaves every
/// other live handle resolving as before; updating that handle to `record2`
/// then changes what it resolves to, and nothing else.
pub proof fn lemma_add_update_round_trip(
    g0: InstanceGroup,
    g1: InstanceGroup,
    g2: InstanceGroup,
    record: InstanceRaw,
    slot: u16,
    w1: BufferWrite,
    record2: InstanceRaw,
    w2: BufferWrite,
)
    requires
        g0.wf(),
        g0.adds(g1, record, slot, w1),
        g1.updates(g2, slot, record2, w2),
    ensures
        g1.is_live(slot) && g1.resolve(slot) == record,
        forall|t: u16| #[trigger] g0.is_live(t) ==> g1.is_live(t) && g1.resolve(t) == g0.resolve(t),
        g2.is_live(slot) && g2.resolve(slot) == record2,
        forall|t: u16| t != slot && #[trigger] g1.is_live(t) ==> g2.is_live(t) && g2.resolve(t) == g1.resolve(t),
        g2.live_count() == g1.live_count(),
{
    assert(g1.contents().contains_key(slot));
    assert forall|t: u16| #[trigger] g0.is_live(t) implies g1.is_live(t) && g1.resolve(t) == g0.resolve(t) by {
        assert(g0.contents().contains_key(t));
        assert(g1.contents().contains_key(t));
    }
    assert(g2.contents().contains_key(slot));
    assert forall|t: u16| t != slot && #[trigger] g1.is_live(t) implies g2.is_live(t) && g2.resolve(t) == g1.resolve(t) by {
        assert(g1.contents().contains_key(t));
        assert(g2.contents().contains_key(t));
    }
}

/// The free list is a stack: an add right after a remove takes the slot id
/// that the remove released. Slot ids never reach the capacity.
pub proof fn lemma_remove_then_add_reuses_slot(
    g0: InstanceGroup,
    g1: InstanceGroup,
    g2: InstanceGroup,
    slot: u16,
    w1: BufferWrite,
    record: InstanceRaw,
    slot2: u16,
    w2: BufferWrite,
)
    requires
        g0.wf(),
        g0.removes(g1, slot, w1),
        g1.adds(g2, record, slot2, w2),
    ensures
        slot2 == slot,
        slot2 < g2.capacity(),
        g2.is_live(slot2) && g2.resolve(slot2) == record,
{
    assert(g2.contents().contains_key(slot2));
}

/// Removing a live instance that is not last in dense order moves exactly one
/// other instance, the last one, into the freed dense position; that instance
/// still resolves to its record, and every other instance keeps both its dense
/// position and its record.
pub proof fn lemma_swap_remove_moves_one(g0: InstanceGroup, g1: InstanceGroup, slot: u16, w: BufferWrite)
    requires
        g0.wf(),
        g0.removes(g1, slot, w),
        g0.pos_of(slot) != g0.live_count() - 1,
    ensures
        ({
            let moved = g0.slot_at(g0.live_count() - 1);
            &&& moved != slot
            &&& g0.is_live(moved) && g1.is_live(moved)
            &&& g0.pos_of(moved) == g0.live_count() - 1
            &&& g1.pos_of(moved) == g0.pos_of(slot)
            &&& g1.resolve(moved) == g0.resolve(moved)
            &&& forall|t: u16|
                t != slot && t != moved && #[trigger] g0.is_live(t) ==> {
                    &&& g1.is_live(t)
                    &&& g1.pos_of(t) == g0.pos_of(t)
                    &&& g1.resolve(t) == g0.resolve(t)
                }
        }),
        !g1.is_live(slot),
{
    lemma_sparse_set_consistent(g0);
    let last = g0.live_count() - 1;
    let moved = g0.slot_at(last);
    assert(g0.is_live(moved) && g0.pos_of(moved) == last);
    assert forall|t: u16|
        t != slot && t != moved && #[trigger] g0.is_live(t) implies {
            &&& g1.is_live(t)
            &&& g1.pos_of(t) == g0.pos_of(t)
            &&& g1.resolve(t) == g0.resolve(t)
        } by {
        assert(g0.pos_of(t) != last);
        assert(g0.pos_of(t) != g0.pos_of(slot));
    }
}

} // verus!
