use vstd::prelude::*;

use crate::group::InstanceGroup;
use crate::handle::{InstanceError, InstanceHandle, ModelHandle};
use crate::raw::{BufferWrite, InstanceRaw};

verus! {

/// The registry of instance groups, one per registered model, indexed by
/// model id. All instance mutation goes through it; each successful mutation
/// hands back the write that brings the model's GPU buffer up to date.
pub struct InstanceManager {
    instance_groups: Vec<Option<InstanceGroup>>,
}

impl InstanceManager {
    /// Entry `i` is the group of model id `i`, if one is registered.
    pub closed spec fn groups(self) -> Seq<Option<InstanceGroup>> {
        self.instance_groups@
    }

    /// The group registered for model id `m`, if any.
    pub open spec fn group(self, m: u16) -> Option<InstanceGroup> {
        if m < self.groups().len() {
            self.groups()[m as int]
        } else {
            None
        }
    }

    pub open spec fn registered(self, m: u16) -> bool {
        self.group(m) is Some
    }

    /// Every registered group is well formed and belongs to the model it is
    /// registered under.
    pub open spec fn wf(self) -> bool {
        forall|i: int|
            0 <= i < self.groups().len() && #[trigger] self.groups()[i] is Some ==> {
                &&& self.groups()[i]->0.wf()
                &&& self.groups()[i]->0.model() == ModelHandle(i as u16)
            }
    }

    /// Every group but the one of model `m` is as in `other`.
    pub open spec fn others_unchanged(self, other: Self, m: u16) -> bool {
        forall|k: u16| k != m ==> #[trigger] self.group(k) == other.group(k)
    }

    /// `next` has a group for model `m`, and every other group is as in `self`.
    pub open spec fn changes_only(self, next: Self, m: u16) -> bool {
        &&& next.registered(m)
        &&& next.others_unchanged(self, m)
    }

    proof fn lemma_group_wf(self, m: u16)
        requires
            self.wf(),
            self.registered(m),
        ensures
            self.group(m)->0.wf(),
            self.group(m)->0.model() == ModelHandle(m),
    {
        assert(self.groups()[m as int] is Some);
    }

    /// A manager with no model registered.
    pub fn new() -> (r: Self)
        ensures
            r.wf(),
            forall|m: u16| !r.registered(m),
    {
        InstanceManager { instance_groups: Vec::new() }
    }

    /// Registers model `model` with room for `max_instances` instances. Fails
    /// when the model is already registered.
    pub fn add_instance_group(&mut self, model: ModelHandle, max_instances: u16) -> (r: Result<(), InstanceError>)
        requires
            old(self).wf(),
        ensures
            final(self).wf(),
            r is Err <==> old(self).registered(model.0),
            r matches Err(e) ==> e == InstanceError::AlreadyRegistered && final(self).groups() == old(self).groups(),
            r is Ok ==> old(self).changes_only(*final(self), model.0),
            r is Ok ==> {
                let g = final(self).group(model.0)->0;
                &&& g.model() == model
                &&& g.capacity() == max_instances
                &&& g.live_count() == 0
                &&& g.contents() == Map::<u16, InstanceRaw>::empty()
                &&& g.free_list() == Seq::<u16>::empty()
            },
    {
        let m = model.0 as usize;
        if m < self.instance_groups.len() && self.instance_groups[m].is_some() {
            return Err(InstanceError::AlreadyRegistered);
        }
        let ghost prev = *self;
        while self.instance_groups.len() <= m
            invariant
                prev.wf(),
                self.instance_groups@.len() >= prev.instance_groups@.len(),
                self.instance_groups@.len() == prev.instance_groups@.len() || self.instance_groups@.len() <= m + 1,
                forall|i: int| 0 <= i < prev.instance_groups@.len() ==> self.instance_groups@[i] == prev.instance_groups@[i],
                forall|i: int| prev.instance_groups@.len() <= i < self.instance_groups@.len() ==> self.instance_groups@[i] is None,
            decreases m + 1 - self.instance_groups@.len(),
        {
            self.instance_groups.push(None);
        }
        let g = InstanceGroup::new_empty(model, max_instances);
        self.instance_groups.set(m, Some(g));
        proof {
            assert forall|k: u16| k != model.0 implies #[trigger] self.group(k) == prev.group(k) by {
                if k < prev.groups().len() {
                    assert(self.groups()[k as int] == prev.groups()[k as int]);
                }
            }
            assert forall|i: int| 0 <= i < self.groups().len() && #[trigger] self.groups()[i] is Some implies {
                &&& self.groups()[i]->0.wf()
                &&& self.groups()[i]->0.model() == ModelHandle(i as u16)
            } by {
                if i != m {
                    assert(prev.groups()[i] is Some);
                }
            }
        }
        Ok(())
    }

    /// Adds an instance of `model` with record `instance`.
    pub fn add_instance(&mut self, model: ModelHandle, instance: InstanceRaw) -> (r: Result<(InstanceHandle, BufferWrite), InstanceError>)
        requires
            old(self).wf(),
        ensures
            final(self).wf(),
            r is Err ==> final(self).groups() == old(self).groups(),
            r matches Err(e) ==> e == InstanceError::UnregisteredModel || e == InstanceError::CapacityExceeded,
            (r matches Err(e) && e == InstanceError::UnregisteredModel) <==> !old(self).registered(model.0),
            (r matches Err(e) && e == InstanceError::CapacityExceeded) <==> old(self).registered(model.0)
                && old(self).group(model.0)->0.live_count() == old(self).group(model.0)->0.capacity(),
            r matches Ok((h, w)) ==> {
                &&& h.0 == model
                &&& old(self).changes_only(*final(self), model.0)
                &&& old(self).group(model.0)->0.adds(final(self).group(model.0)->0, instance, h.1, w)
            },
    {
        let m = model.0 as usize;
        if m >= self.instance_groups.len() {
            return Err(InstanceError::UnregisteredModel);
        }
        proof {
            if self.registered(model.0) {
                self.lemma_group_wf(model.0);
            }
        }
        let ghost prev = *self;
        let r = match &mut self.instance_groups[m] {
            Some(g) => match g.add(instance) {
                Ok((slot, w)) => Ok((InstanceHandle(model, slot), w)),
                Err(e) => Err(e),
            },
            None => Err(InstanceError::UnregisteredModel),
        };
        proof {
            assert(self.groups() =~= prev.groups().update(m as int, self.groups()[m as int]));
            assert forall|k: u16| k != model.0 implies #[trigger] self.group(k) == prev.group(k) by {
                if k < prev.groups().len() {
                    assert(self.groups()[k as int] == prev.groups()[k as int]);
                }
            }
            if r is Err {
                assert(self.groups() =~= prev.groups());
            }
        }
        r
    }

    /// Adds an instance of `model` for each record of `instances`, in order,
    /// slot ids coming first from the free list and then fresh. Fails, changing
    /// nothing, when they do not all fit.
    pub fn add_from_slice(&mut self, model: ModelHandle, instances: &[InstanceRaw]) -> (r: Result<(Vec<InstanceHandle>, Vec<BufferWrite>), InstanceError>)
        requires
            old(self).wf(),
        ensures
            final(self).wf(),
            r is Err ==> final(self).groups() == old(self).groups(),
            r matches Err(e) ==> e == InstanceError::UnregisteredModel || e == InstanceError::CapacityExceeded,
            (r matches Err(e) && e == InstanceError::UnregisteredModel) <==> !old(self).registered(model.0),
            (r matches Err(e) && e == InstanceError::CapacityExceeded) <==> old(self).registered(model.0)
                && old(self).group(model.0)->0.live_count() + instances@.len() > old(self).group(model.0)->0.capacity(),
            r matches Ok((hs, ws)) ==> {
                &&& forall|i: int| 0 <= i < hs@.len() ==> (#[trigger] hs@[i]).0 == model
                &&& old(self).changes_only(*final(self), model.0)
                &&& old(self).group(model.0)->0.adds_all(
                    final(self).group(model.0)->0,
                    instances@,
                    hs@.map_values(|h: InstanceHandle| h.1),
                    ws@,
                )
            },
    {
        let m = model.0 as usize;
        if m >= self.instance_groups.len() {
            return Err(InstanceError::UnregisteredModel);
        }
        proof {
            if self.registered(model.0) {
                self.lemma_group_wf(model.0);
            }
        }
        let ghost prev = *self;
        let added = match &mut self.instance_groups[m] {
            Some(g) => g.add_all(instances),
            None => Err(InstanceError::UnregisteredModel),
        };
        proof {
            assert(self.groups() =~= prev.groups().update(m as int, self.groups()[m as int]));
            assert forall|k: u16| k != model.0 implies #[trigger] self.group(k) == prev.group(k) by {
                if k < prev.groups().len() {
                    assert(self.groups()[k as int] == prev.groups()[k as int]);
                }
            }
            if added is Err {
                assert(self.groups() =~= prev.groups());
            }
        }
        match added {
            Ok((slots, ws)) => {
                let mut hs: Vec<InstanceHandle> = Vec::new();
                let mut i: usize = 0;
                while i < slots.len()
                    invariant
                        i <= slots@.len(),
                        hs@.len() == i,
                        forall|j: int| 0 <= j < i ==> #[trigger] hs@[j] == InstanceHandle(model, slots@[j]),
                    decreases slots@.len() - i,
                {
                    hs.push(InstanceHandle(model, slots[i]));
                    i += 1;
                }
                assert(hs@.map_values(|h: InstanceHandle| h.1) =~= slots@);
                Ok((hs, ws))
            },
            Err(e) => Err(e),
        }
    }

    /// Replaces the record of the instance `handle` by `instance`.
    pub fn update_instance(&mut self, handle: InstanceHandle, instance: InstanceRaw) -> (r: Result<BufferWrite, InstanceError>)
        requires
            old(self).wf(),
        ensures
            final(self).wf(),
            r is Err ==> final(self).groups() == old(self).groups(),
            r matches Err(e) ==> e == InstanceError::UnregisteredModel || e == InstanceError::InvalidHandle,
            (r matches Err(e) && e == InstanceError::UnregisteredModel) <==> !old(self).registered(handle.0.0),
            (r matches Err(e) && e == InstanceError::InvalidHandle) <==> old(self).registered(handle.0.0)
                && !old(self).group(handle.0.0)->0.is_live(handle.1),
            r matches Ok(w) ==> {
                &&& old(self).changes_only(*final(self), handle.0.0)
                &&& old(self).group(handle.0.0)->0.updates(final(self).group(handle.0.0)->0, handle.1, instance, w)
            },
    {
        let m = handle.0.0 as usize;
        if m >= self.instance_groups.len() {
            return Err(InstanceError::UnregisteredModel);
        }
        proof {
            if self.registered(handle.0.0) {
                self.lemma_group_wf(handle.0.0);
            }
        }
        let ghost prev = *self;
        let r = match &mut self.instance_groups[m] {
            Some(g) => g.update(handle.1, instance),
            None => Err(InstanceError::UnregisteredModel),
        };
        proof {
            assert(self.groups() =~= prev.groups().update(m as int, self.groups()[m as int]));
            assert forall|k: u16| k != handle.0.0 implies #[trigger] self.group(k) == prev.group(k) by {
                if k < prev.groups().len() {
                    assert(self.groups()[k as int] == prev.groups()[k as int]);
                }
            }
            if r is Err {
                assert(self.groups() =~= prev.groups());
            }
        }
        r
    }

    /// Removes the instance `handle`; its slot id becomes free for reuse.
    pub fn delete_instance(&mut self, handle: InstanceHandle) -> (r: Result<BufferWrite, InstanceError>)
        requires
            old(self).wf(),
        ensures
            final(self).wf(),
            r is Err ==> final(self).groups() == old(self).groups(),
            r matches Err(e) ==> e == InstanceError::UnregisteredModel || e == InstanceError::InvalidHandle,
            (r matches Err(e) && e == InstanceError::UnregisteredModel) <==> !old(self).registered(handle.0.0),
            (r matches Err(e) && e == InstanceError::InvalidHandle) <==> old(self).registered(handle.0.0)
                && !old(self).group(handle.0.0)->0.is_live(handle.1),
            r matches Ok(w) ==> {
                &&& old(self).changes_only(*final(self), handle.0.0)
                &&& old(self).group(handle.0.0)->0.removes(final(self).group(handle.0.0)->0, handle.1, w)
            },
    {
        let m = handle.0.0 as usize;
        if m >= self.instance_groups.len() {
            return Err(InstanceError::UnregisteredModel);
        }
        proof {
            if self.registered(handle.0.0) {
                self.lemma_group_wf(handle.0.0);
            }
        }
        let ghost prev = *self;
        let r = match &mut self.instance_groups[m] {
            Some(g) => g.remove(handle.1),
            None => Err(InstanceError::UnregisteredModel),
        };
        proof {
            assert(self.groups() =~= prev.groups().update(m as int, self.groups()[m as int]));
            assert forall|k: u16| k != handle.0.0 implies #[trigger] self.group(k) == prev.group(k) by {
                if k < prev.groups().len() {
                    assert(self.groups()[k as int] == prev.groups()[k as int]);
                }
            }
            if r is Err {
                assert(self.groups() =~= prev.groups());
            }
        }
        r
    }

    /// Replaces all instances of `model` by `instances`, instance `i` under
    /// slot `i`, mirrored by a single write.
    pub fn set_from_slice(&mut self, model: ModelHandle, instances: &[InstanceRaw]) -> (r: Result<BufferWrite, InstanceError>)
        requires
            old(self).wf(),
        ensures
            final(self).wf(),
            r is Err ==> final(self).groups() == old(self).groups(),
            r matches Err(e) ==> e == InstanceError::UnregisteredModel || e == InstanceError::CapacityExceeded,
            (r matches Err(e) && e == InstanceError::UnregisteredModel) <==> !old(self).registered(model.0),
            (r matches Err(e) && e == InstanceError::CapacityExceeded) <==> old(self).registered(model.0)
                && instances@.len() > old(self).group(model.0)->0.capacity(),
            r matches Ok(w) ==> {
                &&& old(self).changes_only(*final(self), model.0)
                &&& old(self).group(model.0)->0.bulk_sets(final(self).group(model.0)->0, instances@, w)
            },
    {
        let m = model.0 as usize;
        if m >= self.instance_groups.len() {
            return Err(InstanceError::UnregisteredModel);
        }
        proof {
            if self.registered(model.0) {
                self.lemma_group_wf(model.0);
            }
        }
        let ghost prev = *self;
        let r = match &mut self.instance_groups[m] {
            Some(g) => g.bulk_set(instances),
            None => Err(InstanceError::UnregisteredModel),
        };
        proof {
            assert(self.groups() =~= prev.groups().update(m as int, self.groups()[m as int]));
            assert forall|k: u16| k != model.0 implies #[trigger] self.group(k) == prev.group(k) by {
                if k < prev.groups().len() {
                    assert(self.groups()[k as int] == prev.groups()[k as int]);
                }
            }
            if r is Err {
                assert(self.groups() =~= prev.groups());
            }
        }
        r
    }

    /// Removes every instance of `model` and empties its free list.
    pub fn clear_instances(&mut self, model: ModelHandle) -> (r: Result<BufferWrite, InstanceError>)
        requires
            old(self).wf(),
        ensures
            final(self).wf(),
            r is Err <==> !old(self).registered(model.0),
            r matches Err(e) ==> e == InstanceError::UnregisteredModel && final(self).groups() == old(self).groups(),
            r matches Ok(w) ==> {
                &&& old(self).changes_only(*final(self), model.0)
                &&& old(self).group(model.0)->0.bulk_sets(final(self).group(model.0)->0, Seq::empty(), w)
            },
    {
        let none: Vec<InstanceRaw> = Vec::new();
        let r = self.set_from_slice(model, none.as_slice());
        assert(none@.len() == 0);
        r
    }

    /// The record that `handle` resolves to, if it names a live instance.
    pub fn get_instance(&self, handle: InstanceHandle) -> (r: Option<InstanceRaw>)
        requires
            self.wf(),
        ensures
            r == (if self.registered(handle.0.0) && self.group(handle.0.0)->0.is_live(handle.1) {
                Some(self.group(handle.0.0)->0.resolve(handle.1))
            } else {
                None::<InstanceRaw>
            }),
    {
        let m = handle.0.0 as usize;
        if m >= self.instance_groups.len() {
            return None;
        }
        proof {
            if self.registered(handle.0.0) {
                self.lemma_group_wf(handle.0.0);
            }
        }
        match &self.instance_groups[m] {
            Some(g) => g.get(handle.1),
            None => None,
        }
    }

    /// The dense position of the instance `handle`, if it names a live instance.
    pub fn instance_position(&self, handle: InstanceHandle) -> (r: Option<u16>)
        requires
            self.wf(),
        ensures
            r == (if self.registered(handle.0.0) && self.group(handle.0.0)->0.is_live(handle.1) {
                Some(self.group(handle.0.0)->0.pos_of(handle.1) as u16)
            } else {
                None::<u16>
            }),
    {
        let m = handle.0.0 as usize;
        if m >= self.instance_groups.len() {
            return None;
        }
        proof {
            if self.registered(handle.0.0) {
                self.lemma_group_wf(handle.0.0);
            }
        }
        match &self.instance_groups[m] {
            Some(g) => g.position(handle.1),
            None => None,
        }
    }

    /// The group of `model`, if it is registered.
    pub fn instance_group(&self, model: ModelHandle) -> (r: Option<&InstanceGroup>)
        ensures
            r is Some <==> self.registered(model.0),
            r matches Some(g) ==> *g == self.group(model.0)->0,
    {
        let m = model.0 as usize;
        if m >= self.instance_groups.len() {
            return None;
        }
        match &self.instance_groups[m] {
            Some(g) => Some(g),
            None => None,
        }
    }

    /// What the render loop draws: each registered model with live instances,
    /// in order of model id, with its number of live instances.
    pub fn draw_list(&self) -> (r: Vec<(ModelHandle, u64)>)
        ensures
            r@ == draws(self.groups()),
    {
        let mut r: Vec<(ModelHandle, u64)> = Vec::new();
        let mut i: usize = 0;
        while i < self.instance_groups.len()
            invariant
                i <= self.groups().len(),
                r@ == draws(self.groups().take(i as int)),
            decreases self.groups().len() - i,
        {
            proof {
                assert(self.groups().take(i as int + 1).drop_last() =~= self.groups().take(i as int));
            }
            match &self.instance_groups[i] {
                Some(g) => {
                    let n = g.len();
                    if n > 0 {
                        r.push((g.model_handle(), n));
                    }
                },
                None => {},
            }
            i += 1;
        }
        assert(self.groups().take(self.groups().len() as int) =~= self.groups());
        r
    }
}

/// The draw entries of a sequence of group entries, in order: each group
/// with live instances, with its model and number of live instances.
pub open spec fn draws(groups: Seq<Option<InstanceGroup>>) -> Seq<(ModelHandle, u64)>
    decreases groups.len(),
{
    if groups.len() == 0 {
        Seq::empty()
    } else {
        let rest = draws(groups.drop_last());
        match groups.last() {
            Some(g) => if g.live_count() > 0 {
                rest.push((g.model(), g.live_count() as u64))
            } else {
                rest
            },
            None => rest,
        }
    }
}

} // verus!
