//! The entity directory: maps each entity id to where its data lives.
use vstd::prelude::*;

verus! {

/// An entity: a directory slot and the generation of that slot when the
/// entity was spawned. A slot is reused after despawn with a greater
/// generation, so stale ids are told apart.
#[derive(Copy, Clone, PartialEq, Eq, Structural, Debug, Hash)]
pub struct EntityId {
    pub index: u32,
    pub generation: u32,
}

/// Where a live entity's data is: an archetype and a row in it.
#[derive(Copy, Clone, PartialEq, Eq, Structural, Debug)]
pub struct EntityLocation {
    pub archetype: u32,
    pub row: u32,
}

struct Slot {
    generation: u32,
    location: Option<EntityLocation>,
}

/// The directory of entities: one slot per index ever handed out, with a
/// list of vacant slots waiting for reuse.
pub struct Entities {
    slots: Vec<Slot>,
    free: Vec<u32>,
}

impl Entities {
    /// The number of slots ever handed out.
    pub closed spec fn slot_count(&self) -> nat {
        self.slots@.len()
    }

    /// The generation held by slot `index`.
    pub closed spec fn generation_of(&self, index: nat) -> nat {
        if index < self.slots@.len() {
            self.slots@[index as int].generation as nat
        } else {
            0
        }
    }

    /// Where entity `id` lives, when it is live.
    pub closed spec fn location_of(&self, id: EntityId) -> Option<EntityLocation> {
        if id.index < self.slots@.len() && self.slots@[id.index as int].generation
            == id.generation {
            self.slots@[id.index as int].location
        } else {
            None
        }
    }

    pub open spec fn is_live(&self, id: EntityId) -> bool {
        self.location_of(id).is_some()
    }

    /// Whether a spawn can be served: a vacant slot waits, or a new index
    /// fits in `u32`.
    pub closed spec fn can_spawn(&self) -> bool {
        self.free@.len() > 0 || self.slots@.len() < u32::MAX
    }

    /// Whether a spawn can be served now.
    pub fn has_free_slot(&self) -> (r: bool)
        ensures
            r == self.can_spawn(),
    {
        self.free.len() > 0 || self.slots.len() < 0xffff_ffff
    }

    /// Vacant slots listed for reuse are vacant and listed once each.
    pub closed spec fn wf(&self) -> bool {
        &&& self.slots@.len() <= u32::MAX
        &&& forall|k: int|
            0 <= k < self.free@.len() ==> #[trigger] self.free@[k] < self.slots@.len()
                && self.slots@[self.free@[k] as int].location.is_none()
        &&& forall|k: int, l: int|
            0 <= k < l < self.free@.len() ==> #[trigger] self.free@[k] != #[trigger] self.free@[l]
    }

    pub fn new() -> (r: Self)
        ensures
            r.wf(),
            r.can_spawn(),
            r.slot_count() == 0,
            forall|id: EntityId| !r.is_live(id),
    {
        Entities { slots: Vec::new(), free: Vec::new() }
    }

    /// Where entity `id` lives; `None` for an unknown or stale id.
    pub fn get(&self, id: EntityId) -> (r: Option<EntityLocation>)
        ensures
            r == self.location_of(id),
    {
        let i = id.index as usize;
        if i < self.slots.len() && self.slots[i].generation == id.generation {
            self.slots[i].location
        } else {
            None
        }
    }

    /// Makes a new live entity at `location`, reusing a vacant slot when
    /// there is one.
    pub fn spawn(&mut self, location: EntityLocation) -> (r: EntityId)
        requires
            old(self).wf(),
            old(self).can_spawn(),
        ensures
            final(self).wf(),
            !old(self).is_live(r),
            final(self).location_of(r) == Some(location),
            r.generation == final(self).generation_of(r.index as nat),
            forall|id: EntityId| id != r ==> final(self).location_of(id) == old(self).location_of(id),
            forall|i: nat| #[trigger] final(self).generation_of(i) == old(self).generation_of(i),
    {
        match self.free.pop() {
            Some(index) => {
                proof {
                    assert(old(self).free@[old(self).free@.len() - 1] == index);
                    assert(self.free@ =~= old(self).free@.drop_last());
                }
                let i = index as usize;
                let generation = self.slots[i].generation;
                self.slots.set(i, Slot { generation, location: Some(location) });
                let r = EntityId { index, generation };
                proof {
                    assert forall|k: int| 0 <= k < self.free@.len() implies #[trigger] self.free@[k]
                        < self.slots@.len() && self.slots@[self.free@[k] as int].location.is_none() by {
                        assert(self.free@[k] == old(self).free@[k]);
                        assert(old(self).free@[k] != old(self).free@[old(self).free@.len() - 1]);
                    }
                }
                r
            },
            None => {
                let index = self.slots.len() as u32;
                self.slots.push(Slot { generation: 0, location: Some(location) });
                EntityId { index, generation: 0 }
            },
        }
    }

    /// Ends entity `id` and returns where it lived; `None`, changing
    /// nothing, for an unknown or stale id. The slot's generation grows by
    /// one; a slot whose generation cannot grow is never reused.
    pub fn despawn(&mut self, id: EntityId) -> (r: Option<EntityLocation>)
        requires
            old(self).wf(),
        ensures
            final(self).wf(),
            r == old(self).location_of(id),
            !final(self).is_live(id),
            forall|e: EntityId| e != id ==> final(self).location_of(e) == old(self).location_of(e),
            r.is_some() && id.generation < u32::MAX ==> final(self).generation_of(id.index as nat)
                == id.generation + 1,
            r.is_none() ==> final(self).can_spawn() == old(self).can_spawn(),
            forall|i: nat|
                i != id.index || r.is_none() ==> #[trigger] final(self).generation_of(i)
                    == old(self).generation_of(i),
            forall|i: nat| #[trigger] final(self).generation_of(i) >= old(self).generation_of(i),
            old(self).can_spawn() ==> final(self).can_spawn(),
    {
        let i = id.index as usize;
        if i >= self.slots.len() || self.slots[i].generation != id.generation {
            return None;
        }
        let location = self.slots[i].location;
        if location.is_none() {
            return None;
        }
        if id.generation < u32::MAX {
            self.slots.set(i, Slot { generation: id.generation + 1, location: None });
            let ghost before = self.free@;
            self.free.push(id.index);
            proof {
                assert forall|k: int| 0 <= k < before.len() implies #[trigger] before[k] != id.index by {
                    assert(old(self).slots@[before[k] as int].location.is_none());
                }
                assert(self.free@[before.len() as int] == id.index);
            }
        } else {
            self.slots.set(i, Slot { generation: id.generation, location: None });
        }
        location
    }

    /// Points live entity `id` at `location`, after its data has moved.
    /// Returns false, changing nothing, for an unknown or stale id.
    pub fn set_location(&mut self, id: EntityId, location: EntityLocation) -> (r: bool)
        requires
            old(self).wf(),
        ensures
            final(self).wf(),
            r == old(self).is_live(id),
            r ==> final(self).location_of(id) == Some(location),
            !r ==> final(self).location_of(id) == old(self).location_of(id),
            forall|e: EntityId| e != id ==> final(self).location_of(e) == old(self).location_of(e),
            forall|i: nat| #[trigger] final(self).generation_of(i) == old(self).generation_of(i),
            final(self).can_spawn() == old(self).can_spawn(),
    {
        let i = id.index as usize;
        if i < self.slots.len() && self.slots[i].generation == id.generation
            && self.slots[i].location.is_some() {
            self.slots.set(i, Slot { generation: id.generation, location: Some(location) });
            true
        } else {
            false
        }
    }
}

/// A stale id stays dead and a reused slot carries a newer generation:
/// after `id` is despawned (from `before` to `after`), in any later state
/// whose slot generations have not decreased, `id` is not live, and an
/// entity spawned into the same slot has a strictly greater generation.
pub proof fn lemma_reuse_after_despawn(
    before: Entities,
    after: Entities,
    later: Entities,
    id: EntityId,
    reused: EntityId,
)
    requires
        before.is_live(id),
        after.generation_of(id.index as nat) == id.generation + 1,
        later.generation_of(id.index as nat) >= after.generation_of(id.index as nat),
        reused.index == id.index,
        reused.generation == later.generation_of(reused.index as nat),
    ensures
        reused.generation > id.generation,
        !later.is_live(id),
{
}

} // verus!
