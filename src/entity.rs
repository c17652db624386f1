use vstd::prelude::*;
use crate::archetype::ArchetypeIndex;
use crate::component::ComponentIndex;

verus! {

/// A handle to an entity: the slot it occupies in the entity registry and the
/// generation that slot had when the handle was issued.
#[derive(Debug, Clone, Copy, PartialEq, Eq, Hash, Structural)]
pub struct Entity {
    pub id: u32,
    pub generation: u32,
}

/// Where a live entity is stored: its archetype and its row there.
#[derive(Debug, Clone, Copy, PartialEq, Eq, Hash, Structural)]
pub struct EntityData(pub ArchetypeIndex, pub ComponentIndex);

impl EntityData {
    pub fn archetype(&self) -> (r: ArchetypeIndex)
        ensures
            r == self.0,
    {
        self.0
    }

    pub fn component(&self) -> (r: ComponentIndex)
        ensures
            r == self.1,
    {
        self.1
    }
}

#[derive(Debug, Clone, Copy)]
struct EntitySlot {
    generation: u32,
    data: Option<EntityData>,
}

/// The entity registry: one slot per entity id, holding the slot's current
/// generation and, while an entity lives there, its location. Freed ids wait on
/// a free list and are handed out again last-in first-out.
#[derive(Debug)]
pub struct EntityMap {
    slots: Vec<EntitySlot>,
    free: Vec<u32>,
}

impl EntityMap {
    /// How many ids the registry has handed out so far.
    pub closed spec fn slot_count(&self) -> nat {
        self.slots@.len()
    }

    /// The current generation of a slot (zero for an id never handed out).
    pub closed spec fn generation(&self, id: u32) -> u32 {
        if id < self.slots@.len() {
            self.slots@[id as int].generation
        } else {
            0
        }
    }

    /// The location recorded in a slot, if an entity occupies it.
    pub closed spec fn location(&self, id: u32) -> Option<EntityData> {
        if id < self.slots@.len() {
            self.slots@[id as int].data
        } else {
            None
        }
    }

    /// The freed ids waiting to be handed out again; the last one goes first.
    pub closed spec fn free_ids(&self) -> Seq<u32> {
        self.free@
    }

    /// The id waits on the free list.
    pub open spec fn free_listed(&self, id: u32) -> bool {
        self.free_ids().contains(id)
    }

    /// How many more ids can be handed out: the free ones, and the ones never used.
    pub open spec fn ids_left(&self) -> int {
        self.free_ids().len() + (u32::MAX - self.slot_count())
    }

    /// The slot is handed out but nobody lives in it yet, and it is not waiting on the free list.
    pub open spec fn reserved(&self, id: u32) -> bool {
        &&& id < self.slot_count()
        &&& self.location(id) is None
        &&& !self.free_listed(id)
    }

    /// A further id can be handed out.
    pub open spec fn can_allocate(&self) -> bool {
        self.free_ids().len() > 0 || self.slot_count() < u32::MAX
    }

    pub closed spec fn wf(&self) -> bool {
        &&& self.slots@.len() <= u32::MAX
        &&& self.free@.no_duplicates()
        &&& forall|i: int|
            0 <= i < self.free@.len() ==> {
                &&& #[trigger] self.free@[i] < self.slots@.len()
                &&& self.slots@[self.free@[i] as int].data is None
            }
    }

    /// The handle `e` names the entity that currently occupies its slot.
    pub open spec fn live(&self, e: Entity) -> bool {
        &&& self.location(e.id) is Some
        &&& self.generation(e.id) == e.generation
    }

    /// No slot changed its generation or location but `id`, and no slot was lost.
    pub open spec fn same_except(&self, other: &EntityMap, id: u32) -> bool {
        &&& other.slot_count() <= self.slot_count()
        &&& forall|j: u32|
            #![trigger self.location(j)]
            #![trigger self.generation(j)]
            j != id ==> {
                &&& self.location(j) == other.location(j)
                &&& self.generation(j) == other.generation(j)
            }
    }

    pub fn new() -> (r: EntityMap)
        ensures
            r.wf(),
            r.slot_count() == 0,
            r.free_ids() == Seq::<u32>::empty(),
            r.can_allocate(),
            forall|id: u32| #[trigger] r.location(id) is None,
            forall|id: u32| #[trigger] r.generation(id) == 0,
    {
        EntityMap { slots: Vec::new(), free: Vec::new() }
    }

    pub fn contains(&self, entity: Entity) -> (r: bool)
        ensures
            r == self.live(entity),
    {
        if (entity.id as usize) < self.slots.len() {
            let slot = self.slots[entity.id as usize];
            slot.data.is_some() && slot.generation == entity.generation
        } else {
            false
        }
    }

    pub fn get(&self, entity: Entity) -> (r: Option<EntityData>)
        ensures
            r == (if self.live(entity) {
                self.location(entity.id)
            } else {
                None
            }),
    {
        if self.contains(entity) {
            self.slots[entity.id as usize].data
        } else {
            None
        }
    }

    /// The current generation of the slot `id`.
    pub fn generation_of(&self, id: u32) -> (r: u32)
        ensures
            r == self.generation(id),
    {
        if (id as usize) < self.slots.len() {
            self.slots[id as usize].generation
        } else {
            0
        }
    }

    /// The live entity that occupies the slot `id`, if any.
    pub fn occupant(&self, id: u32) -> (r: Option<Entity>)
        ensures
            r == (if self.location(id) is Some {
                Some(Entity { id, generation: self.generation(id) })
            } else {
                None
            }),
    {
        if (id as usize) < self.slots.len() && self.slots[id as usize].data.is_some() {
            Some(Entity { id, generation: self.slots[id as usize].generation })
        } else {
            None
        }
    }

    /// A waiting id has no occupant, and an occupied slot lies below the slot count.
    pub proof fn lemma_free_ids(&self)
        requires
            self.wf(),
        ensures
            forall|id: u32| #[trigger] self.free_listed(id) ==> self.location(id) is None,
            forall|id: u32| #[trigger] self.location(id) is Some ==> id < self.slot_count(),
            self.slot_count() <= u32::MAX,
    {
        assert forall|id: u32| #[trigger] self.free_listed(id) implies self.location(id) is None by {
            let i = choose|i: int| 0 <= i < self.free@.len() && self.free@[i] == id;
        }
    }

    /// An id can be handed out exactly when at least one is left.
    pub proof fn lemma_ids_left(&self)
        requires
            self.wf(),
        ensures
            self.can_allocate() == (self.ids_left() >= 1),
    {
    }

    /// Whether a further id can be handed out.
    pub fn has_free_id(&self) -> (r: bool)
        ensures
            r == self.can_allocate(),
    {
        self.free.len() > 0 || self.slots.len() < u32::MAX as usize
    }

    /// Hands out an id: the most recently freed one, else a new one with generation zero.
    pub fn allocate(&mut self) -> (e: Entity)
        requires
            old(self).wf(),
            old(self).can_allocate(),
        ensures
            final(self).wf(),
            final(self).reserved(e.id),
            old(self).location(e.id) is None,
            e.generation == final(self).generation(e.id),
            e.generation == old(self).generation(e.id),
            e.id <= old(self).slot_count(),
            final(self).same_except(old(self), e.id),
            old(self).free_ids().len() > 0 ==> {
                &&& e.id == old(self).free_ids().last()
                &&& final(self).free_ids() == old(self).free_ids().drop_last()
                &&& final(self).slot_count() == old(self).slot_count()
            },
            old(self).free_ids().len() == 0 ==> {
                &&& e.id == old(self).slot_count()
                &&& e.generation == 0
                &&& final(self).free_ids() == old(self).free_ids()
                &&& final(self).slot_count() == old(self).slot_count() + 1
            },
            final(self).ids_left() == old(self).ids_left() - 1,
    {
        if self.free.len() > 0 {
            let id = self.free.pop().unwrap();
            proof {
                let last = old(self).free@.len() - 1;
                assert(old(self).free@[last] == id);
                assert forall|i: int| 0 <= i < self.free@.len() implies self.free@[i] != id by {
                    assert(self.free@[i] == old(self).free@[i]);
                }
                assert forall|i: int| 0 <= i < self.free@.len() implies {
                    &&& #[trigger] self.free@[i] < self.slots@.len()
                    &&& self.slots@[self.free@[i] as int].data is None
                } by {
                    assert(self.free@[i] == old(self).free@[i]);
                }
            }
            Entity { id, generation: self.slots[id as usize].generation }
        } else {
            let id = self.slots.len() as u32;
            self.slots.push(EntitySlot { generation: 0, data: None });
            proof {
                assert forall|i: int| 0 <= i < self.free@.len() implies {
                    &&& #[trigger] self.free@[i] < self.slots@.len()
                    &&& self.slots@[self.free@[i] as int].data is None
                } by {
                    assert(self.slots@[self.free@[i] as int] == old(self).slots@[self.free@[i] as int]);
                }
            }
            Entity { id, generation: 0 }
        }
    }

    /// Records where an entity lives; its slot must be occupied or reserved for it.
    pub fn set(&mut self, entity: Entity, data: EntityData)
        requires
            old(self).wf(),
            old(self).location(entity.id) is Some || old(self).reserved(entity.id),
            old(self).generation(entity.id) == entity.generation,
        ensures
            final(self).wf(),
            final(self).location(entity.id) == Some(data),
            final(self).generation(entity.id) == entity.generation,
            final(self).slot_count() == old(self).slot_count(),
            final(self).same_except(old(self), entity.id),
            final(self).free_ids() == old(self).free_ids(),
    {
        let idx = entity.id as usize;
        proof {
            if old(self).location(entity.id) is Some {
                assert forall|i: int| 0 <= i < self.free@.len() implies self.free@[i] != entity.id by {
                    assert(self.slots@[self.free@[i] as int].data is None);
                }
            }
        }
        self.slots.set(idx, EntitySlot { generation: entity.generation, data: Some(data) });
        proof {
            assert forall|i: int| 0 <= i < self.free@.len() implies {
                &&& #[trigger] self.free@[i] < self.slots@.len()
                &&& self.slots@[self.free@[i] as int].data is None
            } by {
                assert(self.free@[i] != entity.id);
                assert(self.slots@[self.free@[i] as int] == old(self).slots@[self.free@[i] as int]);
            }
        }
    }

    /// Frees the slot of a live entity and returns where it was. The slot's generation
    /// goes up by one and the id waits on the free list; a slot whose generation cannot
    /// grow any more is retired instead, so that no handle is ever issued twice.
    pub fn remove(&mut self, entity: Entity) -> (r: Option<EntityData>)
        requires
            old(self).wf(),
        ensures
            final(self).wf(),
            r == (if old(self).live(entity) {
                old(self).location(entity.id)
            } else {
                None
            }),
            !old(self).live(entity) ==> *final(self) == *old(self),
            old(self).live(entity) ==> {
                &&& final(self).location(entity.id) is None
                &&& final(self).generation(entity.id) == (if entity.generation < u32::MAX {
                    (entity.generation + 1) as u32
                } else {
                    entity.generation
                })
                &&& final(self).slot_count() == old(self).slot_count()
                &&& final(self).same_except(old(self), entity.id)
                &&& final(self).free_ids() == (if entity.generation < u32::MAX {
                    old(self).free_ids().push(entity.id)
                } else {
                    old(self).free_ids()
                })
            },
            final(self).ids_left() >= old(self).ids_left(),
    {
        if !self.contains(entity) {
            return None;
        }
        let idx = entity.id as usize;
        let data = self.slots[idx].data;
        proof {
            assert forall|i: int| 0 <= i < self.free@.len() implies self.free@[i] != entity.id by {
                assert(self.slots@[self.free@[i] as int].data is None);
            }
        }
        if entity.generation < u32::MAX {
            self.slots.set(idx, EntitySlot { generation: entity.generation + 1, data: None });
            self.free.push(entity.id);
        } else {
            self.slots.set(idx, EntitySlot { generation: entity.generation, data: None });
            assert(!self.free@.contains(entity.id));
        }
        proof {
            assert forall|i: int| 0 <= i < self.free@.len() implies {
                &&& #[trigger] self.free@[i] < self.slots@.len()
                &&& self.slots@[self.free@[i] as int].data is None
            } by {
                if self.free@[i] != entity.id {
                    assert(self.slots@[self.free@[i] as int] == old(self).slots@[self.free@[i] as int]);
                    assert(self.free@[i] == old(self).free@[i]);
                }
            }
            if entity.generation < u32::MAX {
                assert(self.free@.last() == entity.id);
                assert(self.free@.contains(entity.id));
            }
        }
        data
    }

    /// Takes the slot `entity.id` out of circulation for a caller that places the entity
    /// itself: the registry grows to hold the id (the ids skipped on the way wait on the
    /// free list), the id leaves the free list, and the slot takes the given generation.
    pub fn reserve(&mut self, entity: Entity)
        requires
            old(self).wf(),
            entity.id < u32::MAX,
            old(self).location(entity.id) is None,
        ensures
            final(self).wf(),
            final(self).reserved(entity.id),
            final(self).generation(entity.id) == entity.generation,
            final(self).same_except(old(self), entity.id),
            forall|j: u32| j != entity.id ==> #[trigger] final(self).generation(j) == old(self).generation(j),
            final(self).ids_left() + 1 >= old(self).ids_left(),
    {
        let idx = entity.id as usize;
        if idx >= self.slots.len() {
            while self.slots.len() < idx
                invariant
                    self.wf(),
                    self.free@.len() - old(self).free@.len() == self.slots@.len() - old(self).slots@.len(),
                    self.slots@.len() <= idx,
                    idx < u32::MAX,
                    old(self).slots@.len() <= self.slots@.len(),
                    forall|j: int| 0 <= j < old(self).slots@.len() ==> self.slots@[j] == old(self).slots@[j],
                    forall|j: int| old(self).slots@.len() <= j < self.slots@.len() ==> self.slots@[j] == (EntitySlot { generation: 0, data: None }),
                decreases idx - self.slots@.len(),
            {
                let id = self.slots.len() as u32;
                proof {
                    assert forall|i: int| 0 <= i < self.free@.len() implies self.free@[i] != id by {}
                }
                self.slots.push(EntitySlot { generation: 0, data: None });
                self.free.push(id);
                proof {
                    assert forall|i: int| 0 <= i < self.free@.len() implies {
                        &&& #[trigger] self.free@[i] < self.slots@.len()
                        &&& self.slots@[self.free@[i] as int].data is None
                    } by {}
                }
            }
            proof {
                assert forall|i: int| 0 <= i < self.free@.len() implies self.free@[i] != entity.id by {}
            }
            self.slots.push(EntitySlot { generation: entity.generation, data: None });
            proof {
                assert forall|i: int| 0 <= i < self.free@.len() implies {
                    &&& #[trigger] self.free@[i] < self.slots@.len()
                    &&& self.slots@[self.free@[i] as int].data is None
                } by {}
            }
        } else {
            let mut i: usize = 0;
            while i < self.free.len() && self.free[i] != entity.id
                invariant
                    self.free@ == old(self).free@,
                    i <= self.free@.len(),
                    forall|j: int| 0 <= j < i ==> self.free@[j] != entity.id,
                decreases self.free@.len() - i,
            {
                i += 1;
            }
            if i < self.free.len() && self.free[i] == entity.id {
                let ghost before = self.free@;
                self.free.remove(i);
                proof {
                    assert(self.free@ == before.remove(i as int));
                    assert forall|a: int, b: int| 0 <= a < b < self.free@.len() implies self.free@[a] != self.free@[b] by {
                        let a2 = if a < i { a } else { a + 1 };
                        let b2 = if b < i { b } else { b + 1 };
                        assert(self.free@[a] == before[a2]);
                        assert(self.free@[b] == before[b2]);
                    }
                    assert(before[i as int] == entity.id);
                    assert forall|k: int| 0 <= k < self.free@.len() implies self.free@[k] != entity.id by {
                        let k2 = if k < i { k } else { k + 1 };
                        assert(self.free@[k] == before[k2]);
                        assert(before[k2] != before[i as int]);
                    }
                    assert forall|k: int| 0 <= k < self.free@.len() implies {
                        &&& #[trigger] self.free@[k] < self.slots@.len()
                        &&& self.slots@[self.free@[k] as int].data is None
                    } by {
                        let k2 = if k < i { k } else { k + 1 };
                        assert(self.free@[k] == before[k2]);
                    }
                }
            }
            assert(!self.free@.contains(entity.id));
            self.slots.set(idx, EntitySlot { generation: entity.generation, data: None });
            proof {
                assert forall|k: int| 0 <= k < self.free@.len() implies {
                    &&& #[trigger] self.free@[k] < self.slots@.len()
                    &&& self.slots@[self.free@[k] as int].data is None
                } by {
                    assert(self.free@[k] != entity.id);
                }
            }
        }
    }
}

} // verus!
