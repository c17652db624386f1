use vstd::prelude::*;
use crate::archetype::{Archetype, ArchetypeDescriptor, ArchetypeIndex, ArchetypeLayout};
use crate::component::{ComponentId, ComponentIndex, StorageKind};
use crate::entity::{Entity, EntityData, EntityMap};
use crate::query::{value_item, Item};
use crate::storage::{cell, swap_removed, updated, written, ColumnStorage, Components};

verus! {

/// The component types of a bundle, in order.
pub open spec fn ids_of<V>(components: Seq<(ComponentId, V)>) -> Seq<ComponentId> {
    components.map_values(|c: (ComponentId, V)| c.0)
}

/// No component type appears twice in the bundle.
pub open spec fn distinct_ids<V>(components: Seq<(ComponentId, V)>) -> bool {
    ids_of(components).no_duplicates()
}

/// The value the bundle gives for `id` (meaningful when the bundle holds `id`).
pub open spec fn value_in<V>(components: Seq<(ComponentId, V)>, id: ComponentId) -> V {
    components[ids_of(components).index_of(id)].1
}

/// A bundle of components describes the archetype of an entity that holds exactly them.
impl<V> ArchetypeDescriptor for Vec<(ComponentId, V)> {
    open spec fn component_ids(&self) -> Seq<ComponentId> {
        ids_of(self@)
    }

    fn layout(&self) -> (r: ArchetypeLayout) {
        let mut layout = ArchetypeLayout::new();
        let mut k: usize = 0;
        while k < self.len()
            invariant
                ids_of(self@).no_duplicates(),
                k <= self@.len(),
                layout.wf(),
                layout@ == ids_of(self@).subrange(0, k as int),
            decreases self@.len() - k,
        {
            proof {
                let ids = ids_of(self@);
                assert(ids[k as int] == self@[k as int].0);
                if layout@.contains(self@[k as int].0) {
                    let j = choose|j: int| 0 <= j < layout@.len() && layout@[j] == self@[k as int].0;
                    assert(ids[j] == ids[k as int]);
                }
            }
            layout.add(self[k].0);
            proof {
                assert(layout@ =~= ids_of(self@).subrange(0, k + 1));
            }
            k += 1;
        }
        proof {
            assert(layout@ =~= ids_of(self@));
        }
        layout
    }
}

/// The world: archetypes, the component registry that owns their columns, and the
/// entity registry that says where each live entity is stored.
pub struct World<V> {
    archetypes: Vec<Archetype>,
    /// For each archetype and each component of its layout, the position of that
    /// component's storage in the registry.
    slots: Vec<Vec<usize>>,
    components: Components<V>,
    entities: EntityMap,
}

/// A component handed out for reading: a reference to its value, or `Unit` for a
/// component without data.
#[derive(Debug, PartialEq)]
pub enum ComponentRef<'a, V> {
    Value(&'a V),
    Unit,
}

/// A component handed out for writing: a reference to its value, or `Unit` for a
/// component without data, which has nothing to write.
#[derive(Debug)]
pub enum ComponentMut<'a, V> {
    Value(&'a mut V),
    Unit,
}

/// Access to one live entity of a world.
pub struct Entry<'a, V> {
    entity: Entity,
    data: EntityData,
    world: &'a mut World<V>,
}

impl<V> World<V> {
    pub closed spec fn archetype_count(&self) -> nat {
        self.archetypes@.len()
    }

    /// The component types of archetype `a`, in layout order.
    pub closed spec fn layout(&self, a: int) -> Seq<ComponentId> {
        self.archetypes@[a].layout@
    }

    /// The entities of archetype `a`, in row order.
    pub closed spec fn members(&self, a: int) -> Seq<Entity> {
        self.archetypes@[a].entities@
    }

    /// The column of the `k`-th component type of archetype `a`.
    pub closed spec fn column_at(&self, a: int, k: int) -> Seq<Option<V>> {
        self.components.storage(self.slots@[a]@[k] as int).column(a)
    }

    /// The column of component type `id` in archetype `a` (meaningful when the layout holds `id`).
    pub open spec fn column(&self, a: int, id: ComponentId) -> Seq<Option<V>> {
        self.column_at(a, self.layout(a).index_of(id))
    }

    /// The entity registry.
    pub closed spec fn registry(&self) -> EntityMap {
        self.entities
    }

    /// The component registry.
    pub closed spec fn registered(&self) -> Components<V> {
        self.components
    }

    pub open spec fn live(&self, e: Entity) -> bool {
        self.registry().live(e)
    }

    /// The current generation of the slot `id`.
    pub open spec fn generation(&self, id: u32) -> u32 {
        self.registry().generation(id)
    }

    /// The archetype of a live entity.
    pub open spec fn archetype_of(&self, e: Entity) -> int {
        self.registry().location(e.id)->Some_0.0.0 as int
    }

    /// The row of a live entity.
    pub open spec fn row_of(&self, e: Entity) -> int {
        self.registry().location(e.id)->Some_0.1.0 as int
    }

    /// Entity `e` is live and has component `id`.
    pub open spec fn has_component(&self, e: Entity, id: ComponentId) -> bool {
        self.live(e) && self.layout(self.archetype_of(e)).contains(id)
    }

    /// The data of component `id` on entity `e`, if `e` is live and has it; a unit
    /// component carries none.
    pub open spec fn value(&self, e: Entity, id: ComponentId) -> Option<V> {
        if self.has_component(e, id) {
            self.column(self.archetype_of(e), id)[self.row_of(e)]
        } else {
            None
        }
    }

    /// Component `id` of entity `e`, if `e` is live and has it: its value, or `Unit` for a
    /// component without data.
    pub open spec fn component(&self, e: Entity, id: ComponentId) -> Option<Item<V>> {
        if self.has_component(e, id) {
            Some(value_item(self.value(e, id)))
        } else {
            None
        }
    }

    /// The entities of archetype `b` once `x` is removed: if `x` is live there, the last
    /// entity moves into its row.
    pub open spec fn members_without(&self, x: Entity, b: int) -> Seq<Entity> {
        if self.live(x) && b == self.archetype_of(x) {
            swap_removed(self.members(b), self.row_of(x))
        } else {
            self.members(b)
        }
    }

    /// The entity that occupies slot `id`, with the slot's generation (live if any is).
    pub open spec fn occupant(&self, id: u32) -> Entity {
        Entity { id, generation: self.generation(id) }
    }

    /// The archetype table and every archetype can grow by one more archetype and one more row.
    pub open spec fn has_room(&self) -> bool {
        &&& self.archetype_count() + 1 < u32::MAX
        &&& forall|a: int| 0 <= a < self.archetype_count() ==> #[trigger] self.members(a).len() + 1 < u32::MAX
    }

    /// `n` more entities can be created: there are `n` ids left, and the archetype table
    /// and every archetype can grow by `n`.
    pub open spec fn has_room_for(&self, n: nat) -> bool {
        &&& self.archetype_count() + n < u32::MAX
        &&& forall|a: int| 0 <= a < self.archetype_count() ==> #[trigger] self.members(a).len() + n < u32::MAX
        &&& self.registry().ids_left() >= n
    }

    /// A new entity id can be handed out.
    pub open spec fn can_allocate(&self) -> bool {
        self.registry().can_allocate()
    }

    pub closed spec fn slot_ok(&self, a: int, k: int) -> bool {
        let s = self.slots@[a]@[k] as int;
        &&& 0 <= s < self.components.count()
        &&& self.components.storage(s).component_id() == self.layout(a)[k]
        &&& self.components.storage(s).has_column(a)
        &&& self.column_at(a, k).len() == self.members(a).len()
    }

    pub closed spec fn row_ok(&self, a: int, r: int) -> bool {
        let e = self.members(a)[r];
        &&& self.entities.live(e)
        &&& self.entities.location(e.id) == Some(EntityData(ArchetypeIndex(a as u32), ComponentIndex(r as u32)))
    }

    pub closed spec fn location_ok(&self, id: u32) -> bool {
        let d = self.entities.location(id)->Some_0;
        self.entities.location(id) is Some ==> {
            &&& (d.0.0 as int) < self.archetypes@.len()
            &&& (d.1.0 as int) < self.members(d.0.0 as int).len()
            &&& self.members(d.0.0 as int)[d.1.0 as int].id == id
        }
    }

    pub closed spec fn wf(&self) -> bool {
        &&& self.entities.wf()
        &&& self.components.wf()
        &&& self.archetypes@.len() == self.slots@.len()
        &&& self.archetypes@.len() < u32::MAX
        &&& forall|a: int| 0 <= a < self.archetypes@.len() ==> {
            &&& (#[trigger] self.archetypes@[a]).index.0 == a
            &&& self.archetypes@[a].layout.wf()
            &&& self.slots@[a]@.len() == self.archetypes@[a].layout@.len()
            &&& self.archetypes@[a].entities@.len() < u32::MAX
        }
        &&& forall|a: int, b: int|
            0 <= a < b < self.archetypes@.len() ==> #[trigger] self.layout(a).to_set() != #[trigger] self.layout(b).to_set()
        &&& forall|s: int| 0 <= s < self.components.count() ==> #[trigger] self.components.storage(s).span() <= self.archetypes@.len()
        &&& forall|a: int, k: int|
            0 <= a < self.archetypes@.len() && 0 <= k < self.layout(a).len() ==> #[trigger] self.slot_ok(a, k)
        &&& forall|a: int, r: int|
            0 <= a < self.archetypes@.len() && 0 <= r < self.members(a).len() ==> #[trigger] self.row_ok(a, r)
        &&& forall|id: u32| #[trigger] self.location_ok(id)
    }

    pub fn new() -> (r: World<V>)
        ensures
            r.wf(),
            r.archetype_count() == 0,
            r.has_room(),
            r.can_allocate(),
            forall|n: nat| n + 1 < u32::MAX ==> #[trigger] r.has_room_for(n),
            forall|e: Entity| !r.live(e),
            r.registry().slot_count() == 0,
            r.registry().free_ids() == Seq::<u32>::empty(),
            forall|id: u32| #[trigger] r.generation(id) == 0,
    {
        let w = World {
            archetypes: Vec::new(),
            slots: Vec::new(),
            components: Components::new(),
            entities: EntityMap::new(),
        };
        proof {
            assert forall|id: u32| #[trigger] w.location_ok(id) by {}
        }
        w
    }

    pub fn contains(&self, entity: Entity) -> (r: bool)
        ensures
            r == self.live(entity),
    {
        self.entities.contains(entity)
    }

    /// Whether `create` can take one more entity: an id is free and neither the archetype
    /// table nor any archetype is full.
    pub fn can_create(&self) -> (r: bool)
        requires
            self.wf(),
        ensures
            r == self.has_room_for(1),
    {
        proof {
            self.entities.lemma_ids_left();
        }
        if !self.entities.has_free_id() || self.archetypes.len() >= (u32::MAX - 1) as usize {
            return false;
        }
        let mut a: usize = 0;
        while a < self.archetypes.len()
            invariant
                a <= self.archetypes@.len(),
                self.archetypes@.len() + 1 < u32::MAX,
                forall|b: int| 0 <= b < a ==> #[trigger] self.members(b).len() + 1 < u32::MAX,
            decreases self.archetypes@.len() - a,
        {
            if self.archetypes[a].entities.len() >= (u32::MAX - 1) as usize {
                proof {
                    assert(self.members(a as int).len() + 1 >= u32::MAX);
                }
                return false;
            }
            a += 1;
        }
        true
    }

    /// The archetype table stays below the largest `u32`.
    pub proof fn lemma_bounds(&self)
        requires
            self.wf(),
        ensures
            self.archetype_count() < u32::MAX,
    {
    }

    /// A live entity sits in an existing archetype, at an existing row.
    pub proof fn lemma_live(&self, e: Entity)
        requires
            self.wf(),
            self.live(e),
        ensures
            0 <= self.archetype_of(e) < self.archetype_count(),
            0 <= self.row_of(e) < self.members(self.archetype_of(e)).len(),
            self.members(self.archetype_of(e))[self.row_of(e)] == e,
    {
        assert(self.location_ok(e.id));
        assert(self.row_ok(self.archetype_of(e), self.row_of(e)));
    }

    /// The invariants every world keeps between operations: each live entity is found at
    /// the row recorded for it and carries its slot's current generation; each row holds a
    /// live entity recorded at that row, so no entity stands in two rows; no layout holds a
    /// component type twice; and no two archetypes hold the same set of component types.
    pub proof fn lemma_invariants(&self)
        requires
            self.wf(),
        ensures
            forall|e: Entity| #[trigger] self.live(e) ==> {
                &&& 0 <= self.archetype_of(e) < self.archetype_count()
                &&& 0 <= self.row_of(e) < self.members(self.archetype_of(e)).len()
                &&& self.members(self.archetype_of(e))[self.row_of(e)] == e
                &&& e.generation == self.generation(e.id)
            },
            forall|a: int, r: int| 0 <= a < self.archetype_count() && 0 <= r < self.members(a).len() ==> {
                &&& self.live(#[trigger] self.members(a)[r])
                &&& self.archetype_of(self.members(a)[r]) == a
                &&& self.row_of(self.members(a)[r]) == r
            },
            forall|a: int, r: int, b: int, q: int|
                0 <= a < self.archetype_count() && 0 <= r < self.members(a).len() && 0 <= b < self.archetype_count() && 0 <= q
                    < self.members(b).len() && #[trigger] self.members(a)[r] == #[trigger] self.members(b)[q] ==> a == b && r == q,
            forall|a: int| 0 <= a < self.archetype_count() ==> (#[trigger] self.layout(a)).no_duplicates(),
            forall|a: int, b: int|
                0 <= a < b < self.archetype_count() ==> #[trigger] self.layout(a).to_set() != #[trigger] self.layout(b).to_set(),
            forall|e: Entity| #[trigger] self.live(e) ==> !self.registry().free_listed(e.id) && e.id < self.registry().slot_count(),
    {
        self.entities.lemma_free_ids();
        assert forall|e: Entity| #[trigger] self.live(e) implies {
            &&& 0 <= self.archetype_of(e) < self.archetype_count()
            &&& 0 <= self.row_of(e) < self.members(self.archetype_of(e)).len()
            &&& self.members(self.archetype_of(e))[self.row_of(e)] == e
            &&& e.generation == self.generation(e.id)
        } by {
            self.lemma_live(e);
        }
        assert forall|a: int, r: int| 0 <= a < self.archetype_count() && 0 <= r < self.members(a).len() implies {
            &&& self.live(#[trigger] self.members(a)[r])
            &&& self.archetype_of(self.members(a)[r]) == a
            &&& self.row_of(self.members(a)[r]) == r
        } by {
            self.lemma_members_live(a, r);
        }
        assert forall|a: int, r: int, b: int, q: int|
            0 <= a < self.archetype_count() && 0 <= r < self.members(a).len() && 0 <= b < self.archetype_count() && 0 <= q
                < self.members(b).len() && #[trigger] self.members(a)[r] == #[trigger] self.members(b)[q] implies a == b && r == q by {
            self.lemma_members_live(a, r);
            self.lemma_members_live(b, q);
        }
        assert forall|a: int| 0 <= a < self.archetype_count() implies (#[trigger] self.layout(a)).no_duplicates() by {
            assert(self.archetypes@[a].layout.wf());
        }
    }

    /// Every column of an archetype is exactly as long as the archetype's entity list.
    pub proof fn lemma_column_lengths(&self)
        requires
            self.wf(),
        ensures
            forall|a: int, id: ComponentId|
                0 <= a < self.archetype_count() && self.layout(a).contains(id) ==> #[trigger] self.column(a, id).len()
                    == self.members(a).len(),
    {
        assert forall|a: int, id: ComponentId|
            0 <= a < self.archetype_count() && self.layout(a).contains(id) implies #[trigger] self.column(a, id).len()
                == self.members(a).len() by {
            let k = self.layout(a).index_of(id);
            assert(self.slot_ok(a, k));
        }
    }

    /// A handle whose generation is below its slot's is dead, and stays dead through every
    /// later state whose generations are no lower: an entity that lives in that slot later
    /// carries a strictly greater generation.
    pub proof fn lemma_stale_handle(before: &World<V>, after: &World<V>, h: Entity)
        requires
            after.wf(),
            h.generation < before.generation(h.id),
            forall|id: u32| #[trigger] before.generation(id) <= after.generation(id),
        ensures
            !before.live(h),
            !after.live(h),
            forall|e: Entity| #[trigger] after.live(e) && e.id == h.id ==> h.generation < e.generation,
    {
        assert(before.generation(h.id) <= after.generation(h.id));
    }

    /// Every row of every archetype holds a live entity, recorded at that row.
    pub proof fn lemma_members_live(&self, a: int, r: int)
        requires
            self.wf(),
            0 <= a < self.archetype_count(),
            0 <= r < self.members(a).len(),
        ensures
            self.live(self.members(a)[r]),
            self.archetype_of(self.members(a)[r]) == a,
            self.row_of(self.members(a)[r]) == r,
    {
        assert(self.row_ok(a, r));
    }

    /// Where a live entity is stored.
    pub fn locate(&self, entity: Entity) -> (r: Option<EntityData>)
        requires
            self.wf(),
        ensures
            r is Some == self.live(entity),
            r is Some ==> {
                &&& r->Some_0.0.0 == self.archetype_of(entity)
                &&& r->Some_0.1.0 == self.row_of(entity)
                &&& self.archetype_of(entity) < self.archetype_count()
                &&& self.row_of(entity) < self.members(self.archetype_of(entity)).len()
                &&& self.members(self.archetype_of(entity))[self.row_of(entity)] == entity
            },
    {
        let r = self.entities.get(entity);
        proof {
            if r is Some {
                assert(self.location_ok(entity.id));
                let a = self.archetype_of(entity);
                let row = self.row_of(entity);
                assert(self.row_ok(a, row));
            }
        }
        r
    }

    pub fn archetypes(&self) -> (r: &[Archetype])
        requires
            self.wf(),
        ensures
            r@.len() == self.archetype_count(),
            forall|a: int| 0 <= a < r@.len() ==> {
                &&& (#[trigger] r@[a]).index.0 == a
                &&& r@[a].layout@ == self.layout(a)
                &&& r@[a].entities@ == self.members(a)
            },
    {
        self.archetypes.as_slice()
    }

    pub fn components(&self) -> (r: &Components<V>)
        ensures
            *r == self.registered(),
    {
        &self.components
    }

    pub fn entry(&mut self, entity: Entity) -> (r: Option<Entry<'_, V>>)
        requires
            old(self).wf(),
        ensures
            r is Some == old(self).live(entity),
            r is None ==> *final(self) == *old(self),
            r is Some ==> {
                &&& r->Some_0.entity() == entity
                &&& r->Some_0.world() == *old(self)
                &&& r->Some_0.wf()
                &&& *final(self) == *final(r->Some_0.world_ref())
            },
    {
        match self.entities.get(entity) {
            Some(data) => Some(Entry { entity, data, world: self }),
            None => None,
        }
    }
}

/// In a sequence without duplicates, the position of an element is the one it stands at.
pub proof fn lemma_index_of_unique<T>(s: Seq<T>, k: int)
    requires
        s.no_duplicates(),
        0 <= k < s.len(),
    ensures
        s.index_of(s[k]) == k,
{
    assert(s.contains(s[k]));
    let j = s.index_of(s[k]);
    assert(0 <= j < s.len() && s[j] == s[k]);
}

impl<V> World<V> {
    /// Same entities and the same archetypes with the same columns; more archetypes may follow.
    pub open spec fn extends(&self, old: &World<V>) -> bool {
        &&& self.registry() == old.registry()
        &&& old.archetype_count() <= self.archetype_count()
        &&& forall|b: int|
            0 <= b < old.archetype_count() ==> {
                &&& #[trigger] self.layout(b) == old.layout(b)
                &&& self.members(b) == old.members(b)
            }
        &&& forall|b: int, k: int|
            0 <= b < old.archetype_count() && 0 <= k < old.layout(b).len() ==> #[trigger] self.column_at(b, k)
                == old.column_at(b, k)
    }

    /// The column of `id` in archetype `a`, if its layout holds `id`.
    pub fn column_of(&self, a: usize, id: ComponentId) -> (r: Option<&ColumnStorage<V>>)
        requires
            self.wf(),
            a < self.archetype_count(),
        ensures
            r is Some == self.layout(a as int).contains(id),
            r is Some ==> {
                &&& r->Some_0@ == self.column(a as int, id)
                &&& r->Some_0@.len() == self.members(a as int).len()
            },
    {
        match self.archetypes[a].layout.position(id) {
            Some(k) => {
                proof {
                    assert(self.slot_ok(a as int, k as int));
                    lemma_index_of_unique(self.layout(a as int), k as int);
                }
                let s = self.slots[a][k];
                let col = self.components.get_at(s).get(ArchetypeIndex(a as u32));
                col
            },
            None => None,
        }
    }

    /// Adds an archetype for a layout that no archetype has yet, with an empty column
    /// for each of its component types.
    fn register_archetype(&mut self, layout: ArchetypeLayout) -> (a: usize)
        requires
            old(self).wf(),
            layout.wf(),
            old(self).archetype_count() + 1 < u32::MAX,
            forall|b: int| 0 <= b < old(self).archetype_count() ==> #[trigger] old(self).layout(b).to_set() != layout@.to_set(),
        ensures
            final(self).wf(),
            final(self).extends(old(self)),
            a == old(self).archetype_count(),
            final(self).archetype_count() == a + 1,
            final(self).layout(a as int) == layout@,
            final(self).members(a as int) == Seq::<Entity>::empty(),
            forall|b: int| 0 <= b < old(self).archetype_count() ==> #[trigger] final(self).members(b).len() == old(self).members(b).len(),
    {
        let a = self.archetypes.len();
        let index = ArchetypeIndex(a as u32);
        let mut storages: Vec<usize> = Vec::new();
        let mut k: usize = 0;
        let ghost old_count = self.components.count();
        while k < layout.components.len()
            invariant
                self.components.wf(),
                self.archetypes == old(self).archetypes,
                self.slots == old(self).slots,
                self.entities == old(self).entities,
                a == old(self).archetypes@.len(),
                index.0 == a,
                a + 1 < u32::MAX,
                layout.wf(),
                k <= layout@.len(),
                storages@.len() == k,
                old_count == old(self).components.count(),
                old_count <= self.components.count(),
                forall|t: int| 0 <= t < old_count ==> #[trigger] self.components.storage(t).component_id()
                    == old(self).components.storage(t).component_id(),
                forall|t: int| 0 <= t < self.components.count() ==> #[trigger] self.components.storage(t).span() <= a + 1,
                forall|t: int|
                    0 <= t < self.components.count() && #[trigger] self.components.storage(t).span() == a + 1
                        ==> layout@.subrange(0, k as int).contains(self.components.storage(t).component_id()),
                forall|j: int|
                    0 <= j < k ==> {
                        let t = #[trigger] storages@[j] as int;
                        &&& 0 <= t < self.components.count()
                        &&& self.components.storage(t).component_id() == layout@[j]
                        &&& self.components.storage(t).has_column(a as int)
                        &&& self.components.storage(t).column(a as int) == Seq::<Option<V>>::empty()
                    },
                forall|t: int, b: int|
                    #![trigger self.components.storage(t).has_column(b)]
                    #![trigger self.components.storage(t).column(b)]
                    0 <= t < old_count && b != a ==> {
                        &&& self.components.storage(t).has_column(b) == old(self).components.storage(t).has_column(b)
                        &&& self.components.storage(t).column(b) == old(self).components.storage(t).column(b)
                    },
                forall|t: int| #![trigger self.components.storage(t)]
                    old_count <= t < self.components.count() ==> forall|b: int| b != a ==> !(#[trigger] self.components.storage(t).has_column(b)),
            decreases layout@.len() - k,
        {
            let id = layout.components[k];
            let ghost before = self.components;
            let s = self.components.get_or_insert(id);
            let ghost mid = self.components;
            proof {
                if self.components.storage(s as int).span() == a + 1 {
                    assert(before.storage(s as int).span() == a + 1);
                    let sub = layout@.subrange(0, k as int);
                    assert(sub.contains(id));
                    let j = choose|j: int| 0 <= j < sub.len() && sub[j] == id;
                    assert(layout@[j] == layout@[k as int]);
                }
            }
            self.components.register_archetype(s, index);
            storages.push(s);
            proof {
                assert forall|t: int, b: int|
                    #![trigger self.components.storage(t).has_column(b)]
                    #![trigger self.components.storage(t).column(b)]
                    0 <= t < old_count && b != a implies {
                        &&& self.components.storage(t).has_column(b) == old(self).components.storage(t).has_column(b)
                        &&& self.components.storage(t).column(b) == old(self).components.storage(t).column(b)
                    } by {
                    if t != s {
                        assert(self.components.storage(t) == mid.storage(t));
                        assert(mid.storage(t) == before.storage(t));
                    } else {
                        assert(self.components.storage(t).has_column(b) == mid.storage(t).has_column(b));
                        assert(self.components.storage(t).column(b) == mid.storage(t).column(b));
                        assert(mid.storage(t) == before.storage(t));
                    }
                    assert(before.storage(t).has_column(b) == old(self).components.storage(t).has_column(b));
                    assert(before.storage(t).column(b) == old(self).components.storage(t).column(b));
                }
                assert forall|t: int|
                    0 <= t < self.components.count() && #[trigger] self.components.storage(t).span() == a + 1
                    implies layout@.subrange(0, k + 1).contains(self.components.storage(t).component_id()) by {
                    if t == s {
                        assert(layout@.subrange(0, k + 1)[k as int] == id);
                    } else {
                        assert(self.components.storage(t) == before.storage(t));
                        let sub = layout@.subrange(0, k as int);
                        let j = choose|j: int| 0 <= j < sub.len() && sub[j] == self.components.storage(t).component_id();
                        assert(layout@.subrange(0, k + 1)[j] == sub[j]);
                    }
                }
                assert forall|j: int| 0 <= j < k + 1 implies {
                    let t = #[trigger] storages@[j] as int;
                    &&& 0 <= t < self.components.count()
                    &&& self.components.storage(t).component_id() == layout@[j]
                    &&& self.components.storage(t).has_column(a as int)
                    &&& self.components.storage(t).column(a as int) == Seq::<Option<V>>::empty()
                } by {
                    if j < k {
                        let t = storages@[j] as int;
                        if t == s {
                            assert(layout@[j] == layout@[k as int]);
                        } else {
                            assert(self.components.storage(t) == before.storage(t));
                        }
                    }
                }
                assert forall|t: int| #![trigger self.components.storage(t)]
                    old_count <= t < self.components.count() implies forall|b: int| b != a ==> !(#[trigger] self.components.storage(t).has_column(b)) by {
                    if t != s && t < before.count() {
                        assert(self.components.storage(t) == before.storage(t));
                    }
                    if t == s {
                        assert forall|b: int| b != a implies !(#[trigger] self.components.storage(t).has_column(b)) by {
                            assert(self.components.storage(t).has_column(b) == mid.storage(t).has_column(b));
                            if t < before.count() {
                                assert(mid.storage(t) == before.storage(t));
                            }
                        }
                    }
                }
            }
            k += 1;
        }
        self.archetypes.push(Archetype::new(index, layout));
        self.slots.push(storages);
        proof {
            let na = a as int;
            assert(self.layout(na) == layout@);
            assert forall|b: int, c: int|
                0 <= b < c < self.archetypes@.len() implies #[trigger] self.layout(b).to_set() != #[trigger] self.layout(c).to_set() by {
                assert(self.archetypes@[b] == old(self).archetypes@[b]);
                if c < na {
                    assert(self.archetypes@[c] == old(self).archetypes@[c]);
                    assert(old(self).layout(b).to_set() != old(self).layout(c).to_set());
                } else {
                    assert(old(self).layout(b).to_set() != layout@.to_set());
                }
            }
            assert forall|b: int| 0 <= b < self.archetypes@.len() implies {
                &&& (#[trigger] self.archetypes@[b]).index.0 == b
                &&& self.archetypes@[b].layout.wf()
                &&& self.slots@[b]@.len() == self.archetypes@[b].layout@.len()
                &&& self.archetypes@[b].entities@.len() < u32::MAX
            } by {
                if b < na {
                    assert(self.archetypes@[b] == old(self).archetypes@[b]);
                    assert(self.slots@[b] == old(self).slots@[b]);
                }
            }
            assert forall|b: int, j: int|
                0 <= b < self.archetypes@.len() && 0 <= j < self.layout(b).len() implies #[trigger] self.slot_ok(b, j) by {
                if b < na {
                    assert(self.archetypes@[b] == old(self).archetypes@[b]);
                    assert(self.slots@[b] == old(self).slots@[b]);
                    assert(old(self).slot_ok(b, j));
                    let t = self.slots@[b]@[j] as int;
                    assert(self.components.storage(t).has_column(b));
                    assert(self.column_at(b, j) == old(self).column_at(b, j));
                } else {
                    assert(self.slots@[b] == storages);
                    let t = storages@[j] as int;
                    assert(self.components.storage(t).has_column(a as int));
                }
            }
            assert forall|b: int, r: int|
                0 <= b < self.archetypes@.len() && 0 <= r < self.members(b).len() implies #[trigger] self.row_ok(b, r) by {
                assert(self.archetypes@[b] == old(self).archetypes@[b]);
                assert(old(self).row_ok(b, r));
            }
            assert forall|id: u32| #[trigger] self.location_ok(id) by {
                assert(old(self).location_ok(id));
                let d = self.entities.location(id)->Some_0;
                if self.entities.location(id) is Some {
                    assert(self.archetypes@[d.0.0 as int] == old(self).archetypes@[d.0.0 as int]);
                }
            }
            assert forall|t: int| 0 <= t < self.components.count() implies #[trigger] self.components.storage(t).span() <= self.archetypes@.len() by {}
            assert forall|b: int| 0 <= b < old(self).archetype_count() implies {
                &&& #[trigger] self.layout(b) == old(self).layout(b)
                &&& self.members(b) == old(self).members(b)
            } by {
                assert(self.archetypes@[b] == old(self).archetypes@[b]);
            }
            assert forall|b: int, j: int|
                0 <= b < old(self).archetype_count() && 0 <= j < old(self).layout(b).len() implies #[trigger] self.column_at(b, j)
                    == old(self).column_at(b, j) by {
                assert(self.slots@[b] == old(self).slots@[b]);
                assert(old(self).slot_ok(b, j));
            }
            assert forall|b: int| 0 <= b < old(self).archetype_count() implies #[trigger] self.members(b).len() == old(self).members(b).len() by {
                assert(self.archetypes@[b] == old(self).archetypes@[b]);
            }
        }
        a
    }

    /// The archetype whose layout holds the same component types as `layout`,
    /// registering a new one if there is none.
    fn archetype_for(&mut self, layout: ArchetypeLayout) -> (a: usize)
        requires
            old(self).wf(),
            layout.wf(),
            old(self).archetype_count() + 1 < u32::MAX,
        ensures
            final(self).wf(),
            final(self).extends(old(self)),
            a < final(self).archetype_count(),
            final(self).layout(a as int).to_set() == layout@.to_set(),
            final(self).archetype_count() <= old(self).archetype_count() + 1,
            a >= old(self).archetype_count() ==> final(self).members(a as int) == Seq::<Entity>::empty(),
            forall|b: int| 0 <= b < old(self).archetype_count() ==> #[trigger] final(self).members(b).len() == old(self).members(b).len(),
            a < old(self).archetype_count() ==> final(self).archetype_count() == old(self).archetype_count(),
            a >= old(self).archetype_count() ==> {
                &&& a == old(self).archetype_count()
                &&& final(self).archetype_count() == old(self).archetype_count() + 1
                &&& forall|b: int| 0 <= b < old(self).archetype_count() ==> #[trigger] old(self).layout(b).to_set() != layout@.to_set()
            },
    {
        let mut b: usize = 0;
        while b < self.archetypes.len()
            invariant
                self.wf(),
                layout.wf(),
                b <= self.archetype_count(),
                forall|c: int| 0 <= c < b ==> #[trigger] self.layout(c).to_set() != layout@.to_set(),
            decreases self.archetype_count() - b,
        {
            proof {
                assert(self.archetypes@[b as int].index.0 == b);
            }
            if self.archetypes[b].layout.same_components(&layout) {
                return b;
            }
            b += 1;
        }
        self.register_archetype(layout)
    }
}

/// In a bundle without duplicate types, the value found for the `j`-th type is the `j`-th value.
pub proof fn lemma_value_in<V>(components: Seq<(ComponentId, V)>, j: int)
    requires
        distinct_ids(components),
        0 <= j < components.len(),
    ensures
        ids_of(components)[j] == components[j].0,
        ids_of(components).contains(components[j].0),
        value_in(components, components[j].0) == components[j].1,
{
    assert(ids_of(components)[j] == components[j].0);
    lemma_index_of_unique(ids_of(components), j);
}

impl<V: Copy> World<V> {
    /// Stores a bundle as a new row for an entity whose slot is reserved for it.
    fn place(&mut self, entity: Entity, components: &Vec<(ComponentId, V)>) -> (a: usize)
        requires
            old(self).wf(),
            old(self).has_room(),
            distinct_ids(components@),
            old(self).registry().reserved(entity.id),
            old(self).registry().generation(entity.id) == entity.generation,
        ensures
            final(self).wf(),
            final(self).live(entity),
            final(self).registry().same_except(&old(self).registry(), entity.id),
            final(self).registry().slot_count() == old(self).registry().slot_count(),
            final(self).generation(entity.id) == entity.generation,
            final(self).archetype_of(entity) == a,
            final(self).layout(a as int).to_set() == ids_of(components@).to_set(),
            final(self).archetype_count() >= old(self).archetype_count(),
            final(self).archetype_count() <= old(self).archetype_count() + 1,
            a < old(self).archetype_count() ==> final(self).archetype_count() == old(self).archetype_count(),
            a >= old(self).archetype_count() ==> {
                &&& a == old(self).archetype_count()
                &&& final(self).archetype_count() == old(self).archetype_count() + 1
                &&& forall|b: int| 0 <= b < old(self).archetype_count() ==> #[trigger] old(self).layout(b).to_set() != ids_of(components@).to_set()
            },
            final(self).members(a as int) == (if a < old(self).archetype_count() {
                old(self).members(a as int).push(entity)
            } else {
                seq![entity]
            }),
            forall|b: int| 0 <= b < old(self).archetype_count() && b != a ==> #[trigger] final(self).members(b) == old(self).members(b),
            forall|b: int, q: int|
                0 <= b < old(self).archetype_count() && b != a && 0 <= q < old(self).layout(b).len() ==> #[trigger] final(self).column_at(b, q)
                    == old(self).column_at(b, q),
            final(self).registry().free_ids() == old(self).registry().free_ids(),
            forall|b: int| 0 <= b < old(self).archetype_count() ==> #[trigger] final(self).layout(b) == old(self).layout(b),
            forall|j: int| 0 <= j < components@.len() ==>
                #[trigger] final(self).value(entity, components@[j].0) == cell(components@[j].0.is_dense(), components@[j].1),
            forall|j: int| 0 <= j < components@.len() ==>
                #[trigger] final(self).component(entity, components@[j].0) == Some(
                    if components@[j].0.is_dense() {
                        Item::Value(components@[j].1)
                    } else {
                        Item::Unit
                    },
                ),
            forall|e: Entity, id: ComponentId| e.id != entity.id ==> {
                &&& (#[trigger] final(self).value(e, id)) is Some == old(self).value(e, id) is Some
                &&& final(self).value(e, id) == old(self).value(e, id)
            },
    {
        let layout = components.layout();
        let ghost start = *self;
        let a = self.archetype_for(layout);
        let ghost mid = *self;
        let row = self.archetypes[a].entities.len();
        proof {
            assert(mid.archetypes@[a as int].index.0 == a);
            assert(row + 1 < u32::MAX) by {
                if a < start.archetype_count() {
                    assert(start.members(a as int).len() + 1 < u32::MAX);
                    assert(mid.members(a as int).len() == start.members(a as int).len());
                }
            }
            assert(mid.layout(a as int).no_duplicates());
        }
        let width = self.archetypes[a].layout.components.len();
        let mut p: usize = 0;
        while p < width
            invariant
                self.archetypes == mid.archetypes,
                self.slots == mid.slots,
                self.entities == mid.entities,
                mid.wf(),
                self.components.wf(),
                self.components.count() == mid.components.count(),
                a < mid.archetype_count(),
                row == mid.members(a as int).len(),
                row + 1 < u32::MAX,
                width == mid.layout(a as int).len(),
                p <= width,
                distinct_ids(components@),
                mid.layout(a as int).to_set() == ids_of(components@).to_set(),
                forall|t: int| 0 <= t < self.components.count() ==> {
                    &&& (#[trigger] self.components.storage(t)).component_id() == mid.components.storage(t).component_id()
                    &&& self.components.storage(t).span() == mid.components.storage(t).span()
                },
                forall|b: int, q: int|
                    #![trigger self.components.storage(b).has_column(q)]
                    #![trigger self.components.storage(b).column(q)]
                    0 <= b < self.components.count() && q != a ==> {
                        &&& self.components.storage(b).has_column(q) == mid.components.storage(b).has_column(q)
                        &&& self.components.storage(b).column(q) == mid.components.storage(b).column(q)
                    },
                forall|t: int| 0 <= t < self.components.count() ==>
                    (#[trigger] self.components.storage(t)).has_column(a as int) == mid.components.storage(t).has_column(a as int),
                forall|q: int| 0 <= q < p ==> #[trigger] self.column_at(a as int, q) == mid.column_at(a as int, q).push(
                    cell(mid.layout(a as int)[q].is_dense(), value_in(components@, mid.layout(a as int)[q])),
                ),
                forall|q: int| p <= q < width ==> #[trigger] self.column_at(a as int, q) == mid.column_at(a as int, q),
            decreases width - p,
        {
            let id = self.archetypes[a].layout.components[p];
            let mut j: usize = 0;
            proof {
                assert(mid.layout(a as int).to_set().contains(id));
                assert(ids_of(components@).contains(id));
            }
            while j < components.len() && components[j].0 != id
                invariant
                    j <= components@.len(),
                    ids_of(components@).contains(id),
                    forall|i: int| 0 <= i < j ==> components@[i].0 != id,
                decreases components@.len() - j,
            {
                j += 1;
            }
            proof {
                if j >= components@.len() {
                    let i = choose|i: int| 0 <= i < ids_of(components@).len() && ids_of(components@)[i] == id;
                    assert(ids_of(components@)[i] == components@[i].0);
                }
                lemma_value_in(components@, j as int);
                assert(mid.slot_ok(a as int, p as int));
            }
            let s = self.slots[a][p];
            let ghost before = self.components;
            let ghost wbefore = *self;
            proof {
                assert(self.column_at(a as int, p as int) == mid.column_at(a as int, p as int));
                assert(self.components.storage(s as int).has_column(a as int));
                assert(components@[j as int].0 == mid.layout(a as int)[p as int]);
            }
            self.components.extend(s, ArchetypeIndex(a as u32), components[j].1);
            proof {
                assert forall|q: int| 0 <= q < p + 1 implies #[trigger] self.column_at(a as int, q) == mid.column_at(a as int, q).push(
                    cell(mid.layout(a as int)[q].is_dense(), value_in(components@, mid.layout(a as int)[q])),
                ) by {
                    if q < p {
                        assert(mid.slot_ok(a as int, q));
                        let t = mid.slots@[a as int]@[q] as int;
                        assert(mid.layout(a as int)[q] != mid.layout(a as int)[p as int]);
                        assert(t != s);
                        assert(self.components.storage(t) == before.storage(t));
                        assert(wbefore.column_at(a as int, q) == self.column_at(a as int, q));
                    } else {
                        assert(wbefore.column_at(a as int, q) == mid.column_at(a as int, q));
                    }
                }
                assert forall|q: int| p + 1 <= q < width implies #[trigger] self.column_at(a as int, q) == mid.column_at(a as int, q) by {
                    assert(mid.slot_ok(a as int, q));
                    let t = mid.slots@[a as int]@[q] as int;
                    assert(mid.layout(a as int)[q] != mid.layout(a as int)[p as int]);
                    assert(t != s);
                    assert(self.components.storage(t) == before.storage(t));
                    assert(wbefore.column_at(a as int, q) == self.column_at(a as int, q));
                }
                assert forall|b: int, q: int|
                    #![trigger self.components.storage(b).has_column(q)]
                    #![trigger self.components.storage(b).column(q)]
                    0 <= b < self.components.count() && q != a implies {
                        &&& self.components.storage(b).has_column(q) == mid.components.storage(b).has_column(q)
                        &&& self.components.storage(b).column(q) == mid.components.storage(b).column(q)
                    } by {
                    if b != s {
                        assert(self.components.storage(b) == before.storage(b));
                    } else {
                        assert(self.components.storage(b).has_column(q) == before.storage(b).has_column(q));
                        assert(self.components.storage(b).column(q) == before.storage(b).column(q));
                    }
                }
                assert forall|t: int| 0 <= t < self.components.count() implies
                    (#[trigger] self.components.storage(t)).has_column(a as int) == mid.components.storage(t).has_column(a as int) by {
                    if t != s {
                        assert(self.components.storage(t) == before.storage(t));
                    }
                }
            }
            p += 1;
        }
        let ghost filled = *self;
        self.archetypes[a].entities.push(entity);
        self.entities.set(entity, EntityData(ArchetypeIndex(a as u32), ComponentIndex(row as u32)));
        proof {
            let na = a as int;
            assert forall|b: int| 0 <= b < self.archetypes@.len() && b != na implies #[trigger] self.archetypes@[b] == mid.archetypes@[b] by {}
            assert(self.members(na) == mid.members(na).push(entity));
            assert(self.layout(na) == mid.layout(na));
            assert forall|b: int| 0 <= b < self.archetypes@.len() implies {
                &&& (#[trigger] self.archetypes@[b]).index.0 == b
                &&& self.archetypes@[b].layout.wf()
                &&& self.slots@[b]@.len() == self.archetypes@[b].layout@.len()
                &&& self.archetypes@[b].entities@.len() < u32::MAX
            } by {
                assert(mid.archetypes@[b].index.0 == b);
            }
            assert forall|b: int, c: int|
                0 <= b < c < self.archetypes@.len() implies #[trigger] self.layout(b).to_set() != #[trigger] self.layout(c).to_set() by {
                assert(mid.layout(b).to_set() != mid.layout(c).to_set());
            }
            assert forall|t: int| 0 <= t < self.components.count() implies #[trigger] self.components.storage(t).span() <= self.archetypes@.len() by {
                assert(mid.components.storage(t).span() <= mid.archetypes@.len());
            }
            assert forall|b: int, q: int|
                0 <= b < self.archetypes@.len() && 0 <= q < self.layout(b).len() implies #[trigger] self.slot_ok(b, q) by {
                assert(mid.slot_ok(b, q));
                let t = self.slots@[b]@[q] as int;
                if b != na {
                    assert(self.components.storage(t).has_column(b) == mid.components.storage(t).has_column(b));
                    assert(self.components.storage(t).column(b) == mid.components.storage(t).column(b));
                } else {
                    assert(self.components.storage(t).has_column(na) == mid.components.storage(t).has_column(na));
                    assert(filled.column_at(na, q) == self.column_at(na, q));
                    assert(mid.column_at(na, q).len() == row);
                }
            }
            assert forall|b: int, r: int|
                0 <= b < self.archetypes@.len() && 0 <= r < self.members(b).len() implies #[trigger] self.row_ok(b, r) by {
                if b != na || r < row {
                    assert(mid.row_ok(b, r));
                    assert(self.members(b)[r] == mid.members(b)[r]);
                    assert(self.members(b)[r].id != entity.id);
                    assert(self.entities.location(self.members(b)[r].id) == mid.entities.location(self.members(b)[r].id));
                } else {
                    assert(self.members(b)[r] == entity);
                }
            }
            assert forall|id: u32| #[trigger] self.location_ok(id) by {
                assert(mid.location_ok(id));
                if id != entity.id {
                    let d = self.entities.location(id)->Some_0;
                    if self.entities.location(id) is Some {
                        let b = d.0.0 as int;
                        if b == na {
                            assert(self.members(b)[d.1.0 as int] == mid.members(b)[d.1.0 as int]);
                        } else {
                            assert(self.archetypes@[b] == mid.archetypes@[b]);
                        }
                    }
                }
            }
            assert forall|b: int| 0 <= b < start.archetype_count() implies #[trigger] self.layout(b) == start.layout(b) by {
                assert(mid.layout(b) == start.layout(b));
            }
            assert forall|b: int| 0 <= b < start.archetype_count() && b != na implies #[trigger] self.members(b) == start.members(b) by {
                assert(mid.layout(b) == start.layout(b));
                assert(mid.members(b) == start.members(b));
                assert(self.archetypes@[b] == mid.archetypes@[b]);
            }
            if na < start.archetype_count() {
                assert(mid.layout(na) == start.layout(na));
                assert(mid.members(na) == start.members(na));
            } else {
                assert(self.members(na) =~= seq![entity]);
            }
            assert forall|b: int, q: int|
                0 <= b < start.archetype_count() && b != na && 0 <= q < start.layout(b).len() implies #[trigger] self.column_at(b, q)
                    == start.column_at(b, q) by {
                assert(mid.column_at(b, q) == start.column_at(b, q));
                assert(mid.slot_ok(b, q));
                let t = self.slots@[b]@[q] as int;
                assert(self.components.storage(t).has_column(b) == mid.components.storage(t).has_column(b));
                assert(self.components.storage(t).column(b) == mid.components.storage(t).column(b));
            }
            assert forall|j: int| 0 <= j < components@.len() implies
                #[trigger] self.value(entity, components@[j].0) == cell(components@[j].0.is_dense(), components@[j].1) by {
                lemma_value_in(components@, j);
                let id = components@[j].0;
                assert(ids_of(components@).to_set().contains(id));
                assert(self.layout(na).to_set().contains(id));
                assert(self.layout(na).contains(id));
                let q = self.layout(na).index_of(id);
                assert(0 <= q < self.layout(na).len() && self.layout(na)[q] == id);
                assert(filled.column_at(na, q) == self.column_at(na, q));
                assert(self.archetype_of(entity) == na);
                assert(self.row_of(entity) == row);
                assert(mid.slot_ok(na, q));
                let v = value_in(components@, id);
                let col = mid.column_at(na, q).push(cell(id.is_dense(), v));
                assert(self.column_at(na, q) == col);
                assert(col.len() == row + 1);
                assert(col[row as int] == cell(id.is_dense(), v));
            }
            assert forall|j: int| 0 <= j < components@.len() implies
                #[trigger] self.component(entity, components@[j].0) == Some(
                    if components@[j].0.is_dense() {
                        Item::Value(components@[j].1)
                    } else {
                        Item::Unit
                    },
                ) by {
                lemma_value_in(components@, j);
                let id = components@[j].0;
                assert(ids_of(components@).to_set().contains(id));
                assert(self.layout(na).to_set().contains(id));
                assert(self.layout(na).contains(id));
                assert(self.has_component(entity, id));
                assert(self.value(entity, id) == cell(id.is_dense(), components@[j].1));
            }
            assert forall|e: Entity, id: ComponentId| e.id != entity.id implies {
                &&& (#[trigger] self.value(e, id)) is Some == start.value(e, id) is Some
                &&& self.value(e, id) == start.value(e, id)
            } by {
                if start.live(e) {
                    let b = start.archetype_of(e);
                    let r = start.row_of(e);
                    assert(start.location_ok(e.id));
                    assert(mid.layout(b) == start.layout(b));
                    assert(self.layout(b) == mid.layout(b));
                    if start.layout(b).contains(id) {
                        let q = start.layout(b).index_of(id);
                        assert(0 <= q < start.layout(b).len());
                        assert(start.column_at(b, q) == mid.column_at(b, q));
                        assert(mid.slot_ok(b, q));
                        if b != na {
                            let t = self.slots@[b]@[q] as int;
                            assert(self.components.storage(t).column(b) == mid.components.storage(t).column(b));
                        } else {
                            assert(filled.column_at(na, q) == self.column_at(na, q));
                            assert(r < row);
                        }
                    }
                }
            }
        }
        a
    }
}

/// A world whose entity registry changed only in one slot that holds no entity
/// before or after keeps its invariant and every entity's components.
proof fn lemma_registry_slot<V>(w: World<V>, w2: World<V>, id: u32)
    requires
        w.wf(),
        w2.archetypes == w.archetypes,
        w2.slots == w.slots,
        w2.components == w.components,
        w2.entities.wf(),
        w2.entities.same_except(&w.entities, id),
        w.entities.location(id) is None,
        w2.entities.location(id) is None,
    ensures
        w2.wf(),
        forall|e: Entity| #[trigger] w2.live(e) == w.live(e),
        forall|e: Entity, c: ComponentId| #[trigger] w2.value(e, c) == w.value(e, c),
{
    assert forall|a: int, r: int|
        0 <= a < w2.archetypes@.len() && 0 <= r < w2.members(a).len() implies #[trigger] w2.row_ok(a, r) by {
        assert(w.row_ok(a, r));
        assert(w.members(a)[r].id != id);
    }
    assert forall|j: u32| #[trigger] w2.location_ok(j) by {
        assert(w.location_ok(j));
    }
    assert forall|a: int, b: int|
        0 <= a < b < w2.archetypes@.len() implies #[trigger] w2.layout(a).to_set() != #[trigger] w2.layout(b).to_set() by {
        assert(w.layout(a).to_set() != w.layout(b).to_set());
    }
    assert forall|a: int, k: int|
        0 <= a < w2.archetypes@.len() && 0 <= k < w2.layout(a).len() implies #[trigger] w2.slot_ok(a, k) by {
        assert(w.slot_ok(a, k));
    }
    assert forall|e: Entity| #[trigger] w2.live(e) == w.live(e) by {
        if e.id != id {
            assert(w2.entities.location(e.id) == w.entities.location(e.id));
        }
    }
    assert forall|e: Entity, c: ComponentId| #[trigger] w2.value(e, c) == w.value(e, c) by {
        if e.id != id {
            assert(w2.entities.location(e.id) == w.entities.location(e.id));
        }
    }
}

impl<V: Copy> World<V> {
    /// Creates an entity with the given components and returns its handle. The entity
    /// joins the archetype of exactly those component types, which is created on first use.
    pub fn create(&mut self, components: Vec<(ComponentId, V)>) -> (e: Entity)
        requires
            old(self).wf(),
            old(self).has_room_for(1),
            distinct_ids(components@),
        ensures
            final(self).wf(),
            !old(self).live(e),
            final(self).live(e),
            e.generation == final(self).generation(e.id),
            e.generation == old(self).generation(e.id),
            old(self).registry().free_ids().len() > 0 ==> e.id == old(self).registry().free_ids().last(),
            old(self).registry().free_ids().len() == 0 ==> e.id == old(self).registry().slot_count() && e.generation == 0,
            final(self).registry().free_ids() == (if old(self).registry().free_ids().len() > 0 {
                old(self).registry().free_ids().drop_last()
            } else {
                old(self).registry().free_ids()
            }),
            final(self).registry().slot_count() == old(self).registry().slot_count() + (if old(self).registry().free_ids().len() > 0 {
                0int
            } else {
                1int
            }),
            forall|id: u32| #[trigger] old(self).generation(id) <= final(self).generation(id),
            forall|n: nat| old(self).has_room_for(n + 1) ==> #[trigger] final(self).has_room_for(n),
            final(self).archetype_count() >= old(self).archetype_count(),
            final(self).archetype_count() <= old(self).archetype_count() + 1,
            forall|b: int| 0 <= b < old(self).archetype_count() ==> #[trigger] final(self).layout(b) == old(self).layout(b),
            final(self).layout(final(self).archetype_of(e)).to_set() == ids_of(components@).to_set(),
            final(self).archetype_of(e) < old(self).archetype_count() ==> final(self).archetype_count() == old(self).archetype_count(),
            final(self).archetype_of(e) >= old(self).archetype_count() ==> {
                &&& final(self).archetype_of(e) == old(self).archetype_count()
                &&& final(self).archetype_count() == old(self).archetype_count() + 1
                &&& forall|b: int| 0 <= b < old(self).archetype_count() ==> #[trigger] old(self).layout(b).to_set() != ids_of(components@).to_set()
            },
            final(self).members(final(self).archetype_of(e)) == (if final(self).archetype_of(e) < old(self).archetype_count() {
                old(self).members(final(self).archetype_of(e)).push(e)
            } else {
                seq![e]
            }),
            forall|b: int| 0 <= b < old(self).archetype_count() && b != final(self).archetype_of(e) ==> #[trigger] final(self).members(b)
                == old(self).members(b),
            forall|b: int, id: ComponentId|
                0 <= b < old(self).archetype_count() && b != final(self).archetype_of(e) && old(self).layout(b).contains(id)
                    ==> #[trigger] final(self).column(b, id) == old(self).column(b, id),
            forall|j: int| 0 <= j < components@.len() ==>
                #[trigger] final(self).value(e, components@[j].0) == cell(components@[j].0.is_dense(), components@[j].1),
            forall|j: int| 0 <= j < components@.len() ==>
                #[trigger] final(self).component(e, components@[j].0) == Some(
                    if components@[j].0.is_dense() {
                        Item::Value(components@[j].1)
                    } else {
                        Item::Unit
                    },
                ),
            forall|id: ComponentId| #[trigger] final(self).has_component(e, id) == ids_of(components@).contains(id),
            forall|x: Entity| x != e ==> #[trigger] final(self).live(x) == old(self).live(x),
            forall|x: Entity, id: ComponentId| x != e ==> {
                &&& (#[trigger] final(self).value(x, id)) is Some == old(self).value(x, id) is Some
                &&& final(self).value(x, id) == old(self).value(x, id)
            },
    {
        let ghost start = *self;
        proof {
            start.entities.lemma_ids_left();
        }
        let entity = self.entities.allocate();
        proof {
            lemma_registry_slot(start, *self, entity.id);
        }
        let ghost reserved = *self;
        proof {
            assert forall|b: int| 0 <= b < reserved.archetype_count() implies #[trigger] reserved.members(b).len() + 1 < u32::MAX by {
                assert(reserved.members(b) == start.members(b));
            }
        }
        let a = self.place(entity, &components);
        proof {
            let na = a as int;
            assert forall|x: Entity| x != entity implies #[trigger] self.live(x) == start.live(x) by {
                if x.id == entity.id {
                    assert(!start.live(x));
                } else {
                    assert(self.registry().location(x.id) == reserved.registry().location(x.id));
                }
            }
            assert forall|x: Entity, id: ComponentId| x != entity implies {
                &&& (#[trigger] self.value(x, id)) is Some == start.value(x, id) is Some
                &&& self.value(x, id) == start.value(x, id)
            } by {
                if x.id == entity.id {
                    assert(!start.live(x));
                    assert(!self.live(x));
                } else {
                    assert(reserved.value(x, id) == start.value(x, id));
                }
            }
            assert forall|id: u32| #[trigger] start.generation(id) <= self.generation(id) by {
                if id != entity.id {
                    assert(self.registry().generation(id) == reserved.registry().generation(id));
                }
            }
            assert forall|id: ComponentId| #[trigger] self.has_component(entity, id) == ids_of(components@).contains(id) by {
                assert(self.layout(na).contains(id) == self.layout(na).to_set().contains(id));
                assert(ids_of(components@).contains(id) == ids_of(components@).to_set().contains(id));
            }
            assert forall|b: int| 0 <= b < start.archetype_count() implies #[trigger] self.layout(b) == start.layout(b) by {
                assert(reserved.layout(b) == start.layout(b));
            }
            assert forall|b: int| 0 <= b < start.archetype_count() && b != na implies #[trigger] self.members(b) == start.members(b) by {
                assert(reserved.members(b) == start.members(b));
            }
            assert(reserved.members(na) == start.members(na));
            if na >= start.archetype_count() {
                assert forall|b: int| 0 <= b < start.archetype_count() implies #[trigger] start.layout(b).to_set() != ids_of(components@).to_set() by {
                    assert(reserved.layout(b) == start.layout(b));
                }
            }
            assert forall|b: int, id: ComponentId|
                0 <= b < start.archetype_count() && b != na && start.layout(b).contains(id) implies #[trigger] self.column(b, id)
                    == start.column(b, id) by {
                assert(reserved.layout(b) == start.layout(b));
                let q = start.layout(b).index_of(id);
                assert(0 <= q < start.layout(b).len());
                assert(reserved.column_at(b, q) == start.column_at(b, q));
                assert(self.column_at(b, q) == reserved.column_at(b, q));
            }
            assert forall|n: nat| start.has_room_for(n + 1) implies #[trigger] self.has_room_for(n) by {
                assert forall|b: int| 0 <= b < self.archetype_count() implies #[trigger] self.members(b).len() + n < u32::MAX by {
                    if b < start.archetype_count() {
                        assert(start.members(b).len() + n + 1 < u32::MAX);
                    }
                }
            }
        }
        entity
    }
}

impl<V> World<V> {
    /// Removes a live entity: every column of its archetype and the archetype's entity
    /// list swap-remove its row, and the entity that moved into that row is re-recorded.
    /// Returns whether `entity` was live.
    pub fn remove(&mut self, entity: Entity) -> (r: bool)
        requires
            old(self).wf(),
        ensures
            final(self).wf(),
            r == old(self).live(entity),
            !final(self).live(entity),
            r ==> final(self).registry().location(entity.id) is None,
            !r ==> *final(self) == *old(self),
            r ==> final(self).generation(entity.id) == (if entity.generation < u32::MAX {
                (entity.generation + 1) as u32
            } else {
                entity.generation
            }),
            forall|id: u32| #[trigger] old(self).generation(id) <= final(self).generation(id),
            final(self).archetype_count() == old(self).archetype_count(),
            forall|b: int| 0 <= b < old(self).archetype_count() ==> #[trigger] final(self).layout(b) == old(self).layout(b),
            forall|b: int| 0 <= b < old(self).archetype_count() ==> #[trigger] final(self).members(b).len() <= old(self).members(b).len(),
            old(self).has_room() ==> final(self).has_room(),
            forall|n: nat| old(self).has_room_for(n) ==> #[trigger] final(self).has_room_for(n),
            r ==> final(self).members(old(self).archetype_of(entity)) == swap_removed(
                old(self).members(old(self).archetype_of(entity)),
                old(self).row_of(entity),
            ),
            forall|b: int|
                0 <= b < old(self).archetype_count() && !(r && b == old(self).archetype_of(entity)) ==> #[trigger] final(self).members(b)
                    == old(self).members(b),
            r ==> final(self).registry().slot_count() == old(self).registry().slot_count(),
            r ==> final(self).registry().free_ids() == (if entity.generation < u32::MAX {
                old(self).registry().free_ids().push(entity.id)
            } else {
                old(self).registry().free_ids()
            }),
            forall|x: Entity| x != entity ==> #[trigger] final(self).live(x) == old(self).live(x),
            forall|x: Entity, id: ComponentId| x != entity ==> #[trigger] final(self).value(x, id) == old(self).value(x, id),
    {
        let data = match self.entities.get(entity) {
            Some(d) => d,
            None => return false,
        };
        let ghost start = *self;
        let a = data.0.0 as usize;
        let row = data.1.0 as usize;
        proof {
            assert(start.location_ok(entity.id));
            assert(start.archetypes@[a as int].index.0 == a);
        }
        let width = self.archetypes[a].layout.components.len();
        let mut k: usize = 0;
        while k < width
            invariant
                self.archetypes == start.archetypes,
                self.slots == start.slots,
                self.entities == start.entities,
                start.wf(),
                self.components.wf(),
                self.components.count() == start.components.count(),
                a < start.archetype_count(),
                row < start.members(a as int).len(),
                width == start.layout(a as int).len(),
                k <= width,
                forall|t: int| 0 <= t < self.components.count() ==> {
                    &&& (#[trigger] self.components.storage(t)).component_id() == start.components.storage(t).component_id()
                    &&& self.components.storage(t).span() == start.components.storage(t).span()
                    &&& self.components.storage(t).has_column(a as int) == start.components.storage(t).has_column(a as int)
                },
                forall|b: int, q: int|
                    #![trigger self.components.storage(b).has_column(q)]
                    #![trigger self.components.storage(b).column(q)]
                    0 <= b < self.components.count() && q != a ==> {
                        &&& self.components.storage(b).has_column(q) == start.components.storage(b).has_column(q)
                        &&& self.components.storage(b).column(q) == start.components.storage(b).column(q)
                    },
                forall|q: int| 0 <= q < k ==> #[trigger] self.column_at(a as int, q) == swap_removed(start.column_at(a as int, q), row as int),
                forall|q: int| k <= q < width ==> #[trigger] self.column_at(a as int, q) == start.column_at(a as int, q),
            decreases width - k,
        {
            proof {
                assert(start.slot_ok(a as int, k as int));
                assert(start.layout(a as int).no_duplicates());
            }
            let s = self.slots[a][k];
            let ghost before = self.components;
            let ghost wbefore = *self;
            proof {
                assert(self.column_at(a as int, k as int) == start.column_at(a as int, k as int));
                assert(self.components.storage(s as int).has_column(a as int));
            }
            self.components.swap_remove(s, ArchetypeIndex(a as u32), row);
            proof {
                assert forall|q: int| 0 <= q < k + 1 implies #[trigger] self.column_at(a as int, q) == swap_removed(start.column_at(a as int, q), row as int) by {
                    if q < k {
                        assert(start.slot_ok(a as int, q));
                        let t = start.slots@[a as int]@[q] as int;
                        assert(start.layout(a as int)[q] != start.layout(a as int)[k as int]);
                        assert(self.components.storage(t) == before.storage(t));
                        assert(wbefore.column_at(a as int, q) == self.column_at(a as int, q));
                    }
                }
                assert forall|q: int| k + 1 <= q < width implies #[trigger] self.column_at(a as int, q) == start.column_at(a as int, q) by {
                    assert(start.slot_ok(a as int, q));
                    let t = start.slots@[a as int]@[q] as int;
                    assert(start.layout(a as int)[q] != start.layout(a as int)[k as int]);
                    assert(self.components.storage(t) == before.storage(t));
                    assert(wbefore.column_at(a as int, q) == self.column_at(a as int, q));
                }
                assert forall|b: int, q: int|
                    #![trigger self.components.storage(b).has_column(q)]
                    #![trigger self.components.storage(b).column(q)]
                    0 <= b < self.components.count() && q != a implies {
                        &&& self.components.storage(b).has_column(q) == start.components.storage(b).has_column(q)
                        &&& self.components.storage(b).column(q) == start.components.storage(b).column(q)
                    } by {
                    if b != s {
                        assert(self.components.storage(b) == before.storage(b));
                    } else {
                        assert(self.components.storage(b).has_column(q) == before.storage(b).has_column(q));
                        assert(self.components.storage(b).column(q) == before.storage(b).column(q));
                    }
                }
                assert forall|t: int| 0 <= t < self.components.count() implies {
                    &&& (#[trigger] self.components.storage(t)).component_id() == start.components.storage(t).component_id()
                    &&& self.components.storage(t).span() == start.components.storage(t).span()
                    &&& self.components.storage(t).has_column(a as int) == start.components.storage(t).has_column(a as int)
                } by {
                    if t != s {
                        assert(self.components.storage(t) == before.storage(t));
                    }
                }
            }
            k += 1;
        }
        let ghost cleared = *self;
        let last = self.archetypes[a].entities.len() - 1;
        let _ = self.archetypes[a].entities.swap_remove(row);
        let ghost moved = start.members(a as int)[last as int];
        if row < last {
            let m = self.archetypes[a].entities[row];
            proof {
                assert(m == moved);
                assert(start.row_ok(a as int, last as int));
            }
            self.entities.set(m, data);
        }
        let ghost relocated = *self;
        proof {
            assert(start.row_ok(a as int, row as int));
            assert(start.members(a as int)[row as int] == entity) by {
                assert(start.members(a as int)[row as int].id == entity.id);
            }
            if row < last {
                assert(moved.id != entity.id) by {
                    assert(start.row_ok(a as int, last as int));
                }
            }
        }
        let _ = self.entities.remove(entity);
        proof {
            let na = a as int;
            let nr = row as int;
            let nl = last as int;
            assert(self.members(na) == swap_removed(start.members(na), nr));
            assert forall|b: int| 0 <= b < self.archetypes@.len() && b != na implies #[trigger] self.archetypes@[b] == start.archetypes@[b] by {}
            assert forall|j: u32| j != entity.id && (row >= last || j != moved.id) implies
                #[trigger] self.entities.location(j) == start.entities.location(j) && self.entities.generation(j) == start.entities.generation(j) by {
                assert(relocated.entities.location(j) == start.entities.location(j));
                assert(relocated.entities.generation(j) == start.entities.generation(j));
            }
            if row < last {
                assert(self.entities.location(moved.id) == Some(data));
                assert(self.entities.generation(moved.id) == moved.generation);
                assert(start.entities.live(moved));
            }
            assert forall|b: int| 0 <= b < self.archetypes@.len() implies {
                &&& (#[trigger] self.archetypes@[b]).index.0 == b
                &&& self.archetypes@[b].layout.wf()
                &&& self.slots@[b]@.len() == self.archetypes@[b].layout@.len()
                &&& self.archetypes@[b].entities@.len() < u32::MAX
            } by {
                assert(start.archetypes@[b].index.0 == b);
            }
            assert forall|b: int, c: int|
                0 <= b < c < self.archetypes@.len() implies #[trigger] self.layout(b).to_set() != #[trigger] self.layout(c).to_set() by {
                assert(start.layout(b).to_set() != start.layout(c).to_set());
            }
            assert forall|t: int| 0 <= t < self.components.count() implies #[trigger] self.components.storage(t).span() <= self.archetypes@.len() by {
                assert(start.components.storage(t).span() <= start.archetypes@.len());
            }
            assert forall|b: int, q: int|
                0 <= b < self.archetypes@.len() && 0 <= q < self.layout(b).len() implies #[trigger] self.slot_ok(b, q) by {
                assert(start.slot_ok(b, q));
                let t = self.slots@[b]@[q] as int;
                if b != na {
                    assert(self.components.storage(t).has_column(b) == start.components.storage(t).has_column(b));
                    assert(self.components.storage(t).column(b) == start.components.storage(t).column(b));
                } else {
                    assert(cleared.column_at(na, q) == self.column_at(na, q));
                }
            }
            assert forall|b: int, r: int|
                0 <= b < self.archetypes@.len() && 0 <= r < self.members(b).len() implies #[trigger] self.row_ok(b, r) by {
                if b == na && r == nr {
                    assert(self.members(b)[r] == moved);
                } else {
                    assert(self.members(b)[r] == start.members(b)[r]);
                    assert(start.row_ok(b, r));
                    let x = start.members(b)[r];
                    assert(x.id != entity.id);
                    if row < last {
                        assert(start.row_ok(na, nl));
                        assert(x.id != moved.id);
                    }
                }
            }
            assert forall|j: u32| #[trigger] self.location_ok(j) by {
                assert(start.location_ok(j));
                if j != entity.id && (row >= last || j != moved.id) {
                    let d = self.entities.location(j)->Some_0;
                    if self.entities.location(j) is Some {
                        let b = d.0.0 as int;
                        let r = d.1.0 as int;
                        if b == na {
                            assert(start.members(b)[r].id == j);
                            assert(r != nr);
                            if r == nl {
                                assert(start.row_ok(na, nl));
                            }
                            assert(r < nl);
                            assert(self.members(b)[r] == start.members(b)[r]);
                        }
                    }
                }
            }
            assert forall|x: Entity| x != entity implies #[trigger] self.live(x) == start.live(x) by {
                if x.id == entity.id {
                    assert(!start.live(x));
                }
            }
            assert forall|x: Entity, id: ComponentId| x != entity implies #[trigger] self.value(x, id) == start.value(x, id) by {
                if start.live(x) {
                    assert(x.id != entity.id);
                    let b = start.archetype_of(x);
                    let r = start.row_of(x);
                    assert(start.location_ok(x.id));
                    if start.layout(b).contains(id) {
                        let q = start.layout(b).index_of(id);
                        assert(0 <= q < start.layout(b).len());
                        assert(start.slot_ok(b, q));
                        if b != na {
                            let t = self.slots@[b]@[q] as int;
                            assert(self.components.storage(t).column(b) == start.components.storage(t).column(b));
                        } else {
                            assert(cleared.column_at(na, q) == self.column_at(na, q));
                            assert(start.row_ok(na, r));
                            assert(start.members(na)[r] == x);
                            assert(r != nr);
                            if r == nl {
                                assert(x == moved);
                                assert(self.row_of(x) == nr);
                            } else {
                                assert(self.row_of(x) == r);
                            }
                        }
                    }
                } else if x.id == entity.id {
                } else if row < last && x.id == moved.id {
                    assert(x.generation != moved.generation);
                }
            }
            assert forall|id: u32| #[trigger] start.generation(id) <= self.generation(id) by {}
            assert(start.archetype_of(entity) == na && start.row_of(entity) == nr);
            assert forall|b: int|
                0 <= b < start.archetype_count() && b != na implies #[trigger] self.members(b) == start.members(b) by {
                assert(self.archetypes@[b] == start.archetypes@[b]);
            }
            assert forall|n: nat| start.has_room_for(n) implies #[trigger] self.has_room_for(n) by {
                assert forall|b: int| 0 <= b < self.archetype_count() implies #[trigger] self.members(b).len() + n < u32::MAX by {
                    assert(start.members(b).len() + n < u32::MAX);
                    if b != na {
                        assert(self.archetypes@[b] == start.archetypes@[b]);
                    }
                }
            }
            if start.has_room() {
                assert forall|b: int| 0 <= b < self.archetypes@.len() implies #[trigger] self.members(b).len() + 1 < u32::MAX by {
                    assert(start.members(b).len() + 1 < u32::MAX);
                }
            }
        }
        true
    }
}

impl<V: Copy> World<V> {
    /// Creates an entity under a handle chosen by the caller. Whatever entity occupies
    /// the slot `entity.id` is removed first. The handle is refused (and nothing changes)
    /// when its id is the largest `u32`, which no slot can have, or when its generation is
    /// below the slot's current one, which would bring a stale handle back to life.
    pub fn create_with_id(&mut self, entity: Entity, components: Vec<(ComponentId, V)>) -> (r: bool)
        requires
            old(self).wf(),
            old(self).has_room(),
            distinct_ids(components@),
        ensures
            final(self).wf(),
            r == (entity.id < u32::MAX && old(self).generation(entity.id) <= entity.generation),
            !r ==> *final(self) == *old(self),
            r ==> final(self).live(entity),
            r ==> final(self).generation(entity.id) == entity.generation,
            final(self).archetype_count() >= old(self).archetype_count(),
            forall|b: int| 0 <= b < old(self).archetype_count() ==> #[trigger] final(self).layout(b) == old(self).layout(b),
            r ==> final(self).layout(final(self).archetype_of(entity)).to_set() == ids_of(components@).to_set(),
            r ==> forall|j: int| 0 <= j < components@.len() ==>
                #[trigger] final(self).value(entity, components@[j].0) == cell(components@[j].0.is_dense(), components@[j].1),
            r ==> forall|j: int| 0 <= j < components@.len() ==>
                #[trigger] final(self).component(entity, components@[j].0) == Some(
                    if components@[j].0.is_dense() {
                        Item::Value(components@[j].1)
                    } else {
                        Item::Unit
                    },
                ),
            r ==> forall|id: ComponentId| #[trigger] final(self).has_component(entity, id) == ids_of(components@).contains(id),
            r ==> forall|x: Entity| x.id == entity.id && x != entity ==> !(#[trigger] final(self).live(x)),
            forall|id: u32| #[trigger] old(self).generation(id) <= final(self).generation(id),
            forall|n: nat| old(self).has_room_for(n + 1) ==> #[trigger] final(self).has_room_for(n),
            old(self).registry().slot_count() <= final(self).registry().slot_count(),
            final(self).archetype_count() <= old(self).archetype_count() + 1,
            r && final(self).archetype_of(entity) < old(self).archetype_count() ==> final(self).archetype_count() == old(self).archetype_count(),
            r && final(self).archetype_of(entity) >= old(self).archetype_count() ==> {
                &&& final(self).archetype_of(entity) == old(self).archetype_count()
                &&& forall|b: int| 0 <= b < old(self).archetype_count() ==> #[trigger] old(self).layout(b).to_set() != ids_of(components@).to_set()
            },
            r ==> final(self).members(final(self).archetype_of(entity)) == (if final(self).archetype_of(entity) < old(self).archetype_count() {
                old(self).members_without(old(self).occupant(entity.id), final(self).archetype_of(entity)).push(entity)
            } else {
                seq![entity]
            }),
            r ==> forall|b: int| 0 <= b < old(self).archetype_count() && b != final(self).archetype_of(entity) ==> #[trigger] final(self).members(b)
                == old(self).members_without(old(self).occupant(entity.id), b),
            forall|x: Entity| x.id != entity.id ==> #[trigger] final(self).live(x) == old(self).live(x),
            forall|x: Entity, id: ComponentId| x.id != entity.id ==> {
                &&& (#[trigger] final(self).value(x, id)) is Some == old(self).value(x, id) is Some
                &&& final(self).value(x, id) == old(self).value(x, id)
            },
    {
        if entity.id == u32::MAX || entity.generation < self.entities.generation_of(entity.id) {
            return false;
        }
        let ghost start = *self;
        let ghost occ = start.occupant(entity.id);
        match self.entities.occupant(entity.id) {
            Some(occupant) => {
                let _ = self.remove(occupant);
            },
            None => {},
        }
        let ghost cleared = *self;
        proof {
            assert forall|b: int| 0 <= b < start.archetype_count() implies #[trigger] cleared.members(b) == start.members_without(occ, b) by {}
            assert forall|n: nat| start.has_room_for(n) implies #[trigger] cleared.has_room_for(n) by {}
            assert forall|b: int| 0 <= b < cleared.archetype_count() implies #[trigger] cleared.members(b).len() + 1 < u32::MAX by {
                assert(start.members(b).len() + 1 < u32::MAX);
                assert(cleared.members(b).len() <= start.members(b).len());
            }
            assert(cleared.registry().location(entity.id) is None);
            assert forall|x: Entity| x.id != entity.id implies #[trigger] cleared.live(x) == start.live(x) && (forall|c: ComponentId| #[trigger] cleared.value(x, c) == start.value(x, c)) by {}
        }
        self.entities.reserve(entity);
        proof {
            lemma_registry_slot(cleared, *self, entity.id);
        }
        let ghost reserved = *self;
        proof {
            assert forall|b: int| 0 <= b < reserved.archetype_count() implies #[trigger] reserved.members(b).len() + 1 < u32::MAX by {
                assert(reserved.members(b) == cleared.members(b));
            }
        }
        let a = self.place(entity, &components);
        proof {
            let na = a as int;
            assert forall|b: int| 0 <= b < start.archetype_count() && b != na implies #[trigger] self.members(b)
                == start.members_without(occ, b) by {
                assert(reserved.members(b) == cleared.members(b));
            }
            assert(reserved.members(na) == cleared.members(na));
            if na >= start.archetype_count() {
                assert forall|b: int| 0 <= b < start.archetype_count() implies #[trigger] start.layout(b).to_set() != ids_of(components@).to_set() by {
                    assert(reserved.layout(b) == cleared.layout(b));
                    assert(cleared.layout(b) == start.layout(b));
                }
            }
            assert forall|n: nat| start.has_room_for(n + 1) implies #[trigger] self.has_room_for(n) by {
                assert(cleared.has_room_for(n + 1));
                assert forall|b: int| 0 <= b < self.archetype_count() implies #[trigger] self.members(b).len() + n < u32::MAX by {
                    if b < start.archetype_count() {
                        assert(reserved.members(b) == cleared.members(b));
                        assert(cleared.members(b).len() + n + 1 < u32::MAX);
                    }
                }
            }
            assert forall|x: Entity| x.id != entity.id implies #[trigger] self.live(x) == start.live(x) by {
                assert(self.registry().location(x.id) == reserved.registry().location(x.id));
                assert(self.registry().generation(x.id) == reserved.registry().generation(x.id));
                assert(reserved.live(x) == cleared.live(x));
            }
            assert forall|x: Entity| x.id == entity.id && x != entity implies !(#[trigger] self.live(x)) by {}
            assert forall|b: int| 0 <= b < start.archetype_count() implies #[trigger] self.layout(b) == start.layout(b) by {
                assert(cleared.layout(b) == start.layout(b));
                assert(reserved.layout(b) == cleared.layout(b));
            }
            assert forall|x: Entity, id: ComponentId| x.id != entity.id implies {
                &&& (#[trigger] self.value(x, id)) is Some == start.value(x, id) is Some
                &&& self.value(x, id) == start.value(x, id)
            } by {
                assert(reserved.value(x, id) == cleared.value(x, id));
                assert(cleared.value(x, id) == start.value(x, id));
            }
            assert forall|id: u32| #[trigger] start.generation(id) <= self.generation(id) by {
                if id != entity.id {
                    assert(self.registry().generation(id) == reserved.registry().generation(id));
                    assert(reserved.registry().generation(id) == cleared.registry().generation(id));
                }
            }
            assert forall|id: ComponentId| #[trigger] self.has_component(entity, id) == ids_of(components@).contains(id) by {
                assert(self.layout(na).contains(id) == self.layout(na).to_set().contains(id));
                assert(ids_of(components@).contains(id) == ids_of(components@).to_set().contains(id));
            }
            assert forall|j: int| 0 <= j < components@.len() implies
                #[trigger] self.component(entity, components@[j].0) == Some(
                    if components@[j].0.is_dense() {
                        Item::Value(components@[j].1)
                    } else {
                        Item::Unit
                    },
                ) by {
                lemma_value_in(components@, j);
                let id = components@[j].0;
                assert(ids_of(components@).contains(id));
                assert(self.has_component(entity, id));
                assert(self.value(entity, id) == cell(id.is_dense(), components@[j].1));
            }
        }
        true
    }
}

impl<V> World<V> {
    /// The column of the `p`-th component type of archetype `a` was rewritten in place, with
    /// its length kept, and nothing else changed: the world keeps its invariant and every
    /// other column.
    proof fn lemma_column_rewritten(start: World<V>, w: World<V>, a: int, p: int, s: int)
        requires
            start.wf(),
            0 <= a < start.archetype_count(),
            0 <= p < start.layout(a).len(),
            s == start.slots@[a]@[p],
            w.archetypes == start.archetypes,
            w.slots == start.slots,
            w.entities == start.entities,
            w.components.wf(),
            w.components.count() == start.components.count(),
            forall|t: int| 0 <= t < start.components.count() && t != s ==> #[trigger] w.components.storage(t) == start.components.storage(t),
            w.components.storage(s).same_except(&start.components.storage(s), a),
            w.components.storage(s).column(a).len() == start.components.storage(s).column(a).len(),
        ensures
            w.wf(),
            w.column_at(a, p) == w.components.storage(s).column(a),
            start.column_at(a, p) == start.components.storage(s).column(a),
            forall|b: int, q: int|
                0 <= b < w.archetypes@.len() && 0 <= q < w.layout(b).len() && !(b == a && q == p) ==>
                    #[trigger] w.column_at(b, q) == start.column_at(b, q),
    {
        assert(start.layout(a).no_duplicates()) by {
            assert(start.archetypes@[a].layout.wf());
        }
        assert(start.slot_ok(a, p));
        assert forall|b: int, q: int|
            0 <= b < w.archetypes@.len() && 0 <= q < w.layout(b).len() && !(b == a && q == p) implies
                #[trigger] w.column_at(b, q) == start.column_at(b, q) by {
            assert(start.slot_ok(b, q));
            let t = w.slots@[b]@[q] as int;
            if t != s {
                assert(w.components.storage(t) == start.components.storage(t));
            } else if b != a {
                assert(w.components.storage(t).has_column(b) == start.components.storage(t).has_column(b));
                assert(w.components.storage(t).column(b) == start.components.storage(t).column(b));
            } else if q != p {
                assert(start.layout(a)[q] != start.layout(a)[p]);
            }
        }
        assert forall|t: int| 0 <= t < w.components.count() implies #[trigger] w.components.storage(t).span() <= w.archetypes@.len() by {
            assert(start.components.storage(t).span() <= start.archetypes@.len());
        }
        assert forall|b: int, q: int|
            0 <= b < w.archetypes@.len() && 0 <= q < w.layout(b).len() implies #[trigger] w.slot_ok(b, q) by {
            assert(start.slot_ok(b, q));
            let t = w.slots@[b]@[q] as int;
            if t != s {
                assert(w.components.storage(t) == start.components.storage(t));
            } else {
                assert(w.components.storage(t).has_column(b) == start.components.storage(t).has_column(b));
            }
        }
        assert forall|b: int, r: int|
            0 <= b < w.archetypes@.len() && 0 <= r < w.members(b).len() implies #[trigger] w.row_ok(b, r) by {
            assert(start.row_ok(b, r));
        }
        assert forall|j: u32| #[trigger] w.location_ok(j) by {
            assert(start.location_ok(j));
        }
        assert forall|b: int, c: int|
            0 <= b < c < w.archetypes@.len() implies #[trigger] w.layout(b).to_set() != #[trigger] w.layout(c).to_set() by {
            assert(start.layout(b).to_set() != start.layout(c).to_set());
        }
    }

    /// One cell changed: the row of `entity` in the column of `id`, a component with data,
    /// now holds `value`, and nothing else changed.
    proof fn lemma_cell_written(
        start: World<V>,
        w: World<V>,
        entity: Entity,
        id: ComponentId,
        value: V,
        a: int,
        p: int,
        row: int,
        s: int,
    )
        requires
            start.wf(),
            start.live(entity),
            start.archetype_of(entity) == a,
            start.row_of(entity) == row,
            0 <= a < start.archetype_count(),
            0 <= p < start.layout(a).len(),
            start.layout(a)[p] == id,
            id.is_dense(),
            s == start.slots@[a]@[p],
            w.archetypes == start.archetypes,
            w.slots == start.slots,
            w.entities == start.entities,
            w.components.wf(),
            w.components.count() == start.components.count(),
            forall|t: int| 0 <= t < start.components.count() && t != s ==> #[trigger] w.components.storage(t) == start.components.storage(t),
            w.components.storage(s).same_except(&start.components.storage(s), a),
            w.components.storage(s).column(a) == written(start.components.storage(s).column(a), id.is_dense(), row, value),
        ensures
            w.wf(),
            w.value(entity, id) == Some(value),
            w.registry() == start.registry(),
            w.archetype_count() == start.archetype_count(),
            forall|b: int| 0 <= b < start.archetype_count() ==> {
                &&& #[trigger] w.layout(b) == start.layout(b)
                &&& w.members(b) == start.members(b)
            },
            start.has_room() ==> w.has_room(),
            forall|x: Entity, c: ComponentId| #[trigger] w.has_component(x, c) == start.has_component(x, c),
            forall|x: Entity, c: ComponentId|
                c != id || x != entity ==> #[trigger] w.value(x, c) == start.value(x, c),
            forall|x: Entity, c: ComponentId|
                c != id || x != entity ==> #[trigger] w.component(x, c) == start.component(x, c),
            w.component(entity, id) == Some(Item::Value(value)),
    {
        let na = a;
        assert(start.location_ok(entity.id));
        assert(start.slot_ok(a, p));
        lemma_index_of_unique(start.layout(a), p);
        assert(start.layout(a).no_duplicates()) by {
            assert(start.archetypes@[a].layout.wf());
        }
        Self::lemma_column_rewritten(start, w, a, p, s);
        assert(w.column_at(na, p) == written(start.column_at(na, p), id.is_dense(), row, value));
        assert forall|x: Entity, c: ComponentId| #[trigger] w.has_component(x, c) == start.has_component(x, c) by {}
        assert forall|x: Entity, c: ComponentId|
            c != id || x != entity implies #[trigger] w.value(x, c) == start.value(x, c) by {
            if start.live(x) && start.layout(start.archetype_of(x)).contains(c) {
                let b = start.archetype_of(x);
                let q = start.layout(b).index_of(c);
                assert(start.location_ok(x.id));
                if b == na && q == p {
                    assert(c == id);
                    assert(start.row_ok(na, start.row_of(x)));
                    assert(start.row_of(x) != row);
                }
            }
        }
        if start.has_room() {
            assert forall|b: int| 0 <= b < w.archetypes@.len() implies #[trigger] w.members(b).len() + 1 < u32::MAX by {
                assert(start.members(b).len() + 1 < u32::MAX);
            }
        }
    }

    /// Overwrites component `id` of a live entity that has it; returns whether it did.
    /// A unit component has no value to write, so it is refused.
    pub fn set_component(&mut self, entity: Entity, id: ComponentId, value: V) -> (r: bool)
        requires
            old(self).wf(),
        ensures
            final(self).wf(),
            r == (old(self).has_component(entity, id) && id.is_dense()),
            r ==> final(self).value(entity, id) == Some(value),
            final(self).registry() == old(self).registry(),
            final(self).archetype_count() == old(self).archetype_count(),
            forall|b: int| 0 <= b < old(self).archetype_count() ==> {
                &&& #[trigger] final(self).layout(b) == old(self).layout(b)
                &&& final(self).members(b) == old(self).members(b)
            },
            old(self).has_room() ==> final(self).has_room(),
            forall|x: Entity, c: ComponentId| #[trigger] final(self).has_component(x, c) == old(self).has_component(x, c),
            forall|x: Entity, c: ComponentId|
                c != id || x != entity ==> #[trigger] final(self).value(x, c) == old(self).value(x, c),
    {
        if id.storage != StorageKind::Dense {
            return false;
        }
        let data = match self.entities.get(entity) {
            Some(d) => d,
            None => return false,
        };
        let ghost start = *self;
        let a = data.0.0 as usize;
        let row = data.1.0 as usize;
        proof {
            assert(start.location_ok(entity.id));
            assert(start.archetypes@[a as int].index.0 == a);
        }
        let p = match self.archetypes[a].layout.position(id) {
            Some(p) => p,
            None => return false,
        };
        proof {
            assert(start.slot_ok(a as int, p as int));
            lemma_index_of_unique(start.layout(a as int), p as int);
        }
        let s = self.slots[a][p];
        self.components.set(s, ArchetypeIndex(a as u32), row, value);
        proof {
            Self::lemma_cell_written(start, *self, entity, id, value, a as int, p as int, row as int, s as int);
        }
        true
    }

    /// Component `id` of a live entity, for writing: a reference to its value, or `Unit`
    /// for a component without data.
    pub fn component_mut(&mut self, entity: Entity, id: ComponentId) -> (r: Option<ComponentMut<'_, V>>)
        requires
            old(self).wf(),
        ensures
            r is Some == old(self).has_component(entity, id),
            r is None ==> *final(self) == *old(self),
            r is Some && r->Some_0 is Unit ==> !id.is_dense() && *final(self) == *old(self),
            r is Some && r->Some_0 is Value ==> {
                &&& id.is_dense()
                &&& old(self).component(entity, id) == Some(Item::Value(*r->Some_0->Value_0))
                &&& final(self).wf()
                &&& final(self).component(entity, id) == Some(Item::Value(*final(r->Some_0->Value_0)))
                &&& final(self).registry() == old(self).registry()
                &&& final(self).archetype_count() == old(self).archetype_count()
                &&& forall|b: int| 0 <= b < old(self).archetype_count() ==> {
                    &&& #[trigger] final(self).layout(b) == old(self).layout(b)
                    &&& final(self).members(b) == old(self).members(b)
                }
                &&& (old(self).has_room() ==> final(self).has_room())
                &&& forall|x: Entity, c: ComponentId| #[trigger] final(self).has_component(x, c) == old(self).has_component(x, c)
                &&& forall|x: Entity, c: ComponentId|
                    c != id || x != entity ==> #[trigger] final(self).component(x, c) == old(self).component(x, c)
            },
    {
        let data = match self.entities.get(entity) {
            Some(d) => d,
            None => return None,
        };
        let ghost start = *self;
        let a = data.0.0 as usize;
        let row = data.1.0 as usize;
        proof {
            assert(start.location_ok(entity.id));
            assert(start.archetypes@[a as int].index.0 == a);
        }
        let p = match self.archetypes[a].layout.position(id) {
            Some(p) => p,
            None => return None,
        };
        if id.storage != StorageKind::Dense {
            return Some(ComponentMut::Unit);
        }
        proof {
            assert(start.slot_ok(a as int, p as int));
            lemma_index_of_unique(start.layout(a as int), p as int);
        }
        let s = self.slots[a][p];
        let storage = self.components.get_at_mut(s);
        let column = match storage.get_mut(ArchetypeIndex(a as u32)) {
            Some(c) => c,
            None => vstd::pervasive::unreached(),
        };
        let value = column.get_mut(row);
        proof {
            Self::lemma_cell_written(start, after_borrow(*self), entity, id, *final(value), a as int, p as int, row as int, s as int);
        }
        Some(ComponentMut::Value(value))
    }
}

impl<V: Copy> World<V> {
    /// Replaces the value `v` of component `id` by `f(v)` on every entity of archetype `a`,
    /// if its layout holds `id`; returns how many entities that touched.
    pub fn update_column<F: Fn(V) -> V>(&mut self, a: usize, id: ComponentId, f: F) -> (n: usize)
        requires
            old(self).wf(),
            a < old(self).archetype_count(),
            forall|v: V| #[trigger] f.requires((v,)),
        ensures
            final(self).wf(),
            final(self).registry() == old(self).registry(),
            final(self).archetype_count() == old(self).archetype_count(),
            forall|b: int| 0 <= b < old(self).archetype_count() ==> {
                &&& #[trigger] final(self).layout(b) == old(self).layout(b)
                &&& final(self).members(b) == old(self).members(b)
            },
            old(self).has_room() ==> final(self).has_room(),
            n == (if old(self).layout(a as int).contains(id) {
                old(self).members(a as int).len()
            } else {
                0
            }),
            forall|x: Entity, c: ComponentId| #[trigger] final(self).has_component(x, c) == old(self).has_component(x, c),
            forall|x: Entity, c: ComponentId|
                !(c == id && old(self).live(x) && old(self).archetype_of(x) == a) ==> #[trigger] final(self).value(x, c)
                    == old(self).value(x, c),
            forall|x: Entity|
                old(self).live(x) && old(self).archetype_of(x) == a && old(self).value(x, id) is Some ==> f.ensures(
                    (old(self).value(x, id)->Some_0,),
                    (#[trigger] final(self).value(x, id))->Some_0,
                ),
    {
        let ghost start = *self;
        proof {
            assert(start.archetypes@[a as int].index.0 == a);
        }
        let p = match self.archetypes[a].layout.position(id) {
            Some(p) => p,
            None => return 0,
        };
        proof {
            assert(start.slot_ok(a as int, p as int));
            lemma_index_of_unique(start.layout(a as int), p as int);
            assert(start.layout(a as int).no_duplicates());
        }
        let s = self.slots[a][p];
        self.components.update(s, ArchetypeIndex(a as u32), f);
        proof {
            let na = a as int;
            Self::lemma_column_rewritten(start, *self, na, p as int, s as int);
            assert forall|x: Entity, c: ComponentId| #[trigger] self.has_component(x, c) == start.has_component(x, c) by {}
            assert forall|x: Entity, c: ComponentId|
                !(c == id && start.live(x) && start.archetype_of(x) == a) implies #[trigger] self.value(x, c) == start.value(x, c) by {
                if start.live(x) && start.layout(start.archetype_of(x)).contains(c) {
                    let b = start.archetype_of(x);
                    let q = start.layout(b).index_of(c);
                    assert(start.location_ok(x.id));
                    if b == na && q == p {
                        assert(c == id);
                    }
                }
            }
            assert forall|x: Entity|
                start.live(x) && start.archetype_of(x) == a && start.value(x, id) is Some implies f.ensures(
                    (start.value(x, id)->Some_0,),
                    (#[trigger] self.value(x, id))->Some_0,
                ) by {
                assert(start.location_ok(x.id));
                assert(start.slot_ok(na, p as int));
                let r = start.row_of(x);
                assert(0 <= r < start.column_at(na, p as int).len());
            }
            if start.has_room() {
                assert forall|b: int| 0 <= b < self.archetypes@.len() implies #[trigger] self.members(b).len() + 1 < u32::MAX by {
                    assert(start.members(b).len() + 1 < u32::MAX);
                }
            }
        }
        self.archetypes[a].entities.len()
    }
}

impl<V> Default for World<V> {
    fn default() -> (r: World<V>)
        ensures
            r.wf(),
            r.archetype_count() == 0,
            r.has_room(),
            r.can_allocate(),
            forall|n: nat| n + 1 < u32::MAX ==> #[trigger] r.has_room_for(n),
            forall|e: Entity| !r.live(e),
    {
        World::new()
    }
}

impl<'a, V> Entry<'a, V> {
    pub closed spec fn entity(&self) -> Entity {
        self.entity
    }

    pub closed spec fn world(&self) -> World<V> {
        *self.world
    }

    /// The borrow of the world this entry holds.
    pub closed spec fn world_ref(&self) -> &'a mut World<V> {
        self.world
    }

    /// Once an entry is done with, the world it borrowed is left as the entry last saw it.
    pub proof fn lemma_released(&self)
        requires
            has_resolved(*self),
        ensures
            *final(self.world_ref()) == self.world(),
    {
        assert(has_resolved(self.world));
    }

    pub closed spec fn wf(&self) -> bool {
        &&& self.world.wf()
        &&& self.world.live(self.entity)
        &&& self.world.entities.location(self.entity.id) == Some(self.data)
    }

    /// The entity this entry is about.
    pub fn entity_handle(&self) -> (r: Entity)
        ensures
            r == self.entity(),
    {
        self.entity
    }

    /// Component `id` of the entity, for writing, if it has it: a reference to its value,
    /// or `Unit` for a component without data.
    pub fn component_mut(&mut self, id: ComponentId) -> (r: Option<ComponentMut<'_, V>>)
        requires
            old(self).wf(),
        ensures
            final(self).entity() == old(self).entity(),
            *final(final(self).world_ref()) == *final(old(self).world_ref()),
            r is Some == old(self).world().has_component(old(self).entity(), id),
            r is None || r->Some_0 is Unit ==> final(self).world() == old(self).world(),
            r is Some && r->Some_0 is Unit ==> !id.is_dense(),
            r is Some && r->Some_0 is Value ==> {
                &&& old(self).world().component(old(self).entity(), id) == Some(Item::Value(*r->Some_0->Value_0))
                &&& final(self).wf()
                &&& final(self).world().component(old(self).entity(), id) == Some(Item::Value(*final(r->Some_0->Value_0)))
                &&& final(self).world().registry() == old(self).world().registry()
                &&& forall|x: Entity, c: ComponentId|
                    #[trigger] final(self).world().has_component(x, c) == old(self).world().has_component(x, c)
                &&& forall|x: Entity, c: ComponentId|
                    c != id || x != old(self).entity() ==> #[trigger] final(self).world().component(x, c)
                        == old(self).world().component(x, c)
            },
    {
        self.world.component_mut(self.entity, id)
    }

    /// Whether the entity has component `id`, with or without data.
    pub fn has(&self, id: ComponentId) -> (r: bool)
        requires
            self.wf(),
        ensures
            r == self.world().has_component(self.entity(), id),
    {
        let a = self.data.0.0 as usize;
        proof {
            assert(self.world.location_ok(self.entity.id));
            assert(self.world.archetypes@[a as int].index.0 == a);
        }
        self.world.archetypes[a].layout.has(id)
    }

    /// Component `id` of the entity, if it has it: a reference to its value, or `Unit` for
    /// a component without data.
    pub fn component(&self, id: ComponentId) -> (r: Option<ComponentRef<'_, V>>)
        requires
            self.wf(),
        ensures
            r is Some == self.world().has_component(self.entity(), id),
            r is Some && r->Some_0 is Value ==> self.world().component(self.entity(), id) == Some(Item::Value(*r->Some_0->Value_0)),
            r is Some && r->Some_0 is Unit ==> self.world().component(self.entity(), id) == Some(Item::<V>::Unit),
    {
        let a = self.data.0.0 as usize;
        let row = self.data.1.0 as usize;
        proof {
            assert(self.world.location_ok(self.entity.id));
            assert(self.world.row_of(self.entity) == row);
        }
        match self.world.column_of(a, id) {
            Some(col) => match col.get(row) {
                Some(v) => Some(ComponentRef::Value(v)),
                None => Some(ComponentRef::Unit),
            },
            None => None,
        }
    }
}

} // verus!
