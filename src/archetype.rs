use vstd::prelude::*;
use crate::component::{ComponentId, StorageKind};
use crate::entity::Entity;

verus! {

/// The position of an archetype in the world's archetype table.
#[derive(Debug, Clone, Copy, PartialEq, Eq, Hash, Structural)]
pub struct ArchetypeIndex(pub u32);

/// The component types of a row shape, in the order they were added. The order fixes
/// how a row is laid out; two layouts describe the same shape when they hold the same set.
#[derive(Debug)]
pub struct ArchetypeLayout {
    pub components: Vec<ComponentId>,
}

/// A group of entities that share one layout, one row each.
#[derive(Debug)]
pub struct Archetype {
    pub index: ArchetypeIndex,
    pub layout: ArchetypeLayout,
    pub entities: Vec<Entity>,
}

/// Anything that names the component types of an archetype.
pub trait ArchetypeDescriptor {
    /// The component types, in layout order.
    spec fn component_ids(&self) -> Seq<ComponentId>;

    /// The layout of those component types.
    fn layout(&self) -> (r: ArchetypeLayout)
        requires
            self.component_ids().no_duplicates(),
        ensures
            r.wf(),
            r@ == self.component_ids(),
    ;
}

impl View for ArchetypeLayout {
    type V = Seq<ComponentId>;

    open spec fn view(&self) -> Seq<ComponentId> {
        self.components@
    }
}

impl Archetype {
    pub fn new(index: ArchetypeIndex, layout: ArchetypeLayout) -> (r: Archetype)
        ensures
            r.index == index,
            r.layout@ == layout@,
            r.entities@ == Seq::<Entity>::empty(),
    {
        Archetype { index, layout, entities: Vec::new() }
    }
}

impl ArchetypeLayout {
    /// No component type appears twice.
    pub open spec fn wf(&self) -> bool {
        self@.no_duplicates()
    }

    pub fn new() -> (r: ArchetypeLayout)
        ensures
            r.wf(),
            r@ == Seq::<ComponentId>::empty(),
    {
        ArchetypeLayout { components: Vec::new() }
    }

    /// Adds a component type that the layout does not hold yet.
    pub fn add(&mut self, id: ComponentId)
        requires
            old(self).wf(),
            !old(self)@.contains(id),
        ensures
            final(self).wf(),
            final(self)@ == old(self)@.push(id),
    {
        self.components.push(id);
    }

    /// Adds the component type with the given key and storage.
    pub fn add_any(&mut self, key: u32, storage: StorageKind)
        requires
            old(self).wf(),
            !old(self)@.contains(ComponentId { key, storage }),
        ensures
            final(self).wf(),
            final(self)@ == old(self)@.push(ComponentId { key, storage }),
    {
        self.add(ComponentId { key, storage });
    }

    pub fn len(&self) -> (r: usize)
        ensures
            r == self@.len(),
    {
        self.components.len()
    }

    /// Whether the layout holds the component type `id`.
    pub fn has(&self, id: ComponentId) -> (r: bool)
        ensures
            r == self@.contains(id),
    {
        let mut i: usize = 0;
        while i < self.components.len()
            invariant
                i <= self@.len(),
                forall|j: int| 0 <= j < i ==> self@[j] != id,
            decreases self@.len() - i,
        {
            if self.components[i] == id {
                return true;
            }
            i += 1;
        }
        false
    }

    /// The position of `id` in the layout, if it is there.
    pub fn position(&self, id: ComponentId) -> (r: Option<usize>)
        ensures
            match r {
                Some(k) => k < self@.len() && self@[k as int] == id,
                None => !self@.contains(id),
            },
    {
        let mut i: usize = 0;
        while i < self.components.len()
            invariant
                i <= self@.len(),
                forall|j: int| 0 <= j < i ==> self@[j] != id,
            decreases self@.len() - i,
        {
            if self.components[i] == id {
                return Some(i);
            }
            i += 1;
        }
        None
    }

    /// Whether the layout holds every one of `components`.
    pub fn contains(&self, components: &[ComponentId]) -> (r: bool)
        ensures
            r == (forall|i: int| 0 <= i < components@.len() ==> self@.contains(#[trigger] components@[i])),
    {
        let mut i: usize = 0;
        while i < components.len()
            invariant
                i <= components@.len(),
                forall|j: int| 0 <= j < i ==> self@.contains(#[trigger] components@[j]),
            decreases components@.len() - i,
        {
            if !self.has(components[i]) {
                return false;
            }
            i += 1;
        }
        true
    }

    /// Whether both layouts hold the same set of component types, whatever their order.
    pub fn same_components(&self, other: &ArchetypeLayout) -> (r: bool)
        requires
            self.wf(),
            other.wf(),
        ensures
            r == (self@.to_set() == other@.to_set()),
    {
        proof {
            self@.unique_seq_to_set();
            other@.unique_seq_to_set();
        }
        if self.components.len() != other.components.len() {
            return false;
        }
        let mut i: usize = 0;
        while i < self.components.len()
            invariant
                i <= self@.len(),
                self@.len() == other@.len(),
                forall|j: int| 0 <= j < i ==> other@.contains(#[trigger] self@[j]),
            decreases self@.len() - i,
        {
            if !other.has(self.components[i]) {
                proof {
                    assert(self@.to_set().contains(self@[i as int]));
                    assert(!other@.to_set().contains(self@[i as int]));
                }
                return false;
            }
            i += 1;
        }
        proof {
            let a = self@.to_set();
            let b = other@.to_set();
            assert(a.subset_of(b)) by {
                assert forall|x: ComponentId| a.contains(x) implies b.contains(x) by {
                    let j = choose|j: int| 0 <= j < self@.len() && self@[j] == x;
                    assert(other@.contains(self@[j]));
                }
            }
            assert forall|x: ComponentId| b.contains(x) implies a.contains(x) by {
                if !a.contains(x) {
                    a.lemma_subset_not_in_lt(b, x);
                }
            }
            assert(a =~= b);
        }
        true
    }
}

} // verus!
