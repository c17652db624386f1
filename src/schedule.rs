use vstd::prelude::*;
use crate::component::ComponentId;
use crate::query::Fetch;
use crate::resource::Resources;
use crate::system::{
    check_resources, clashing, conflicts_on, declared, materialize, resource_clash, resources_clashing, AccessConflict,
    ResourceAccess, System,
};
use crate::world::World;

verus! {

/// Why a run stopped: two fetches of a system clash on a component type, or two of its
/// resource declarations clash on a resource.
#[derive(Debug, Clone, Copy, PartialEq, Eq, Structural)]
pub enum Conflict {
    Components(AccessConflict),
    Resource(u32),
}

/// Systems that run one after another, in the order they were added, each with the
/// query lists and resources it declared when it was added.
pub struct Schedule<S> {
    systems: Vec<S>,
    declared: Vec<Vec<Vec<Fetch>>>,
    resources: Vec<Vec<ResourceAccess>>,
}

impl<S> Schedule<S> {
    pub closed spec fn systems(&self) -> Seq<S> {
        self.systems@
    }

    /// The query lists the `i`-th system declared.
    pub closed spec fn declared_at(&self, i: int) -> Seq<Vec<Fetch>> {
        self.declared@[i]@
    }

    /// The resources the `i`-th system declared.
    pub closed spec fn resources_at(&self, i: int) -> Seq<ResourceAccess> {
        self.resources@[i]@
    }

    /// The declarations of the `i`-th system clash, on a component type or on a resource.
    pub open spec fn clashes_at(&self, i: int) -> bool {
        clashing(self.declared_at(i)) || resources_clashing(self.resources_at(i))
    }

    pub closed spec fn wf(&self) -> bool {
        &&& self.systems@.len() == self.declared@.len()
        &&& self.systems@.len() == self.resources@.len()
    }

    pub fn new() -> (r: Schedule<S>)
        ensures
            r.wf(),
            r.systems() == Seq::<S>::empty(),
    {
        Schedule { systems: Vec::new(), declared: Vec::new(), resources: Vec::new() }
    }

    /// Ends the building of the schedule.
    pub fn finish(self) -> (r: Schedule<S>)
        ensures
            r == self,
    {
        self
    }

    /// The system at position `i`.
    pub fn system(&self, i: usize) -> (r: &S)
        requires
            i < self.systems().len(),
        ensures
            *r == self.systems()[i as int],
    {
        &self.systems[i]
    }

    pub fn len(&self) -> (r: usize)
        requires
            self.wf(),
        ensures
            r == self.systems().len(),
    {
        self.systems.len()
    }
}

impl<S> Schedule<S> {
    /// Adds a system after the ones already there, recording the query lists and the
    /// resources it declares.
    pub fn with_system<V, R>(self, system: S) -> (r: Schedule<S>)
        where
            S: System<V, R>,
        requires
            self.wf(),
        ensures
            r.wf(),
            r.systems() == self.systems().push(system),
            forall|i: int| 0 <= i < self.systems().len() ==> #[trigger] r.declared_at(i) == self.declared_at(i),
            forall|i: int| 0 <= i < self.systems().len() ==> #[trigger] r.resources_at(i) == self.resources_at(i),
    {
        let lists = system.queries();
        let accesses = system.resources();
        let mut systems = self.systems;
        let mut declared = self.declared;
        let mut resources = self.resources;
        systems.push(system);
        declared.push(lists);
        resources.push(accesses);
        Schedule { systems, declared, resources }
    }

    /// Runs every system once, in order, each on the world the previous one left. Before a
    /// system runs, the query lists it declared are materialized and its resources are
    /// checked; if two of its declarations clash, the run stops there with that conflict
    /// and the remaining systems do not run.
    pub fn run<V, R>(&mut self, world: &mut World<V>, resources: &Resources<R>) -> (r: Result<(), Conflict>)
        where
            S: System<V, R>,
        requires
            old(self).wf(),
        ensures
            final(self).wf(),
            final(self).systems().len() == old(self).systems().len(),
            forall|i: int| 0 <= i < old(self).systems().len() ==> #[trigger] final(self).declared_at(i) == old(self).declared_at(i),
            forall|i: int| 0 <= i < old(self).systems().len() ==> #[trigger] final(self).resources_at(i) == old(self).resources_at(i),
            old(self).systems().len() == 0 ==> r == Ok::<(), Conflict>(()),
            r is Err == exists|i: int| 0 <= i < old(self).systems().len() && #[trigger] old(self).clashes_at(i),
            r is Err ==> exists|i: int|
                0 <= i < old(self).systems().len() && (forall|j: int| 0 <= j < i ==> !(#[trigger] old(self).clashes_at(j))) && match r->Err_0 {
                    Conflict::Components(c) => conflicts_on(declared(#[trigger] old(self).declared_at(i)), c.0),
                    Conflict::Resource(k) => !clashing(old(self).declared_at(i)) && resource_clash(old(self).resources_at(i), k),
                },
            exists|k: int, ws: Seq<World<V>>| {
                &&& 0 <= k <= old(self).systems().len()
                &&& (r is Ok == (k == old(self).systems().len()))
                &&& ws.len() == k + 1
                &&& ws[0] == *old(world)
                &&& #[trigger] ws[k] == *final(world)
                &&& forall|j: int| 0 <= j < k ==> S::ran(old(self).systems()[j], final(self).systems()[j], ws[j], #[trigger] ws[j + 1])
                &&& forall|j: int| k <= j < old(self).systems().len() ==> #[trigger] final(self).systems()[j] == old(self).systems()[j]
            },
    {
        let mut i: usize = 0;
        let ghost ws: Seq<World<V>> = seq![*world];
        while i < self.systems.len()
            invariant
                self.wf(),
                self.systems@.len() == old(self).systems@.len(),
                self.declared@ == old(self).declared@,
                self.resources@ == old(self).resources@,
                i <= self.systems@.len(),
                forall|j: int| 0 <= j < i ==> !(#[trigger] old(self).clashes_at(j)),
                ws.len() == i + 1,
                ws[0] == *old(world),
                ws[i as int] == *world,
                forall|j: int| 0 <= j < i ==> S::ran(old(self).systems@[j], self.systems@[j], ws[j], #[trigger] ws[j + 1]),
                forall|j: int| i <= j < self.systems@.len() ==> #[trigger] self.systems@[j] == old(self).systems@[j],
            decreases self.systems@.len() - i,
        {
            let mut queries = match materialize(world.components(), &self.declared[i]) {
                Ok(q) => q,
                Err(c) => {
                    proof {
                        assert(clashing(old(self).declared_at(i as int)));
                        assert(old(self).clashes_at(i as int));
                    }
                    return Err(Conflict::Components(c));
                },
            };
            proof {
                assert(!clashing(old(self).declared_at(i as int))) by {
                    if clashing(old(self).declared_at(i as int)) {
                        let id = choose|id: ComponentId| #[trigger] conflicts_on(declared(old(self).declared_at(i as int)), id);
                        assert(!conflicts_on(declared(old(self).declared_at(i as int)), id));
                    }
                }
            }
            match check_resources(&self.resources[i]) {
                Ok(()) => {},
                Err(k) => {
                    proof {
                        assert(resources_clashing(old(self).resources_at(i as int)));
                        assert(old(self).clashes_at(i as int));
                    }
                    return Err(Conflict::Resource(k));
                },
            }
            let ghost before_sys = self.systems@;
            self.systems[i].run(world, &mut queries, resources);
            proof {
                ws = ws.push(*world);
                assert forall|j: int| 0 <= j < i + 1 implies S::ran(old(self).systems@[j], self.systems@[j], ws[j], #[trigger] ws[j + 1]) by {
                    if j < i {
                        assert(self.systems@[j] == before_sys[j]);
                    }
                }
            }
            i += 1;
        }
        Ok(())
    }
}

} // verus!
