use vstd::prelude::*;
use crate::archetype::ArchetypeIndex;
use crate::component::ComponentId;
use crate::query::{Fetch, Query};
use crate::storage::Components;
use crate::resource::Resources;
use crate::world::World;

verus! {

/// Two fetches of one system touch the same component type and at least one writes it.
#[derive(Debug, Clone, Copy, PartialEq, Eq, Structural)]
pub struct AccessConflict(pub ComponentId);

/// The fetches of all queries of a system, query after query.
pub open spec fn all_fetches(queries: Seq<Seq<Fetch>>) -> Seq<Fetch>
    decreases queries.len(),
{
    if queries.len() == 0 {
        Seq::empty()
    } else {
        all_fetches(queries.drop_last()) + queries.last()
    }
}

/// The fetches of the given query lists, list after list.
pub open spec fn declared(queries: Seq<Vec<Fetch>>) -> Seq<Fetch> {
    all_fetches(queries.map_values(|q: Vec<Fetch>| q@))
}

/// Two different fetches name `id`, and one of them writes it.
pub open spec fn conflicts_on(fetches: Seq<Fetch>, id: ComponentId) -> bool {
    exists|i: int, j: int|
        0 <= i < fetches.len() && 0 <= j < fetches.len() && i != j && {
            &&& (#[trigger] fetches[i]).access() is Some
            &&& (#[trigger] fetches[j]).access() is Some
            &&& fetches[i].access()->Some_0.0 == id
            &&& fetches[j].access()->Some_0.0 == id
            &&& (fetches[i].access()->Some_0.1 || fetches[j].access()->Some_0.1)
        }
}

/// One borrow taken on the storage of a component type, shared or exclusive.
#[derive(Debug, Clone, Copy, PartialEq, Eq, Structural)]
pub struct EditComponent {
    pub component: ComponentId,
    pub exclusive: bool,
}

/// The borrows taken on the component registry while the queries of one system are
/// materialized. An exclusive borrow is refused while the type is borrowed at all, and a
/// shared one while the type is borrowed exclusively.
#[derive(Debug)]
pub struct EditComponents {
    borrowed: Vec<EditComponent>,
}

impl EditComponents {
    pub closed spec fn borrows(&self) -> Seq<EditComponent> {
        self.borrowed@
    }

    /// A borrow of `id` of the given kind would clash with one already taken.
    pub open spec fn clashes(&self, id: ComponentId, exclusive: bool) -> bool {
        exists|k: int|
            0 <= k < self.borrows().len() && (#[trigger] self.borrows()[k]).component == id && (exclusive
                || self.borrows()[k].exclusive)
    }

    pub fn new() -> (r: EditComponents)
        ensures
            r.borrows() == Seq::<EditComponent>::empty(),
    {
        EditComponents { borrowed: Vec::new() }
    }

    /// Takes a borrow of `id`, unless it clashes with one already taken.
    pub fn get(&mut self, id: ComponentId, exclusive: bool) -> (r: Result<EditComponent, AccessConflict>)
        ensures
            r is Ok == !old(self).clashes(id, exclusive),
            r is Ok ==> r->Ok_0 == (EditComponent { component: id, exclusive }),
            r is Ok ==> final(self).borrows() == old(self).borrows().push(EditComponent { component: id, exclusive }),
            r is Err ==> r->Err_0 == AccessConflict(id) && final(self).borrows() == old(self).borrows(),
    {
        let mut k: usize = 0;
        while k < self.borrowed.len()
            invariant
                self.borrowed@ == old(self).borrowed@,
                k <= self.borrowed@.len(),
                forall|j: int|
                    0 <= j < k ==> !((#[trigger] self.borrowed@[j]).component == id && (exclusive || self.borrowed@[j].exclusive)),
            decreases self.borrowed@.len() - k,
        {
            let b = self.borrowed[k];
            if b.component == id && (exclusive || b.exclusive) {
                return Err(AccessConflict(id));
            }
            k += 1;
        }
        let borrow = EditComponent { component: id, exclusive };
        self.borrowed.push(borrow);
        Ok(borrow)
    }
}

impl EditComponents {
    /// Gives back a borrow taken earlier; returns whether it was held.
    pub fn release(&mut self, borrow: EditComponent) -> (r: bool)
        ensures
            r == old(self).borrows().contains(borrow),
            r ==> exists|k: int|
                0 <= k < old(self).borrows().len() && old(self).borrows()[k] == borrow && final(self).borrows()
                    == old(self).borrows().remove(k),
            !r ==> final(self).borrows() == old(self).borrows(),
    {
        let mut k: usize = 0;
        while k < self.borrowed.len() && self.borrowed[k] != borrow
            invariant
                self.borrowed@ == old(self).borrowed@,
                k <= self.borrowed@.len(),
                forall|j: int| 0 <= j < k ==> self.borrowed@[j] != borrow,
            decreases self.borrowed@.len() - k,
        {
            k += 1;
        }
        if k < self.borrowed.len() {
            let _ = self.borrowed.remove(k);
            proof {
                assert(old(self).borrows()[k as int] == borrow);
            }
            true
        } else {
            false
        }
    }
}

/// The borrows the first `n` fetches take, in order.
pub open spec fn borrows_of(fetches: Seq<Fetch>, n: nat) -> Seq<EditComponent>
    decreases n,
{
    if n == 0 {
        Seq::empty()
    } else {
        let prev = borrows_of(fetches, (n - 1) as nat);
        match fetches[n - 1].access() {
            Some((id, exclusive)) => prev.push(EditComponent { component: id, exclusive }),
            None => prev,
        }
    }
}

/// One of the first `n` fetches names `id`, and it or the borrow asked for is exclusive.
pub open spec fn clashes_before(fetches: Seq<Fetch>, n: nat, id: ComponentId, exclusive: bool) -> bool {
    exists|q: int|
        0 <= q < n && (#[trigger] fetches[q]).access() is Some && fetches[q].access()->Some_0.0 == id && (exclusive
            || fetches[q].access()->Some_0.1)
}

proof fn lemma_borrows_of(fetches: Seq<Fetch>, n: nat, id: ComponentId, exclusive: bool)
    requires
        n <= fetches.len(),
    ensures
        (exists|k: int|
            0 <= k < borrows_of(fetches, n).len() && (#[trigger] borrows_of(fetches, n)[k]).component == id && (exclusive
                || borrows_of(fetches, n)[k].exclusive)) == clashes_before(fetches, n, id, exclusive),
    decreases n,
{
    if n > 0 {
        lemma_borrows_of(fetches, (n - 1) as nat, id, exclusive);
        let prev = borrows_of(fetches, (n - 1) as nat);
        let cur = borrows_of(fetches, n);
        if clashes_before(fetches, n, id, exclusive) {
            let q = choose|q: int|
                0 <= q < n && (#[trigger] fetches[q]).access() is Some && fetches[q].access()->Some_0.0 == id && (exclusive
                    || fetches[q].access()->Some_0.1);
            if q < n - 1 {
                assert(clashes_before(fetches, (n - 1) as nat, id, exclusive));
                let k = choose|k: int|
                    0 <= k < prev.len() && (#[trigger] prev[k]).component == id && (exclusive || prev[k].exclusive);
                assert(cur[k] == prev[k]);
            } else {
                assert(cur[prev.len() as int].component == id);
            }
        }
        if exists|k: int| 0 <= k < cur.len() && (#[trigger] cur[k]).component == id && (exclusive || cur[k].exclusive) {
            let k = choose|k: int| 0 <= k < cur.len() && (#[trigger] cur[k]).component == id && (exclusive || cur[k].exclusive);
            if k < prev.len() {
                assert(cur[k] == prev[k]);
                let q = choose|q: int|
                    0 <= q < n - 1 && (#[trigger] fetches[q]).access() is Some && fetches[q].access()->Some_0.0 == id && (exclusive
                        || fetches[q].access()->Some_0.1);
                assert(0 <= q < n);
            } else {
                assert(fetches[n - 1].access() is Some);
            }
        }
    }
}

/// Checks, borrow by borrow, that no component type is written by one fetch and touched
/// by another. Reports the type of the first fetch whose borrow is refused.
pub fn check_access(edit: &mut EditComponents, fetches: &Vec<Fetch>) -> (r: Result<(), AccessConflict>)
    requires
        old(edit).borrows() == Seq::<EditComponent>::empty(),
    ensures
        r is Ok == (forall|id: ComponentId| !(#[trigger] conflicts_on(fetches@, id))),
        r is Err ==> conflicts_on(fetches@, r->Err_0.0),
{
    let mut i: usize = 0;
    while i < fetches.len()
        invariant
            i <= fetches@.len(),
            edit.borrows() == borrows_of(fetches@, i as nat),
            forall|p: int, q: int|
                0 <= p < i && 0 <= q < i && p != q ==> !{
                    &&& (#[trigger] fetches@[p]).access() is Some
                    &&& (#[trigger] fetches@[q]).access() is Some
                    &&& fetches@[p].access()->Some_0.0 == fetches@[q].access()->Some_0.0
                    &&& (fetches@[p].access()->Some_0.1 || fetches@[q].access()->Some_0.1)
                },
        decreases fetches@.len() - i,
    {
        match fetches[i].access_of() {
            Some((id, exclusive)) => {
                proof {
                    lemma_borrows_of(fetches@, i as nat, id, exclusive);
                }
                match edit.get(id, exclusive) {
                    Err(c) => {
                        proof {
                            let q = choose|q: int|
                                0 <= q < i && (#[trigger] fetches@[q]).access() is Some && fetches@[q].access()->Some_0.0 == id
                                    && (exclusive || fetches@[q].access()->Some_0.1);
                            assert(fetches@[i as int].access() is Some);
                            assert(conflicts_on(fetches@, id));
                        }
                        return Err(c);
                    },
                    Ok(_) => {
                        proof {
                            assert forall|p: int, q: int|
                                0 <= p < i + 1 && 0 <= q < i + 1 && p != q implies !{
                                    &&& (#[trigger] fetches@[p]).access() is Some
                                    &&& (#[trigger] fetches@[q]).access() is Some
                                    &&& fetches@[p].access()->Some_0.0 == fetches@[q].access()->Some_0.0
                                    &&& (fetches@[p].access()->Some_0.1 || fetches@[q].access()->Some_0.1)
                                } by {
                                if p == i && fetches@[q].access() is Some {
                                    assert(!(fetches@[q].access()->Some_0.0 == id && (exclusive || fetches@[q].access()->Some_0.1)));
                                }
                                if q == i && fetches@[p].access() is Some {
                                    assert(!(fetches@[p].access()->Some_0.0 == id && (exclusive || fetches@[p].access()->Some_0.1)));
                                }
                            }
                        }
                    },
                }
            },
            None => {},
        }
        i += 1;
    }
    proof {
        assert forall|id: ComponentId| !(#[trigger] conflicts_on(fetches@, id)) by {
            if conflicts_on(fetches@, id) {
                let (p, q) = choose|p: int, q: int|
                    0 <= p < fetches@.len() && 0 <= q < fetches@.len() && p != q && {
                        &&& (#[trigger] fetches@[p]).access() is Some
                        &&& (#[trigger] fetches@[q]).access() is Some
                        &&& fetches@[p].access()->Some_0.0 == id
                        &&& fetches@[q].access()->Some_0.0 == id
                        &&& (fetches@[p].access()->Some_0.1 || fetches@[q].access()->Some_0.1)
                    };
                assert(fetches@[p].access()->Some_0.0 == fetches@[q].access()->Some_0.0);
            }
        }
    }
    Ok(())
}

/// Turns the fetch lists a system declares into its queries, after checking that no
/// component type is written by one fetch and touched by another, across all of them.
pub fn materialize<V>(components: &Components<V>, queries: &Vec<Vec<Fetch>>) -> (r: Result<Vec<Query>, AccessConflict>)
    ensures
        r is Ok == (forall|id: ComponentId| !(#[trigger] conflicts_on(declared(queries@), id))),
        r is Err ==> conflicts_on(declared(queries@), r->Err_0.0),
        r is Ok ==> r->Ok_0@.len() == queries@.len(),
        r is Ok ==> forall|k: int| 0 <= k < queries@.len() ==> {
            &&& (#[trigger] r->Ok_0@[k]).fetches() == queries@[k]@
            &&& r->Ok_0@[k].seen() == 0
            &&& r->Ok_0@[k].cache() == Seq::<ArchetypeIndex>::empty()
        },
{
    let ghost lists = queries@.map_values(|q: Vec<Fetch>| q@);
    let mut flat: Vec<Fetch> = Vec::new();
    let mut out: Vec<Query> = Vec::new();
    let mut k: usize = 0;
    while k < queries.len()
        invariant
            k <= queries@.len(),
            lists == queries@.map_values(|q: Vec<Fetch>| q@),
            flat@ == all_fetches(lists.subrange(0, k as int)),
            out@.len() == k,
            forall|m: int| 0 <= m < k ==> {
                &&& (#[trigger] out@[m]).fetches() == queries@[m]@
                &&& out@[m].seen() == 0
                &&& out@[m].cache() == Seq::<ArchetypeIndex>::empty()
            },
        decreases queries@.len() - k,
    {
        let mut j: usize = 0;
        let ghost before = flat@;
        let mut copy: Vec<Fetch> = Vec::new();
        while j < queries[k].len()
            invariant
                k < queries@.len(),
                j <= queries@[k as int]@.len(),
                flat@ == before + queries@[k as int]@.subrange(0, j as int),
                copy@ == queries@[k as int]@.subrange(0, j as int),
            decreases queries@[k as int]@.len() - j,
        {
            flat.push(queries[k][j]);
            copy.push(queries[k][j]);
            proof {
                assert(flat@ =~= before + queries@[k as int]@.subrange(0, j + 1));
                assert(copy@ =~= queries@[k as int]@.subrange(0, j + 1));
            }
            j += 1;
        }
        proof {
            let next = lists.subrange(0, k + 1);
            assert(next.drop_last() =~= lists.subrange(0, k as int));
            assert(next.last() == queries@[k as int]@);
            assert(queries@[k as int]@.subrange(0, j as int) =~= queries@[k as int]@);
        }
        out.push(Query::new(copy));
        k += 1;
    }
    proof {
        assert(lists.subrange(0, k as int) =~= lists);
    }
    let mut edit = components.edit();
    match check_access(&mut edit, &flat) {
        Err(c) => {
            proof {
                assert(conflicts_on(declared(queries@), c.0));
            }
            Err(c)
        },
        Ok(()) => Ok(out),
    }
}

/// Some component type is written by one fetch of the query lists and touched by another.
pub open spec fn clashing(queries: Seq<Vec<Fetch>>) -> bool {
    exists|id: ComponentId| #[trigger] conflicts_on(declared(queries), id)
}

/// A resource a system declares: its key, and whether the system writes it.
#[derive(Debug, Clone, Copy, PartialEq, Eq, Structural)]
pub struct ResourceAccess {
    pub resource: u32,
    pub exclusive: bool,
}

/// Two different declarations name resource `key`, and one of them writes it.
pub open spec fn resource_clash(accesses: Seq<ResourceAccess>, key: u32) -> bool {
    exists|i: int, j: int|
        0 <= i < accesses.len() && 0 <= j < accesses.len() && i != j && (#[trigger] accesses[i]).resource == key
            && (#[trigger] accesses[j]).resource == key && (accesses[i].exclusive || accesses[j].exclusive)
}

/// Some resource is written by one declaration and named by another.
pub open spec fn resources_clashing(accesses: Seq<ResourceAccess>) -> bool {
    exists|key: u32| #[trigger] resource_clash(accesses, key)
}

/// Checks that no resource is written by one declaration and named by another. Reports
/// the resource of the first clashing pair, taken in order of the first declaration.
pub fn check_resources(accesses: &Vec<ResourceAccess>) -> (r: Result<(), u32>)
    ensures
        r is Ok == !resources_clashing(accesses@),
        r is Err ==> resource_clash(accesses@, r->Err_0),
{
    let mut i: usize = 0;
    while i < accesses.len()
        invariant
            i <= accesses@.len(),
            forall|p: int, q: int|
                0 <= p < i && 0 <= q < accesses@.len() && p != q ==> !(#[trigger] accesses@[p].resource
                    == #[trigger] accesses@[q].resource && (accesses@[p].exclusive || accesses@[q].exclusive)),
        decreases accesses@.len() - i,
    {
        let a = accesses[i];
        let mut j: usize = 0;
        while j < accesses.len()
            invariant
                i < accesses@.len(),
                j <= accesses@.len(),
                a == accesses@[i as int],
                forall|q: int|
                    0 <= q < j && q != i ==> !(#[trigger] accesses@[q].resource == a.resource && (a.exclusive
                        || accesses@[q].exclusive)),
            decreases accesses@.len() - j,
        {
            if j != i {
                let b = accesses[j];
                if b.resource == a.resource && (a.exclusive || b.exclusive) {
                    proof {
                        assert(accesses@[i as int].resource == a.resource);
                        assert(accesses@[j as int].resource == a.resource);
                        assert(resource_clash(accesses@, a.resource));
                    }
                    return Err(a.resource);
                }
            }
            j += 1;
        }
        proof {
            assert forall|p: int, q: int|
                0 <= p < i + 1 && 0 <= q < accesses@.len() && p != q implies !(#[trigger] accesses@[p].resource
                    == #[trigger] accesses@[q].resource && (accesses@[p].exclusive || accesses@[q].exclusive)) by {
                if p == i {
                    assert(!(accesses@[q].resource == a.resource && (a.exclusive || accesses@[q].exclusive)));
                }
            }
        }
        i += 1;
    }
    proof {
        assert forall|key: u32| !(#[trigger] resource_clash(accesses@, key)) by {
            if resource_clash(accesses@, key) {
                let (p, q) = choose|p: int, q: int|
                    0 <= p < accesses@.len() && 0 <= q < accesses@.len() && p != q && (#[trigger] accesses@[p]).resource == key
                        && (#[trigger] accesses@[q]).resource == key && (accesses@[p].exclusive || accesses@[q].exclusive);
                assert(accesses@[p].resource == accesses@[q].resource);
            }
        }
    }
    Ok(())
}

/// A unit of work: the fetch lists of the queries it runs, the resources it touches,
/// and its body, which gets the world, those queries, materialized, and the resources.
pub trait System<V, R>: Sized {
    /// What one run may do: take the system from `old` to `new` and the world from
    /// `before` to `after`.
    spec fn ran(old: Self, new: Self, before: World<V>, after: World<V>) -> bool;

    fn queries(&self) -> Vec<Vec<Fetch>>;

    /// The resources the system reads or writes.
    fn resources(&self) -> Vec<ResourceAccess>;

    fn run(&mut self, world: &mut World<V>, queries: &mut Vec<Query>, resources: &Resources<R>)
        ensures
            Self::ran(*old(self), *final(self), *old(world), *final(world)),
    ;
}

} // verus!
