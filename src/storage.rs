use vstd::prelude::*;
use crate::archetype::ArchetypeIndex;
use crate::component::{ComponentId, StorageKind};
use crate::system::{EditComponent, EditComponents};

mod null;
mod vec;

pub use null::NullStorage;
pub use vec::VecStorage;

verus! {

/// What a row of a column holds for `value`: the value itself in a dense column, nothing
/// in a unit column, whose rows carry no data.
pub open spec fn cell<V>(dense: bool, value: V) -> Option<V> {
    if dense {
        Some(value)
    } else {
        None
    }
}

/// A column after `value` was written at `row`: a dense column holds it there, a unit
/// column stays as it was.
pub open spec fn written<V>(s: Seq<Option<V>>, dense: bool, row: int, value: V) -> Seq<Option<V>> {
    s.update(row, cell(dense, value))
}

/// A column after `f` was applied to every value: rows without a value stay so.
pub open spec fn updated<V, F: Fn(V) -> V>(old: Seq<Option<V>>, new: Seq<Option<V>>, f: F) -> bool {
    &&& new.len() == old.len()
    &&& forall|i: int|
        0 <= i < old.len() ==> {
            &&& (#[trigger] new[i]) is Some == old[i] is Some
            &&& (old[i] is Some ==> f.ensures((old[i]->Some_0,), new[i]->Some_0))
        }
}

/// A column after a swap-remove of `row`: the last value moves into `row`.
pub open spec fn swap_removed<V>(s: Seq<V>, row: int) -> Seq<V> {
    s.update(row, s.last()).drop_last()
}

/// What every column offers whatever the type of its values: its row count.
pub trait AnyStorage {
    spec fn row_count(&self) -> nat;

    fn len(&self) -> (r: usize)
        ensures
            r == self.row_count(),
    ;
}

/// A column of values of type `V`, one per row.
pub trait Storage<V>: AnyStorage {
    /// The value of each row.
    spec fn values(&self) -> Seq<V>;

    fn get(&self, row: usize) -> (r: Option<&V>)
        ensures
            r == (if row < self.values().len() {
                Some(&self.values()[row as int])
            } else {
                None
            }),
    ;

    /// Appends a row holding `value`.
    fn push(&mut self, value: V)
        requires
            old(self).values().len() < usize::MAX,
        ensures
            final(self).values() == old(self).values().push(value),
    ;

    /// Writes `value` into a row.
    fn set(&mut self, row: usize, value: V)
        requires
            row < old(self).values().len(),
        ensures
            final(self).values() == old(self).values().update(row as int, value),
    ;

    /// Removes a row; the last row takes its place.
    fn swap_remove(&mut self, row: usize)
        requires
            row < old(self).values().len(),
        ensures
            final(self).values() == swap_removed(old(self).values(), row as int),
    ;

    /// The row count is the number of values.
    proof fn lemma_row_count(&self)
        ensures
            self.values().len() == self.row_count(),
    ;
}

/// The column of one component type in one archetype.
#[derive(Debug)]
pub enum ColumnStorage<V> {
    Dense(VecStorage<V>),
    Unit(NullStorage),
}

impl<V> View for ColumnStorage<V> {
    type V = Seq<Option<V>>;

    open spec fn view(&self) -> Seq<Option<V>> {
        match self {
            ColumnStorage::Dense(s) => s@.map_values(|v: V| Some(v)),
            ColumnStorage::Unit(s) => Seq::new(s.rows(), |i: int| None),
        }
    }
}

impl<V> ColumnStorage<V> {
    pub open spec fn kind(&self) -> StorageKind {
        match self {
            ColumnStorage::Dense(_) => StorageKind::Dense,
            ColumnStorage::Unit(_) => StorageKind::Unit,
        }
    }

    pub fn new(kind: StorageKind) -> (r: ColumnStorage<V>)
        ensures
            r.kind() == kind,
            r@ == Seq::<Option<V>>::empty(),
    {
        match kind {
            StorageKind::Dense => {
                let s = VecStorage::new();
                assert(s@.map_values(|v: V| Some(v)) =~= Seq::<Option<V>>::empty());
                ColumnStorage::Dense(s)
            },
            StorageKind::Unit => {
                let s = NullStorage::new();
                assert(Seq::<Option<V>>::new(s.rows(), |i: int| None) =~= Seq::<Option<V>>::empty());
                ColumnStorage::Unit(s)
            },
        }
    }

    pub fn len(&self) -> (r: usize)
        ensures
            r == self@.len(),
    {
        match self {
            ColumnStorage::Dense(s) => s.len(),
            ColumnStorage::Unit(s) => s.len(),
        }
    }

    /// The value of a row, if the row exists and the column holds values.
    pub fn get(&self, row: usize) -> (r: Option<&V>)
        ensures
            r is Some == (row < self@.len() && self@[row as int] is Some),
            r is Some ==> *r->Some_0 == self@[row as int]->Some_0,
    {
        match self {
            ColumnStorage::Dense(s) => s.get(row),
            ColumnStorage::Unit(_) => None,
        }
    }

    pub fn push(&mut self, value: V)
        requires
            old(self)@.len() < usize::MAX,
        ensures
            final(self).kind() == old(self).kind(),
            final(self)@ == old(self)@.push(cell(old(self).kind() == StorageKind::Dense, value)),
    {
        match self {
            ColumnStorage::Dense(s) => {
                let ghost before = s@;
                s.push(value);
                assert(s@.map_values(|v: V| Some(v)) =~= before.map_values(|v: V| Some(v)).push(Some(value)));
            },
            ColumnStorage::Unit(s) => {
                let ghost n = s.rows();
                s.push();
                assert(Seq::<Option<V>>::new(s.rows(), |i: int| None) =~= Seq::<Option<V>>::new(n, |i: int| None).push(None));
            },
        }
    }

    /// Writes `value` into a row; a unit column has nothing to write.
    pub fn set(&mut self, row: usize, value: V)
        requires
            row < old(self)@.len(),
        ensures
            final(self).kind() == old(self).kind(),
            final(self)@ == written(old(self)@, old(self).kind() == StorageKind::Dense, row as int, value),
    {
        match self {
            ColumnStorage::Dense(s) => {
                let ghost before = s@;
                s.set(row, value);
                assert(s@.map_values(|v: V| Some(v)) =~= before.map_values(|v: V| Some(v)).update(row as int, Some(value)));
            },
            ColumnStorage::Unit(s) => {
                assert(old(self)@ =~= old(self)@.update(row as int, None));
            },
        }
    }

    /// The value of a row of a dense column, for writing.
    pub fn get_mut(&mut self, row: usize) -> (r: &mut V)
        requires
            old(self).kind() == StorageKind::Dense,
            row < old(self)@.len(),
        ensures
            Some(*r) == old(self)@[row as int],
            final(self).kind() == old(self).kind(),
            final(self)@ == written(old(self)@, true, row as int, *final(r)),
    {
        match self {
            ColumnStorage::Dense(s) => {
                let ghost before = s@;
                let r = s.get_mut(row);
                proof {
                    assert(after_borrow(*s)@.map_values(|v: V| Some(v)) =~= before.map_values(|v: V| Some(v)).update(row as int, Some(*final(r))));
                }
                r
            },
            ColumnStorage::Unit(_) => vstd::pervasive::unreached(),
        }
    }

    /// Replaces every value `v` by `f(v)`; a unit column has no values.
    pub fn update_all<F: Fn(V) -> V>(&mut self, f: F)
        where
            V: Copy,
        requires
            forall|v: V| #[trigger] f.requires((v,)),
        ensures
            final(self).kind() == old(self).kind(),
            updated(old(self)@, final(self)@, f),
    {
        match self {
            ColumnStorage::Dense(s) => s.update_all(f),
            ColumnStorage::Unit(_) => {},
        }
    }

    pub fn swap_remove(&mut self, row: usize)
        requires
            row < old(self)@.len(),
        ensures
            final(self).kind() == old(self).kind(),
            final(self)@ == swap_removed(old(self)@, row as int),
    {
        match self {
            ColumnStorage::Dense(s) => {
                let ghost before = s@;
                s.swap_remove(row);
                assert(s@.map_values(|v: V| Some(v)) =~= swap_removed(before.map_values(|v: V| Some(v)), row as int));
            },
            ColumnStorage::Unit(s) => {
                let ghost n = s.rows();
                s.swap_remove(row);
                assert(Seq::<Option<V>>::new(s.rows(), |i: int| None) =~= swap_removed(Seq::<Option<V>>::new(n, |i: int| None), row as int));
            },
        }
    }
}

/// Every column of one component type, one per archetype that holds the type,
/// addressed by archetype index.
#[derive(Debug)]
pub struct ArchetypeStorage<V> {
    id: ComponentId,
    columns: Vec<Option<ColumnStorage<V>>>,
}

impl<V> ArchetypeStorage<V> {
    pub closed spec fn component_id(&self) -> ComponentId {
        self.id
    }

    /// One past the highest archetype index this storage has seen.
    pub closed spec fn span(&self) -> nat {
        self.columns@.len()
    }

    pub closed spec fn has_column(&self, archetype: int) -> bool {
        0 <= archetype < self.columns@.len() && self.columns@[archetype] is Some
    }

    pub closed spec fn column(&self, archetype: int) -> Seq<Option<V>> {
        if self.has_column(archetype) {
            self.columns@[archetype]->Some_0@
        } else {
            Seq::empty()
        }
    }

    pub closed spec fn wf(&self) -> bool {
        forall|a: int|
            #![trigger self.columns@[a]]
            self.has_column(a) ==> self.columns@[a]->Some_0.kind() == self.id.storage
    }

    /// The same columns but for `archetype`, which may differ.
    pub open spec fn same_except(&self, other: &ArchetypeStorage<V>, archetype: int) -> bool {
        &&& self.component_id() == other.component_id()
        &&& self.span() == other.span()
        &&& forall|a: int|
            a != archetype ==> {
                &&& #[trigger] self.has_column(a) == other.has_column(a)
                &&& self.column(a) == other.column(a)
            }
        &&& self.has_column(archetype) == other.has_column(archetype)
    }

    pub fn new(id: ComponentId) -> (r: ArchetypeStorage<V>)
        ensures
            r.wf(),
            r.component_id() == id,
            r.span() == 0,
    {
        ArchetypeStorage { id, columns: Vec::new() }
    }

    pub fn component_type(&self) -> (r: ComponentId)
        ensures
            r == self.component_id(),
    {
        self.id
    }

    /// Gives the storage an empty column for a new archetype.
    pub fn register_archetype(&mut self, archetype: ArchetypeIndex)
        requires
            old(self).wf(),
            old(self).span() <= archetype.0,
        ensures
            final(self).wf(),
            final(self).component_id() == old(self).component_id(),
            final(self).span() == archetype.0 + 1,
            final(self).has_column(archetype.0 as int),
            final(self).column(archetype.0 as int) == Seq::<Option<V>>::empty(),
            forall|a: int|
                a != archetype.0 ==> {
                    &&& #[trigger] final(self).has_column(a) == old(self).has_column(a)
                    &&& final(self).column(a) == old(self).column(a)
                },
    {
        let index = archetype.0 as usize;
        while self.columns.len() < index
            invariant
                self.wf(),
                self.id == old(self).id,
                old(self).columns@.len() <= self.columns@.len() <= index,
                forall|a: int| 0 <= a < old(self).columns@.len() ==> self.columns@[a] == old(self).columns@[a],
                forall|a: int| old(self).columns@.len() <= a < self.columns@.len() ==> self.columns@[a] is None,
            decreases index - self.columns@.len(),
        {
            self.columns.push(None);
        }
        self.columns.push(Some(ColumnStorage::new(self.id.storage)));
        proof {
            assert forall|a: int| a != archetype.0 implies {
                &&& #[trigger] self.has_column(a) == old(self).has_column(a)
                &&& self.column(a) == old(self).column(a)
            } by {
                if 0 <= a < old(self).columns@.len() {
                    assert(self.columns@[a] == old(self).columns@[a]);
                }
            }
        }
    }

    pub fn get(&self, archetype: ArchetypeIndex) -> (r: Option<&ColumnStorage<V>>)
        requires
            self.wf(),
        ensures
            r is Some == self.has_column(archetype.0 as int),
            r is Some ==> {
                &&& r->Some_0@ == self.column(archetype.0 as int)
                &&& r->Some_0.kind() == self.component_id().storage
            },
    {
        let index = archetype.0 as usize;
        if index < self.columns.len() {
            match &self.columns[index] {
                Some(c) => Some(c),
                None => None,
            }
        } else {
            None
        }
    }

    /// The column of `archetype`, for writing. The storage stays well formed as long as
    /// the column keeps its kind and its own invariant.
    pub fn get_mut(&mut self, archetype: ArchetypeIndex) -> (r: Option<&mut ColumnStorage<V>>)
        requires
            old(self).wf(),
        ensures
            r is Some == old(self).has_column(archetype.0 as int),
            r is Some ==> {
                &&& (*r->Some_0)@ == old(self).column(archetype.0 as int)
                &&& r->Some_0.kind() == old(self).component_id().storage
                &&& final(self).component_id() == old(self).component_id()
                &&& final(self).span() == old(self).span()
                &&& final(self).has_column(archetype.0 as int)
                &&& final(self).column(archetype.0 as int) == (*final(r->Some_0))@
                &&& forall|a: int| a != archetype.0 ==> {
                    &&& #[trigger] final(self).has_column(a) == old(self).has_column(a)
                    &&& final(self).column(a) == old(self).column(a)
                }
                &&& ((*final(r->Some_0)).kind() == old(self).component_id().storage ==> final(self).wf())
            },
    {
        let index = archetype.0 as usize;
        if index < self.columns.len() {
            match &mut self.columns[index] {
                Some(c) => Some(c),
                None => None,
            }
        } else {
            None
        }
    }

    /// Appends a value to the column of `archetype`; does nothing if the storage has no
    /// column for it.
    pub fn extend(&mut self, archetype: ArchetypeIndex, value: V)
        requires
            old(self).wf(),
            old(self).column(archetype.0 as int).len() < usize::MAX,
        ensures
            final(self).wf(),
            final(self).same_except(old(self), archetype.0 as int),
            !old(self).has_column(archetype.0 as int) ==> *final(self) == *old(self),
            old(self).has_column(archetype.0 as int) ==> final(self).column(archetype.0 as int) == old(self).column(
                archetype.0 as int,
            ).push(cell(old(self).component_id().storage == StorageKind::Dense, value)),
    {
        let index = archetype.0 as usize;
        if index >= self.columns.len() || self.columns[index].is_none() {
            return;
        }
        match &mut self.columns[index] {
            Some(c) => c.push(value),
            None => {},
        }
        proof {
            assert forall|a: int| a != archetype.0 implies {
                &&& #[trigger] self.has_column(a) == old(self).has_column(a)
                &&& self.column(a) == old(self).column(a)
            } by {
                if 0 <= a < old(self).columns@.len() {
                    assert(self.columns@[a] == old(self).columns@[a]);
                }
            }
        }
    }

    /// Overwrites one row of the column of `archetype`.
    pub fn set(&mut self, archetype: ArchetypeIndex, row: usize, value: V)
        requires
            old(self).wf(),
            old(self).has_column(archetype.0 as int),
            row < old(self).column(archetype.0 as int).len(),
        ensures
            final(self).wf(),
            final(self).same_except(old(self), archetype.0 as int),
            final(self).column(archetype.0 as int) == written(
                old(self).column(archetype.0 as int),
                old(self).component_id().storage == StorageKind::Dense,
                row as int,
                value,
            ),
    {
        let index = archetype.0 as usize;
        match &mut self.columns[index] {
            Some(c) => c.set(row, value),
            None => {},
        }
        proof {
            assert forall|a: int| a != archetype.0 implies {
                &&& #[trigger] self.has_column(a) == old(self).has_column(a)
                &&& self.column(a) == old(self).column(a)
            } by {
                if 0 <= a < old(self).columns@.len() {
                    assert(self.columns@[a] == old(self).columns@[a]);
                }
            }
        }
    }

    /// Replaces every value `v` of the column of `archetype` by `f(v)`.
    pub fn update<F: Fn(V) -> V>(&mut self, archetype: ArchetypeIndex, f: F)
        where
            V: Copy,
        requires
            old(self).wf(),
            old(self).has_column(archetype.0 as int),
            forall|v: V| #[trigger] f.requires((v,)),
        ensures
            final(self).wf(),
            final(self).same_except(old(self), archetype.0 as int),
            updated(old(self).column(archetype.0 as int), final(self).column(archetype.0 as int), f),
    {
        let index = archetype.0 as usize;
        match &mut self.columns[index] {
            Some(c) => c.update_all(f),
            None => {},
        }
        proof {
            assert forall|a: int| a != archetype.0 implies {
                &&& #[trigger] self.has_column(a) == old(self).has_column(a)
                &&& self.column(a) == old(self).column(a)
            } by {
                if 0 <= a < old(self).columns@.len() {
                    assert(self.columns@[a] == old(self).columns@[a]);
                }
            }
        }
    }

    /// Removes one row of the column of `archetype`, moving its last row there.
    pub fn swap_remove(&mut self, archetype: ArchetypeIndex, row: usize)
        requires
            old(self).wf(),
            old(self).has_column(archetype.0 as int),
            row < old(self).column(archetype.0 as int).len(),
        ensures
            final(self).wf(),
            final(self).same_except(old(self), archetype.0 as int),
            final(self).column(archetype.0 as int) == swap_removed(
                old(self).column(archetype.0 as int),
                row as int,
            ),
    {
        let index = archetype.0 as usize;
        match &mut self.columns[index] {
            Some(c) => c.swap_remove(row),
            None => {},
        }
        proof {
            assert forall|a: int| a != archetype.0 implies {
                &&& #[trigger] self.has_column(a) == old(self).has_column(a)
                &&& self.column(a) == old(self).column(a)
            } by {
                if 0 <= a < old(self).columns@.len() {
                    assert(self.columns@[a] == old(self).columns@[a]);
                }
            }
        }
    }
}

/// The component registry: the storage of every component type seen so far.
#[derive(Debug)]
pub struct Components<V> {
    storages: Vec<ArchetypeStorage<V>>,
}

impl<V> Components<V> {
    pub closed spec fn count(&self) -> nat {
        self.storages@.len()
    }

    pub closed spec fn storage(&self, s: int) -> ArchetypeStorage<V> {
        self.storages@[s]
    }

    pub closed spec fn wf(&self) -> bool {
        &&& forall|s: int| 0 <= s < self.storages@.len() ==> #[trigger] self.storages@[s].wf()
        &&& forall|s: int, t: int|
            0 <= s < t < self.storages@.len() ==> #[trigger] self.storages@[s].component_id() != #[trigger] self.storages@[t].component_id()
    }

    /// Every storage is as in `other` but the one at `s`, and none was added or lost.
    pub open spec fn same_except(&self, other: &Components<V>, s: int) -> bool {
        &&& self.count() == other.count()
        &&& forall|t: int| 0 <= t < self.count() && t != s ==> #[trigger] self.storage(t) == other.storage(t)
    }

    pub fn new() -> (r: Components<V>)
        ensures
            r.wf(),
            r.count() == 0,
    {
        Components { storages: Vec::new() }
    }

    /// Where the storage of `id` sits, if the registry has one.
    pub fn position(&self, id: ComponentId) -> (r: Option<usize>)
        ensures
            match r {
                Some(s) => s < self.count() && self.storage(s as int).component_id() == id,
                None => forall|s: int| 0 <= s < self.count() ==> #[trigger] self.storage(s).component_id() != id,
            },
    {
        let mut i: usize = 0;
        while i < self.storages.len()
            invariant
                i <= self.storages@.len(),
                forall|s: int| 0 <= s < i ==> #[trigger] self.storages@[s].component_id() != id,
            decreases self.storages@.len() - i,
        {
            if self.storages[i].component_type() == id {
                return Some(i);
            }
            i += 1;
        }
        None
    }

    /// The storage of `id`, creating an empty one if the registry has none; returns its position.
    pub fn get_or_insert(&mut self, id: ComponentId) -> (r: usize)
        requires
            old(self).wf(),
        ensures
            final(self).wf(),
            r < final(self).count(),
            final(self).storage(r as int).component_id() == id,
            old(self).count() <= final(self).count() <= old(self).count() + 1,
            forall|t: int| 0 <= t < old(self).count() ==> #[trigger] final(self).storage(t) == old(self).storage(t),
            r >= old(self).count() ==> final(self).storage(r as int).span() == 0,
            r >= old(self).count() ==> forall|a: int| !(#[trigger] final(self).storage(r as int).has_column(a)),
            final(self).count() == old(self).count() + 1 ==> r == old(self).count(),
            forall|s: int| 0 <= s < old(self).count() && #[trigger] old(self).storage(s).component_id() == id ==> {
                &&& r == s
                &&& final(self).count() == old(self).count()
            },
    {
        match self.position(id) {
            Some(s) => {
                proof {
                    assert forall|t: int| 0 <= t < old(self).count() && #[trigger] old(self).storage(t).component_id() == id implies t == s by {
                        if t != s {
                            if t < s {
                                assert(self.storages@[t].component_id() != self.storages@[s as int].component_id());
                            } else {
                                assert(self.storages@[s as int].component_id() != self.storages@[t].component_id());
                            }
                        }
                    }
                }
                s
            },
            None => {
                self.storages.push(ArchetypeStorage::new(id));
                proof {
                    assert forall|a: int, b: int|
                        0 <= a < b < self.storages@.len() implies #[trigger] self.storages@[a].component_id() != #[trigger] self.storages@[b].component_id() by {
                        if b == self.storages@.len() - 1 {
                            assert(old(self).storage(a).component_id() != id);
                        } else {
                            assert(old(self).storages@[a].component_id() != old(self).storages@[b].component_id());
                        }
                    }
                }
                self.storages.len() - 1
            },
        }
    }

    /// The storage of `id`, if the registry has one.
    pub fn get(&self, id: ComponentId) -> (r: Option<&ArchetypeStorage<V>>)
        ensures
            match r {
                Some(st) => exists|s: int| 0 <= s < self.count() && *st == self.storage(s) && st.component_id() == id,
                None => forall|s: int| 0 <= s < self.count() ==> #[trigger] self.storage(s).component_id() != id,
            },
    {
        match self.position(id) {
            Some(s) => Some(&self.storages[s]),
            None => None,
        }
    }

    /// The storage of `id`, for writing, if the registry has one. The registry stays well
    /// formed as long as the storage keeps its type and its own invariant.
    pub fn get_mut(&mut self, id: ComponentId) -> (r: Option<&mut ArchetypeStorage<V>>)
        requires
            old(self).wf(),
        ensures
            r is Some == exists|s: int| 0 <= s < old(self).count() && #[trigger] old(self).storage(s).component_id() == id,
            r is Some ==> exists|s: int| {
                &&& 0 <= s < old(self).count()
                &&& #[trigger] old(self).storage(s) == *r->Some_0
                &&& r->Some_0.component_id() == id
                &&& r->Some_0.wf()
                &&& final(self).count() == old(self).count()
                &&& final(self).storage(s) == *final(r->Some_0)
                &&& forall|t: int| 0 <= t < old(self).count() && t != s ==> #[trigger] final(self).storage(t) == old(self).storage(t)
                &&& ((*final(r->Some_0)).wf() && (*final(r->Some_0)).component_id() == id ==> final(self).wf())
            },
    {
        match self.position(id) {
            Some(s) => Some(&mut self.storages[s]),
            None => None,
        }
    }

    /// Starts a session of borrows on the registry, with nothing borrowed yet.
    pub fn edit(&self) -> (r: EditComponents)
        ensures
            r.borrows() == Seq::<EditComponent>::empty(),
    {
        EditComponents::new()
    }

    /// The storage at position `s`, for writing. The registry stays well formed as long as
    /// the storage keeps its own invariant.
    pub fn get_at_mut(&mut self, s: usize) -> (r: &mut ArchetypeStorage<V>)
        requires
            old(self).wf(),
            s < old(self).count(),
        ensures
            *r == old(self).storage(s as int),
            r.wf(),
            final(self).count() == old(self).count(),
            final(self).storage(s as int) == *final(r),
            forall|t: int| 0 <= t < old(self).count() && t != s ==> #[trigger] final(self).storage(t) == old(self).storage(t),
            (*final(r)).wf() && (*final(r)).component_id() == old(self).storage(s as int).component_id() ==> final(self).wf(),
    {
        &mut self.storages[s]
    }

    /// The storage at position `s`.
    pub fn get_at(&self, s: usize) -> (r: &ArchetypeStorage<V>)
        requires
            self.wf(),
            s < self.count(),
        ensures
            *r == self.storage(s as int),
            r.wf(),
    {
        &self.storages[s]
    }

    pub fn register_archetype(&mut self, s: usize, archetype: ArchetypeIndex)
        requires
            old(self).wf(),
            s < old(self).count(),
            old(self).storage(s as int).span() <= archetype.0,
        ensures
            final(self).wf(),
            final(self).same_except(old(self), s as int),
            final(self).storage(s as int).component_id() == old(self).storage(s as int).component_id(),
            final(self).storage(s as int).span() == archetype.0 + 1,
            final(self).storage(s as int).has_column(archetype.0 as int),
            final(self).storage(s as int).column(archetype.0 as int) == Seq::<Option<V>>::empty(),
            forall|a: int|
                a != archetype.0 ==> {
                    &&& #[trigger] final(self).storage(s as int).has_column(a) == old(self).storage(s as int).has_column(a)
                    &&& final(self).storage(s as int).column(a) == old(self).storage(s as int).column(a)
                },
    {
        self.storages[s].register_archetype(archetype);
    }

    pub fn extend(&mut self, s: usize, archetype: ArchetypeIndex, value: V)
        requires
            old(self).wf(),
            s < old(self).count(),
            old(self).storage(s as int).has_column(archetype.0 as int),
            old(self).storage(s as int).column(archetype.0 as int).len() < usize::MAX,
        ensures
            final(self).wf(),
            final(self).same_except(old(self), s as int),
            final(self).storage(s as int).same_except(&old(self).storage(s as int), archetype.0 as int),
            final(self).storage(s as int).column(archetype.0 as int) == old(self).storage(s as int).column(
                archetype.0 as int,
            ).push(cell(old(self).storage(s as int).component_id().storage == StorageKind::Dense, value)),
    {
        self.storages[s].extend(archetype, value);
    }

    pub fn set(&mut self, s: usize, archetype: ArchetypeIndex, row: usize, value: V)
        requires
            old(self).wf(),
            s < old(self).count(),
            old(self).storage(s as int).has_column(archetype.0 as int),
            row < old(self).storage(s as int).column(archetype.0 as int).len(),
        ensures
            final(self).wf(),
            final(self).same_except(old(self), s as int),
            final(self).storage(s as int).same_except(&old(self).storage(s as int), archetype.0 as int),
            final(self).storage(s as int).column(archetype.0 as int) == written(
                old(self).storage(s as int).column(archetype.0 as int),
                old(self).storage(s as int).component_id().storage == StorageKind::Dense,
                row as int,
                value,
            ),
    {
        self.storages[s].set(archetype, row, value);
    }

    pub fn update<F: Fn(V) -> V>(&mut self, s: usize, archetype: ArchetypeIndex, f: F)
        where
            V: Copy,
        requires
            old(self).wf(),
            s < old(self).count(),
            old(self).storage(s as int).has_column(archetype.0 as int),
            forall|v: V| #[trigger] f.requires((v,)),
        ensures
            final(self).wf(),
            final(self).same_except(old(self), s as int),
            final(self).storage(s as int).same_except(&old(self).storage(s as int), archetype.0 as int),
            updated(old(self).storage(s as int).column(archetype.0 as int), final(self).storage(s as int).column(archetype.0 as int), f),
    {
        self.storages[s].update(archetype, f);
    }

    pub fn swap_remove(&mut self, s: usize, archetype: ArchetypeIndex, row: usize)
        requires
            old(self).wf(),
            s < old(self).count(),
            old(self).storage(s as int).has_column(archetype.0 as int),
            row < old(self).storage(s as int).column(archetype.0 as int).len(),
        ensures
            final(self).wf(),
            final(self).same_except(old(self), s as int),
            final(self).storage(s as int).same_except(&old(self).storage(s as int), archetype.0 as int),
            final(self).storage(s as int).column(archetype.0 as int) == swap_removed(
                old(self).storage(s as int).column(archetype.0 as int),
                row as int,
            ),
    {
        self.storages[s].swap_remove(archetype, row);
    }
}

} // verus!
