use vstd::prelude::*;
use crate::archetype::{ArchetypeIndex, ArchetypeLayout};
use crate::component::ComponentId;
use crate::entity::Entity;
use crate::filter::{Component, LayoutFilter};
use crate::world::World;

verus! {

/// What a query reads from each matched row.
#[derive(Debug, Clone, Copy, PartialEq, Eq, Structural)]
pub enum Fetch {
    Read(Read),
    Write(Write),
    TryRead(TryRead),
    TryWrite(TryWrite),
    /// The entity of the row.
    Entity,
}

/// The value of a component the row must have.
#[derive(Debug, Clone, Copy, PartialEq, Eq, Structural)]
pub struct Read(pub ComponentId);

/// The value of a component the row must have, which the query may change.
#[derive(Debug, Clone, Copy, PartialEq, Eq, Structural)]
pub struct Write(pub ComponentId);

/// The value of a component, or nothing where the row lacks it.
#[derive(Debug, Clone, Copy, PartialEq, Eq, Structural)]
pub struct TryRead(pub ComponentId);

/// As `TryRead`, for a component the query may change.
#[derive(Debug, Clone, Copy, PartialEq, Eq, Structural)]
pub struct TryWrite(pub ComponentId);

/// One item of a result row.
#[derive(Debug, PartialEq)]
pub enum Item<V> {
    Value(V),
    Optional(Option<V>),
    /// A component without data that the row has.
    Unit,
    Entity(Entity),
}

impl Fetch {
    /// The component type a row must have for this fetch to apply, if any.
    pub open spec fn required(self) -> Option<ComponentId> {
        match self {
            Fetch::Read(Read(id)) => Some(id),
            Fetch::Write(Write(id)) => Some(id),
            _ => None,
        }
    }

    /// The fetch only reads.
    pub open spec fn is_readonly(self) -> bool {
        !(self is Write) && !(self is TryWrite)
    }

    /// The component type this fetch names, if any, and whether it may write it.
    pub open spec fn access(self) -> Option<(ComponentId, bool)> {
        match self {
            Fetch::Read(Read(id)) => Some((id, false)),
            Fetch::TryRead(TryRead(id)) => Some((id, false)),
            Fetch::Write(Write(id)) => Some((id, true)),
            Fetch::TryWrite(TryWrite(id)) => Some((id, true)),
            Fetch::Entity => None,
        }
    }

    pub fn required_component(&self) -> (r: Option<ComponentId>)
        ensures
            r == self.required(),
    {
        match self {
            Fetch::Read(Read(id)) => Some(*id),
            Fetch::Write(Write(id)) => Some(*id),
            _ => None,
        }
    }

    pub fn access_of(&self) -> (r: Option<(ComponentId, bool)>)
        ensures
            r == self.access(),
    {
        match self {
            Fetch::Read(Read(id)) => Some((*id, false)),
            Fetch::TryRead(TryRead(id)) => Some((*id, false)),
            Fetch::Write(Write(id)) => Some((*id, true)),
            Fetch::TryWrite(TryWrite(id)) => Some((*id, true)),
            Fetch::Entity => None,
        }
    }
}

/// A layout matches the fetches when it holds every component type they require.
pub open spec fn matches_layout(fetches: Seq<Fetch>, layout: Seq<ComponentId>) -> bool {
    forall|i: int| 0 <= i < fetches.len() && (#[trigger] fetches[i]).required() is Some ==> layout.contains(fetches[i].required()->Some_0)
}

/// No fetch writes.
pub open spec fn readonly(fetches: Seq<Fetch>) -> bool {
    forall|i: int| 0 <= i < fetches.len() ==> (#[trigger] fetches[i]).is_readonly()
}

/// The item a cell of a column gives: its value, or `Unit` for a component without data.
pub open spec fn value_item<V>(c: Option<V>) -> Item<V> {
    match c {
        Some(v) => Item::Value(v),
        None => Item::Unit,
    }
}

/// The item an optional fetch gives for a cell: its value, or `Unit` for a component without data.
pub open spec fn optional_item<V>(c: Option<V>) -> Item<V> {
    match c {
        Some(v) => Item::Optional(Some(v)),
        None => Item::Unit,
    }
}

/// The item a fetch yields for row `r` of archetype `a`.
pub open spec fn item_at<V>(w: World<V>, f: Fetch, a: int, r: int) -> Item<V> {
    match f {
        Fetch::Read(Read(id)) => value_item(w.column(a, id)[r]),
        Fetch::Write(Write(id)) => value_item(w.column(a, id)[r]),
        Fetch::TryRead(TryRead(id)) => if w.layout(a).contains(id) {
            optional_item(w.column(a, id)[r])
        } else {
            Item::Optional(None)
        },
        Fetch::TryWrite(TryWrite(id)) => if w.layout(a).contains(id) {
            optional_item(w.column(a, id)[r])
        } else {
            Item::Optional(None)
        },
        Fetch::Entity => Item::Entity(w.members(a)[r]),
    }
}

/// The items the fetches yield for row `r` of archetype `a`.
pub open spec fn row_at<V>(w: World<V>, fetches: Seq<Fetch>, a: int, r: int) -> Seq<Item<V>> {
    Seq::new(fetches.len(), |j: int| item_at(w, fetches[j], a, r))
}

/// The rows of archetype `a`, in row order.
pub open spec fn archetype_rows<V>(w: World<V>, fetches: Seq<Fetch>, a: int) -> Seq<Seq<Item<V>>> {
    Seq::new(w.members(a).len(), |r: int| row_at(w, fetches, a, r))
}

/// The rows of the given archetypes, archetype after archetype.
pub open spec fn rows<V>(w: World<V>, fetches: Seq<Fetch>, archetypes: Seq<ArchetypeIndex>) -> Seq<Seq<Item<V>>>
    decreases archetypes.len(),
{
    if archetypes.len() == 0 {
        Seq::empty()
    } else {
        rows(w, fetches, archetypes.drop_last()) + archetype_rows(w, fetches, archetypes.last().0 as int)
    }
}

/// The archetypes among the first `n` whose layout matches, in ascending order.
pub open spec fn matching<V>(w: World<V>, fetches: Seq<Fetch>, n: nat) -> Seq<ArchetypeIndex>
    decreases n,
{
    if n == 0 {
        Seq::empty()
    } else {
        let prev = matching(w, fetches, (n - 1) as nat);
        if matches_layout(fetches, w.layout(n - 1)) {
            prev.push(ArchetypeIndex((n - 1) as u32))
        } else {
            prev
        }
    }
}

/// Everything a query yields on a world: the rows of every matching archetype, by
/// ascending archetype index, then ascending row.
pub open spec fn results<V>(w: World<V>, fetches: Seq<Fetch>) -> Seq<Seq<Item<V>>> {
    rows(w, fetches, matching(w, fetches, w.archetype_count()))
}

/// The archetypes `matching` lists are below `n`, ascending, and match.
pub proof fn lemma_matching<V>(w: World<V>, fetches: Seq<Fetch>, n: nat)
    requires
        n < u32::MAX,
    ensures
        forall|i: int| 0 <= i < matching(w, fetches, n).len() ==> {
            &&& (#[trigger] matching(w, fetches, n)[i]).0 < n
            &&& matches_layout(fetches, w.layout(matching(w, fetches, n)[i].0 as int))
        },
        forall|i: int, j: int| 0 <= i < j < matching(w, fetches, n).len() ==>
            (#[trigger] matching(w, fetches, n)[i]).0 < (#[trigger] matching(w, fetches, n)[j]).0,
        forall|b: int| 0 <= b < n && matches_layout(fetches, w.layout(b)) ==>
            #[trigger] matching(w, fetches, n).contains(ArchetypeIndex(b as u32)),
    decreases n,
{
    if n > 0 {
        lemma_matching(w, fetches, (n - 1) as nat);
        let prev = matching(w, fetches, (n - 1) as nat);
        let cur = matching(w, fetches, n);
        assert forall|i: int| 0 <= i < cur.len() implies {
            &&& (#[trigger] cur[i]).0 < n
            &&& matches_layout(fetches, w.layout(cur[i].0 as int))
        } by {
            if i < prev.len() {
                assert(cur[i] == prev[i]);
            }
        }
        assert forall|i: int, j: int| 0 <= i < j < cur.len() implies (#[trigger] cur[i]).0 < (#[trigger] cur[j]).0 by {
            assert(cur[i] == prev[i]);
            if j < prev.len() {
                assert(cur[j] == prev[j]);
            }
        }
        assert forall|b: int| 0 <= b < n && matches_layout(fetches, w.layout(b)) implies
            #[trigger] cur.contains(ArchetypeIndex(b as u32)) by {
            if b < n - 1 {
                assert(prev.contains(ArchetypeIndex(b as u32)));
                let k = choose|k: int| 0 <= k < prev.len() && prev[k] == ArchetypeIndex(b as u32);
                assert(cur[k] == prev[k]);
            } else {
                assert(cur[prev.len() as int] == ArchetypeIndex(b as u32));
            }
        }
    }
}

/// Which archetypes match depends on their layouts alone.
pub proof fn lemma_matching_same_layouts<V>(w1: World<V>, w2: World<V>, fetches: Seq<Fetch>, n: nat)
    requires
        forall|b: int| 0 <= b < n ==> #[trigger] w1.layout(b) == w2.layout(b),
    ensures
        matching(w1, fetches, n) == matching(w2, fetches, n),
    decreases n,
{
    if n > 0 {
        lemma_matching_same_layouts(w1, w2, fetches, (n - 1) as nat);
        assert(w1.layout(n - 1) == w2.layout(n - 1));
    }
}

/// How many entities the first `n` archetypes hold.
pub open spec fn entity_count<V>(w: World<V>, n: nat) -> nat
    decreases n,
{
    if n == 0 {
        0
    } else {
        entity_count(w, (n - 1) as nat) + w.members(n - 1).len()
    }
}

/// How many entities of the first `n` archetypes have component `id`.
pub open spec fn count_with<V>(w: World<V>, id: ComponentId, n: nat) -> nat
    decreases n,
{
    if n == 0 {
        0
    } else {
        count_with(w, id, (n - 1) as nat) + if w.layout(n - 1).contains(id) {
            w.members(n - 1).len()
        } else {
            0
        }
    }
}

proof fn lemma_write_count_upto<V>(w: World<V>, id: ComponentId, n: nat)
    requires
        n < u32::MAX,
    ensures
        rows(w, seq![Fetch::Write(Write(id))], matching(w, seq![Fetch::Write(Write(id))], n)).len() == count_with(w, id, n),
    decreases n,
{
    let f = seq![Fetch::Write(Write(id))];
    if n > 0 {
        lemma_write_count_upto(w, id, (n - 1) as nat);
        let prev = matching(w, f, (n - 1) as nat);
        assert(matches_layout(f, w.layout(n - 1)) == w.layout(n - 1).contains(id)) by {
            if w.layout(n - 1).contains(id) {
                assert forall|i: int| 0 <= i < f.len() && (#[trigger] f[i]).required() is Some implies w.layout(n - 1).contains(
                    f[i].required()->Some_0,
                ) by {
                    assert(f[i] == Fetch::Write(Write(id)));
                }
            } else {
                assert(f[0].required() is Some);
            }
        }
        if w.layout(n - 1).contains(id) {
            let cur = prev.push(ArchetypeIndex((n - 1) as u32));
            assert(cur.drop_last() =~= prev);
        }
    }
}

/// Writing component `id` through a query visits, per archetype that holds `id`, every
/// one of its entities, and nothing else.
pub proof fn lemma_write_count<V>(w: World<V>, id: ComponentId)
    requires
        w.wf(),
    ensures
        results(w, seq![Fetch::Write(Write(id))]).len() == count_with(w, id, w.archetype_count()),
{
    w.lemma_bounds();
    lemma_write_count_upto(w, id, w.archetype_count());
}

proof fn lemma_entity_rows<V>(w: World<V>, n: nat)
    requires
        w.wf(),
        n <= w.archetype_count(),
    ensures
        matching(w, seq![Fetch::Entity], n).len() == n,
        forall|b: int| 0 <= b < n ==> #[trigger] matching(w, seq![Fetch::Entity], n)[b] == ArchetypeIndex(b as u32),
        forall|k: int| 0 <= k < rows(w, seq![Fetch::Entity], matching(w, seq![Fetch::Entity], n)).len() ==> {
            let row = #[trigger] rows(w, seq![Fetch::Entity], matching(w, seq![Fetch::Entity], n))[k];
            &&& row.len() == 1
            &&& row[0] is Entity
            &&& w.live(row[0]->Entity_0)
        },
        forall|a: int, r: int| 0 <= a < n && 0 <= r < w.members(a).len() ==>
            #[trigger] rows(w, seq![Fetch::Entity], matching(w, seq![Fetch::Entity], n)).contains(seq![Item::<V>::Entity(w.members(a)[r])]),
    decreases n,
{
    w.lemma_bounds();
    let f = seq![Fetch::Entity];
    if n > 0 {
        lemma_entity_rows(w, (n - 1) as nat);
        let prev = matching(w, f, (n - 1) as nat);
        assert(matches_layout(f, w.layout(n - 1))) by {
            assert forall|i: int| 0 <= i < f.len() && (#[trigger] f[i]).required() is Some implies w.layout(n - 1).contains(
                f[i].required()->Some_0,
            ) by {
                assert(f[i] == Fetch::Entity);
            }
        }
        let cur = matching(w, f, n);
        assert(cur == prev.push(ArchetypeIndex((n - 1) as u32)));
        assert(cur.drop_last() =~= prev);
        let old_rows = rows(w, f, prev);
        let new_rows = rows(w, f, cur);
        let tail = archetype_rows(w, f, n - 1);
        assert(new_rows == old_rows + tail);
        assert forall|r: int| 0 <= r < w.members(n - 1).len() implies #[trigger] tail[r] == seq![Item::<V>::Entity(w.members(n - 1)[r])] by {
            assert(tail[r] =~= seq![Item::<V>::Entity(w.members(n - 1)[r])]);
        }
        assert forall|k: int| 0 <= k < new_rows.len() implies {
            let row = #[trigger] new_rows[k];
            &&& row.len() == 1
            &&& row[0] is Entity
            &&& w.live(row[0]->Entity_0)
        } by {
            if k < old_rows.len() {
                assert(new_rows[k] == old_rows[k]);
            } else {
                let r = k - old_rows.len();
                assert(new_rows[k] == tail[r]);
                assert(new_rows[k] == seq![Item::<V>::Entity(w.members(n - 1)[r])]);
                w.lemma_members_live(n - 1, r);
            }
        }
        assert forall|a: int, r: int| 0 <= a < n && 0 <= r < w.members(a).len() implies
            #[trigger] new_rows.contains(seq![Item::<V>::Entity(w.members(a)[r])]) by {
            if a < n - 1 {
                assert(old_rows.contains(seq![Item::<V>::Entity(w.members(a)[r])]));
                let k = choose|k: int| 0 <= k < old_rows.len() && old_rows[k] == seq![Item::<V>::Entity(w.members(a)[r])];
                assert(new_rows[k] == old_rows[k]);
            } else {
                assert(new_rows[old_rows.len() + r] == tail[r]);
            }
        }
    }
}

/// An entity is live exactly when the query of `Entity` alone yields it.
pub proof fn lemma_entity_query<V>(w: World<V>, e: Entity)
    requires
        w.wf(),
    ensures
        w.live(e) <==> results(w, seq![Fetch::Entity]).contains(seq![Item::<V>::Entity(e)]),
{
    lemma_entity_rows(w, w.archetype_count());
    let all = results(w, seq![Fetch::Entity]);
    if w.live(e) {
        w.lemma_live(e);
        assert(all.contains(seq![Item::<V>::Entity(w.members(w.archetype_of(e))[w.row_of(e)])]));
    }
    if all.contains(seq![Item::<V>::Entity(e)]) {
        let k = choose|k: int| 0 <= k < all.len() && all[k] == seq![Item::<V>::Entity(e)];
        assert(all[k][0] == Item::<V>::Entity(e));
    }
}

proof fn lemma_try_read_upto<V>(w: World<V>, id: ComponentId, n: nat)
    requires
        n < u32::MAX,
        forall|a: int| 0 <= a < n ==> !(#[trigger] w.layout(a)).contains(id),
    ensures
        rows(w, seq![Fetch::TryRead(TryRead(id))], matching(w, seq![Fetch::TryRead(TryRead(id))], n)).len() == entity_count(w, n),
        forall|k: int| 0 <= k < entity_count(w, n) ==>
            #[trigger] rows(w, seq![Fetch::TryRead(TryRead(id))], matching(w, seq![Fetch::TryRead(TryRead(id))], n))[k] == seq![Item::<V>::Optional(None)],
    decreases n,
{
    let f = seq![Fetch::TryRead(TryRead(id))];
    if n > 0 {
        lemma_try_read_upto(w, id, (n - 1) as nat);
        let prev = matching(w, f, (n - 1) as nat);
        assert(matches_layout(f, w.layout(n - 1))) by {
            assert forall|i: int| 0 <= i < f.len() && (#[trigger] f[i]).required() is Some implies w.layout(n - 1).contains(
                f[i].required()->Some_0,
            ) by {
                assert(f[i] == Fetch::TryRead(TryRead(id)));
            }
        }
        let cur = matching(w, f, n);
        assert(cur.drop_last() =~= prev);
        let old_rows = rows(w, f, prev);
        let new_rows = rows(w, f, cur);
        let tail = archetype_rows(w, f, n - 1);
        assert(!w.layout(n - 1).contains(id));
        assert forall|k: int| 0 <= k < entity_count(w, n) implies #[trigger] new_rows[k] == seq![Item::<V>::Optional(None)] by {
            if k < old_rows.len() {
                assert(new_rows[k] == old_rows[k]);
            } else {
                let r = k - old_rows.len();
                assert(new_rows[k] == tail[r]);
                assert(tail[r] =~= seq![Item::<V>::Optional(None)]);
            }
        }
    }
}

/// Where no archetype holds `id`, a query of `TryRead(id)` yields one empty item per
/// entity of the world.
pub proof fn lemma_try_read_absent<V>(w: World<V>, id: ComponentId)
    requires
        w.wf(),
        forall|a: int| 0 <= a < w.archetype_count() ==> !(#[trigger] w.layout(a)).contains(id),
    ensures
        results(w, seq![Fetch::TryRead(TryRead(id))]).len() == entity_count(w, w.archetype_count()),
        forall|k: int| 0 <= k < results(w, seq![Fetch::TryRead(TryRead(id))]).len() ==>
            #[trigger] results(w, seq![Fetch::TryRead(TryRead(id))])[k] == seq![Item::<V>::Optional(None)],
{
    w.lemma_bounds();
    lemma_try_read_upto(w, id, w.archetype_count());
}

/// A query: its fetches, and the archetypes found to match so far. The list is kept
/// between runs; each run first examines the archetypes created since the last one.
#[derive(Debug)]
pub struct Query {
    fetches: Vec<Fetch>,
    archetypes: Vec<ArchetypeIndex>,
    seen: usize,
}

impl Query {
    pub closed spec fn fetches(&self) -> Seq<Fetch> {
        self.fetches@
    }

    /// How many archetypes the cached list covers.
    pub closed spec fn seen(&self) -> nat {
        self.seen as nat
    }

    /// The cached list of matching archetypes.
    pub closed spec fn cache(&self) -> Seq<ArchetypeIndex> {
        self.archetypes@
    }

    /// The cached list is the matching archetypes among the first `seen` of `w`.
    pub open spec fn valid_for<V>(&self, w: World<V>) -> bool {
        &&& self.seen() <= w.archetype_count()
        &&& self.cache() == matching(w, self.fetches(), self.seen())
    }

    pub fn new(fetches: Vec<Fetch>) -> (r: Query)
        ensures
            r.fetches() == fetches@,
            r.seen() == 0,
            r.cache() == Seq::<ArchetypeIndex>::empty(),
    {
        Query { fetches, archetypes: Vec::new(), seen: 0 }
    }

    /// Whether a layout holds every component type the fetches require: the conjunction
    /// of one `Component` filter per required type.
    pub fn matches(&self, layout: &ArchetypeLayout) -> (r: bool)
        ensures
            r == matches_layout(self.fetches(), layout@),
    {
        let mut i: usize = 0;
        while i < self.fetches.len()
            invariant
                i <= self.fetches@.len(),
                forall|j: int| 0 <= j < i && (#[trigger] self.fetches@[j]).required() is Some ==> layout@.contains(
                    self.fetches@[j].required()->Some_0,
                ),
            decreases self.fetches@.len() - i,
        {
            match self.fetches[i].required_component() {
                Some(id) => {
                    let present = Component(id).matches(layout.components.as_slice());
                    proof {
                        assert(layout@.to_set().contains(id) == layout@.contains(id));
                    }
                    if !present {
                        return false;
                    }
                },
                None => {},
            }
            i += 1;
        }
        true
    }

    /// Brings the cached list up to date with the archetypes of `world`.
    pub fn refresh<V>(&mut self, world: &World<V>)
        requires
            world.wf(),
            old(self).valid_for(*world),
        ensures
            final(self).valid_for(*world),
            final(self).fetches() == old(self).fetches(),
            final(self).seen() == world.archetype_count(),
    {
        let table = world.archetypes();
        while self.seen < table.len()
            invariant
                world.wf(),
                table@.len() == world.archetype_count(),
                forall|a: int| 0 <= a < table@.len() ==> {
                    &&& (#[trigger] table@[a]).index.0 == a
                    &&& table@[a].layout@ == world.layout(a)
                },
                self.fetches@ == old(self).fetches@,
                self.valid_for(*world),
            decreases table@.len() - self.seen,
        {
            let b = self.seen;
            if self.matches(&table[b].layout) {
                self.archetypes.push(table[b].index);
            }
            self.seen = b + 1;
        }
    }
}

impl Query {
    /// The items of row `r` of archetype `a`, which matches.
    fn row<V: Copy>(&self, world: &World<V>, a: usize, r: usize) -> (items: Vec<Item<V>>)
        requires
            world.wf(),
            a < world.archetype_count(),
            r < world.members(a as int).len(),
            matches_layout(self.fetches(), world.layout(a as int)),
        ensures
            items@ == row_at(*world, self.fetches(), a as int, r as int),
    {
        let table = world.archetypes();
        let mut items: Vec<Item<V>> = Vec::new();
        let mut j: usize = 0;
        while j < self.fetches.len()
            invariant
                world.wf(),
                a < world.archetype_count(),
                r < world.members(a as int).len(),
                matches_layout(self.fetches@, world.layout(a as int)),
                table@.len() == world.archetype_count(),
                table@[a as int].entities@ == world.members(a as int),
                j <= self.fetches@.len(),
                items@ == Seq::new(j as nat, |k: int| item_at(*world, self.fetches@[k], a as int, r as int)),
            decreases self.fetches@.len() - j,
        {
            let fetch = self.fetches[j];
            proof {
                assert(fetch == self.fetches@[j as int]);
            }
            let item = match fetch {
                Fetch::Read(Read(id)) => match world.column_of(a, id).unwrap().get(r) {
                    Some(v) => Item::Value(*v),
                    None => Item::Unit,
                },
                Fetch::Write(Write(id)) => match world.column_of(a, id).unwrap().get(r) {
                    Some(v) => Item::Value(*v),
                    None => Item::Unit,
                },
                Fetch::TryRead(TryRead(id)) => match world.column_of(a, id) {
                    Some(col) => match col.get(r) {
                        Some(v) => Item::Optional(Some(*v)),
                        None => Item::Unit,
                    },
                    None => Item::Optional(None),
                },
                Fetch::TryWrite(TryWrite(id)) => match world.column_of(a, id) {
                    Some(col) => match col.get(r) {
                        Some(v) => Item::Optional(Some(*v)),
                        None => Item::Unit,
                    },
                    None => Item::Optional(None),
                },
                Fetch::Entity => Item::Entity(table[a].entities[r]),
            };
            items.push(item);
            proof {
                assert(items@ =~= Seq::new((j + 1) as nat, |k: int| item_at(*world, self.fetches@[k], a as int, r as int)));
            }
            j += 1;
        }
        items
    }

    /// The rows of every archetype on the cached list, in order.
    fn collect<V: Copy>(&self, world: &World<V>) -> (out: Vec<Vec<Item<V>>>)
        requires
            world.wf(),
            self.valid_for(*world),
            world.archetype_count() < u32::MAX,
        ensures
            out@.len() == rows(*world, self.fetches(), self.cache()).len(),
            forall|k: int| 0 <= k < out@.len() ==> #[trigger] out@[k]@ == rows(*world, self.fetches(), self.cache())[k],
    {
        let table = world.archetypes();
        let ghost cache = self.archetypes@;
        proof {
            lemma_matching(*world, self.fetches@, self.seen as nat);
        }
        let mut out: Vec<Vec<Item<V>>> = Vec::new();
        let mut i: usize = 0;
        while i < self.archetypes.len()
            invariant
                world.wf(),
                self.valid_for(*world),
                cache == self.archetypes@,
                table@.len() == world.archetype_count(),
                forall|b: int| 0 <= b < table@.len() ==> (#[trigger] table@[b]).entities@ == world.members(b),
                forall|q: int| 0 <= q < cache.len() ==> {
                    &&& (#[trigger] cache[q]).0 < world.archetype_count()
                    &&& matches_layout(self.fetches@, world.layout(cache[q].0 as int))
                },
                i <= cache.len(),
                out@.len() == rows(*world, self.fetches@, cache.subrange(0, i as int)).len(),
                forall|k: int| 0 <= k < out@.len() ==> #[trigger] out@[k]@ == rows(*world, self.fetches@, cache.subrange(0, i as int))[k],
            decreases cache.len() - i,
        {
            let a = self.archetypes[i].0 as usize;
            proof {
                assert(cache[i as int].0 < world.archetype_count());
            }
            let n = table[a].entities.len();
            let ghost prefix = rows(*world, self.fetches@, cache.subrange(0, i as int));
            let mut r: usize = 0;
            while r < n
                invariant
                    world.wf(),
                    a < world.archetype_count(),
                    n == world.members(a as int).len(),
                    matches_layout(self.fetches@, world.layout(a as int)),
                    r <= n,
                    out@.len() == prefix.len() + r,
                    forall|k: int| 0 <= k < out@.len() ==> #[trigger] out@[k]@ == (prefix + Seq::new(
                        r as nat,
                        |q: int| row_at(*world, self.fetches@, a as int, q),
                    ))[k],
                decreases n - r,
            {
                let items = self.row(world, a, r);
                let ghost before = out@;
                out.push(items);
                proof {
                    assert forall|k: int| 0 <= k < out@.len() implies #[trigger] out@[k]@ == (prefix + Seq::new(
                        (r + 1) as nat,
                        |q: int| row_at(*world, self.fetches@, a as int, q),
                    ))[k] by {
                        if k < before.len() {
                            assert(out@[k] == before[k]);
                        }
                    }
                }
                r += 1;
            }
            proof {
                let next = cache.subrange(0, i + 1);
                assert(next.drop_last() =~= cache.subrange(0, i as int));
                assert(next.last() == cache[i as int]);
                assert(Seq::new(n as nat, |q: int| row_at(*world, self.fetches@, a as int, q)) =~= archetype_rows(
                    *world,
                    self.fetches@,
                    a as int,
                ));
            }
            i += 1;
        }
        proof {
            assert(cache.subrange(0, i as int) =~= cache);
        }
        out
    }

    /// Runs a read-only query: every row of every matching archetype, by ascending
    /// archetype index, then ascending row.
    pub fn iter<V: Copy>(&mut self, world: &World<V>) -> (out: Vec<Vec<Item<V>>>)
        requires
            world.wf(),
            old(self).valid_for(*world),
            readonly(old(self).fetches()),
        ensures
            final(self).valid_for(*world),
            final(self).fetches() == old(self).fetches(),
            final(self).seen() == world.archetype_count(),
            out@.len() == results(*world, old(self).fetches()).len(),
            forall|k: int| 0 <= k < out@.len() ==> #[trigger] out@[k]@ == results(*world, old(self).fetches())[k],
    {
        proof {
            world.lemma_bounds();
        }
        self.refresh(world);
        self.collect(world)
    }

    /// The row of one entity, if it is live and its archetype matches.
    pub fn get<V: Copy>(&self, world: &World<V>, entity: Entity) -> (r: Option<Vec<Item<V>>>)
        requires
            world.wf(),
            readonly(self.fetches()),
        ensures
            r is Some == (world.live(entity) && matches_layout(self.fetches(), world.layout(world.archetype_of(entity)))),
            r is Some ==> r->Some_0@ == row_at(*world, self.fetches(), world.archetype_of(entity), world.row_of(entity)),
    {
        match world.locate(entity) {
            Some(data) => {
                let a = data.0.0 as usize;
                let table = world.archetypes();
                if self.matches(&table[a].layout) {
                    Some(self.row(world, a, data.1.0 as usize))
                } else {
                    None
                }
            },
            None => None,
        }
    }
}

impl Query {
    /// Applies `f` to component `id` of every entity the query matches and that has `id`,
    /// archetype after archetype. The query must write `id`, through `Write` or `TryWrite`.
    pub fn for_each_mut<V: Copy, F: Fn(V) -> V>(&mut self, world: &mut World<V>, id: ComponentId, f: F)
        requires
            old(world).wf(),
            old(self).valid_for(*old(world)),
            old(self).fetches().contains(Fetch::Write(Write(id))) || old(self).fetches().contains(Fetch::TryWrite(TryWrite(id))),
            forall|v: V| #[trigger] f.requires((v,)),
        ensures
            final(world).wf(),
            final(self).valid_for(*final(world)),
            final(self).fetches() == old(self).fetches(),
            final(world).registry() == old(world).registry(),
            final(world).archetype_count() == old(world).archetype_count(),
            forall|b: int| 0 <= b < old(world).archetype_count() ==> {
                &&& #[trigger] final(world).layout(b) == old(world).layout(b)
                &&& final(world).members(b) == old(world).members(b)
            },
            old(world).has_room() ==> final(world).has_room(),
            forall|x: Entity, c: ComponentId| #[trigger] final(world).has_component(x, c) == old(world).has_component(x, c),
            forall|x: Entity, c: ComponentId|
                !(c == id && old(world).live(x) && matches_layout(old(self).fetches(), old(world).layout(old(world).archetype_of(x))))
                    ==> #[trigger] final(world).value(x, c) == old(world).value(x, c),
            forall|x: Entity|
                old(world).live(x) && matches_layout(old(self).fetches(), old(world).layout(old(world).archetype_of(x)))
                    && old(world).value(x, id) is Some
                    ==> f.ensures((old(world).value(x, id)->Some_0,), (#[trigger] final(world).value(x, id))->Some_0),
    {
        proof {
            old(world).lemma_bounds();
        }
        self.refresh(world);
        let ghost start = *world;
        let ghost cache = self.archetypes@;
        proof {
            lemma_matching(start, self.fetches@, start.archetype_count());
        }
        let mut i: usize = 0;
        while i < self.archetypes.len()
            invariant
                world.wf(),
                self.valid_for(start),
                self.seen() == start.archetype_count(),
                cache == self.archetypes@,
                self.fetches@ == old(self).fetches(),
                forall|v: V| #[trigger] f.requires((v,)),
                i <= cache.len(),
                world.registry() == start.registry(),
                world.archetype_count() == start.archetype_count(),
                forall|b: int| 0 <= b < start.archetype_count() ==> {
                    &&& #[trigger] world.layout(b) == start.layout(b)
                    &&& world.members(b) == start.members(b)
                },
                start.has_room() ==> world.has_room(),
                forall|q: int| 0 <= q < cache.len() ==> {
                    &&& (#[trigger] cache[q]).0 < start.archetype_count()
                    &&& matches_layout(self.fetches@, start.layout(cache[q].0 as int))
                },
                forall|q: int, p: int| 0 <= q < p < cache.len() ==> (#[trigger] cache[q]).0 < (#[trigger] cache[p]).0,
                forall|x: Entity, c: ComponentId| #[trigger] world.has_component(x, c) == start.has_component(x, c),
                forall|x: Entity, c: ComponentId|
                    !(c == id && start.live(x) && exists|q: int| 0 <= q < i && cache[q].0 == start.archetype_of(x))
                        ==> #[trigger] world.value(x, c) == start.value(x, c),
                forall|x: Entity|
                    (start.live(x) && start.value(x, id) is Some && exists|q: int| 0 <= q < i && cache[q].0 == start.archetype_of(x))
                        ==> f.ensures((start.value(x, id)->Some_0,), (#[trigger] world.value(x, id))->Some_0),
            decreases cache.len() - i,
        {
            let a = self.archetypes[i].0 as usize;
            let ghost before = *world;
            proof {
                assert(cache[i as int].0 < start.archetype_count());
            }
            let _ = world.update_column(a, id, &f);
            proof {
                assert forall|x: Entity, c: ComponentId|
                    !(c == id && start.live(x) && exists|q: int| 0 <= q < i + 1 && cache[q].0 == start.archetype_of(x))
                        implies #[trigger] world.value(x, c) == start.value(x, c) by {
                    assert(world.value(x, c) == before.value(x, c));
                }
                assert forall|x: Entity|
                    (start.live(x) && start.value(x, id) is Some && exists|q: int| 0 <= q < i + 1 && cache[q].0 == start.archetype_of(x))
                        implies f.ensures((start.value(x, id)->Some_0,), (#[trigger] world.value(x, id))->Some_0) by {
                    let q = choose|q: int| 0 <= q < i + 1 && cache[q].0 == start.archetype_of(x);
                    if q < i {
                        assert(world.value(x, id) == before.value(x, id));
                    } else {
                        assert(!exists|p: int| 0 <= p < i && cache[p].0 == start.archetype_of(x));
                        assert(before.value(x, id) == start.value(x, id));
                    }
                }
            }
            i += 1;
        }
        proof {
            lemma_matching_same_layouts(start, *world, self.fetches@, self.seen as nat);
            assert forall|x: Entity, c: ComponentId|
                !(c == id && start.live(x) && matches_layout(self.fetches@, start.layout(start.archetype_of(x))))
                    implies #[trigger] world.value(x, c) == start.value(x, c) by {
                if c == id && start.live(x) && exists|q: int| 0 <= q < i && cache[q].0 == start.archetype_of(x) {
                    let q = choose|q: int| 0 <= q < i && cache[q].0 == start.archetype_of(x);
                    assert(matches_layout(self.fetches@, start.layout(cache[q].0 as int)));
                }
            }
            assert forall|x: Entity|
                start.live(x) && matches_layout(self.fetches@, start.layout(start.archetype_of(x))) && start.value(x, id) is Some
                    implies f.ensures((start.value(x, id)->Some_0,), (#[trigger] world.value(x, id))->Some_0) by {
                let b = start.archetype_of(x);
                start.lemma_live(x);
                assert(cache.contains(ArchetypeIndex(b as u32)));
                let q = choose|q: int| 0 <= q < cache.len() && cache[q] == ArchetypeIndex(b as u32);
                assert(cache[q].0 == b);
            }
        }
    }
}

/// The rows of the first `p` archetypes of a list begin the rows of the whole list.
pub proof fn lemma_rows_prefix<V>(w: World<V>, fetches: Seq<Fetch>, archetypes: Seq<ArchetypeIndex>, p: int)
    requires
        0 <= p <= archetypes.len(),
    ensures
        rows(w, fetches, archetypes.subrange(0, p)).len() <= rows(w, fetches, archetypes).len(),
        forall|k: int| 0 <= k < rows(w, fetches, archetypes.subrange(0, p)).len() ==>
            #[trigger] rows(w, fetches, archetypes)[k] == rows(w, fetches, archetypes.subrange(0, p))[k],
    decreases archetypes.len(),
{
    if p == archetypes.len() {
        assert(archetypes.subrange(0, p) =~= archetypes);
    } else {
        let shorter = archetypes.drop_last();
        lemma_rows_prefix(w, fetches, shorter, p);
        assert(shorter.subrange(0, p) =~= archetypes.subrange(0, p));
    }
}

/// A cursor over what a query yields: matched archetype after matched archetype, row
/// after row. The world must not change while the cursor is in use.
pub struct QueryIter<'q> {
    query: &'q Query,
    position: usize,
    row: usize,
}

impl<'q> QueryIter<'q> {
    pub closed spec fn query(&self) -> Query {
        *self.query
    }

    /// How many rows the cursor has yielded so far.
    pub closed spec fn yielded<V>(&self, w: World<V>) -> nat {
        rows(w, self.query.fetches(), self.query.cache().subrange(0, self.position as int)).len() + self.row as nat
    }

    /// The cursor belongs to `w`: its query's list is complete for `w` and it stands
    /// within it.
    pub closed spec fn wf_for<V>(&self, w: World<V>) -> bool {
        &&& self.query.valid_for(w)
        &&& self.query.seen() == w.archetype_count()
        &&& self.position <= self.query.cache().len()
        &&& (self.position < self.query.cache().len() ==> self.row <= w.members(self.query.cache()[self.position as int].0 as int).len())
        &&& (self.position == self.query.cache().len() ==> self.row == 0)
    }

    /// The next row, or nothing once every row was yielded.
    pub fn next<V: Copy>(&mut self, world: &World<V>) -> (r: Option<Vec<Item<V>>>)
        requires
            world.wf(),
            old(self).wf_for(*world),
        ensures
            final(self).wf_for(*world),
            final(self).query() == old(self).query(),
            old(self).yielded(*world) <= results(*world, old(self).query().fetches()).len(),
            r is None == (old(self).yielded(*world) == results(*world, old(self).query().fetches()).len()),
            r is Some ==> r->Some_0@ == results(*world, old(self).query().fetches())[old(self).yielded(*world) as int],
            final(self).yielded(*world) == old(self).yielded(*world) + (if r is Some { 1nat } else { 0nat }),
    {
        let ghost f = self.query.fetches();
        let ghost cache = self.query.cache();
        let ghost all = rows(*world, f, cache);
        let ghost k0 = self.yielded(*world);
        proof {
            world.lemma_bounds();
            lemma_matching(*world, f, world.archetype_count());
        }
        let table = world.archetypes();
        while self.position < self.query.archetypes.len()
            invariant
                world.wf(),
                self.wf_for(*world),
                self.query == old(self).query,
                f == self.query.fetches(),
                cache == self.query.cache(),
                all == rows(*world, f, cache),
                all == results(*world, f),
                table@.len() == world.archetype_count(),
                forall|b: int| 0 <= b < table@.len() ==> (#[trigger] table@[b]).entities@ == world.members(b),
                forall|q: int| 0 <= q < cache.len() ==> {
                    &&& (#[trigger] cache[q]).0 < world.archetype_count()
                    &&& matches_layout(f, world.layout(cache[q].0 as int))
                },
                self.yielded(*world) == k0,
                k0 == old(self).yielded(*world),
            decreases cache.len() - self.position, world.members(cache[self.position as int].0 as int).len() - self.row,
        {
            let p = self.position;
            let a = self.query.archetypes[p].0 as usize;
            let ghost prefix = rows(*world, f, cache.subrange(0, p as int));
            proof {
                let next = cache.subrange(0, p + 1);
                assert(next.drop_last() =~= cache.subrange(0, p as int));
                assert(rows(*world, f, next) == prefix + archetype_rows(*world, f, a as int));
                lemma_rows_prefix(*world, f, cache, p + 1);
            }
            if self.row < table[a].entities.len() {
                let items = self.query.row(world, a, self.row);
                proof {
                    let next = cache.subrange(0, p + 1);
                    let k = prefix.len() + self.row;
                    assert(rows(*world, f, next).len() == prefix.len() + world.members(a as int).len());
                    assert(rows(*world, f, next)[k] == archetype_rows(*world, f, a as int)[self.row as int]);
                    assert(all[k] == rows(*world, f, next)[k]);
                }
                self.row = self.row + 1;
                return Some(items);
            }
            self.position = p + 1;
            self.row = 0;
            proof {
                assert(rows(*world, f, cache.subrange(0, p + 1)).len() == prefix.len() + world.members(a as int).len());
            }
        }
        proof {
            assert(cache.subrange(0, self.position as int) =~= cache);
        }
        None
    }
}

impl Query {
    /// A cursor over what the query yields on `world`, starting at the first row.
    pub fn cursor<V>(&mut self, world: &World<V>) -> (r: QueryIter<'_>)
        requires
            world.wf(),
            old(self).valid_for(*world),
        ensures
            r.wf_for(*world),
            r.yielded(*world) == 0,
            r.query().fetches() == old(self).fetches(),
    {
        self.refresh(world);
        QueryIter { query: self, position: 0, row: 0 }
    }
}

} // verus!
