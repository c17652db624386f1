use archetype_ecs::archetype::ArchetypeIndex;
use archetype_ecs::component::{ComponentId, StorageKind};
use archetype_ecs::entity::Entity;
use archetype_ecs::query::{Fetch, Item, Query, Read, TryRead, Write};
use archetype_ecs::world::{ComponentMut, ComponentRef, World};

#[derive(Debug, Clone, Copy, PartialEq)]
enum Val {
    I32(i32),
    I8(i8),
    Bool(bool),
    Str(&'static str),
    Marker,
}

const I32: ComponentId = ComponentId { key: 1, storage: StorageKind::Dense };
const I8: ComponentId = ComponentId { key: 2, storage: StorageKind::Dense };
const BOOL: ComponentId = ComponentId { key: 3, storage: StorageKind::Dense };
const STR: ComponentId = ComponentId { key: 4, storage: StorageKind::Dense };
const MARKER: ComponentId = ComponentId { key: 5, storage: StorageKind::Unit };

fn ints(world: &World<Val>) -> Vec<i32> {
    let mut q = Query::new(vec![Fetch::Read(Read(I32))]);
    q.iter(world)
        .into_iter()
        .map(|row| match row[0] {
            Item::Value(Val::I32(x)) => x,
            ref other => panic!("unexpected item {:?}", other),
        })
        .collect()
}

fn entities(world: &World<Val>) -> Vec<Entity> {
    let mut q = Query::new(vec![Fetch::Entity]);
    q.iter(world)
        .into_iter()
        .map(|row| match row[0] {
            Item::Entity(e) => e,
            ref other => panic!("unexpected item {:?}", other),
        })
        .collect()
}

fn seed() -> (World<Val>, Entity, Entity, Entity) {
    let mut world = World::new();
    let a = world.create(vec![(I32, Val::I32(32)), (I8, Val::I8(8)), (BOOL, Val::Bool(true))]);
    let b = world.create(vec![(I32, Val::I32(64)), (I8, Val::I8(16)), (BOOL, Val::Bool(false))]);
    let c = world.create(vec![(STR, Val::Str("test"))]);
    (world, a, b, c)
}

#[test]
fn read_query_follows_creation_order() {
    let (world, a, b, c) = seed();
    assert_eq!(ints(&world), vec![32, 64]);
    assert_eq!(entities(&world), vec![a, b, c]);
}

#[test]
fn remove_swaps_last_row_in() {
    let (mut world, a, b, _c) = seed();
    assert!(world.remove(a));
    assert_eq!(ints(&world), vec![64]);
    assert!(!world.contains(a));
    assert!(world.contains(b));
    assert_eq!(world.archetypes()[0].entities, vec![b]);
}

#[test]
fn optional_read_yields_none_where_missing() {
    let mut world = World::new();
    world.create(vec![(I32, Val::I32(1))]);
    world.create(vec![(I32, Val::I32(2)), (I8, Val::I8(9))]);
    let mut q = Query::new(vec![Fetch::Read(Read(I32)), Fetch::TryRead(TryRead(I8))]);
    let rows = q.iter(&world);
    assert_eq!(
        rows,
        vec![
            vec![Item::Value(Val::I32(1)), Item::Optional(None)],
            vec![Item::Value(Val::I32(2)), Item::Optional(Some(Val::I8(9)))],
        ]
    );
}

#[test]
fn create_with_id_moves_entity_to_other_archetype() {
    let mut world = World::new();
    let mut handles = Vec::new();
    for i in 0..10 {
        handles.push(world.create(vec![(I32, Val::I32(i)), (I8, Val::I8(i as i8))]));
    }
    let third = handles[2];
    assert!(world.create_with_id(third, vec![(I32, Val::I32(999))]));
    assert!(world.contains(third));
    let tables = world.archetypes();
    assert_eq!(tables.len(), 2);
    assert_eq!(tables[0].entities.len(), 9);
    assert_eq!(tables[0].entities[2], handles[9]);
    assert_eq!(tables[1].entities, vec![third]);
    let values = ints(&world);
    assert_eq!(values.len(), 10);
    assert!(values.contains(&999));
    assert!(!values.contains(&2));
    let entry = world.entry(third).unwrap();
    assert_eq!(entry.component(I32), Some(ComponentRef::Value(&Val::I32(999))));
    assert_eq!(entry.component(I8), None);
}

#[test]
fn create_with_id_refuses_older_generation() {
    let mut world = World::new();
    let e = world.create(vec![(I32, Val::I32(1))]);
    assert!(world.remove(e));
    assert!(!world.create_with_id(e, vec![(I32, Val::I32(2))]));
    assert!(!world.contains(e));
    let newer = Entity { id: e.id, generation: e.generation + 1 };
    assert!(world.create_with_id(newer, vec![(I32, Val::I32(3))]));
    assert!(world.contains(newer));
    assert_eq!(ints(&world), vec![3]);
}

#[test]
fn create_with_id_beyond_allocated_ids() {
    let mut world = World::new();
    let far = Entity { id: 5, generation: 0 };
    assert!(world.create_with_id(far, vec![(I32, Val::I32(7))]));
    assert!(world.contains(far));
    let mut seen = Vec::new();
    for _ in 0..6 {
        let e = world.create(vec![(I8, Val::I8(1))]);
        assert_ne!(e.id, 5);
        assert!(!seen.contains(&e.id));
        seen.push(e.id);
    }
    assert!(!world.create_with_id(Entity { id: u32::MAX, generation: 0 }, vec![(I32, Val::I32(1))]));
}

#[test]
fn create_then_read_back() {
    let mut world = World::new();
    let e = world.create(vec![(I32, Val::I32(5)), (STR, Val::Str("x")), (MARKER, Val::Marker)]);
    let entry = world.entry(e).unwrap();
    assert_eq!(entry.entity_handle(), e);
    assert_eq!(entry.component(I32), Some(ComponentRef::Value(&Val::I32(5))));
    assert_eq!(entry.component(STR), Some(ComponentRef::Value(&Val::Str("x"))));
    assert_eq!(entry.component(MARKER), Some(ComponentRef::Unit));
    assert!(entry.has(MARKER));
    assert!(entry.has(I32));
    assert!(!entry.has(BOOL));
    assert_eq!(entry.component(BOOL), None);
}

#[test]
fn remove_twice() {
    let mut world = World::new();
    let e = world.create(vec![(I32, Val::I32(5))]);
    assert_eq!((world.remove(e), world.remove(e)), (true, false));
    assert!(world.entry(e).is_none());
}

#[test]
fn reused_slot_gets_newer_generation() {
    let mut world = World::new();
    let first = world.create(vec![(I32, Val::I32(1))]);
    assert!(world.remove(first));
    let second = world.create(vec![(I32, Val::I32(2))]);
    assert_eq!(second.id, first.id);
    assert!(second.generation > first.generation);
    assert!(!world.contains(first));
    assert!(world.contains(second));
}

#[test]
fn free_ids_are_reused_last_in_first_out() {
    let mut world = World::new();
    let a = world.create(vec![(I32, Val::I32(1))]);
    let b = world.create(vec![(I32, Val::I32(2))]);
    assert!(world.remove(a));
    assert!(world.remove(b));
    let c = world.create(vec![(I32, Val::I32(3))]);
    let d = world.create(vec![(I32, Val::I32(4))]);
    assert_eq!(c.id, b.id);
    assert_eq!(d.id, a.id);
    let e = world.create(vec![(I32, Val::I32(5))]);
    assert_eq!(e, Entity { id: 2, generation: 0 });
}

#[test]
fn unit_components_are_counted() {
    let mut world = World::new();
    let mut handles = Vec::new();
    for _ in 0..1000 {
        handles.push(world.create(vec![(MARKER, Val::Marker)]));
    }
    let mut q = Query::new(vec![Fetch::Read(Read(MARKER))]);
    assert_eq!(q.iter(&world).len(), 1000);
    assert_eq!(world.archetypes().len(), 1);
    for e in handles.iter().step_by(2) {
        assert!(world.remove(*e));
        let column = world.components().get(MARKER).unwrap().get(ArchetypeIndex(0)).unwrap();
        assert_eq!(column.len(), world.archetypes()[0].entities.len());
    }
    let rows = q.iter(&world);
    assert_eq!(rows.len(), 500);
    assert!(rows.iter().all(|row| row[0] == Item::Unit));
}

#[test]
fn empty_archetype_stays_and_queries_are_empty() {
    let mut world = World::new();
    let e = world.create(vec![(BOOL, Val::Bool(true))]);
    assert!(world.remove(e));
    assert_eq!(world.archetypes().len(), 1);
    assert!(world.archetypes()[0].entities.is_empty());
    let mut q = Query::new(vec![Fetch::Read(Read(BOOL))]);
    assert!(q.iter(&world).is_empty());
    assert!(entities(&world).is_empty());
}

#[test]
fn optional_read_of_absent_type() {
    let (world, _a, _b, _c) = seed();
    let mut q = Query::new(vec![Fetch::TryRead(TryRead(MARKER))]);
    let rows = q.iter(&world);
    assert_eq!(rows.len(), 3);
    assert!(rows.iter().all(|row| *row == vec![Item::Optional(None)]));
}

#[test]
fn write_count_matches_entities_with_type() {
    let (mut world, _a, _b, _c) = seed();
    world.create(vec![(I32, Val::I32(324)), (STR, Val::Str("test"))]);
    let mut q = Query::new(vec![Fetch::Write(Write(I32))]);
    let visited = std::cell::Cell::new(0usize);
    q.for_each_mut(&mut world, I32, |v| {
        visited.set(visited.get() + 1);
        v
    });
    let with_type: usize = world
        .archetypes()
        .iter()
        .filter(|a| a.layout.components.contains(&I32))
        .map(|a| a.entities.len())
        .sum();
    assert_eq!(with_type, 3);
    assert_eq!(visited.get(), with_type);
}

#[test]
fn for_each_mut_changes_matched_rows_only() {
    let (mut world, a, _b, c) = seed();
    let mut q = Query::new(vec![Fetch::Write(Write(I32)), Fetch::Read(Read(BOOL))]);
    q.for_each_mut(&mut world, I32, |v| match v {
        Val::I32(x) => Val::I32(x * 2),
        other => other,
    });
    assert_eq!(ints(&world), vec![64, 128]);
    assert_eq!(world.entry(a).unwrap().component(I8), Some(ComponentRef::Value(&Val::I8(8))));
    assert_eq!(world.entry(c).unwrap().component(STR), Some(ComponentRef::Value(&Val::Str("test"))));
}

#[test]
fn entity_query_yields_exactly_live_entities() {
    let (mut world, a, b, c) = seed();
    assert!(world.remove(b));
    let found = entities(&world);
    assert_eq!(found.len(), 2);
    assert!(found.contains(&a));
    assert!(found.contains(&c));
    assert!(!found.contains(&b));
}

#[test]
fn query_get_single_entity() {
    let (world, a, _b, c) = seed();
    let q = Query::new(vec![Fetch::Read(Read(I32)), Fetch::Entity]);
    assert_eq!(q.get(&world, a), Some(vec![Item::Value(Val::I32(32)), Item::Entity(a)]));
    assert_eq!(q.get(&world, c), None);
    assert_eq!(q.get(&world, Entity { id: 77, generation: 0 }), None);
}

#[test]
fn cached_archetypes_follow_new_ones() {
    let mut world = World::new();
    world.create(vec![(I32, Val::I32(1))]);
    let mut q = Query::new(vec![Fetch::Read(Read(I32))]);
    assert_eq!(q.iter(&world).len(), 1);
    world.create(vec![(I32, Val::I32(2)), (I8, Val::I8(2))]);
    assert_eq!(q.iter(&world).len(), 2);
}

#[test]
fn cursor_walks_rows_in_order() {
    let (world, a, b, c) = seed();
    let mut q = Query::new(vec![Fetch::Entity]);
    let mut cursor = q.cursor(&world);
    assert_eq!(cursor.next(&world), Some(vec![Item::Entity(a)]));
    assert_eq!(cursor.next(&world), Some(vec![Item::Entity(b)]));
    assert_eq!(cursor.next(&world), Some(vec![Item::Entity(c)]));
    assert_eq!(cursor.next(&world), None);
    assert_eq!(cursor.next(&world), None);
}

#[test]
fn set_component_writes_one_value() {
    let (mut world, a, b, _c) = seed();
    assert!(world.set_component(a, I32, Val::I32(-1)));
    assert!(!world.set_component(a, STR, Val::Str("no")));
    assert_eq!(ints(&world), vec![-1, 64]);
    assert_eq!(world.entry(b).unwrap().component(I32), Some(ComponentRef::Value(&Val::I32(64))));
}

#[test]
fn same_layout_shares_archetype() {
    let mut world = World::new();
    world.create(vec![(I32, Val::I32(1)), (I8, Val::I8(1))]);
    world.create(vec![(I8, Val::I8(2)), (I32, Val::I32(2))]);
    assert_eq!(world.archetypes().len(), 1);
    assert_eq!(world.archetypes()[0].entities.len(), 2);
}

#[test]
fn entry_writes_through() {
    let (mut world, a, b, _c) = seed();
    {
        let mut entry = world.entry(a).unwrap();
        match entry.component_mut(I8) {
            Some(ComponentMut::Value(v)) => *v = Val::I8(-8),
            _ => panic!("a has an i8"),
        }
        assert!(entry.component_mut(STR).is_none());
        assert_eq!(entry.component(I8), Some(ComponentRef::Value(&Val::I8(-8))));
    }
    assert_eq!(world.entry(a).unwrap().component(I8), Some(ComponentRef::Value(&Val::I8(-8))));
    assert_eq!(world.entry(b).unwrap().component(I8), Some(ComponentRef::Value(&Val::I8(16))));
    match world.component_mut(b, I32) {
        Some(ComponentMut::Value(v)) => *v = Val::I32(65),
        _ => panic!("b has an i32"),
    }
    assert_eq!(ints(&world), vec![32, 65]);
}

#[test]
fn unit_component_has_no_shared_value() {
    let mut world = World::new();
    let a = world.create(vec![(MARKER, Val::Marker), (I32, Val::I32(1))]);
    let b = world.create(vec![(MARKER, Val::I32(7)), (I32, Val::I32(2))]);
    assert!(!world.set_component(a, MARKER, Val::I32(9)));
    assert!(matches!(world.component_mut(b, MARKER), Some(ComponentMut::Unit)));
    assert!(world.component_mut(b, BOOL).is_none());
    let mut q = Query::new(vec![Fetch::TryRead(TryRead(MARKER)), Fetch::Read(Read(I32))]);
    assert_eq!(
        q.iter(&world),
        vec![vec![Item::Unit, Item::Value(Val::I32(1))], vec![Item::Unit, Item::Value(Val::I32(2))]]
    );
}

#[test]
fn try_write_updates_where_present() {
    let mut world = World::new();
    let a = world.create(vec![(I32, Val::I32(1))]);
    let b = world.create(vec![(I8, Val::I8(1))]);
    let mut q = Query::new(vec![Fetch::TryWrite(archetype_ecs::query::TryWrite(I32)), Fetch::Entity]);
    q.for_each_mut(&mut world, I32, |v| match v {
        Val::I32(x) => Val::I32(x + 1),
        other => other,
    });
    assert_eq!(world.entry(a).unwrap().component(I32), Some(ComponentRef::Value(&Val::I32(2))));
    assert_eq!(world.entry(b).unwrap().component(I8), Some(ComponentRef::Value(&Val::I8(1))));
}
