use archetype_ecs::component::{ComponentId, StorageKind};
use archetype_ecs::query::{Fetch, Item, Query, Read, TryWrite, Write};
use archetype_ecs::resource::Resources;
use archetype_ecs::schedule::{Conflict, Schedule};
use archetype_ecs::system::{
    check_access, check_resources, materialize, AccessConflict, EditComponent, EditComponents, ResourceAccess, System,
};
use archetype_ecs::world::World;

const I32: ComponentId = ComponentId { key: 1, storage: StorageKind::Dense };
const I8: ComponentId = ComponentId { key: 2, storage: StorageKind::Dense };
const BOOL: ComponentId = ComponentId { key: 3, storage: StorageKind::Dense };
const STR: ComponentId = ComponentId { key: 4, storage: StorageKind::Dense };

#[derive(Debug, Clone, Copy, PartialEq)]
enum Val {
    I32(i32),
    I8(i8),
    Bool(bool),
    Str(&'static str),
}

const TOTAL: u32 = 1;

enum Sys {
    Inc,
    Sum,
    Clash,
    ResourceClash,
}

impl System<Val, i64> for Sys {
    fn ran(_old: Self, _new: Self, _before: World<Val>, _after: World<Val>) -> bool {
        true
    }

    fn queries(&self) -> Vec<Vec<Fetch>> {
        match self {
            Sys::Inc => vec![vec![Fetch::Write(Write(I32))]],
            Sys::Sum => vec![vec![Fetch::Read(Read(I32))]],
            Sys::Clash => vec![vec![Fetch::Read(Read(I32)), Fetch::Write(Write(I32))]],
            Sys::ResourceClash => vec![],
        }
    }

    fn resources(&self) -> Vec<ResourceAccess> {
        match self {
            Sys::Sum => vec![ResourceAccess { resource: TOTAL, exclusive: true }],
            Sys::ResourceClash => vec![
                ResourceAccess { resource: TOTAL, exclusive: false },
                ResourceAccess { resource: TOTAL, exclusive: true },
            ],
            _ => vec![],
        }
    }

    fn run(&mut self, world: &mut World<Val>, queries: &mut Vec<Query>, resources: &Resources<i64>) {
        match self {
            Sys::Inc => queries[0].for_each_mut(world, I32, |v| match v {
                Val::I32(x) => Val::I32(x + 10),
                other => other,
            }),
            Sys::Sum => {
                let mut total = resources.try_get_mut(TOTAL).unwrap().unwrap();
                *total = queries[0]
                    .iter(world)
                    .iter()
                    .map(|row| match row[0] {
                        Item::Value(Val::I32(x)) => x as i64,
                        _ => 0,
                    })
                    .sum();
            },
            Sys::Clash | Sys::ResourceClash => panic!("a clashing system must not run"),
        }
    }
}

fn seed() -> World<Val> {
    let mut world = World::new();
    world.create(vec![(I32, Val::I32(32)), (I8, Val::I8(8)), (BOOL, Val::Bool(true))]);
    world.create(vec![(STR, Val::Str("test")), (I32, Val::I32(324))]);
    world.create(vec![(I32, Val::I32(64)), (I8, Val::I8(16)), (BOOL, Val::Bool(false))]);
    world
}

#[test]
fn systems_run_in_order() {
    let mut world = seed();
    let mut resources = Resources::new();
    resources.insert(TOTAL, 0i64);
    let mut schedule = Schedule::new().with_system(Sys::Inc).with_system(Sys::Sum).finish();
    assert_eq!(schedule.len(), 2);
    assert_eq!(schedule.run(&mut world, &resources), Ok(()));
    assert_eq!(*resources.try_get(TOTAL).unwrap().unwrap(), 450);
    let mut q = Query::new(vec![Fetch::Read(Read(I32))]);
    assert_eq!(
        q.iter(&world),
        vec![vec![Item::Value(Val::I32(42))], vec![Item::Value(Val::I32(74))], vec![Item::Value(Val::I32(334))]]
    );
    assert_eq!(schedule.run(&mut world, &resources), Ok(()));
    assert_eq!(*resources.try_get(TOTAL).unwrap().unwrap(), 480);
}

#[test]
fn read_write_clash_stops_the_run() {
    let mut world = seed();
    let resources: Resources<i64> = Resources::new();
    let mut schedule = Schedule::new().with_system(Sys::Clash).with_system(Sys::Inc).finish();
    assert_eq!(schedule.run(&mut world, &resources), Err(Conflict::Components(AccessConflict(I32))));
    let mut q = Query::new(vec![Fetch::Read(Read(I32))]);
    assert_eq!(q.iter(&world).len(), 3);
    assert_eq!(q.iter(&world)[0], vec![Item::Value(Val::I32(32))]);
}

#[test]
fn materialize_names_the_clashing_type() {
    let world = seed();
    let declared = vec![vec![Fetch::Read(Read(I32)), Fetch::Write(Write(I32))]];
    match materialize(world.components(), &declared) {
        Err(c) => assert_eq!(c, AccessConflict(I32)),
        Ok(_) => panic!("read and write of one type must clash"),
    }
    let across = vec![vec![Fetch::Write(Write(I8))], vec![Fetch::TryWrite(TryWrite(I8))]];
    assert!(matches!(materialize(world.components(), &across), Err(AccessConflict(I8))));
}

#[test]
fn disjoint_and_shared_access_is_fine() {
    let world = seed();
    let declared = vec![
        vec![Fetch::Write(Write(I32)), Fetch::Write(Write(I8))],
        vec![Fetch::Read(Read(BOOL)), Fetch::Entity],
        vec![Fetch::Read(Read(BOOL))],
    ];
    let queries = materialize(world.components(), &declared).unwrap();
    assert_eq!(queries.len(), 3);
}

#[test]
fn editor_refuses_double_exclusive() {
    let mut edit = EditComponents::new();
    assert_eq!(edit.get(I32, false), Ok(EditComponent { component: I32, exclusive: false }));
    assert_eq!(edit.get(I32, false), Ok(EditComponent { component: I32, exclusive: false }));
    assert_eq!(edit.get(I32, true), Err(AccessConflict(I32)));
    assert_eq!(edit.get(I8, true), Ok(EditComponent { component: I8, exclusive: true }));
    assert_eq!(edit.get(I8, false), Err(AccessConflict(I8)));
    assert_eq!(edit.get(I8, true), Err(AccessConflict(I8)));
}

#[test]
fn check_access_reports_first_clash() {
    let fetches = vec![
        Fetch::Entity,
        Fetch::Read(Read(BOOL)),
        Fetch::Write(Write(I8)),
        Fetch::Read(Read(BOOL)),
        Fetch::Read(Read(I8)),
    ];
    let world = seed();
    let mut edit = world.components().edit();
    assert_eq!(check_access(&mut edit, &fetches), Err(AccessConflict(I8)));
    let mut fresh = EditComponents::new();
    assert_eq!(check_access(&mut fresh, &vec![Fetch::Entity, Fetch::Entity, Fetch::Read(Read(I8))]), Ok(()));
}

#[test]
fn released_borrow_can_be_taken_again() {
    let mut edit = EditComponents::new();
    let b = edit.get(I32, true).unwrap();
    assert_eq!(edit.get(I32, false), Err(AccessConflict(I32)));
    assert!(edit.release(b));
    assert!(!edit.release(b));
    assert_eq!(edit.get(I32, false), Ok(EditComponent { component: I32, exclusive: false }));
}

#[test]
fn empty_schedule_succeeds() {
    let mut world = seed();
    let resources: Resources<i64> = Resources::new();
    let mut schedule: Schedule<Sys> = Schedule::new().finish();
    assert_eq!(schedule.run(&mut world, &resources), Ok(()));
}

#[test]
fn resource_clash_stops_the_run() {
    let mut world = seed();
    let mut resources = Resources::new();
    resources.insert(TOTAL, 0i64);
    let mut schedule = Schedule::new().with_system(Sys::Inc).with_system(Sys::ResourceClash).finish();
    assert_eq!(schedule.run(&mut world, &resources), Err(Conflict::Resource(TOTAL)));
    let mut q = Query::new(vec![Fetch::Read(Read(I32))]);
    assert_eq!(q.iter(&world)[0], vec![Item::Value(Val::I32(42))]);
}

#[test]
fn check_resources_finds_writer_beside_reader() {
    let shared = vec![ResourceAccess { resource: 3, exclusive: false }, ResourceAccess { resource: 3, exclusive: false }];
    assert_eq!(check_resources(&shared), Ok(()));
    let clash = vec![
        ResourceAccess { resource: 2, exclusive: true },
        ResourceAccess { resource: 3, exclusive: false },
        ResourceAccess { resource: 2, exclusive: false },
    ];
    assert_eq!(check_resources(&clash), Err(2));
}
