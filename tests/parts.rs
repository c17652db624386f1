use archetype_ecs::archetype::{Archetype, ArchetypeDescriptor, ArchetypeIndex, ArchetypeLayout};
use archetype_ecs::component::{ComponentId, ComponentIndex, StorageKind};
use archetype_ecs::entity::{Entity, EntityData, EntityMap};
use archetype_ecs::filter::{And, Any, Component, LayoutFilter, Not, Or};
use archetype_ecs::storage::{AnyStorage, ArchetypeStorage, ColumnStorage, Components, NullStorage, Storage, VecStorage};

const A: ComponentId = ComponentId { key: 10, storage: StorageKind::Dense };
const B: ComponentId = ComponentId { key: 11, storage: StorageKind::Dense };
const U: ComponentId = ComponentId { key: 12, storage: StorageKind::Unit };

#[test]
fn component_id_constructors() {
    assert_eq!(ComponentId::dense(3), ComponentId { key: 3, storage: StorageKind::Dense });
    assert_eq!(ComponentId::unit(3), ComponentId { key: 3, storage: StorageKind::Unit });
    assert_ne!(ComponentId::dense(3), ComponentId::unit(3));
}

#[test]
fn layout_membership() {
    let mut layout = ArchetypeLayout::new();
    layout.add(A);
    layout.add_any(12, StorageKind::Unit);
    assert_eq!(layout.len(), 2);
    assert!(layout.has(U));
    assert!(!layout.has(B));
    assert_eq!(layout.position(U), Some(1));
    assert_eq!(layout.position(B), None);
    assert!(layout.contains(&[U, A]));
    assert!(layout.contains(&[]));
    assert!(!layout.contains(&[A, B]));
}

#[test]
fn layouts_compare_as_sets() {
    let mut x = ArchetypeLayout::new();
    x.add(A);
    x.add(B);
    let mut y = ArchetypeLayout::new();
    y.add(B);
    y.add(A);
    let mut z = ArchetypeLayout::new();
    z.add(A);
    z.add(U);
    let mut w = ArchetypeLayout::new();
    w.add(A);
    assert!(x.same_components(&y));
    assert!(!x.same_components(&z));
    assert!(!x.same_components(&w));
    assert!(ArchetypeLayout::new().same_components(&ArchetypeLayout::new()));
}

#[test]
fn bundle_describes_its_layout() {
    let bundle: Vec<(ComponentId, u8)> = vec![(B, 1), (A, 2)];
    assert_eq!(bundle.layout().components, vec![B, A]);
    let archetype = Archetype::new(ArchetypeIndex(4), bundle.layout());
    assert_eq!(archetype.index, ArchetypeIndex(4));
    assert!(archetype.entities.is_empty());
}

#[test]
fn filters_combine() {
    let layout = [A, U];
    assert!(Any.matches(&layout));
    assert!(Component(A).matches(&layout));
    assert!(!Component(B).matches(&layout));
    assert!(Not(Component(B)).matches(&layout));
    assert!(And(Component(A), Component(U)).matches(&layout));
    assert!(!And(Component(A), Component(B)).matches(&layout));
    assert!(Or(Component(B), Component(U)).matches(&layout));
    assert!(!Or(Component(B), Not(Any)).matches(&layout));
    assert!(!Component(A).matches(&[]));
}

#[test]
fn entity_map_lifecycle() {
    let mut map = EntityMap::new();
    let e = map.allocate();
    assert_eq!(e, Entity { id: 0, generation: 0 });
    assert!(!map.contains(e));
    let data = EntityData(ArchetypeIndex(1), ComponentIndex(3));
    map.set(e, data);
    assert!(map.contains(e));
    assert_eq!(map.get(e), Some(data));
    assert_eq!(data.archetype(), ArchetypeIndex(1));
    assert_eq!(data.component(), ComponentIndex(3));
    assert_eq!(map.occupant(0), Some(e));
    assert_eq!(map.remove(e), Some(data));
    assert_eq!(map.remove(e), None);
    assert_eq!(map.generation_of(0), 1);
    assert_eq!(map.occupant(0), None);
    let again = map.allocate();
    assert_eq!(again, Entity { id: 0, generation: 1 });
}

#[test]
fn entity_map_retires_exhausted_slot() {
    let mut map = EntityMap::new();
    let e = Entity { id: 0, generation: u32::MAX };
    map.reserve(e);
    map.set(e, EntityData(ArchetypeIndex(0), ComponentIndex(0)));
    assert_eq!(map.remove(e), Some(EntityData(ArchetypeIndex(0), ComponentIndex(0))));
    assert_eq!(map.generation_of(0), u32::MAX);
    let next = map.allocate();
    assert_eq!(next, Entity { id: 1, generation: 0 });
}

#[test]
fn entity_map_reserve_fills_gap() {
    let mut map = EntityMap::new();
    map.reserve(Entity { id: 3, generation: 7 });
    assert_eq!(map.generation_of(3), 7);
    let ids: Vec<u32> = (0..3).map(|_| map.allocate().id).collect();
    let mut sorted = ids.clone();
    sorted.sort();
    assert_eq!(sorted, vec![0, 1, 2]);
    assert_eq!(map.allocate().id, 4);
}

#[test]
fn vec_storage_swap_remove() {
    let mut s = VecStorage::new();
    s.push(1u32);
    s.push(2);
    s.push(3);
    s.swap_remove(0);
    assert_eq!(s.len(), 2);
    assert_eq!(s.get(0), Some(&3));
    assert_eq!(s.get(1), Some(&2));
    assert_eq!(s.get(2), None);
    s.set(1, 9);
    assert_eq!(s.get(1), Some(&9));
    s.update_all(|v| v + 1);
    assert_eq!(s.get(0), Some(&4));
    assert_eq!(s.get(1), Some(&10));
}

#[test]
fn null_storage_counts_rows() {
    let mut s = NullStorage::new();
    s.push();
    s.push();
    s.push();
    assert_eq!(s.len(), 3);
    s.swap_remove(1);
    assert_eq!(s.len(), 2);
}

#[test]
fn unit_column_holds_no_values() {
    let mut c = ColumnStorage::new(StorageKind::Unit);
    c.push(1u8);
    c.push(2u8);
    assert_eq!(c.len(), 2);
    assert_eq!(c.get(0), None);
    c.set(1, 5);
    assert_eq!(c.get(1), None);
    c.update_all(|v| v * 2);
    c.swap_remove(0);
    assert_eq!(c.len(), 1);
}

#[test]
fn dense_column_keeps_rows() {
    let mut c = ColumnStorage::new(StorageKind::Dense);
    c.push(1u8);
    c.push(2u8);
    c.push(3u8);
    c.swap_remove(0);
    assert_eq!(c.get(0), Some(&3));
    assert_eq!(c.get(1), Some(&2));
    c.set(0, 7);
    assert_eq!(c.get(0), Some(&7));
    assert_eq!(c.get(1), Some(&2));
}

#[test]
fn archetype_storage_columns() {
    let mut st: ArchetypeStorage<i32> = ArchetypeStorage::new(A);
    assert_eq!(st.component_type(), A);
    assert!(st.get(ArchetypeIndex(0)).is_none());
    st.register_archetype(ArchetypeIndex(2));
    assert!(st.get(ArchetypeIndex(1)).is_none());
    st.extend(ArchetypeIndex(2), 5);
    st.extend(ArchetypeIndex(2), 6);
    st.set(ArchetypeIndex(2), 0, 8);
    assert_eq!(st.get(ArchetypeIndex(2)).unwrap().get(0), Some(&8));
    st.swap_remove(ArchetypeIndex(2), 0);
    assert_eq!(st.get(ArchetypeIndex(2)).unwrap().get(0), Some(&6));
    st.update(ArchetypeIndex(2), |v| v - 1);
    match st.get_mut(ArchetypeIndex(2)) {
        Some(column) => column.push(40),
        None => panic!("column was registered"),
    }
    let column = st.get(ArchetypeIndex(2)).unwrap();
    assert_eq!(column.len(), 2);
    assert_eq!(column.get(0), Some(&5));
    assert_eq!(column.get(1), Some(&40));
    assert!(st.get_mut(ArchetypeIndex(7)).is_none());
}

#[test]
fn registry_lookup() {
    let mut reg: Components<i32> = Components::new();
    let a = reg.get_or_insert(A);
    let b = reg.get_or_insert(B);
    assert_ne!(a, b);
    assert_eq!(reg.get_or_insert(A), a);
    assert_eq!(reg.position(B), Some(b));
    assert_eq!(reg.position(U), None);
    assert_eq!(reg.get(A).unwrap().component_type(), A);
    assert!(reg.get(U).is_none());
    reg.register_archetype(a, ArchetypeIndex(0));
    reg.extend(a, ArchetypeIndex(0), 3);
    match reg.get_mut(A) {
        Some(st) => st.extend(ArchetypeIndex(0), 4),
        None => panic!("storage exists"),
    }
    assert_eq!(reg.get_at(a).get(ArchetypeIndex(0)).unwrap().len(), 2);
    assert!(reg.get_mut(U).is_none());
}
