use ecs::component::{Component, ComponentType};
use ecs::entity::{EntityManager, EntityQueryTable};

#[derive(Debug, Clone, PartialEq)]
enum Data {
    Position { x: i32, y: i32 },
    Named(&'static str),
    Marker,
}

impl Component for Data {}

const NAMED: ComponentType = 0;
const POSITION: ComponentType = 1;
const TYPE_A: ComponentType = 2;
const TYPE_B: ComponentType = 3;
const TYPE_C: ComponentType = 4;

fn manager_with_entities(n: usize) -> EntityManager<Data> {
    let mut manager = EntityManager::new();
    for _ in 0..n {
        manager.entity();
    }
    manager
}

#[test]
fn single_query_sees_detach_after_tick() {
    let mut manager = EntityManager::<Data>::new();
    let mut table = EntityQueryTable::new();
    manager.register(POSITION);
    let e = manager.entity();
    assert_eq!(e, 0);
    manager.entity_with(e, POSITION, Data::Position { x: 1, y: 1 });
    assert_eq!(table.query_single(&manager, POSITION), Some(&vec![0]));
    manager.remove_entity(0);
    manager.tick_frame();
    assert_eq!(table.query_single(&manager, POSITION), Some(&vec![]));
}

#[test]
fn tuple_query_named_and_position() {
    let mut manager = EntityManager::<Data>::new();
    let mut table = EntityQueryTable::new();
    manager.register(NAMED).register(POSITION);
    let first = manager.entity();
    let second = manager.entity();
    manager.entity_with(first, NAMED, Data::Named("first"));
    manager.entity_with(first, POSITION, Data::Position { x: 0, y: 0 });
    assert_eq!(table.query(&manager, &[NAMED, POSITION]), Some(vec![0]));
    assert_eq!(second, 1);
}

#[test]
fn single_query_of_type_nobody_holds_is_empty() {
    let mut manager = EntityManager::<Data>::new();
    let mut table = EntityQueryTable::new();
    manager.register(NAMED).register(POSITION);
    let e = manager.entity();
    manager.entity_with(e, POSITION, Data::Position { x: 3, y: 4 });
    assert_eq!(table.query_single(&manager, NAMED), Some(&vec![]));
    assert_eq!(table.query_single(&manager, POSITION), Some(&vec![e]));
}

fn intersection_fixture(a_first: bool) -> Option<Vec<usize>> {
    let mut manager = manager_with_entities(5);
    if a_first {
        manager.register(TYPE_A).register(TYPE_B);
    } else {
        manager.register(TYPE_B).register(TYPE_A);
    }
    for e in [1, 2, 3] {
        manager.entity_with(e, TYPE_A, Data::Marker);
    }
    for e in [2, 3, 4] {
        manager.entity_with(e, TYPE_B, Data::Marker);
    }
    let mut table = EntityQueryTable::new();
    table.query(&manager, &[TYPE_A, TYPE_B])
}

#[test]
fn tuple_query_intersects_sets() {
    assert_eq!(intersection_fixture(true), Some(vec![2, 3]));
}

#[test]
fn tuple_query_intersection_ignores_registration_order() {
    assert_eq!(intersection_fixture(false), Some(vec![2, 3]));
}

#[test]
fn tuple_query_follows_first_type_order() {
    let mut manager = manager_with_entities(5);
    for e in [4, 2, 0] {
        manager.entity_with(e, TYPE_A, Data::Marker);
    }
    for e in [0, 1, 2, 3, 4] {
        manager.entity_with(e, TYPE_B, Data::Marker);
    }
    let mut table = EntityQueryTable::new();
    assert_eq!(table.query(&manager, &[TYPE_A, TYPE_B]), Some(vec![4, 2, 0]));
    assert_eq!(table.query(&manager, &[TYPE_B, TYPE_A]), Some(vec![0, 2, 4]));
    assert_eq!(table.query(&manager, &[TYPE_A, TYPE_A]), Some(vec![4, 2, 0]));
    assert_eq!(table.query(&manager, &[]), Some(vec![]));
}

#[test]
fn query_of_unregistered_type_fails() {
    let mut manager = manager_with_entities(2);
    manager.entity_with(0, TYPE_A, Data::Marker);
    let mut table = EntityQueryTable::new();
    assert_eq!(table.query(&manager, &[TYPE_A, TYPE_B]), None);
    assert_eq!(table.query_single(&manager, TYPE_B), None);
    assert_eq!(table.query(&manager, &[TYPE_A]), Some(vec![0]));
}

#[test]
fn tuple_query_coherent_across_unrelated_change_and_removal() {
    let mut manager = manager_with_entities(3);
    let mut table = EntityQueryTable::new();
    manager.register(TYPE_A).register(TYPE_B).register(TYPE_C);
    manager.entity_with(1, TYPE_A, Data::Marker);
    manager.entity_with(1, TYPE_B, Data::Marker);
    manager.entity_with(2, TYPE_A, Data::Marker);
    assert_eq!(table.query(&manager, &[TYPE_A, TYPE_B]), Some(vec![1]));
    manager.tick_frame();
    manager.entity_with(0, TYPE_C, Data::Marker);
    assert_eq!(table.query(&manager, &[TYPE_A, TYPE_B]), Some(vec![1]));
    manager.remove_entity(1);
    manager.tick_frame();
    assert_eq!(table.query(&manager, &[TYPE_A, TYPE_B]), Some(vec![]));
    assert_eq!(table.query_single(&manager, TYPE_A), Some(&vec![2]));
}

#[test]
fn attach_in_same_frame_is_visible() {
    let mut manager = manager_with_entities(2);
    let mut table = EntityQueryTable::new();
    manager.entity_with(0, TYPE_A, Data::Marker);
    assert_eq!(table.query_single(&manager, TYPE_A), Some(&vec![0]));
    manager.entity_with(1, TYPE_A, Data::Marker);
    assert_eq!(table.query_single(&manager, TYPE_A), Some(&vec![0, 1]));
}

#[test]
fn tuple_query_sees_attach_in_frame_of_first_query() {
    let mut manager = manager_with_entities(1);
    let mut table = EntityQueryTable::new();
    manager.register(TYPE_A).register(TYPE_B);
    assert_eq!(table.query(&manager, &[TYPE_A, TYPE_B]), Some(vec![]));
    manager.entity_with(0, TYPE_A, Data::Marker);
    manager.entity_with(0, TYPE_B, Data::Marker);
    assert_eq!(manager.frame(), 0);
    assert_eq!(table.query(&manager, &[TYPE_A, TYPE_B]), Some(vec![0]));
}

#[test]
fn second_removal_in_same_frame_is_seen() {
    let mut manager = manager_with_entities(2);
    let mut table = EntityQueryTable::new();
    for e in [0, 1] {
        manager.entity_with(e, TYPE_A, Data::Marker);
        manager.entity_with(e, TYPE_B, Data::Marker);
    }
    assert_eq!(table.query(&manager, &[TYPE_A, TYPE_B]), Some(vec![0, 1]));
    manager.remove_entity(0);
    assert_eq!(table.query(&manager, &[TYPE_A, TYPE_B]), Some(vec![1]));
    manager.remove_entity(1);
    manager.tick_frame();
    assert_eq!(table.query(&manager, &[TYPE_A, TYPE_B]), Some(vec![]));
    manager.tick_frame();
    assert_eq!(table.query(&manager, &[TYPE_A, TYPE_B]), Some(vec![]));
}

#[test]
fn direct_store_access_invalidates_cache() {
    let mut manager = manager_with_entities(2);
    let mut table = EntityQueryTable::new();
    manager.entity_with(0, TYPE_A, Data::Marker);
    assert_eq!(table.query_single(&manager, TYPE_A), Some(&vec![0]));
    manager.borrow_manager_mut(TYPE_A).unwrap().insert(1, Data::Marker);
    assert_eq!(table.query_single(&manager, TYPE_A), Some(&vec![0, 1]));
}
