use ecs::component::{Component, ComponentType};
use ecs::entity::{Entity, EntityContainer, EntityManager};

#[derive(Debug, Clone, PartialEq)]
enum Data {
    Position(i32, i32),
    Named(&'static str),
    Velocity(i32),
}

impl Component for Data {}

const POSITION: ComponentType = 0;
const NAMED: ComponentType = 1;
const VELOCITY: ComponentType = 2;

#[test]
fn entity_new_is_alive() {
    let e = Entity::new(7);
    assert_eq!(e.id(), 7);
    assert!(e.is_alive());
}

#[test]
fn container_issues_sequential_ids() {
    let mut c = EntityContainer::new();
    assert!(!c.has(0));
    assert_eq!(c.entity(), 0);
    assert_eq!(c.entity(), 1);
    assert_eq!(c.entity(), 2);
    assert!(c.has(2));
    assert!(!c.has(3));
    assert!(c.is_alive(1));
    assert!(c.can_allocate());
}

#[test]
fn container_reuses_smallest_free_id() {
    let mut c = EntityContainer::new();
    for _ in 0..4 {
        c.entity();
    }
    c.remove(2);
    c.remove(0);
    assert!(!c.is_alive(0));
    assert!(!c.is_alive(2));
    assert!(c.has(2));
    assert_eq!(c.entity(), 0);
    assert!(c.is_alive(0));
    assert_eq!(c.entity(), 2);
    assert_eq!(c.entity(), 4);
}

#[test]
fn container_release_unknown_or_twice_is_noop() {
    let mut c = EntityContainer::new();
    c.entity();
    c.remove(5);
    assert!(!c.has(5));
    c.remove(0);
    c.remove(0);
    assert_eq!(c.entity(), 0);
    assert_eq!(c.entity(), 1);
}

#[test]
fn changed_frame_of_unregistered_is_zero() {
    let manager = EntityManager::<Data>::new();
    assert_eq!(manager.get_updated_frame(POSITION), 0);
    assert_eq!(manager.get_updated_frame_type(POSITION), 0);
    assert_eq!(manager.frame(), 0);
}

#[test]
fn register_records_current_frame() {
    let mut manager = EntityManager::<Data>::new();
    manager.tick_frame();
    manager.tick_frame();
    manager.register(POSITION).register(POSITION);
    assert_eq!(manager.frame(), 2);
    assert_eq!(manager.get_updated_frame(POSITION), 2);
    assert_eq!(manager.query_entity_ids(POSITION), Some(&vec![]));
    assert_eq!(manager.query_entity_ids(NAMED), None);
}

#[test]
fn attach_marks_current_frame_and_detach_next_frame() {
    let mut manager = EntityManager::<Data>::new();
    manager.register(POSITION).register(NAMED);
    let e = manager.entity();
    manager.tick_frame();
    manager.entity_with(e, POSITION, Data::Position(1, 1));
    assert_eq!(manager.get_updated_frame(POSITION), 1);
    assert_eq!(manager.get_updated_frame(NAMED), 0);
    manager.tick_frame();
    manager.remove_entity(e);
    assert_eq!(manager.get_updated_frame(POSITION), 3);
    assert_eq!(manager.get_updated_frame(NAMED), 0);
    assert_eq!(manager.frame(), 2);
}

#[test]
fn attach_registers_unseen_type() {
    let mut manager = EntityManager::<Data>::new();
    let e = manager.entity();
    manager.entity_with(e, VELOCITY, Data::Velocity(3));
    assert_eq!(manager.component_of(e, VELOCITY), Some(&Data::Velocity(3)));
    assert_eq!(manager.query_entity_ids(VELOCITY), Some(&vec![e]));
    assert!(manager.borrow_manager(VELOCITY).is_some());
    assert!(manager.borrow_manager(POSITION).is_none());
}

#[test]
fn attach_twice_keeps_first_component() {
    let mut manager = EntityManager::<Data>::new();
    let e = manager.entity();
    manager
        .entity_with(e, NAMED, Data::Named("first"))
        .entity_with(e, NAMED, Data::Named("second"));
    assert_eq!(manager.component_of(e, NAMED), Some(&Data::Named("first")));
    assert_eq!(manager.query_entity_ids(NAMED), Some(&vec![e]));
}

#[test]
fn recreated_id_has_no_residual_components() {
    let mut manager = EntityManager::<Data>::new();
    let e = manager.entity();
    manager.entity_with(e, POSITION, Data::Position(1, 2));
    manager.entity_with(e, NAMED, Data::Named("old"));
    manager.remove_entity(e);
    let again = manager.entity();
    assert_eq!(again, e);
    assert_eq!(manager.component_of(again, POSITION), None);
    assert_eq!(manager.component_of(again, NAMED), None);
    assert_eq!(manager.query_entity_ids(POSITION), Some(&vec![]));
}

#[test]
fn component_of_mut_changes_only_that_value() {
    let mut manager = EntityManager::<Data>::new();
    let a = manager.entity();
    let b = manager.entity();
    manager.entity_with(a, POSITION, Data::Position(0, 0));
    manager.entity_with(b, POSITION, Data::Position(5, 5));
    let frame_before = manager.get_updated_frame(POSITION);
    if let Some(Data::Position(x, _)) = manager.component_of_mut(b, POSITION) {
        *x = 50;
    }
    assert!(manager.component_of_mut(b, NAMED).is_none());
    assert_eq!(manager.component_of(b, POSITION), Some(&Data::Position(50, 5)));
    assert_eq!(manager.component_of(a, POSITION), Some(&Data::Position(0, 0)));
    assert_eq!(manager.get_updated_frame(POSITION), frame_before);
}

#[test]
fn query_gives_components_in_dense_order() {
    let mut manager = EntityManager::<Data>::new();
    let a = manager.entity();
    let b = manager.entity();
    manager.entity_with(b, VELOCITY, Data::Velocity(2));
    manager.entity_with(a, VELOCITY, Data::Velocity(1));
    assert!(manager.query(POSITION).is_none());
    let values = manager.query(VELOCITY).unwrap();
    assert_eq!(values, &vec![Data::Velocity(2), Data::Velocity(1)]);
    values[1] = Data::Velocity(10);
    assert_eq!(manager.component_of(a, VELOCITY), Some(&Data::Velocity(10)));
}

#[test]
fn borrow_manager_mut_reaches_store() {
    let mut manager = EntityManager::<Data>::new();
    manager.register(NAMED);
    let e = manager.entity();
    manager.borrow_manager_mut(NAMED).unwrap().insert(e, Data::Named("direct"));
    assert_eq!(manager.component_of(e, NAMED), Some(&Data::Named("direct")));
    assert!(manager.borrow_manager_mut(POSITION).is_none());
}

#[test]
fn create_entity_checks_capacity() {
    let mut manager = EntityManager::<Data>::new();
    assert!(manager.can_create_entity());
    assert_eq!(manager.entity(), 0);
    assert_eq!(manager.entity(), 1);
}

#[test]
fn versions_move_on_every_membership_change() {
    let mut manager = EntityManager::<Data>::new();
    let e = manager.entity();
    assert_eq!(manager.version(POSITION), 0);
    manager.register(POSITION);
    assert_eq!(manager.version(POSITION), 0);
    manager.entity_with(e, POSITION, Data::Position(0, 0));
    assert_eq!(manager.version(POSITION), 1);
    manager.entity_with(e, NAMED, Data::Named("n"));
    assert_eq!(manager.version(NAMED), 2);
    assert_eq!(manager.version(POSITION), 1);
    manager.remove_entity(e);
    assert_eq!(manager.version(POSITION), 3);
    assert_eq!(manager.version(NAMED), 3);
    manager.borrow_manager_mut(NAMED);
    assert_eq!(manager.version(NAMED), 4);
    assert_eq!(manager.version(POSITION), 3);
}
