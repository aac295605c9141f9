use ecs::component::{Component, ComponentManager, SimpleComponentManager, TypedComponentManager};

#[derive(Debug, Clone, PartialEq)]
struct Position {
    x: i32,
    y: i32,
}

impl Component for Position {}

#[test]
fn store_get_returns_inserted_value() {
    let mut store = SimpleComponentManager::<Position>::new(3);
    assert!(!store.has(5));
    assert_eq!(store.get(5), None);
    store.insert(5, Position { x: 1, y: 2 });
    store.insert(9, Position { x: 3, y: 4 });
    assert!(store.has(5));
    assert_eq!(store.get(5), Some(&Position { x: 1, y: 2 }));
    assert_eq!(store.get(9), Some(&Position { x: 3, y: 4 }));
    assert_eq!(store.entities(), &vec![5, 9]);
    assert_eq!(store.component_type(), 3);
}

#[test]
fn store_insert_keeps_first_value() {
    let mut store = SimpleComponentManager::<Position>::new(0);
    store.insert(1, Position { x: 1, y: 1 });
    store.insert(1, Position { x: 2, y: 2 });
    assert_eq!(store.get(1), Some(&Position { x: 1, y: 1 }));
    assert_eq!(store.entities(), &vec![1]);
}

#[test]
fn store_remove_swaps_last_into_slot() {
    let mut store = SimpleComponentManager::<Position>::new(0);
    store.insert(10, Position { x: 10, y: 0 });
    store.insert(20, Position { x: 20, y: 0 });
    store.insert(30, Position { x: 30, y: 0 });
    store.remove(10);
    assert!(!store.has(10));
    assert_eq!(store.get(10), None);
    assert_eq!(store.entities(), &vec![30, 20]);
    assert_eq!(store.get(20), Some(&Position { x: 20, y: 0 }));
    assert_eq!(store.get(30), Some(&Position { x: 30, y: 0 }));
    store.remove(10);
    assert_eq!(store.entities(), &vec![30, 20]);
    store.remove(20);
    store.remove(30);
    assert!(store.entities().is_empty());
    store.insert(10, Position { x: 7, y: 7 });
    assert_eq!(store.get(10), Some(&Position { x: 7, y: 7 }));
}

#[test]
fn store_remove_last_element() {
    let mut store = SimpleComponentManager::<Position>::new(0);
    store.insert(1, Position { x: 1, y: 0 });
    store.insert(2, Position { x: 2, y: 0 });
    store.remove(2);
    assert_eq!(store.entities(), &vec![1]);
    assert_eq!(store.get(1), Some(&Position { x: 1, y: 0 }));
}

#[test]
fn store_get_mut_changes_value_in_place() {
    let mut store = SimpleComponentManager::<Position>::new(0);
    store.insert(4, Position { x: 0, y: 0 });
    if let Some(p) = store.get_mut(4) {
        p.x = 40;
    }
    assert!(store.get_mut(5).is_none());
    assert_eq!(store.get(4), Some(&Position { x: 40, y: 0 }));
}

#[test]
fn store_borrow_components_mut_in_dense_order() {
    let mut store = SimpleComponentManager::<Position>::new(0);
    store.insert(8, Position { x: 8, y: 0 });
    store.insert(2, Position { x: 2, y: 0 });
    let values = store.borrow_components_mut();
    assert_eq!(values.len(), 2);
    assert_eq!(values[0], Position { x: 8, y: 0 });
    values[1].y = 5;
    assert_eq!(store.get(2), Some(&Position { x: 2, y: 5 }));
}

#[test]
fn store_trait_operations() {
    let mut store = SimpleComponentManager::<Position>::new(6);
    TypedComponentManager::with(&mut store, 1, Position { x: 1, y: 1 });
    TypedComponentManager::with(&mut store, 1, Position { x: 9, y: 9 });
    assert!(ComponentManager::has(&store, 1));
    assert_eq!(TypedComponentManager::component(&store, 1), Some(&Position { x: 1, y: 1 }));
    if let Some(p) = TypedComponentManager::component_mut(&mut store, 1) {
        p.y = 3;
    }
    assert_eq!(TypedComponentManager::component(&store, 1), Some(&Position { x: 1, y: 3 }));
    assert_eq!(ComponentManager::get_type_id(&store), 6);
    ComponentManager::clear(&mut store, 1);
    assert!(!ComponentManager::has(&store, 1));
    assert_eq!(TypedComponentManager::component(&store, 1), None);
}

#[test]
fn store_trait_clear_absent_and_with_holder_change_nothing() {
    let mut store = SimpleComponentManager::<Position>::new(1);
    TypedComponentManager::with(&mut store, 4, Position { x: 4, y: 0 });
    TypedComponentManager::with(&mut store, 5, Position { x: 5, y: 0 });
    ComponentManager::clear(&mut store, 9);
    assert_eq!(store.entities(), &vec![4, 5]);
    TypedComponentManager::with(&mut store, 4, Position { x: 0, y: 0 });
    assert_eq!(store.entities(), &vec![4, 5]);
    assert_eq!(store.get(4), Some(&Position { x: 4, y: 0 }));
    ComponentManager::clear(&mut store, 4);
    assert_eq!(store.entities(), &vec![5]);
    assert_eq!(store.get(5), Some(&Position { x: 5, y: 0 }));
}
