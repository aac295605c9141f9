use ecs::component::{Component, ComponentType};
use ecs::entity::{EntityManager, EntityQueryTable};
use ecs::system::{MultiThreadSystem, System};
use ecs::world::{SystemType, World};

#[derive(Debug, Clone, PartialEq)]
enum Data {
    Named(&'static str),
    Position { x: f32, y: f32 },
}

impl Component for Data {}

const NAMED: ComponentType = 0;
const POSITION: ComponentType = 1;

#[test]
fn simple_test() {
    #[derive(Debug)]
    struct NameSystem;

    impl System<Data, ()> for NameSystem {
        fn update(
            &mut self,
            manager: &mut EntityManager<Data>,
            table: &mut EntityQueryTable,
            _: &(),
        ) -> Option<()> {
            // restrain entities to only contain entities which have Named and Position
            let entity_ids = table.query(manager, &[NAMED, POSITION])?;

            for entity in entity_ids {
                let name = match manager.component_of(entity, NAMED)? {
                    Data::Named(name) => *name,
                    _ => return None,
                };

                // mutate the x/y of the entity
                if let Data::Position { x, y } = manager.component_of_mut(entity, POSITION)? {
                    *x += 0.1;
                    *y += 0.3;

                    println!("{} moved to: {:.1}, {:.1}", name, x, y);
                }
            }

            None
        }
    }

    let mut world = World::<Data, ()>::new();

    world
        .register(NAMED)
        .register(POSITION)
        .with_system(SystemType::Loop, NameSystem);

    let entity = world.entity();

    world
        .with(entity, NAMED, Data::Named("NV6"))
        .with(entity, POSITION, Data::Position { x: 37.3, y: 37.1 });

    for _ in 0..3 {
        world.update(SystemType::Loop, &());
    }

    match world.entity_manager.component_of(entity, POSITION) {
        Some(Data::Position { x, y }) => {
            assert!((x - 37.6).abs() < 1e-3);
            assert!((y - 38.0).abs() < 1e-3);
        }
        _ => panic!("position missing"),
    }
}

struct Counter {
    runs: usize,
    seen_frames: Vec<u64>,
}

impl System<Data, u64> for Counter {
    fn update(
        &mut self,
        manager: &mut EntityManager<Data>,
        _: &mut EntityQueryTable,
        data: &u64,
    ) -> Option<()> {
        self.runs += 1;
        self.seen_frames.push(manager.frame() + data);
        Some(())
    }
}

struct Spawner;

impl MultiThreadSystem<Data> for Spawner {
    fn update(&mut self, manager: &mut EntityManager<Data>, _: &mut EntityQueryTable) -> Option<()> {
        let e = manager.entity();
        manager.entity_with(e, NAMED, Data::Named("spawned"));
        Some(())
    }
}

#[test]
fn update_ticks_frame_after_each_system() {
    let mut world = World::<Data, u64>::new();
    world
        .with_system(SystemType::Loop, Counter { runs: 0, seen_frames: vec![] })
        .with_system(SystemType::Loop, Counter { runs: 0, seen_frames: vec![] })
        .with_system(SystemType::Init, Counter { runs: 0, seen_frames: vec![] });
    world.update(SystemType::Loop, &0);
    assert_eq!(world.entity_manager.frame(), 2);
    world.update(SystemType::Init, &0);
    assert_eq!(world.entity_manager.frame(), 3);
    world.update(SystemType::Loop, &0);
    assert_eq!(world.entity_manager.frame(), 5);
}

#[test]
fn threaded_systems_run_after_the_others() {
    let mut world = World::<Data, u64>::new();
    world
        .with_threaded_system(SystemType::Loop, Spawner)
        .with_system(SystemType::Loop, Counter { runs: 0, seen_frames: vec![] });
    world.update(SystemType::Loop, &0);
    assert_eq!(world.entity_manager.frame(), 2);
    assert_eq!(world.entity_manager.component_of(0, NAMED), Some(&Data::Named("spawned")));
    assert_eq!(world.entity_manager.get_updated_frame(NAMED), 1);
    world.update(SystemType::Init, &0);
    assert_eq!(world.entity_manager.frame(), 2);
}

#[test]
fn world_entities_and_components() {
    let mut world = World::<Data, ()>::new();
    let a = world.entity();
    let b = world.entity();
    assert_eq!((a, b), (0, 1));
    world.with(a, NAMED, Data::Named("a"));
    world.remove_entity(a);
    assert_eq!(world.entity_manager.component_of(a, NAMED), None);
    assert_eq!(world.entity(), 0);
    let boxed = world.boxed();
    assert_eq!(boxed.entity_manager.frame(), 0);
}

#[test]
fn update_without_systems_leaves_frame() {
    let mut world = World::<Data, ()>::new();
    world.update(SystemType::Loop, &());
    world.update(SystemType::Init, &());
    assert_eq!(world.entity_manager.frame(), 0);
}
