//! The world: an entity manager, a query table and the systems, run in
//! registration order.
use vstd::prelude::*;
use crate::component::{Component, ComponentType};
use crate::entity::{next_frame, EntityManager};
use crate::query::{EntityQueryTable, TableView};
use crate::system::{MultiThreadSystem, System};

verus! {

/// The phase a system runs in.
#[derive(Debug, Clone, Copy, Hash, PartialEq, Eq, Structural)]
pub enum SystemType {
    Init,
    Loop,
}

/// A registered system that takes caller data.
#[verifier::reject_recursive_types(V)]
#[verifier::reject_recursive_types(F)]
pub struct Scheduled<V, F> {
    system: Box<dyn System<V, F>>,
}

/// A registered independently dispatchable system.
#[verifier::reject_recursive_types(V)]
pub struct ScheduledThreaded<V> {
    system: Box<dyn MultiThreadSystem<V>>,
}

/// The frame after `n` advances from `frame`.
pub open spec fn advanced(frame: u64, n: nat) -> u64
    decreases n,
{
    if n == 0 {
        frame
    } else {
        next_frame(advanced(frame, (n - 1) as nat))
    }
}

/// The systems of a world, by phase; each phase keeps its own systems in
/// registration order.
#[verifier::reject_recursive_types(V)]
#[verifier::reject_recursive_types(F)]
pub struct SystemContainer<V, F> {
    loop_systems: Vec<Scheduled<V, F>>,
    init_systems: Vec<Scheduled<V, F>>,
    threaded_loop_systems: Vec<ScheduledThreaded<V>>,
    threaded_init_systems: Vec<ScheduledThreaded<V>>,
}

impl<V, F> SystemContainer<V, F> {
    /// The systems that take caller data, in the phase, in registration order.
    pub closed spec fn systems(&self, phase: SystemType) -> Seq<Scheduled<V, F>> {
        match phase {
            SystemType::Init => self.init_systems@,
            SystemType::Loop => self.loop_systems@,
        }
    }

    /// The independently dispatchable systems, in the phase, in registration
    /// order.
    pub closed spec fn threaded_systems(&self, phase: SystemType) -> Seq<ScheduledThreaded<V>> {
        match phase {
            SystemType::Init => self.threaded_init_systems@,
            SystemType::Loop => self.threaded_loop_systems@,
        }
    }

    pub open spec fn system_count(&self, phase: SystemType) -> nat {
        self.systems(phase).len()
    }

    pub open spec fn threaded_count(&self, phase: SystemType) -> nat {
        self.threaded_systems(phase).len()
    }
}

/// An entity manager, a query table and the systems that run against them.
#[verifier::reject_recursive_types(V)]
#[verifier::reject_recursive_types(F)]
pub struct World<V, F> {
    pub entity_manager: EntityManager<V>,
    pub entity_query_table: EntityQueryTable,
    pub system_container: SystemContainer<V, F>,
}

fn schedule<V, F, T: System<V, F> + 'static>(system: T) -> Scheduled<V, F> {
    Scheduled { system: Box::new(system) }
}

fn schedule_threaded<V, T: MultiThreadSystem<V> + 'static>(system: T) -> ScheduledThreaded<V> {
    ScheduledThreaded { system: Box::new(system) }
}

impl<V: Component, F> World<V, F> {
    pub open spec fn wf(&self) -> bool {
        self.entity_manager.wf()
    }

    pub fn new() -> (r: Self)
        ensures
            r.wf(),
            r.entity_manager@.allocator.next == 0,
            r.entity_manager@.allocator.free.is_empty(),
            r.entity_manager@.stores.is_empty(),
            r.entity_manager@.changed.is_empty(),
            r.entity_manager@.frame == 0,
            r.entity_query_table@ == TableView::empty(),
            forall|p: SystemType|
                r.system_container.system_count(p) == 0 && r.system_container.threaded_count(p)
                    == 0,
    {
        World {
            entity_manager: EntityManager::new(),
            entity_query_table: EntityQueryTable::new(),
            system_container: SystemContainer {
                loop_systems: Vec::new(),
                init_systems: Vec::new(),
                threaded_loop_systems: Vec::new(),
                threaded_init_systems: Vec::new(),
            },
        }
    }

    /// The world, moved to the heap.
    pub fn boxed(self) -> (r: Box<Self>)
        ensures
            *r == self,
    {
        Box::new(self)
    }

    /// Creates an entity.
    pub fn entity(&mut self) -> (r: usize)
        requires
            old(self).wf(),
            old(self).entity_manager@.allocator.can_allocate(),
        ensures
            final(self).wf(),
            r == old(self).entity_manager@.allocator.next_id(),
            final(self).entity_manager@ == old(self).entity_manager@.create_entity(),
            final(self).entity_query_table == old(self).entity_query_table,
            final(self).system_container == old(self).system_container,
    {
        self.entity_manager.entity()
    }

    /// Removes every component of the entity and releases its id.
    pub fn remove_entity(&mut self, entity: usize)
        requires
            old(self).wf(),
            old(self).entity_manager@.changes < u64::MAX,
        ensures
            final(self).wf(),
            final(self).entity_manager@ == old(self).entity_manager@.detach_all(entity),
            final(self).entity_query_table == old(self).entity_query_table,
            final(self).system_container == old(self).system_container,
    {
        self.entity_manager.remove_entity(entity);
    }

    /// Registers a component type.
    pub fn register(&mut self, ty: ComponentType) -> (r: &mut Self)
        requires
            old(self).wf(),
        ensures
            r.wf(),
            r.entity_manager@ == old(self).entity_manager@.register(ty),
            r.entity_query_table == old(self).entity_query_table,
            r.system_container == old(self).system_container,
            *final(self) == *final(r),
    {
        self.entity_manager.register(ty);
        self
    }

    /// Attaches a component of the type to the entity.
    pub fn with(&mut self, entity: usize, ty: ComponentType, component: V) -> (r: &mut Self)
        requires
            old(self).wf(),
            old(self).entity_manager@.stores.contains_key(ty)
                ==> old(self).entity_manager@.stores[ty].order.len() < usize::MAX,
            old(self).entity_manager@.changes < u64::MAX,
        ensures
            r.wf(),
            r.entity_manager@ == old(self).entity_manager@.attach(entity, ty, component),
            r.entity_query_table == old(self).entity_query_table,
            r.system_container == old(self).system_container,
            *final(self) == *final(r),
    {
        self.entity_manager.entity_with(entity, ty, component);
        self
    }

    /// Adds a system at the end of the phase.
    pub fn with_system<T: System<V, F> + 'static>(&mut self, system_type: SystemType, system: T) -> (r:
        &mut Self)
        ensures
            r.entity_manager == old(self).entity_manager,
            r.entity_query_table == old(self).entity_query_table,
            r.system_container.system_count(system_type) == old(self).system_container.system_count(
                system_type,
            ) + 1,
            r.system_container.systems(system_type).subrange(
                0,
                old(self).system_container.system_count(system_type) as int,
            ) == old(self).system_container.systems(system_type),
            forall|p: SystemType|
                p != system_type ==> r.system_container.systems(p)
                    == old(self).system_container.systems(p),
            forall|p: SystemType|
                r.system_container.threaded_systems(p) == old(self).system_container.threaded_systems(p),
            *final(self) == *final(r),
    {
        let entry = schedule(system);
        match system_type {
            SystemType::Init => self.system_container.init_systems.push(entry),
            SystemType::Loop => self.system_container.loop_systems.push(entry),
        }
        assert(self.system_container.systems(system_type).subrange(
            0,
            old(self).system_container.system_count(system_type) as int,
        ) =~= old(self).system_container.systems(system_type));
        self
    }

    /// Adds an independently dispatchable system at the end of the phase.
    pub fn with_threaded_system<T: MultiThreadSystem<V> + 'static>(
        &mut self,
        system_type: SystemType,
        system: T,
    ) -> (r: &mut Self)
        ensures
            r.entity_manager == old(self).entity_manager,
            r.entity_query_table == old(self).entity_query_table,
            r.system_container.threaded_count(system_type)
                == old(self).system_container.threaded_count(system_type) + 1,
            r.system_container.threaded_systems(system_type).subrange(
                0,
                old(self).system_container.threaded_count(system_type) as int,
            ) == old(self).system_container.threaded_systems(system_type),
            forall|p: SystemType|
                p != system_type ==> r.system_container.threaded_systems(p)
                    == old(self).system_container.threaded_systems(p),
            forall|p: SystemType|
                r.system_container.systems(p) == old(self).system_container.systems(p),
            *final(self) == *final(r),
    {
        let entry = schedule_threaded(system);
        match system_type {
            SystemType::Init => self.system_container.threaded_init_systems.push(entry),
            SystemType::Loop => self.system_container.threaded_loop_systems.push(entry),
        }
        assert(self.system_container.threaded_systems(system_type).subrange(
            0,
            old(self).system_container.threaded_count(system_type) as int,
        ) =~= old(self).system_container.threaded_systems(system_type));
        self
    }

    /// Runs each system of the phase in registration order, advancing the
    /// frame after each one; then the independently dispatchable systems of
    /// the phase, one after another, in the same way. The `i`-th system run
    /// sees the frame advanced `i` times; a phase without systems leaves the
    /// manager and the query table as they were.
    pub fn update(&mut self, system_type: SystemType, data: &F)
        requires
            old(self).wf(),
        ensures
            final(self).wf(),
            final(self).entity_manager@.frame == advanced(
                old(self).entity_manager@.frame,
                old(self).system_container.system_count(system_type)
                    + old(self).system_container.threaded_count(system_type),
            ),
            old(self).system_container.system_count(system_type)
                + old(self).system_container.threaded_count(system_type) == 0 ==> {
                &&& final(self).entity_manager == old(self).entity_manager
                &&& final(self).entity_query_table == old(self).entity_query_table
            },
            forall|p: SystemType|
                final(self).system_container.system_count(p) == old(self).system_container.system_count(p)
                    && final(self).system_container.threaded_count(p)
                    == old(self).system_container.threaded_count(p),
    {
        let n = match system_type {
            SystemType::Init => self.system_container.init_systems.len(),
            SystemType::Loop => self.system_container.loop_systems.len(),
        };
        let mut i: usize = 0;
        while i < n
            invariant
                self.wf(),
                0 <= i <= n,
                n == self.system_container.system_count(system_type),
                forall|p: SystemType|
                    self.system_container.system_count(p) == old(self).system_container.system_count(p)
                        && self.system_container.threaded_count(p)
                        == old(self).system_container.threaded_count(p),
                self.entity_manager@.frame == advanced(old(self).entity_manager@.frame, i as nat),
                i == 0 ==> self.entity_manager == old(self).entity_manager
                    && self.entity_query_table == old(self).entity_query_table,
            decreases n - i,
        {
            let entry = match system_type {
                SystemType::Init => &mut self.system_container.init_systems[i],
                SystemType::Loop => &mut self.system_container.loop_systems[i],
            };
            let _ = entry.system.update(&mut self.entity_manager, &mut self.entity_query_table, data);
            self.entity_manager.tick_frame();
            i = i + 1;
        }
        let ran = n;
        let n = match system_type {
            SystemType::Init => self.system_container.threaded_init_systems.len(),
            SystemType::Loop => self.system_container.threaded_loop_systems.len(),
        };
        let mut i: usize = 0;
        while i < n
            invariant
                self.wf(),
                0 <= i <= n,
                n == self.system_container.threaded_count(system_type),
                ran == old(self).system_container.system_count(system_type),
                forall|p: SystemType|
                    self.system_container.system_count(p) == old(self).system_container.system_count(p)
                        && self.system_container.threaded_count(p)
                        == old(self).system_container.threaded_count(p),
                self.entity_manager@.frame == advanced(old(self).entity_manager@.frame, (ran + i) as nat),
                ran + i == 0 ==> self.entity_manager == old(self).entity_manager
                    && self.entity_query_table == old(self).entity_query_table,
            decreases n - i,
        {
            let entry = match system_type {
                SystemType::Init => &mut self.system_container.threaded_init_systems[i],
                SystemType::Loop => &mut self.system_container.threaded_loop_systems[i],
            };
            let _ = entry.system.update(&mut self.entity_manager, &mut self.entity_query_table);
            self.entity_manager.tick_frame();
            i = i + 1;
        }
    }
}

} // verus!
