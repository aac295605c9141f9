//! The unit of per-tick logic.
use vstd::prelude::*;
use crate::entity::EntityManager;
use crate::query::EntityQueryTable;

verus! {

/// Logic run once per tick against the manager and the query table, with
/// data of type `T` handed in by the caller. Returning `None` means that
/// something the system needed was missing; it is not an error. A system
/// leaves the frame counter to the world that runs it.
pub trait System<V, T> {
    fn update(&mut self, manager: &mut EntityManager<V>, table: &mut EntityQueryTable, data: &T) -> (r:
        Option<()>)
        requires
            old(manager).wf(),
        ensures
            final(manager).wf(),
            final(manager)@.frame == old(manager)@.frame,
    ;
}

/// A system that needs no caller data and may be dispatched apart from the
/// others; like `System`, it leaves the frame counter alone.
pub trait MultiThreadSystem<V> {
    fn update(&mut self, manager: &mut EntityManager<V>, table: &mut EntityQueryTable) -> (r: Option<()>)
        requires
            old(manager).wf(),
        ensures
            final(manager).wf(),
            final(manager)@.frame == old(manager)@.frame,
    ;
}

} // verus!
