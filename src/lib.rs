//! An entity-component-system runtime: entity identifiers, per-type sparse-set
//! component stores, a frame counter for change tracking, a query cache and a
//! world that runs systems in order.
pub mod component;
pub mod entity;
pub mod query;
pub mod system;
pub mod world;
