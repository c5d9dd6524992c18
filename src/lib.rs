//! Reactive observers over an entity store: observers are registered with
//! match criteria, events are emitted against target entities and component
//! kinds, and every matching observer runs at most once per emission.

pub mod builder;
pub mod apply;
pub mod descriptor;
pub mod entity;
pub mod laws;
pub mod runner;
pub mod world;
