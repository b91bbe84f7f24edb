//! Save and restore a filtered subset of an entity-component world.
//!
//! A save walks the live world under a filter and captures one record per
//! qualifying entity. A load clears the entities left by an earlier load,
//! spawns one fresh entity per record, and only then fills in the components,
//! rewriting every entity reference through the old-to-new identity table.
pub mod entity;
pub mod mapper;
pub mod component;
pub mod world;
pub mod filter;
pub mod snapshot;
pub mod save;
pub mod load;
pub mod laws;
pub mod codec;
