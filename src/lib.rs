//! Composable prototype chains of component edits for an entity-component store,
//! applied lazily through one-shot deferred tasks, and a reactive mirror that keeps
//! two relationship fields on different entities consistent.

pub mod chain;
pub mod entity;
pub mod world;
pub mod laws;

pub use chain::{Component, Op, Edit, DynBundle, IntoDynBundle};
pub use entity::EntityComponents;
pub use world::{Side, Command, StaleReference, World, WorldView, EntityView, insert_hook, replace_hook};
