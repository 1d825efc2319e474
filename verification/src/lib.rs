//! A small entity-component-system core: generational entity handles, per-kind component
//! storages, access-checked queries and deferred commands.

pub mod commands;
pub mod component;
pub mod entity;
pub mod error;
pub mod laws;
pub mod query;
pub mod rendering;
pub mod time;
pub mod window;
pub mod world;

pub use entity::{Entities, Entity};

pub use error::BorrowMutError;
pub use query::{ComponentQuery, Query};
pub use world::{QueryResponse, ResourceId, World};

pub use commands::{Command, CommandBuffer, Commands};
pub use rendering::{IndirectMaterial, WorldId};
pub use time::Time;
pub use window::WindowMode;
