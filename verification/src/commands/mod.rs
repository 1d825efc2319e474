//! Deferred commands: changes to a world that are recorded now and carried out later.

pub mod command;
pub mod command_buffer;

pub use command::Command;
pub use command_buffer::{CommandBuffer, Commands};
