//! Kinds of components and the storages that hold them.

pub mod bitset;
pub mod registry;
pub mod storage;

pub use registry::{BorrowState, ComponentEntry, ComponentId, ComponentInfo, ComponentRegistry};
pub use storage::{Storage, StorageType, VecStorage};
