//! Per-model instance storage for instanced rendering: a fixed-capacity
//! sparse-set allocator per model whose dense record array is mirrored,
//! write by write, into a GPU buffer of the same capacity.
pub mod handle;
pub mod raw;
pub mod group;
pub mod manager;

pub use handle::{InstanceError, InstanceHandle, ModelHandle, RenderError};
pub use group::InstanceGroup;
pub use manager::InstanceManager;
pub use raw::{BufferWrite, InstanceRaw, INSTANCE_SIZE};
