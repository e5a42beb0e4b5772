use vstd::prelude::*;

verus! {

/// Identifies a registered model, and with it the instance group of that model.
#[derive(Clone, Copy, Debug, PartialEq, Eq, Structural)]
pub struct ModelHandle(pub u16);

/// Identifies one instance: the model it belongs to and its slot id in that
/// model's group. The slot id stays the same for the instance's whole life,
/// even when its record moves inside the dense array.
#[derive(Clone, Copy, Debug, PartialEq, Eq, Structural)]
pub struct InstanceHandle(pub ModelHandle, pub u16);

/// Failures of a frame submission, reported by the render loop.
#[derive(Clone, Copy, Debug, PartialEq, Eq, Structural)]
pub enum RenderError {
    Timeout,
    OutOfMemory,
}

/// Failures of the instance operations. Each one leaves all state unchanged.
#[derive(Clone, Copy, Debug, PartialEq, Eq, Structural)]
pub enum InstanceError {
    /// An add or a bulk set would go beyond the capacity reserved for the model.
    CapacityExceeded,
    /// The slot of the handle is not live in its model's group.
    InvalidHandle,
    /// No group is registered for the model.
    UnregisteredModel,
    /// A group is already registered for the model.
    AlreadyRegistered,
}

} // verus!
