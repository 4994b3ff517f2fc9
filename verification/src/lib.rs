//! Lock-free-style stack and queue over a hazard-pointer reclamation scheme.
//!
//! Nodes live in an explicit arena and are addressed by ids; a removed node is
//! first *retired* into a retire list and only *reclaimed* (freed) by a
//! reclamation pass that proves no hazard record still protects it.

pub mod hazard;
pub mod queue;
pub mod stack;

pub use crate::hazard::try_reclaim;
pub use crate::hazard::{Arena, BoxedPointer, Doer, Guard, Holder};
pub use crate::queue::Queue;
pub use crate::stack::Stack;
