//! Core bookkeeping for an instanced-mesh renderer: a hierarchical
//! transform store with change detection, a dense per-mesh instance-slot
//! registry with a per-material entity index, a multi-frame dirty tracker,
//! and a deterministic layout planner for the shared per-frame GPU buffer.
use vstd::prelude::*;

pub mod array;
pub mod asset;
pub mod bits;
pub mod frames;
pub mod hierarchy;
pub mod instance;
pub mod laws;
pub mod layout;
pub mod render;
pub mod scene;
pub mod transform;

verus! {

/// The error conditions this crate reports. All other behaviour is total.
#[derive(Debug, Clone, Copy, PartialEq, Eq, Structural)]
pub enum Error {
    /// An operation referenced an entity that no longer exists.
    DeadEntity,
    /// A parent assignment would create a cycle in the hierarchy.
    CyclicParent,
    /// A local or derived transform has an entry outside the finite range.
    NonFiniteTransform,
    /// A mesh-instance slot was requested beyond the mesh's fixed capacity.
    CapacityExceeded,
    /// A layout was asked to address a configuration it was not built for.
    LayoutMismatch,
}

impl Error {
    /// A short description, usable in place of a `Display` impl.
    pub fn message(&self) -> (r: &'static str)
        ensures
            r@ =~= self.message_spec(),
    {
        proof {
            reveal_strlit("entity is dead");
            reveal_strlit("parent assignment would create a cycle");
            reveal_strlit("transform entry out of finite range");
            reveal_strlit("mesh instance capacity exceeded");
            reveal_strlit("layout configuration mismatch");
        }
        match self {
            Error::DeadEntity => "entity is dead",
            Error::CyclicParent => "parent assignment would create a cycle",
            Error::NonFiniteTransform => "transform entry out of finite range",
            Error::CapacityExceeded => "mesh instance capacity exceeded",
            Error::LayoutMismatch => "layout configuration mismatch",
        }
    }

    pub open spec fn message_spec(&self) -> Seq<char> {
        match self {
            Error::DeadEntity => "entity is dead"@,
            Error::CyclicParent => "parent assignment would create a cycle"@,
            Error::NonFiniteTransform => "transform entry out of finite range"@,
            Error::CapacityExceeded => "mesh instance capacity exceeded"@,
            Error::LayoutMismatch => "layout configuration mismatch"@,
        }
    }
}

} // verus!
