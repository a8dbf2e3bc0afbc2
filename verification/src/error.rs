//! Core error types for the ECS world.
use vstd::prelude::*;

verus! {

/// Errors produced by [`crate::world::World`] operations.
#[derive(Debug, Clone, PartialEq, Eq)]
pub enum WorldError {
    /// The entity handle's generation does not match the live entity (stale).
    StaleEntity,
    /// The entity already has the component type being added.
    InsertAlreadyExists(&'static str),
    /// The component type is not registered in the registry.
    ComponentNotRegistered(&'static str),
    /// The component type was already registered.
    DuplicateRegistration(&'static str),
    /// The resource is not registered / not present.
    ResourceNotFound(&'static str),
    /// A scheduling operation failed because of an unsafe borrow conflict.
    BorrowConflict(&'static str),
}

impl WorldError {
    /// The human-readable description of the error.
    pub open spec fn describe(&self) -> Seq<char> {
        match self {
            WorldError::StaleEntity => "stale entity handle (generation mismatch)"@,
            WorldError::InsertAlreadyExists(name) => "component '"@ + name@ + "' already exists on the entity"@,
            WorldError::ComponentNotRegistered(name) => "component '"@ + name@ + "' is not registered"@,
            WorldError::DuplicateRegistration(name) => "component '"@ + name@ + "' is already registered"@,
            WorldError::ResourceNotFound(name) => "resource '"@ + name@ + "' is not present"@,
            WorldError::BorrowConflict(name) => "borrow conflict on '"@ + name@ + "'"@,
        }
    }

    /// Human-readable description of the error.
    pub fn message(&self) -> (m: String)
        ensures
            m@ == self.describe(),
    {
        match self {
            WorldError::StaleEntity => String::from_str("stale entity handle (generation mismatch)"),
            WorldError::InsertAlreadyExists(name) => quoted("component '", name, "' already exists on the entity"),
            WorldError::ComponentNotRegistered(name) => quoted("component '", name, "' is not registered"),
            WorldError::DuplicateRegistration(name) => quoted("component '", name, "' is already registered"),
            WorldError::ResourceNotFound(name) => quoted("resource '", name, "' is not present"),
            WorldError::BorrowConflict(name) => quoted("borrow conflict on '", name, "'"),
        }
    }
}

/// `before`, then `name`, then `after`.
pub fn quoted(before: &str, name: &str, after: &str) -> (m: String)
    ensures
        m@ == before@ + name@ + after@,
{
    String::from_str(before).concat(name).concat(after)
}

} // verus!
