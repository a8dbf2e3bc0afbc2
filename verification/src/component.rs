//! Lifecycle hooks for components.
//!
//! A component type may carry a pair of hook identifiers. While a hook
//! context is bound, the world records one [`HookEvent`] per lifecycle point
//! (a value added, a value about to be dropped); the owner of the context
//! drains and dispatches them.
use vstd::prelude::*;
use std::any::TypeId;

use crate::entity::Entity;

verus! {

/// Caller-chosen identifier of a hook routine.
#[derive(Clone, Copy, Debug, PartialEq, Eq, Structural)]
pub struct HookId(pub u32);

/// Component lifecycle hooks.
#[derive(Clone, Copy, Debug)]
pub struct ComponentHooks {
    /// Fired once after a value is successfully added to an entity.
    pub on_add: Option<HookId>,
    /// Fired once immediately before a value is dropped (remove / destroy /
    /// clear). Never fired for values moved between archetypes.
    pub on_remove: Option<HookId>,
}

/// Which lifecycle point a hook event stands for.
#[derive(Clone, Copy, Debug, PartialEq, Eq, Structural)]
pub enum HookKind {
    Add,
    Remove,
}

/// One recorded hook firing.
#[derive(Clone, Copy, Debug)]
pub struct HookEvent {
    pub kind: HookKind,
    pub hook: HookId,
    pub entity: Entity,
    pub component: TypeId,
    /// The bound context the firing is addressed to.
    pub context: u64,
}

} // verus!
