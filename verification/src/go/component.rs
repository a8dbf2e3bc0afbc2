//! The game-object layer's `Component` trait and the hooks it registers.
use vstd::prelude::*;

use crate::component::{ComponentHooks, HookId};

verus! {

/// A component that may observe its own lifecycle.
///
/// Both hooks default to no-ops, and every component type of this layer
/// keeps the defaults. A type registered through a scene carries the hook
/// identifiers of [`component_hooks`]; the world records a hook event for
/// each add and each drop of such a value only while a hook context is bound
/// on it, and hands the events out through `World::take_hook_events`.
pub trait Component: 'static {
    /// Called once after the component value is added to an entity.
    fn on_add(&mut self) {
    }

    /// Called once immediately before the component value is dropped.
    fn on_remove(&mut self) {
    }
}

/// The identifier under which `on_add` firings of GO components are recorded.
pub open spec fn on_add_hook() -> HookId {
    HookId(1)
}

/// The identifier under which `on_remove` firings of GO components are
/// recorded.
pub open spec fn on_remove_hook() -> HookId {
    HookId(2)
}

/// The hooks every GO component registers.
pub fn component_hooks() -> (h: ComponentHooks)
    ensures
        h.on_add == Some(on_add_hook()),
        h.on_remove == Some(on_remove_hook()),
{
    ComponentHooks { on_add: Some(HookId(1)), on_remove: Some(HookId(2)) }
}

} // verus!
