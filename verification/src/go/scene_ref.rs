//! `SceneRef` — a game object's reference relation to its `Scene`.
use vstd::prelude::*;

use super::component::Component;

verus! {

/// Identifies a game object robustly across a [`Scene`](super::scene::Scene).
///
/// Reference identity is the stable `(scene_id, serial)` pair; `generation`
/// mirrors the entity's current generation. The component is filled
/// automatically by `Scene::create_go`.
#[derive(Clone, Copy, Debug, PartialEq, Eq, Structural)]
pub struct SceneRef {
    /// Globally-unique owning scene id.
    pub scene_id: u32,
    /// Scene-local, monotonically increasing creation serial.
    pub serial: u64,
    /// Entity generation mirror (stale detection).
    pub generation: u32,
}

impl Component for SceneRef {
}

} // verus!
