//! XEngine core: a data-oriented ECS, frame scheduling, the game-object layer
//! and integer math primitives, with their behaviour stated and proved.
use vstd::prelude::*;

pub mod archetype;
pub mod command;
pub mod component;
pub mod entity;
pub mod erased;
pub mod frame;
pub mod error;
pub mod go;
pub mod math;
pub mod model;
pub mod registry;
pub mod render;
pub mod schedule;
pub mod storage;
pub mod store;
pub mod system;
pub mod world;

verus! {

/// The engine's display name.
pub fn engine_name() -> (name: &'static str)
    ensures
        name@ == "XEngine"@,
{
    let name = "XEngine";
    proof {
        reveal_strlit("XEngine");
    }
    name
}

} // verus!
