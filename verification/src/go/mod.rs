//! The game-object layer: a scene over an ECS world, hierarchy edges and
//! their maintenance, and validated game-object handles.
pub mod component;
pub mod global_transform;
pub mod go_handle;
pub mod hierarchy;
pub mod scene;
pub mod scene_ref;
