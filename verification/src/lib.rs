//! Core logic of the `just` game engine: the asset registry, the transform
//! hierarchy with its matrix caches, scene spawning, mouse button state and
//! the scripting bookkeeping types.

pub mod input;
pub mod assets;
pub mod hierarchy;
pub mod scripting;
pub mod resources;
pub mod game;
pub mod scene;
pub mod events;
