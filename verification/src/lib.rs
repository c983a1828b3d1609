//! Verified core of a small entity-component engine: generational entity
//! handles, the entity world with its component store, the scene object
//! registry, and the integer geometry used by the renderer.

pub mod camera;
pub mod component;
pub mod entity;
pub mod mesh;
pub mod scene;
pub mod viewport;
pub mod world;
