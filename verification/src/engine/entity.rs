pub mod component;
pub mod ecs_world;
pub mod archetype;
pub mod entity;
pub mod scripting;
