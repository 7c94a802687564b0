//! Entity-component-system core.

pub mod entity;
pub mod parallel;
pub mod change_detection;
pub mod event;
pub mod component;
pub mod archetype;
pub mod keyed;
pub mod resource;
pub mod schedule;
pub mod world;
pub mod stage;
