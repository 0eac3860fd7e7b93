//! The simulated objects and the rules that govern them.

pub mod collision_frame;
pub mod collision_set;
pub mod gamestate;
pub mod movables;
pub mod systems;
