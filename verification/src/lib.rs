//! Collision bookkeeping for a universe of black holes and worlds.
//!
//! The universe is simulated frame by frame. In each frame some bodies run
//! into others, and what runs into what comes in pairs: this body and that
//! one. The crate turns those pairs into the collisions of the frame. Bodies
//! that are linked by a chain of contacts collide together, as one group;
//! every body is in one group at most; a group with a black hole in it
//! merges into a single black hole, a group of worlds shatters.
//!
//! The crate keeps the identity of bodies and nothing else of them: where a
//! body is, how fast and how heavy it is, and whether two bodies touch, is for
//! the caller to know.
//!
//! - [`objects::movables`]: kinds, identifiers, bodies, and what becomes of a
//!   set of bodies that collide
//! - [`objects::collision_set`]: a group of bodies that collide together
//! - [`objects::collision_frame`]: the groups of one frame
//! - [`objects::systems`]: from the contacts of a frame to its groups, and
//!   from the bodies that are left to the state of the game
//! - [`objects::gamestate`]: the state of the game

pub mod objects;
