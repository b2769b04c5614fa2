//! A fixed-camera arcade shooter simulation: a player ship moving along the
//! bottom of the field, a grid of enemies above it, and projectiles fired by
//! both sides. Positions and extents are measured in thousandths of a world
//! unit, and time in milliseconds, so every step of the simulation is exact.
pub mod geometry;
pub mod laws;
pub mod store;
pub mod timer;
pub mod world;
