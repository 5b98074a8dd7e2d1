//! Flocking for bees: a spatial index over axis-aligned regions, the
//! per-tick snapshot of every boid that is written into it, and the
//! decisions of the steering and movement steps.
//!
//! All geometry is on the integer grid. The vectors of a boid (position,
//! velocity) are carried through as a parameter type `V`; the library never
//! computes with them. The weights of a flock are fixed-point numbers, kept
//! as thousandths.
//!
//! - `geometry`: points, regions and their quadrants.
//! - `partition`: which parts of its bounds an index cuts in four.
//! - `index`: the spatial index, with its queries and their laws.
//! - `flock`: colliders, bodies and the group that owns the index.
//! - `systems`: the steps of a tick.
//! - `debug`, `tilemap`, `interactions`: what the overlay draws, where the
//!   fog is lifted, and what the mouse selects.

pub mod geometry;
pub mod partition;
mod tree;
pub mod index;
pub mod flock;
pub mod systems;
pub mod debug;
pub mod tilemap;
pub mod interactions;
