//! The discrete core of a force-directed graph layout: the uniform grid that
//! buckets nodes by cell, the resolution of edges to node indices, the choice
//! of interaction partners for the neighbour forces, the force-scale ramp and
//! the pointer state machine that drives dragging and panning.
//!
//! Everything here works on integers and booleans. Coordinates, velocities and
//! the force formulas themselves are real-valued and live with the caller,
//! which hands this crate cell coordinates and hit flags and receives index
//! lists and actions in return.

pub mod game;
pub mod graph;
pub mod grid;
pub mod physics;
pub mod ramp;
pub mod raster;
