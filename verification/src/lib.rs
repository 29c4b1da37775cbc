//! A flow-field pathfinding engine for a uniform 2-D grid world.
//!
//! The world is discretized into 5x5-unit cells. Static obstacles are
//! rasterized onto the grid, a scalar traversal cost is propagated outward
//! from one or more source cells by a first-in-first-out wavefront, and a
//! per-cell steering offset toward decreasing cost is derived from the cost
//! field. Costs are held exactly as pairs `(ortho, diag)` standing for the
//! value `ortho + diag * sqrt(2)`, so every comparison the engine makes is
//! exact integer arithmetic.

pub mod cost;
pub mod debug;
pub mod field;
pub mod flow;
pub mod grid;
pub mod heat;
pub mod obstacle;

use vstd::prelude::*;

verus! {

/// Side length of one grid cell, in world units.
pub const CELL_SIZE: usize = 5;

/// Largest accepted world width or height, in world units.
///
/// This is a machine limit: it keeps every index and cost computation inside
/// the engine comfortably within fixed-width integer ranges.
pub const MAX_WORLD_UNITS: usize = 20000;

} // verus!
