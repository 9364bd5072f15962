//! Fluxel: an adaptive octree forest on a space-filling curve for CFD meshing.
//!
//! Cells are packed 128-bit keys (tree, Morton code, level) kept in one sorted list; refinement,
//! coarsening, 2:1 balance, point location, face neighbours, the flood fill that separates fluid
//! from solid and the face topology of the exported mesh all work on that list.

use vstd::prelude::*;

pub mod balance;
pub mod enums;
pub mod export;
pub mod flood;
pub mod forest;
pub mod ibm;
pub mod key;
pub mod morton;
pub mod obj;
pub mod neighbour;
pub mod query;
pub mod refine;

verus! {

/// Maximum refinement depth of an octree cell.
pub const MAX_LEVEL: u8 = 32;

} // verus!
