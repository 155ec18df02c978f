//! Procedural world core: chunked block storage, terrain generation,
//! structure stamping and incremental light propagation.
//!
//! - `block`: blocks, layers and the id → block catalog.
//! - `chunk`: one vertical strip of the world, two grids of cells.
//! - `world`: the generated chunks by column, cell writes, render handles.
//! - `block_structure`, `stamp`: patterns and writing them across a border.
//! - `terrain`: the per-cell terrain rule and tree planting.
//! - `flood`, `light`: the light flood fills, the job queue and its ticks.
//! - `inventory`, `hotbar`: item slots, recipes and the selected slot.

pub mod block;
pub mod block_structure;
pub mod chunk;
pub mod flood;
pub mod hotbar;
pub mod inventory;
pub mod light;
pub mod stamp;
pub mod terrain;
pub mod world;

use vstd::prelude::*;

verus! {

/// Width of a chunk, in cells.
pub const CHUNK_WIDTH: usize = 32;

/// Height of the world, in cells (height is not split into chunks).
pub const CHUNK_HEIGHT: usize = 256;

/// Side of one cell, in world units.
pub const BLOCK_SIZE_PX: i64 = 16;

} // verus!
