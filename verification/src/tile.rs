//! Tiles and the fixed tile/chunk geometry.

use vstd::prelude::*;

verus! {

/// Tile size in pixels.
pub const TILE_SIZE: usize = 16;

/// Chunk size in tiles; must stay `1 << CHUNK_SIZE_LOG2`.
pub const CHUNK_SIZE: usize = 8;

/// Base-two logarithm of `CHUNK_SIZE`.
pub const CHUNK_SIZE_LOG2: usize = 3;

/// Margin of extra tiles kept resident beyond the visible viewport, sized to
/// the light falloff radius.
pub const CHUNK_LOAD_BUFFER_SIZE: usize = 16;

/// One world tile; `Air` is passable open space.
#[derive(Debug, Copy, Clone, PartialEq, Eq, Structural)]
pub enum Tile {
    Air,
    Dirt,
    Stone,
}

} // verus!
