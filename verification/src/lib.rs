//! A toroidal (wrap-around) 2-D tile world core: wrap-addressed grids with
//! O(visited-cells) sub-rectangle traversal, a chunk-streaming cache that
//! decides which chunks to re-fetch as a viewport moves through an unbounded
//! world, and a multi-source light-diffusion solver run over the same grids.

pub mod array2d;
pub mod chunk_cache;
pub mod collision;
pub mod common;
pub mod fast_array2d;
pub mod grid;
pub mod input;
pub mod lighting;
pub mod net_event;
pub mod tile;
