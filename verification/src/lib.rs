//! Tile extraction and tileset packing.
//!
//! The library slices a raster image into fixed-size square tiles on a grid,
//! keeps the first occurrence of each distinct tile (deduplicating by a
//! seahash fingerprint of the raw pixel bytes), and packs the unique tiles
//! into a compact near-square tileset image.

use vstd::prelude::*;

mod extract;
mod fingerprint;
mod pack;
mod pipeline;
mod raster;

pub use extract::cells;
pub use extract::extract;
pub use extract::grid_cols;
pub use extract::grid_rows;
pub use extract::lemma_extract_covers_cells;
pub use extract::lemma_extract_covers_fingerprints;
pub use extract::lemma_extract_deterministic;
pub use extract::lemma_extract_no_duplicates;
pub use extract::spec_extract;
pub use extract::tile_views;
pub use fingerprint::dedup_by_fingerprint;
pub use fingerprint::lemma_dedup_properties;
pub use fingerprint::repeats_earlier;
pub use fingerprint::seahash_of;
pub use pack::canvas_byte;
pub use pack::ceil_sqrt;
pub use pack::is_ceil_sqrt;
pub use pack::lemma_ceil_sqrt;
pub use pack::lemma_ceil_sqrt_bounds;
pub use pack::lemma_rows_properties;
pub use pack::pack;
pub use pack::packed;
pub use pack::spec_ceil_sqrt;
pub use pack::spec_rows;
pub use pack::tiles_wf;
pub use pack::zero_tile;
pub use pipeline::extract_tileset;
pub use raster::Image;
pub use raster::copy_tile;
pub use raster::tile_bytes;

verus! {

/// The ways the core can reject its input.
#[derive(Clone, Copy, Debug, PartialEq, Eq, Structural)]
pub enum TileError {
    /// A tile size of zero was requested.
    InvalidTileSize,
    /// A tile buffer handed to the packer does not hold exactly
    /// `tile_size * tile_size` RGBA pixels.
    MalformedTileBuffer,
}

} // verus!
