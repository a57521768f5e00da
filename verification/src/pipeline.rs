//! The full pipeline, as the boundary layer invokes it: extract the unique
//! tiles of a decoded image and pack them into a fresh tileset image.

use vstd::prelude::*;
use vstd::arithmetic::div_mod::{lemma_div_pos_is_pos, lemma_fundamental_div_mod, lemma_mod_bound};
use crate::extract::{cells, extract, grid_cols, grid_rows, spec_extract, tile_views};
use crate::fingerprint::lemma_dedup_properties;
use crate::pack::{lemma_ceil_sqrt_bounds, pack, packed, spec_ceil_sqrt, tiles_wf};
use crate::raster::Image;
use crate::TileError;

verus! {

/// Extract the unique tiles of `image` and pack them into a tileset image.
/// The bound on the pixel count keeps the packed canvas, which never holds
/// more than twice the source's pixel volume, addressable.
pub fn extract_tileset(image: &Image, tile_size: usize) -> (r: Result<Image, TileError>)
    requires
        image.wf(),
        (image.width as int) * (image.height as int) * 8 <= usize::MAX as int,
    ensures
        r is Err <==> tile_size == 0,
        r is Err ==> r == Err::<Image, TileError>(TileError::InvalidTileSize),
        r matches Ok(out) ==> out.wf() && packed(
            spec_extract(image.pixels@, image.width as int, image.height as int, tile_size as int),
            tile_size as int,
            out,
        ),
{
    let tiles: Vec<Vec<u8>> = match extract(image, tile_size) {
        Ok(t) => t,
        Err(e) => {
            return Err(e);
        },
    };
    let ghost w = image.width as int;
    let ghost h = image.height as int;
    let ghost ts = tile_size as int;
    let ghost cs = cells(image.pixels@, w, h, ts);
    let ghost tv = tile_views(tiles@);
    let ghost n = tv.len() as int;
    proof {
        assert(tv == spec_extract(image.pixels@, w, h, ts));
        lemma_dedup_properties(cs);
        assert(n <= cs.len());
        // every kept tile is a grid cell, so it holds ts * ts * 4 bytes
        assert(ts * ts * 4 >= 0) by (nonlinear_arith)
            requires
                ts >= 1;
        assert forall|k: int| 0 <= k < tv.len() implies (#[trigger] tv[k]).len() == ts * ts * 4 by {
            let j = choose|j: int| 0 <= j < cs.len() && #[trigger] tv[k] == cs[j];
            assert(cs[j].len() == ts * ts * 4);
        }
        assert(tiles_wf(tv, ts));
        if n > 0 {
            // the packed canvas fits a usize: its cell count is below twice
            // the source's cell count, and each cell holds ts * ts pixels
            let gc = grid_cols(w, ts);
            let gr = grid_rows(h, ts);
            assert(cs.len() == gr * gc);
            lemma_ceil_sqrt_bounds(n);
            let c = spec_ceil_sqrt(n);
            lemma_fundamental_div_mod(w, ts);
            lemma_fundamental_div_mod(h, ts);
            lemma_mod_bound(w, ts);
            lemma_mod_bound(h, ts);
            lemma_div_pos_is_pos(w, ts);
            lemma_div_pos_is_pos(h, ts);
            assert(gc * ts <= w && gr * ts <= h);
            assert(c * c * (ts * ts * 4) <= 2 * (gr * gc) * (ts * ts * 4)) by (nonlinear_arith)
                requires
                    c * c <= 2 * n,
                    n <= gr * gc,
                    ts * ts * 4 >= 0;
            assert(2 * (gr * gc) * (ts * ts * 4) <= w * h * 8) by (nonlinear_arith)
                requires
                    gc * ts <= w,
                    gr * ts <= h,
                    0 <= gc,
                    0 <= gr,
                    1 <= ts,
                    0 <= w,
                    0 <= h;
        }
    }
    match pack(&tiles, tile_size) {
        Ok(out) => Ok(out),
        Err(e) => {
            proof {
                assert(false);
            }
            Err(e)
        },
    }
}

} // verus!
