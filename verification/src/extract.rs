//! The tile extractor: scan the source image on a fixed grid, slice out the
//! full square cells in row-major order, and keep the first occurrence of
//! each distinct cell, deduplicating by fingerprint.

use vstd::prelude::*;
use vstd::arithmetic::div_mod::{lemma_fundamental_div_mod, lemma_multiply_divide_lt};
use crate::fingerprint::{dedup_by_fingerprint, fingerprint, lemma_dedup_properties, repeats_earlier, seahash_of};
use crate::raster::{copy_tile, tile_bytes, Image};
use crate::TileError;

verus! {

/// How many full tiles of side `ts` fit across an image of the given width.
pub open spec fn grid_cols(width: int, ts: int) -> int {
    width / ts
}

/// How many full tiles of side `ts` fit down an image of the given height.
pub open spec fn grid_rows(height: int, ts: int) -> int {
    height / ts
}

/// The byte contents of every full grid cell, in row-major scan order
/// (left to right, then top to bottom). Partial cells at the right or
/// bottom edge are not represented at all.
pub open spec fn cells(img: Seq<u8>, width: int, height: int, ts: int) -> Seq<Seq<u8>> {
    Seq::new(
        (grid_rows(height, ts) * grid_cols(width, ts)) as nat,
        |j: int| tile_bytes(
            img,
            width,
            (j % grid_cols(width, ts)) * ts,
            (j / grid_cols(width, ts)) * ts,
            ts,
        ),
    )
}

/// What extraction returns: the full grid cells in scan order, with every
/// cell whose fingerprint already appeared dropped.
pub open spec fn spec_extract(img: Seq<u8>, width: int, height: int, ts: int) -> Seq<Seq<u8>> {
    dedup_by_fingerprint(cells(img, width, height, ts))
}

/// The byte contents of a sequence of tile buffers.
pub open spec fn tile_views(tiles: Seq<Vec<u8>>) -> Seq<Seq<u8>> {
    Seq::new(tiles.len(), |i: int| tiles[i]@)
}

/// Linear search for a fingerprint among those already seen.
fn contains_fp(seen: &Vec<u64>, fp: u64) -> (r: bool)
    ensures
        r == seen@.contains(fp),
{
    let n: usize = seen.len();
    let mut i: usize = 0;
    while i < n
        invariant
            i <= n,
            n == seen@.len(),
            forall|x: int| 0 <= x < i ==> seen@[x] != fp,
        decreases n - i,
    {
        if seen[i] == fp {
            proof {
                assert(seen@[i as int] == fp);
            }
            return true;
        }
        i = i + 1;
    }
    false
}

/// Slice `image` into full `tile_size` x `tile_size` cells on a fixed grid
/// and return the first occurrence of each distinct cell, in scan order,
/// deduplicated by fingerprint. Partial cells at the right and bottom edges
/// are skipped entirely. A zero tile size is rejected; any image size,
/// including one smaller than a single tile, is valid input.
pub fn extract(image: &Image, tile_size: usize) -> (r: Result<Vec<Vec<u8>>, TileError>)
    requires
        image.wf(),
    ensures
        r is Err <==> tile_size == 0,
        r is Err ==> r == Err::<Vec<Vec<u8>>, TileError>(TileError::InvalidTileSize),
        r matches Ok(tiles) ==> tile_views(tiles@) == spec_extract(
            image.pixels@, image.width as int, image.height as int, tile_size as int),
{
    if tile_size == 0 {
        return Err(TileError::InvalidTileSize);
    }
    let w: usize = image.width;
    let h: usize = image.height;
    let buf_len: usize = image.pixels.len();
    let cols: usize = w / tile_size;
    let rows: usize = h / tile_size;
    proof {
        vstd::arithmetic::div_mod::lemma_div_nonincreasing(w as int, tile_size as int);
        vstd::arithmetic::div_mod::lemma_div_nonincreasing(h as int, tile_size as int);
        vstd::arithmetic::div_mod::lemma_div_pos_is_pos(w as int, tile_size as int);
        vstd::arithmetic::div_mod::lemma_div_pos_is_pos(h as int, tile_size as int);
        assert(rows * cols <= w * h * 4) by (nonlinear_arith)
            requires
                0 <= rows <= h,
                0 <= cols <= w,
                0 <= w,
                0 <= h;
    }
    let total: usize = rows * cols;
    let ghost cs = cells(image.pixels@, w as int, h as int, tile_size as int);
    proof {
        assert(cs.len() == total);
    }
    let mut tiles: Vec<Vec<u8>> = Vec::new();
    let mut seen: Vec<u64> = Vec::new();
    let mut j: usize = 0;
    while j < total
        invariant
            image.wf(),
            0 < tile_size,
            w == image.width,
            h == image.height,
            cols as int == grid_cols(w as int, tile_size as int),
            rows as int == grid_rows(h as int, tile_size as int),
            total == rows * cols,
            cs == cells(image.pixels@, w as int, h as int, tile_size as int),
            cs.len() == total,
            j <= total,
            tile_views(tiles@) == dedup_by_fingerprint(cs.take(j as int)),
            seen@.len() == tiles@.len(),
            forall|i: int| 0 <= i < seen@.len() ==> seen@[i] == seahash_of(#[trigger] tiles@[i]@),
            forall|i: int| 0 <= i < tiles@.len()
                ==> exists|jj: int| 0 <= jj < j && #[trigger] tiles@[i]@ == cs[jj],
            forall|jj: int| 0 <= jj < j
                ==> exists|i: int| 0 <= i < seen@.len()
                    && seen@[i] == seahash_of(#[trigger] cs[jj]),
        decreases total - j,
    {
        proof {
            assert(0 < cols && 0 < rows) by (nonlinear_arith)
                requires
                    0 <= j < total,
                    total == rows * cols,
                    0 <= rows,
                    0 <= cols;
            assert(total == cols * rows) by (nonlinear_arith)
                requires
                    total == rows * cols;
            lemma_multiply_divide_lt(j as int, cols as int, rows as int);
            lemma_fundamental_div_mod(j as int, cols as int);
        }
        let tx: usize = j % cols;
        let ty: usize = j / cols;
        proof {
            lemma_fundamental_div_mod(w as int, tile_size as int);
            lemma_fundamental_div_mod(h as int, tile_size as int);
            assert((tx * tile_size) + tile_size <= w && (ty * tile_size) + tile_size <= h)
                by (nonlinear_arith)
                requires
                    0 <= tx,
                    0 <= ty,
                    tx + 1 <= cols,
                    ty + 1 <= rows,
                    cols * tile_size <= w,
                    rows * tile_size <= h,
                    0 < tile_size;
        }
        let tile: Vec<u8> = copy_tile(image, tx * tile_size, ty * tile_size, tile_size);
        proof {
            assert(tile@ == cs[j as int]);
        }
        let fp: u64 = fingerprint(&tile);
        let dup: bool = contains_fp(&seen, fp);
        proof {
            assert(cs.take(j + 1).drop_last() =~= cs.take(j as int));
            assert(cs.take(j + 1).last() == cs[j as int]);
        }
        if !dup {
            proof {
                // no earlier cell shares this fingerprint, so the cell is kept
                assert forall|jj: int| 0 <= jj < j
                    implies seahash_of(#[trigger] cs.take(j + 1)[jj]) != seahash_of(cs[j as int]) by {
                    if seahash_of(cs[jj]) == seahash_of(cs[j as int]) {
                        let i = choose|i: int| 0 <= i < seen@.len()
                            && seen@[i] == seahash_of(#[trigger] cs[jj]);
                        assert(seen@[i] == fp);
                        assert(seen@.contains(fp));
                    }
                }
                assert(!repeats_earlier(cs.take(j + 1), j as int));
                assert(dedup_by_fingerprint(cs.take(j + 1))
                    == dedup_by_fingerprint(cs.take(j as int)).push(cs[j as int]));
            }
            let ghost tiles0 = tiles@;
            let ghost seen0 = seen@;
            tiles.push(tile);
            seen.push(fp);
            proof {
                assert(tiles@ == tiles0.push(tile));
                assert(seen@ == seen0.push(fp));
                assert(tile_views(tiles@) =~= dedup_by_fingerprint(cs.take(j + 1)));
                assert forall|i: int| 0 <= i < tiles@.len()
                    implies exists|jj: int| 0 <= jj < j + 1 && #[trigger] tiles@[i]@ == cs[jj] by {
                    if i < tiles0.len() {
                        let jj = choose|jj: int| 0 <= jj < j && #[trigger] tiles0[i]@ == cs[jj];
                        assert(tiles@[i] == tiles0[i]);
                        assert(tiles@[i]@ == cs[jj]);
                    } else {
                        assert(tiles@[i]@ == cs[j as int]);
                    }
                }
                assert forall|jj: int| 0 <= jj < j + 1
                    implies exists|i: int| 0 <= i < seen@.len()
                        && seen@[i] == seahash_of(#[trigger] cs[jj]) by {
                    if jj < j {
                        let i0 = choose|i0: int| 0 <= i0 < seen0.len()
                            && seen0[i0] == seahash_of(#[trigger] cs[jj]);
                        assert(seen@[i0] == seahash_of(cs[jj]));
                    } else {
                        assert(seen@[seen@.len() - 1] == seahash_of(cs[jj]));
                    }
                }
            }
        } else {
            proof {
                // the fingerprint was seen: some earlier cell already carries it
                let i = choose|i: int| 0 <= i < seen@.len() && seen@[i] == fp;
                assert(seen@[i] == seahash_of(tiles@[i]@));
                let jj = choose|jj: int| 0 <= jj < j && #[trigger] tiles@[i]@ == cs[jj];
                assert(seahash_of(cs[jj]) == seahash_of(cs[j as int]));
                assert(cs.take(j + 1)[jj] == cs[jj]);
                assert(cs.take(j + 1)[j as int] == cs[j as int]);
                assert(repeats_earlier(cs.take(j + 1), j as int));
                assert(dedup_by_fingerprint(cs.take(j + 1))
                    == dedup_by_fingerprint(cs.take(j as int)));
            }
        }
        j = j + 1;
    }
    proof {
        assert(cs.take(total as int) =~= cs);
    }
    Ok(tiles)
}

/// Extraction is deterministic: two runs over the same pixels with the same
/// tile size yield bit-identical tile sequences in the same order.
pub proof fn lemma_extract_deterministic(
    img: Seq<u8>, width: int, height: int, ts: int,
    r1: Seq<Seq<u8>>, r2: Seq<Seq<u8>>,
)
    requires
        r1 == spec_extract(img, width, height, ts),
        r2 == spec_extract(img, width, height, ts),
    ensures
        r1 == r2,
{
}

/// No two extracted tiles share a fingerprint, and in particular no two
/// have equal raw byte content.
pub proof fn lemma_extract_no_duplicates(img: Seq<u8>, width: int, height: int, ts: int)
    ensures
        forall|k1: int, k2: int|
            0 <= k1 < k2 < spec_extract(img, width, height, ts).len()
            ==> seahash_of(#[trigger] spec_extract(img, width, height, ts)[k1])
                != seahash_of(#[trigger] spec_extract(img, width, height, ts)[k2]),
        forall|k1: int, k2: int|
            0 <= k1 < k2 < spec_extract(img, width, height, ts).len()
            ==> #[trigger] spec_extract(img, width, height, ts)[k1]
                != #[trigger] spec_extract(img, width, height, ts)[k2],
{
    lemma_dedup_properties(cells(img, width, height, ts));
}

/// Nothing is lost outright: every full grid cell's fingerprint appears
/// among the extracted tiles.
pub proof fn lemma_extract_covers_fingerprints(img: Seq<u8>, width: int, height: int, ts: int)
    ensures
        forall|j: int| 0 <= j < cells(img, width, height, ts).len()
            ==> exists|k: int| 0 <= k < spec_extract(img, width, height, ts).len()
                && seahash_of(#[trigger] spec_extract(img, width, height, ts)[k])
                    == seahash_of(#[trigger] cells(img, width, height, ts)[j]),
{
    let cs = cells(img, width, height, ts);
    let d = spec_extract(img, width, height, ts);
    lemma_dedup_properties(cs);
    assert(d == dedup_by_fingerprint(cs));
    assert forall|j: int| 0 <= j < cs.len()
        implies exists|k: int| 0 <= k < d.len()
            && seahash_of(#[trigger] d[k]) == seahash_of(#[trigger] cs[j]) by {
        let k = choose|k: int| 0 <= k < dedup_by_fingerprint(cs).len()
            && seahash_of(#[trigger] dedup_by_fingerprint(cs)[k]) == seahash_of(#[trigger] cs[j]);
        assert(0 <= k < d.len() && seahash_of(d[k]) == seahash_of(cs[j]));
    }
}

/// When no two grid cells of the image collide under the fingerprint, every
/// full grid cell's exact byte content appears among the extracted tiles.
pub proof fn lemma_extract_covers_cells(img: Seq<u8>, width: int, height: int, ts: int)
    requires
        forall|j1: int, j2: int|
            0 <= j1 < cells(img, width, height, ts).len()
            && 0 <= j2 < cells(img, width, height, ts).len()
            && seahash_of(#[trigger] cells(img, width, height, ts)[j1])
                == seahash_of(#[trigger] cells(img, width, height, ts)[j2])
            ==> cells(img, width, height, ts)[j1] == cells(img, width, height, ts)[j2],
    ensures
        forall|j: int| 0 <= j < cells(img, width, height, ts).len()
            ==> exists|k: int| 0 <= k < spec_extract(img, width, height, ts).len()
                && #[trigger] spec_extract(img, width, height, ts)[k]
                    == #[trigger] cells(img, width, height, ts)[j],
{
    let cs = cells(img, width, height, ts);
    let d = spec_extract(img, width, height, ts);
    lemma_dedup_properties(cs);
    assert forall|j: int| 0 <= j < cs.len()
        implies exists|k: int| 0 <= k < d.len() && #[trigger] d[k] == #[trigger] cs[j] by {
        let k = choose|k: int| 0 <= k < d.len()
            && seahash_of(#[trigger] d[k]) == seahash_of(cs[j]);
        let j2 = choose|j2: int| 0 <= j2 < cs.len() && d[k] == #[trigger] cs[j2];
        assert(seahash_of(cs[j2]) == seahash_of(cs[j]));
        assert(cs[j2] == cs[j]);
        assert(d[k] == cs[j]);
    }
}

} // verus!
