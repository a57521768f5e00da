//! The tileset packer: lay a sequence of unique tiles into a fresh
//! near-square canvas, one tile per grid cell in sequence order, and leave
//! any trailing cells fully transparent (zeroed).

use vstd::prelude::*;
use vstd::arithmetic::div_mod::{
    lemma_div_pos_is_pos, lemma_fundamental_div_mod, lemma_fundamental_div_mod_converse,
    lemma_mod_bound, lemma_multiply_divide_lt,
};
use crate::extract::tile_views;
use crate::raster::{tile_bytes, Image};
use crate::TileError;

verus! {

/// `c` is the ceiling of the square root of `n`: the smallest nonnegative
/// integer whose square is at least `n`.
pub open spec fn is_ceil_sqrt(n: int, c: int) -> bool {
    &&& 0 <= c
    &&& n <= c * c
    &&& c == 0 || (c - 1) * (c - 1) < n
}

/// The ceiling of the square root of `n`.
pub open spec fn spec_ceil_sqrt(n: int) -> int {
    choose|c: int| #[trigger] is_ceil_sqrt(n, c)
}

proof fn lemma_ceil_sqrt_exists(n: int)
    requires
        0 <= n,
    ensures
        exists|c: int| is_ceil_sqrt(n, c),
    decreases n,
{
    if n == 0 {
        assert(is_ceil_sqrt(0, 0));
    } else {
        lemma_ceil_sqrt_exists(n - 1);
        let c = choose|c: int| #[trigger] is_ceil_sqrt(n - 1, c);
        if n <= c * c {
            if c == 0 {
                assert(n <= 0) by (nonlinear_arith)
                    requires
                        n <= c * c,
                        c == 0;
                assert(false);
            }
            assert((c - 1) * (c - 1) < n - 1 || n - 1 == 0);
            if n - 1 == 0 {
                assert(c * c >= 1);
                assert(is_ceil_sqrt(n, 1)) by (nonlinear_arith)
                    requires
                        n == 1;
                // c need not be 1, but a witness is all that is needed
            } else {
                assert(is_ceil_sqrt(n, c));
            }
        } else {
            // c * c == n - 1 exactly, so c + 1 is the new ceiling
            assert((c + 1) * (c + 1) >= n && c * c < n) by (nonlinear_arith)
                requires
                    0 <= c,
                    n - 1 <= c * c < n;
            assert(is_ceil_sqrt(n, c + 1));
        }
    }
}

proof fn lemma_ceil_sqrt_unique(n: int, c1: int, c2: int)
    requires
        is_ceil_sqrt(n, c1),
        is_ceil_sqrt(n, c2),
    ensures
        c1 == c2,
{
    if c1 < c2 {
        assert(c1 * c1 <= (c2 - 1) * (c2 - 1)) by (nonlinear_arith)
            requires
                0 <= c1 <= c2 - 1;
        assert(false);
    }
    if c2 < c1 {
        assert(c2 * c2 <= (c1 - 1) * (c1 - 1)) by (nonlinear_arith)
            requires
                0 <= c2 <= c1 - 1;
        assert(false);
    }
}

/// `spec_ceil_sqrt` is well defined for every nonnegative `n`, and any
/// integer meeting `is_ceil_sqrt` equals it.
pub proof fn lemma_ceil_sqrt(n: int)
    requires
        0 <= n,
    ensures
        is_ceil_sqrt(n, spec_ceil_sqrt(n)),
        forall|c: int| is_ceil_sqrt(n, c) ==> c == spec_ceil_sqrt(n),
{
    lemma_ceil_sqrt_exists(n);
    assert(is_ceil_sqrt(n, spec_ceil_sqrt(n)));
    assert forall|c: int| is_ceil_sqrt(n, c) implies c == spec_ceil_sqrt(n) by {
        lemma_ceil_sqrt_unique(n, c, spec_ceil_sqrt(n));
    }
}

/// For positive `n`, the ceiling square root is between 1 and `n`, and its
/// square is less than twice `n`.
pub proof fn lemma_ceil_sqrt_bounds(n: int)
    requires
        1 <= n,
    ensures
        1 <= spec_ceil_sqrt(n) <= n,
        spec_ceil_sqrt(n) * spec_ceil_sqrt(n) <= 2 * n,
{
    lemma_ceil_sqrt(n);
    let c = spec_ceil_sqrt(n);
    assert(c >= 1);
    assert(c <= n && c * c <= 2 * n) by (nonlinear_arith)
        requires
            1 <= c,
            1 <= n,
            n <= c * c,
            (c - 1) * (c - 1) < n;
}

/// Compute the ceiling of the square root of `n` by counting up from 1.
pub fn ceil_sqrt(n: usize) -> (c: usize)
    ensures
        c as int == spec_ceil_sqrt(n as int),
        is_ceil_sqrt(n as int, c as int),
{
    proof {
        lemma_ceil_sqrt(n as int);
    }
    if n == 0 {
        proof {
            assert(is_ceil_sqrt(0, 0));
        }
        return 0;
    }
    let mut c: usize = 1;
    while c <= (n - 1) / c
        invariant
            1 <= c <= n,
            1 <= n,
            ((c - 1) as int) * ((c - 1) as int) < n as int,
        decreases n - c,
    {
        proof {
            let q = ((n - 1) as int) / (c as int);
            lemma_fundamental_div_mod((n - 1) as int, c as int);
            lemma_mod_bound((n - 1) as int, c as int);
            lemma_div_pos_is_pos((n - 1) as int, c as int);
            assert((c as int) * (c as int) <= (n - 1) as int) by (nonlinear_arith)
                requires
                    c as int <= q,
                    0 < c as int,
                    (n - 1) as int == (c as int) * q + ((n - 1) as int) % (c as int),
                    0 <= ((n - 1) as int) % (c as int);
            // so c itself is still too small, and c cannot yet have reached n
            assert(c as int <= (n - 1) as int) by (nonlinear_arith)
                requires
                    1 <= c as int,
                    (c as int) * (c as int) <= (n - 1) as int;
        }
        c = c + 1;
    }
    proof {
        let q = ((n - 1) as int) / (c as int);
        lemma_fundamental_div_mod((n - 1) as int, c as int);
        lemma_mod_bound((n - 1) as int, c as int);
        lemma_div_pos_is_pos((n - 1) as int, c as int);
        assert((n as int) <= (c as int) * (c as int)) by (nonlinear_arith)
            requires
                q < c as int,
                0 <= q,
                0 < c as int,
                (n - 1) as int == (c as int) * q + ((n - 1) as int) % (c as int),
                ((n - 1) as int) % (c as int) < c as int;
        assert(is_ceil_sqrt(n as int, c as int));
        lemma_ceil_sqrt(n as int);
    }
    c
}

/// How many rows a layout with `cols` columns needs for `n` tiles: the
/// ceiling of `n / cols`.
pub open spec fn spec_rows(n: int, cols: int) -> int {
    n / cols + if n % cols == 0 { 0int } else { 1int }
}

/// The grid of `spec_rows(n, cols)` rows by `cols` columns holds all `n`
/// tiles, wastes less than one full row, and is no taller than it is wide
/// when `cols` is the ceiling square root of `n`.
pub proof fn lemma_rows_properties(n: int, cols: int)
    requires
        1 <= cols,
        1 <= n,
        n <= cols * cols,
    ensures
        1 <= spec_rows(n, cols) <= cols,
        n <= spec_rows(n, cols) * cols,
        spec_rows(n, cols) * cols <= cols * cols,
        forall|i: int| 0 <= i < n ==> #[trigger] (i / cols) < spec_rows(n, cols),
{
    let q = n / cols;
    let r = n % cols;
    let rows = spec_rows(n, cols);
    lemma_fundamental_div_mod(n, cols);
    lemma_mod_bound(n, cols);
    lemma_div_pos_is_pos(n, cols);
    if r == 0 {
        assert(rows == q);
        assert(q >= 1) by (nonlinear_arith)
            requires
                n == cols * q + 0,
                1 <= n,
                1 <= cols,
                0 <= q;
        assert(q <= cols && n <= q * cols && q * cols <= cols * cols) by (nonlinear_arith)
            requires
                n == cols * q,
                n <= cols * cols,
                1 <= cols,
                0 <= q;
    } else {
        assert(rows == q + 1);
        assert(q + 1 <= cols && n <= (q + 1) * cols && (q + 1) * cols <= cols * cols)
            by (nonlinear_arith)
            requires
                n == cols * q + r,
                1 <= r < cols,
                n <= cols * cols,
                1 <= cols,
                0 <= q;
    }
    assert forall|i: int| 0 <= i < n implies #[trigger] (i / cols) < rows by {
        assert(i < cols * rows) by (nonlinear_arith)
            requires
                i < n,
                n <= rows * cols;
        lemma_multiply_divide_lt(i, cols, rows);
    }
}

/// Every tile buffer holds exactly `ts * ts` RGBA pixels.
pub open spec fn tiles_wf(tiles: Seq<Seq<u8>>, ts: int) -> bool {
    forall|i: int| 0 <= i < tiles.len() ==> (#[trigger] tiles[i]).len() == ts * ts * 4
}

/// A fully transparent tile: all bytes zero.
pub open spec fn zero_tile(ts: int) -> Seq<u8> {
    Seq::new((ts * ts * 4) as nat, |k: int| 0u8)
}

/// The byte a packed canvas holds at offset `p`: the matching byte of the
/// tile whose grid cell covers that pixel, or zero past the last tile.
pub open spec fn canvas_byte(tiles: Seq<Seq<u8>>, cols: int, ts: int, p: int) -> u8 {
    let cw = cols * ts;
    let chan = p % 4;
    let pi = p / 4;
    let x = pi % cw;
    let y = pi / cw;
    let cell = (y / ts) * cols + x / ts;
    let k = (y % ts) * (ts * 4) + (x % ts) * 4 + chan;
    if 0 <= cell < tiles.len() {
        tiles[cell][k]
    } else {
        0u8
    }
}

/// The canvas offset of byte `k` of the tile in grid cell `i`: where
/// `tile_bytes` reads it back from the canvas.
pub open spec fn cell_byte_offset(cols: int, ts: int, i: int, k: int) -> int {
    (((i / cols) * ts + k / (ts * 4)) * (cols * ts) + (i % cols) * ts) * 4 + k % (ts * 4)
}

/// Walking `cell_byte_offset` forward and decomposing the canvas offset again
/// gets back to the same cell and the same tile byte.
proof fn lemma_canvas_byte_at(tiles: Seq<Seq<u8>>, cols: int, rows: int, ts: int, i: int, k: int)
    requires
        0 < ts,
        0 < cols,
        0 < rows,
        0 <= i < cols * rows,
        0 <= k < ts * ts * 4,
    ensures
        0 <= cell_byte_offset(cols, ts, i, k) < (cols * ts) * ((rows * ts) * 4),
        canvas_byte(tiles, cols, ts, cell_byte_offset(cols, ts, i, k))
            == if i < tiles.len() { tiles[i][k] } else { 0u8 },
{
    let cw = cols * ts;
    let ci = i % cols;
    let ri = i / cols;
    lemma_fundamental_div_mod(i, cols);
    lemma_mod_bound(i, cols);
    lemma_div_pos_is_pos(i, cols);
    assert(i < cols * rows);
    lemma_multiply_divide_lt(i, cols, rows);
    assert(0 <= ci < cols && 0 <= ri < rows);

    let r = k / (ts * 4);
    let m = k % (ts * 4);
    lemma_fundamental_div_mod(k, ts * 4);
    lemma_mod_bound(k, ts * 4);
    lemma_div_pos_is_pos(k, ts * 4);
    assert(k < (ts * 4) * ts) by (nonlinear_arith)
        requires
            k < ts * ts * 4;
    lemma_multiply_divide_lt(k, ts * 4, ts);
    assert(0 <= r < ts && 0 <= m < ts * 4);

    let q = m / 4;
    let chan = m % 4;
    lemma_fundamental_div_mod(m, 4);
    lemma_mod_bound(m, 4);
    lemma_div_pos_is_pos(m, 4);
    assert(m < 4 * ts) by (nonlinear_arith)
        requires
            m < ts * 4;
    lemma_multiply_divide_lt(m, 4, ts);
    assert(0 <= q < ts && 0 <= chan < 4);

    let x0 = ci * ts;
    let y0 = ri * ts;
    let yy = y0 + r;
    let xx = x0 + q;
    let p = cell_byte_offset(cols, ts, i, k);
    assert(p == ((yy) * cw + x0) * 4 + m);

    // p == (yy * cw + xx) * 4 + chan
    assert((yy * cw + x0) * 4 + m == (yy * cw + xx) * 4 + chan) by (nonlinear_arith)
        requires
            m == 4 * q + chan,
            xx == x0 + q;
    // bounds on xx and yy within the canvas
    assert(0 <= xx < cw && 0 <= yy < rows * ts && 0 <= yy * cw) by (nonlinear_arith)
        requires
            cw == cols * ts,
            xx == ci * ts + q,
            yy == ri * ts + r,
            0 <= ci < cols,
            0 <= ri < rows,
            0 <= q < ts,
            0 <= r < ts,
            0 < ts,
            0 < cols,
            0 < rows;
    lemma_fundamental_div_mod_converse(p, 4, yy * cw + xx, chan);
    assert(p / 4 == yy * cw + xx && p % 4 == chan);
    lemma_fundamental_div_mod_converse(yy * cw + xx, cw, yy, xx);
    assert((p / 4) / cw == yy && (p / 4) % cw == xx);
    lemma_fundamental_div_mod_converse(yy, ts, ri, r);
    assert(yy / ts == ri && yy % ts == r);
    lemma_fundamental_div_mod_converse(xx, ts, ci, q);
    assert(xx / ts == ci && xx % ts == q);
    // the decomposed cell is i, and the decomposed tile byte is k
    assert(ri * cols + ci == i) by (nonlinear_arith)
        requires
            i == cols * ri + ci;
    assert(r * (ts * 4) + q * 4 + chan == k) by (nonlinear_arith)
        requires
            k == (ts * 4) * r + m,
            m == 4 * q + chan;
    // the offset lies inside the canvas
    assert(0 <= p < (cols * ts) * ((rows * ts) * 4)) by (nonlinear_arith)
        requires
            p == (yy * cw + xx) * 4 + chan,
            cw == cols * ts,
            0 <= xx < cw,
            0 <= yy < rows * ts,
            0 <= chan < 4,
            0 < cw;
}

/// `out` is the packed tileset for `tiles`: a `cols x rows` grid of cells of
/// side `ts`, `cols` the ceiling square root of the tile count, each tile
/// copied verbatim into its cell in order, trailing cells all zero.
pub open spec fn packed(tiles: Seq<Seq<u8>>, ts: int, out: Image) -> bool {
    let n = tiles.len() as int;
    if n == 0 {
        out.width == 0 && out.height == 0 && out.pixels@.len() == 0
    } else {
        let cols = spec_ceil_sqrt(n);
        let rows = spec_rows(n, cols);
        &&& out.width == cols * ts
        &&& out.height == rows * ts
        &&& forall|i: int| 0 <= i < n
            ==> #[trigger] tile_bytes(out.pixels@, cols * ts, (i % cols) * ts, (i / cols) * ts, ts)
                == tiles[i]
        &&& forall|i: int| n <= i < cols * rows
            ==> #[trigger] tile_bytes(out.pixels@, cols * ts, (i % cols) * ts, (i / cols) * ts, ts)
                == zero_tile(ts)
    }
}

/// Arrange the tiles into a fresh canvas: `cols = ceil(sqrt(n))` columns,
/// `rows = ceil(n / cols)` rows, tile `i` at grid cell
/// `(i % cols, i / cols)`, unfilled trailing cells fully transparent.
/// A zero tile size is rejected, as is any tile buffer that does not hold
/// exactly `tile_size * tile_size` RGBA pixels. An empty tile sequence
/// yields an empty canvas.
pub fn pack(tiles: &Vec<Vec<u8>>, tile_size: usize) -> (r: Result<Image, TileError>)
    requires
        (tile_size > 0 && tiles@.len() > 0 && tiles_wf(tile_views(tiles@), tile_size as int))
            ==> spec_ceil_sqrt(tiles@.len() as int) * spec_ceil_sqrt(tiles@.len() as int)
                * ((tile_size as int) * (tile_size as int) * 4) <= usize::MAX as int,
    ensures
        r is Err <==> (tile_size == 0 || !tiles_wf(tile_views(tiles@), tile_size as int)),
        tile_size == 0 ==> r == Err::<Image, TileError>(TileError::InvalidTileSize),
        (tile_size > 0 && !tiles_wf(tile_views(tiles@), tile_size as int))
            ==> r == Err::<Image, TileError>(TileError::MalformedTileBuffer),
        r matches Ok(out) ==> out.wf() && packed(tile_views(tiles@), tile_size as int, out),
{
    let ghost tv = tile_views(tiles@);
    if tile_size == 0 {
        return Err(TileError::InvalidTileSize);
    }
    let n: usize = tiles.len();
    if n == 0 {
        let out = Image { width: 0, height: 0, pixels: Vec::new() };
        proof {
            assert(tiles_wf(tv, tile_size as int));
            assert(out.pixels@.len() == (out.width as int) * (out.height as int) * 4)
                by (nonlinear_arith)
                requires
                    out.width == 0,
                    out.height == 0,
                    out.pixels@.len() == 0;
            assert(out.wf());
        }
        return Ok(out);
    }
    // a tile must hold exactly tile_size * tile_size RGBA pixels; if that
    // count does not even fit a usize, no actual buffer can be well formed
    let mut expected: usize = 0;
    let mut size_ok: bool = false;
    if let Some(a) = tile_size.checked_mul(tile_size) {
        if let Some(b) = a.checked_mul(4) {
            expected = b;
            size_ok = true;
        }
    }
    if !size_ok {
        let first_len: usize = tiles[0].len();
        proof {
            assert(tv[0].len() == tiles@[0]@.len());
            assert(first_len < (tile_size as int) * (tile_size as int) * 4) by (nonlinear_arith)
                requires
                    first_len <= usize::MAX as int,
                    (tile_size as int) * (tile_size as int) * 4 > usize::MAX as int;
            assert(!tiles_wf(tv, tile_size as int));
        }
        return Err(TileError::MalformedTileBuffer);
    }
    let mut i: usize = 0;
    while i < n
        invariant
            n == tiles@.len(),
            tv == tile_views(tiles@),
            1 <= tile_size,
            expected == (tile_size as int) * (tile_size as int) * 4,
            i <= n,
            forall|x: int| 0 <= x < i ==> (#[trigger] tv[x]).len() == expected,
        decreases n - i,
    {
        let ti: &Vec<u8> = &tiles[i];
        if ti.len() != expected {
            proof {
                assert(tv[i as int].len() == tiles@[i as int]@.len());
                assert(!tiles_wf(tv, tile_size as int));
            }
            return Err(TileError::MalformedTileBuffer);
        }
        proof {
            assert(tv[i as int].len() == expected);
        }
        i = i + 1;
    }
    proof {
        assert(tiles_wf(tv, tile_size as int));
    }

    let cols: usize = ceil_sqrt(n);
    proof {
        lemma_ceil_sqrt_bounds(n as int);
        lemma_rows_properties(n as int, cols as int);
        lemma_mod_bound(n as int, cols as int);
        lemma_fundamental_div_mod(n as int, cols as int);
        lemma_div_pos_is_pos(n as int, cols as int);
    }
    let rows: usize = if n % cols == 0 {
        n / cols
    } else {
        proof {
            assert(n / cols < n) by (nonlinear_arith)
                requires
                    n as int == (cols as int) * ((n as int) / (cols as int)) + (n as int) % (cols as int),
                    (n as int) % (cols as int) >= 1,
                    0 <= (n as int) / (cols as int),
                    1 <= cols;
        }
        n / cols + 1
    };
    proof {
        assert(rows as int == spec_rows(n as int, cols as int));
        // the canvas side lengths and byte count all fit a usize
        assert((cols as int) * (tile_size as int) <= usize::MAX as int
            && (rows as int) * (tile_size as int) <= (cols as int) * (tile_size as int)
            && ((rows as int) * (tile_size as int)) * 4 <= usize::MAX as int
            && ((cols as int) * (tile_size as int)) * (((rows as int) * (tile_size as int)) * 4)
                <= usize::MAX as int) by (nonlinear_arith)
            requires
                1 <= rows as int <= cols as int,
                1 <= cols as int,
                1 <= tile_size as int,
                (cols as int) * (cols as int) * ((tile_size as int) * (tile_size as int) * 4)
                    <= usize::MAX as int;
    }
    let cw: usize = cols * tile_size;
    let chh: usize = rows * tile_size;
    let total: usize = cw * (chh * 4);
    let mut pixels: Vec<u8> = Vec::new();
    let mut p: usize = 0;
    while p < total
        invariant
            n == tiles@.len(),
            tv == tile_views(tiles@),
            1 <= n,
            1 <= tile_size,
            1 <= cols,
            1 <= rows,
            expected == (tile_size as int) * (tile_size as int) * 4,
            tiles_wf(tv, tile_size as int),
            n as int <= (rows as int) * (cols as int),
            rows as int <= cols as int,
            (rows as int) * (cols as int) <= (cols as int) * (cols as int),
            (cols as int) * (cols as int) * ((tile_size as int) * (tile_size as int) * 4)
                <= usize::MAX as int,
            cw == cols * tile_size,
            chh == rows * tile_size,
            total == cw * (chh * 4),
            p <= total,
            pixels@.len() == p,
            forall|pp: int| 0 <= pp < p
                ==> pixels@[pp] == canvas_byte(tv, cols as int, tile_size as int, pp),
        decreases total - p,
    {
        let chan: usize = p % 4;
        let pi: usize = p / 4;
        proof {
            lemma_mod_bound(p as int, 4);
            lemma_div_pos_is_pos(p as int, 4);
            assert(pi < cw * chh) by (nonlinear_arith)
                requires
                    pi as int == (p as int) / 4,
                    (p as int) < (cw as int) * ((chh as int) * 4),
                    4 * (pi as int) <= p as int,
                    0 <= pi as int;
            lemma_mod_bound(pi as int, cw as int);
            lemma_div_pos_is_pos(pi as int, cw as int);
        }
        let x: usize = pi % cw;
        let y: usize = pi / cw;
        proof {
            assert(pi < cw * chh);
            lemma_multiply_divide_lt(pi as int, cw as int, chh as int);
            assert(y < chh);
            assert((y as int) < (tile_size as int) * (rows as int)) by (nonlinear_arith)
                requires
                    (y as int) < chh as int,
                    chh as int == (rows as int) * (tile_size as int);
            lemma_multiply_divide_lt(y as int, tile_size as int, rows as int);
            assert((x as int) < (tile_size as int) * (cols as int)) by (nonlinear_arith)
                requires
                    (x as int) < cw as int,
                    cw as int == (cols as int) * (tile_size as int);
            lemma_multiply_divide_lt(x as int, tile_size as int, cols as int);
            lemma_mod_bound(y as int, tile_size as int);
            lemma_mod_bound(x as int, tile_size as int);
            lemma_div_pos_is_pos(y as int, tile_size as int);
            lemma_div_pos_is_pos(x as int, tile_size as int);
            assert(((y as int) / (tile_size as int)) * (cols as int) + (x as int) / (tile_size as int)
                < (rows as int) * (cols as int)
                && (rows as int) * (cols as int) <= usize::MAX as int) by (nonlinear_arith)
                requires
                    0 <= (y as int) / (tile_size as int) <= (rows as int) - 1,
                    0 <= (x as int) / (tile_size as int) <= (cols as int) - 1,
                    1 <= cols as int,
                    1 <= rows as int,
                    1 <= tile_size as int,
                    (rows as int) * (cols as int) <= (cols as int) * (cols as int),
                    rows as int <= cols as int,
                    (cols as int) * (cols as int)
                        * ((tile_size as int) * (tile_size as int) * 4) <= usize::MAX as int;
        }
        let cell: usize = (y / tile_size) * cols + x / tile_size;
        let b: u8 = if cell < n {
            proof {
                assert(0 <= ((y as int) % (tile_size as int)) * ((tile_size as int) * 4)
                    && (tile_size as int) * 4 <= (tile_size as int) * (tile_size as int) * 4
                    && ((y as int) % (tile_size as int)) * ((tile_size as int) * 4)
                        + ((x as int) % (tile_size as int)) * 4 + (chan as int)
                        < (tile_size as int) * (tile_size as int) * 4) by (nonlinear_arith)
                    requires
                        0 <= (y as int) % (tile_size as int) <= (tile_size as int) - 1,
                        0 <= (x as int) % (tile_size as int) <= (tile_size as int) - 1,
                        0 <= (chan as int) < 4,
                        1 <= tile_size as int;
                assert(tv[cell as int].len() == expected);
                assert(tv[cell as int] == tiles@[cell as int]@);
            }
            let k: usize = (y % tile_size) * (tile_size * 4) + (x % tile_size) * 4 + chan;
            let t: &Vec<u8> = &tiles[cell];
            t[k]
        } else {
            0u8
        };
        pixels.push(b);
        proof {
            assert(pixels@[p as int] == canvas_byte(tv, cols as int, tile_size as int, p as int));
        }
        p = p + 1;
    }
    let out = Image { width: cw, height: chh, pixels };
    proof {
        assert(out.pixels@.len() == (cw as int) * ((chh as int) * 4));
        assert((cw as int) * ((chh as int) * 4) == (out.width as int) * (out.height as int) * 4)
            by (nonlinear_arith)
            requires
                cw == out.width,
                chh == out.height;
        assert(out.wf());
        let colsi = cols as int;
        let rowsi = rows as int;
        let tsi = tile_size as int;
        assert((colsi * tsi) * ((rowsi * tsi) * 4) == out.pixels@.len());
        assert forall|i2: int| 0 <= i2 < colsi * rowsi
            implies #[trigger] tile_bytes(out.pixels@, colsi * tsi, (i2 % colsi) * tsi, (i2 / colsi) * tsi, tsi)
                == (if i2 < n as int { tv[i2] } else { zero_tile(tsi) }) by {
            let target = if i2 < n as int { tv[i2] } else { zero_tile(tsi) };
            assert forall|k: int| 0 <= k < tsi * tsi * 4
                implies tile_bytes(out.pixels@, colsi * tsi, (i2 % colsi) * tsi, (i2 / colsi) * tsi, tsi)[k]
                    == target[k] by {
                lemma_canvas_byte_at(tv, colsi, rowsi, tsi, i2, k);
                let off = cell_byte_offset(colsi, tsi, i2, k);
                assert(out.pixels@[off] == canvas_byte(tv, colsi, tsi, off));
            }
            assert(tile_bytes(out.pixels@, colsi * tsi, (i2 % colsi) * tsi, (i2 / colsi) * tsi, tsi)
                =~= target);
        }
        lemma_ceil_sqrt(n as int);
        assert(packed(tv, tsi, out));
    }
    Ok(out)
}

} // verus!
