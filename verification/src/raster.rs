//! The pixel-grid data model: images as flat RGBA byte buffers, and the
//! byte layout of one square tile cut from such a grid.

use vstd::prelude::*;
use vstd::arithmetic::div_mod::{lemma_fundamental_div_mod, lemma_multiply_divide_lt};
use vstd::arithmetic::mul::{lemma_mul_inequality, lemma_mul_is_distributive_add_other_way};

verus! {

/// A raster image: a `width` x `height` grid of RGBA pixels, stored row-major
/// as 4 bytes per pixel. Used both for the source screenshot handed to the
/// extractor and for the packed tileset the packer produces.
#[derive(Debug)]
pub struct Image {
    pub width: usize,
    pub height: usize,
    pub pixels: Vec<u8>,
}

impl Image {
    /// The buffer holds exactly 4 bytes for each of the `width * height` pixels.
    pub open spec fn wf(self) -> bool {
        self.pixels@.len() == self.width * self.height * 4
    }
}

/// The raw bytes of the square tile of side `ts` whose top-left pixel sits at
/// `(x0, y0)` in an image of the given `width`: `ts` runs of `ts * 4` bytes,
/// one run per pixel row of the tile.
pub open spec fn tile_bytes(img: Seq<u8>, width: int, x0: int, y0: int, ts: int) -> Seq<u8> {
    Seq::new((ts * ts * 4) as nat, |k: int| img[((y0 + k / (ts * 4)) * width + x0) * 4 + k % (ts * 4)])
}

/// Byte `k` of a tile of side `ts` at `(x0, y0)` lies inside the image buffer.
pub proof fn lemma_tile_byte_in_bounds(width: int, height: int, x0: int, y0: int, ts: int, k: int)
    requires
        0 < ts,
        0 <= x0,
        0 <= y0,
        x0 + ts <= width,
        y0 + ts <= height,
        0 <= k < ts * ts * 4,
    ensures
        0 <= k / (ts * 4) < ts,
        0 <= k % (ts * 4) < ts * 4,
        0 <= (y0 + k / (ts * 4)) * width,
        0 <= ((y0 + k / (ts * 4)) * width + x0) * 4 + k % (ts * 4) < width * height * 4,
{
    let row: int = k / (ts * 4);
    let m: int = k % (ts * 4);
    assert(ts * ts * 4 == (ts * 4) * ts) by (nonlinear_arith);
    lemma_multiply_divide_lt(k, ts * 4, ts);
    assert(0 <= row < ts);
    lemma_fundamental_div_mod(k, ts * 4);
    assert(0 <= m < ts * 4);
    let y: int = y0 + row;
    assert(0 <= y < height);
    // (y * width + x0) * 4 + m  <  width * height * 4
    assert(y * width + x0 + ts <= height * width) by {
        lemma_mul_inequality(y + 1, height, width);
        lemma_mul_is_distributive_add_other_way(width, y, 1);
    }
    assert(((y * width + x0) * 4 + m < width * height * 4) && 0 <= y * width) by (nonlinear_arith)
        requires
            0 <= y,
            0 <= x0,
            0 < ts,
            0 <= m < ts * 4,
            y * width + x0 + ts <= height * width,
            x0 + ts <= width;
}

/// Slice the square tile of side `ts` at pixel `(x0, y0)` out of `image`,
/// row by row, into a fresh byte buffer.
pub fn copy_tile(image: &Image, x0: usize, y0: usize, ts: usize) -> (t: Vec<u8>)
    requires
        image.wf(),
        0 < ts,
        x0 + ts <= image.width,
        y0 + ts <= image.height,
    ensures
        t@ == tile_bytes(image.pixels@, image.width as int, x0 as int, y0 as int, ts as int),
        t@.len() == ts * ts * 4,
{
    let buf_len: usize = image.pixels.len();
    proof {
        assert(ts * ts * 4 <= image.width * image.height * 4 && ts * 4 <= ts * ts * 4) by (nonlinear_arith)
            requires
                0 < ts,
                ts <= x0 + ts <= image.width,
                ts <= y0 + ts <= image.height;
    }
    let n: usize = ts * ts * 4;
    let mut t: Vec<u8> = Vec::new();
    let mut k: usize = 0;
    while k < n
        invariant
            image.wf(),
            buf_len == image.pixels@.len(),
            0 < ts,
            x0 + ts <= image.width,
            y0 + ts <= image.height,
            n == ts * ts * 4,
            ts * 4 <= n,
            k <= n,
            t@.len() == k,
            forall|i: int| 0 <= i < k ==> t@[i] == tile_bytes(image.pixels@, image.width as int, x0 as int, y0 as int, ts as int)[i],
        decreases n - k,
    {
        proof {
            lemma_tile_byte_in_bounds(
                image.width as int, image.height as int,
                x0 as int, y0 as int, ts as int, k as int,
            );
        }
        let row: usize = k / (ts * 4);
        let m: usize = k % (ts * 4);
        let src: usize = ((y0 + row) * image.width + x0) * 4 + m;
        t.push(image.pixels[src]);
        k = k + 1;
    }
    proof {
        assert(t@ =~= tile_bytes(image.pixels@, image.width as int, x0 as int, y0 as int, ts as int));
    }
    t
}

} // verus!
