use stackhammer::{extract, extract_tileset, pack, ceil_sqrt, Image, TileError};

fn solid_image(width: usize, height: usize, rgba: [u8; 4]) -> Image {
    let mut pixels: Vec<u8> = Vec::new();
    for _ in 0..width * height {
        pixels.extend_from_slice(&rgba);
    }
    Image { width, height, pixels }
}

fn solid_tile(ts: usize, rgba: [u8; 4]) -> Vec<u8> {
    let mut bytes: Vec<u8> = Vec::new();
    for _ in 0..ts * ts {
        bytes.extend_from_slice(&rgba);
    }
    bytes
}

/// The pixel bytes of the `ts` x `ts` region of `img` with top-left `(x0, y0)`.
fn region(img: &Image, x0: usize, y0: usize, ts: usize) -> Vec<u8> {
    let mut out: Vec<u8> = Vec::new();
    for r in 0..ts {
        let start = ((y0 + r) * img.width + x0) * 4;
        out.extend_from_slice(&img.pixels[start..start + ts * 4]);
    }
    out
}

#[test]
fn uniform_image_yields_one_tile() {
    let img = solid_image(32, 32, [7, 7, 7, 255]);
    let tiles = extract(&img, 16).unwrap();
    assert_eq!(tiles.len(), 1);
    assert_eq!(tiles[0], solid_tile(16, [7, 7, 7, 255]));

    let out = extract_tileset(&img, 16).unwrap();
    assert_eq!(out.width, 16);
    assert_eq!(out.height, 16);
    assert_eq!(out.pixels, solid_tile(16, [7, 7, 7, 255]));
}

#[test]
fn undivided_remainder_is_skipped() {
    // a 17x16 image: the extra 1-pixel strip on the right contributes nothing
    let mut wide = solid_image(17, 16, [1, 2, 3, 4]);
    for r in 0..16 {
        // make the strip loud so any use of it would show
        let p = (r * 17 + 16) * 4;
        wide.pixels[p] = 250;
        wide.pixels[p + 1] = 251;
        wide.pixels[p + 2] = 252;
        wide.pixels[p + 3] = 253;
    }
    let square = solid_image(16, 16, [1, 2, 3, 4]);
    let from_wide = extract(&wide, 16).unwrap();
    let from_square = extract(&square, 16).unwrap();
    assert_eq!(from_wide.len(), from_square.len());
    assert_eq!(from_wide, from_square);
}

#[test]
fn empty_image_yields_empty_results() {
    let img = Image { width: 0, height: 0, pixels: Vec::new() };
    let tiles = extract(&img, 16).unwrap();
    assert!(tiles.is_empty());

    let out = extract_tileset(&img, 16).unwrap();
    assert_eq!(out.width, 0);
    assert_eq!(out.height, 0);
    assert!(out.pixels.is_empty());

    let packed = pack(&Vec::new(), 16).unwrap();
    assert_eq!(packed.width, 0);
    assert_eq!(packed.height, 0);
    assert!(packed.pixels.is_empty());
}

#[test]
fn red_then_blue_scenario() {
    let red: [u8; 4] = [255, 0, 0, 255];
    let blue: [u8; 4] = [0, 0, 255, 255];
    let mut img = solid_image(32, 16, red);
    for y in 0..16 {
        for x in 16..32 {
            let p = (y * 32 + x) * 4;
            img.pixels[p..p + 4].copy_from_slice(&blue);
        }
    }
    let tiles = extract(&img, 16).unwrap();
    assert_eq!(tiles.len(), 2);
    assert_eq!(tiles[0], solid_tile(16, red));
    assert_eq!(tiles[1], solid_tile(16, blue));

    let out = extract_tileset(&img, 16).unwrap();
    assert_eq!(out.width, 32);
    assert_eq!(out.height, 16);
    assert_eq!(region(&out, 0, 0, 16), solid_tile(16, red));
    assert_eq!(region(&out, 16, 0, 16), solid_tile(16, blue));
}

#[test]
fn extraction_is_idempotent() {
    let mut img = solid_image(48, 32, [9, 9, 9, 255]);
    // vary some tiles so the result is not trivial
    for y in 0..16 {
        for x in 16..32 {
            let p = (y * 48 + x) * 4;
            img.pixels[p] = (x + y) as u8;
        }
    }
    let first = extract(&img, 16).unwrap();
    let second = extract(&img, 16).unwrap();
    assert_eq!(first, second);
}

#[test]
fn no_duplicate_tiles_in_output() {
    // four cells, two distinct contents, each repeated
    let mut img = solid_image(32, 32, [5, 5, 5, 255]);
    for y in 0..16 {
        for x in 16..32 {
            let p = (y * 32 + x) * 4;
            img.pixels[p] = 200;
        }
    }
    for y in 16..32 {
        for x in 0..16 {
            let p = (y * 32 + x) * 4;
            img.pixels[p] = 200;
        }
    }
    let tiles = extract(&img, 16).unwrap();
    assert_eq!(tiles.len(), 2);
    for a in 0..tiles.len() {
        for b in a + 1..tiles.len() {
            assert_ne!(tiles[a], tiles[b]);
        }
    }
}

#[test]
fn every_full_cell_is_covered() {
    let mut img = solid_image(33, 17, [1, 1, 1, 255]);
    for y in 0..17 {
        for x in 0..33 {
            let p = (y * 33 + x) * 4;
            img.pixels[p] = (3 * x) as u8;
            img.pixels[p + 1] = y as u8;
        }
    }
    let tiles = extract(&img, 16).unwrap();
    // every full 16x16 cell's exact bytes appear among the output tiles
    for cy in 0..1 {
        for cx in 0..2 {
            let cell = region(&img, cx * 16, cy * 16, 16);
            assert!(tiles.iter().any(|t| *t == cell));
        }
    }
}

#[test]
fn five_tiles_pack_into_three_by_two() {
    // tiles of side 1: each is a single RGBA pixel
    let tiles: Vec<Vec<u8>> = (0u8..5).map(|i| vec![i, 10 + i, 20 + i, 255]).collect();
    let out = pack(&tiles, 1).unwrap();
    assert_eq!(out.width, 3);
    assert_eq!(out.height, 2);
    let px = |x: usize, y: usize| -> &[u8] {
        let p = (y * 3 + x) * 4;
        &out.pixels[p..p + 4]
    };
    assert_eq!(px(0, 0), &[0, 10, 20, 255]);
    assert_eq!(px(1, 0), &[1, 11, 21, 255]);
    assert_eq!(px(2, 0), &[2, 12, 22, 255]);
    assert_eq!(px(0, 1), &[3, 13, 23, 255]);
    assert_eq!(px(1, 1), &[4, 14, 24, 255]);
    // the unfilled trailing cell stays fully transparent
    assert_eq!(px(2, 1), &[0, 0, 0, 0]);
}

#[test]
fn zero_tile_size_is_rejected() {
    let img = solid_image(16, 16, [0, 0, 0, 255]);
    assert_eq!(extract(&img, 0), Err(TileError::InvalidTileSize));
    assert_eq!(extract_tileset(&img, 0).unwrap_err(), TileError::InvalidTileSize);
    let tiles = vec![Vec::new()];
    assert_eq!(pack(&tiles, 0).unwrap_err(), TileError::InvalidTileSize);
}

#[test]
fn wrong_tile_length_is_rejected() {
    let tiles = vec![vec![0u8; 5]];
    assert_eq!(pack(&tiles, 16).unwrap_err(), TileError::MalformedTileBuffer);
    let mut mixed = vec![solid_tile(16, [1, 1, 1, 255])];
    mixed.push(vec![0u8; 16]);
    assert_eq!(pack(&mixed, 16).unwrap_err(), TileError::MalformedTileBuffer);
}

#[test]
fn ceil_sqrt_exact_values() {
    assert_eq!(ceil_sqrt(0), 0);
    assert_eq!(ceil_sqrt(1), 1);
    assert_eq!(ceil_sqrt(2), 2);
    assert_eq!(ceil_sqrt(4), 2);
    assert_eq!(ceil_sqrt(5), 3);
    assert_eq!(ceil_sqrt(16), 4);
    assert_eq!(ceil_sqrt(17), 5);
    assert_eq!(ceil_sqrt(255), 16);
    assert_eq!(ceil_sqrt(256), 16);
    assert_eq!(ceil_sqrt(257), 17);
}

#[test]
fn image_smaller_than_a_tile_is_empty() {
    let img = solid_image(15, 40, [8, 8, 8, 255]);
    let tiles = extract(&img, 16).unwrap();
    assert!(tiles.is_empty());
}

#[test]
fn scan_order_is_row_major() {
    // 2x2 grid of distinct tiles: scan must go left-to-right, top-to-bottom
    let marks: [[u8; 4]; 4] = [
        [10, 0, 0, 255],
        [20, 0, 0, 255],
        [30, 0, 0, 255],
        [40, 0, 0, 255],
    ];
    let mut img = solid_image(32, 32, [0, 0, 0, 0]);
    for cy in 0..2 {
        for cx in 0..2 {
            let mark = marks[cy * 2 + cx];
            for y in 0..16 {
                for x in 0..16 {
                    let p = ((cy * 16 + y) * 32 + cx * 16 + x) * 4;
                    img.pixels[p..p + 4].copy_from_slice(&mark);
                }
            }
        }
    }
    let tiles = extract(&img, 16).unwrap();
    assert_eq!(tiles.len(), 4);
    for i in 0..4 {
        assert_eq!(tiles[i], solid_tile(16, marks[i]));
    }
}
