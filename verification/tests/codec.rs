use rzrtile::{gb_tiles_to_pixels, pixels_to_gb_tiles, TileMode};

#[test]
fn zero_tile_encodes_to_zero_bytes() {
    let pixels = vec![0u8; 64];
    let tiles = pixels_to_gb_tiles(&pixels, 8, 8, TileMode::Y8);
    assert_eq!(tiles, vec![0u8; 16]);
}

#[test]
fn solid_first_row_encodes_to_ff_ff() {
    let mut pixels = vec![0u8; 64];
    for x in 0..8 {
        pixels[x] = 3;
    }
    let tiles = pixels_to_gb_tiles(&pixels, 8, 8, TileMode::Y8);
    assert_eq!(tiles.len(), 16);
    assert_eq!(tiles[0], 0xFF);
    assert_eq!(tiles[1], 0xFF);
    for k in 2..16 {
        assert_eq!(tiles[k], 0x00);
    }
}

#[test]
fn bit_planes_pack_msb_first() {
    // Leftmost pixel of the row lands in bit 7 of both plane bytes.
    let mut pixels = vec![0u8; 64];
    pixels[0] = 1; // low plane only
    pixels[7] = 2; // high plane only
    let tiles = pixels_to_gb_tiles(&pixels, 8, 8, TileMode::Y8);
    assert_eq!(tiles[0], 0x80);
    assert_eq!(tiles[1], 0x01);
}

#[test]
fn high_bits_of_pixels_are_masked() {
    // Values above 3 pack exactly as their two low-order bits.
    let mut loud = vec![0u8; 64];
    let mut quiet = vec![0u8; 64];
    for k in 0..64 {
        loud[k] = (k as u8 & 0b11) | 0xF4;
        quiet[k] = k as u8 & 0b11;
    }
    assert_eq!(
        pixels_to_gb_tiles(&loud, 8, 8, TileMode::Y8),
        pixels_to_gb_tiles(&quiet, 8, 8, TileMode::Y8)
    );
}

#[test]
fn decode_reads_both_planes() {
    let mut tiles = vec![0u8; 16];
    tiles[0] = 0x80; // row 0: leftmost pixel low bit
    tiles[1] = 0xC0; // row 0: two leftmost pixels high bit
    let pixels = gb_tiles_to_pixels(&tiles, 1, 1, TileMode::Y8);
    assert_eq!(pixels.len(), 64);
    assert_eq!(pixels[0], 3);
    assert_eq!(pixels[1], 2);
    for k in 2..64 {
        assert_eq!(pixels[k], 0);
    }
}

#[test]
fn decode_then_encode_restores_stream() {
    let tiles: Vec<u8> = (0u8..=255).collect();
    // 256 bytes: 8 Rows16 tiles, laid out 4 wide and 2 tall.
    let pixels = gb_tiles_to_pixels(&tiles, 4, 2, TileMode::Y16);
    assert_eq!(pixels.len(), 4 * 8 * 2 * 16);
    let again = pixels_to_gb_tiles(&pixels, 32, 32, TileMode::Y16);
    assert_eq!(again, tiles);
}

#[test]
fn encode_then_decode_restores_pixels() {
    let mut pixels = vec![0u8; 16 * 16];
    for k in 0..pixels.len() {
        pixels[k] = ((k * 7) % 4) as u8;
    }
    let tiles = pixels_to_gb_tiles(&pixels, 16, 16, TileMode::Y8);
    assert_eq!(tiles.len(), 16 * 16 / 4);
    let again = gb_tiles_to_pixels(&tiles, 2, 2, TileMode::Y8);
    assert_eq!(again, pixels);
}

#[test]
fn encode_then_decode_restores_pixels_tall_tiles() {
    let mut pixels = vec![0u8; 16 * 32];
    for k in 0..pixels.len() {
        pixels[k] = ((k / 3) % 4) as u8;
    }
    let tiles = pixels_to_gb_tiles(&pixels, 16, 32, TileMode::Y16);
    let again = gb_tiles_to_pixels(&tiles, 2, 2, TileMode::Y16);
    assert_eq!(again, pixels);
}

#[test]
fn tiles_are_traversed_row_major() {
    // Two tiles side by side: the second tile's rows follow the whole
    // first tile in the stream.
    let mut pixels = vec![0u8; 16 * 8];
    pixels[8] = 3; // row 0, column 8: first row of the second tile
    let tiles = pixels_to_gb_tiles(&pixels, 16, 8, TileMode::Y8);
    assert_eq!(tiles.len(), 32);
    assert_eq!(tiles[16], 0x80);
    assert_eq!(tiles[17], 0x80);
    for k in 0..16 {
        assert_eq!(tiles[k], 0);
    }
}
