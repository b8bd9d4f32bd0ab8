use rzrtile::resize;

#[test]
fn grow_then_shrink_restores_the_canvas() {
    let mut pixels = vec![0u8; 64];
    for k in 0..64 {
        pixels[k] = (k % 4) as u8;
    }
    let grown = resize(&pixels, 8, 8, 16, 16);
    assert_eq!(grown.len(), 256);
    let back = resize(&grown, 16, 16, 8, 8);
    assert_eq!(back, pixels);
}

#[test]
fn growth_is_zero_filled_bottom_right() {
    let pixels = vec![3u8; 64];
    let grown = resize(&pixels, 8, 8, 16, 16);
    for r in 0..16 {
        for c in 0..16 {
            let expected = if r < 8 && c < 8 { 3 } else { 0 };
            assert_eq!(grown[r * 16 + c], expected);
        }
    }
}

#[test]
fn swap_of_width_and_height_keeps_only_the_overlap() {
    // 8 wide by 16 high onto 16 wide by 8 high: rows 0..8 and columns
    // 0..8 carry over, new columns 8..16 are zero.
    let mut pixels = vec![0u8; 8 * 16];
    for r in 0..16 {
        for c in 0..8 {
            pixels[r * 8 + c] = ((r + c) % 4) as u8;
        }
    }
    let out = resize(&pixels, 8, 16, 16, 8);
    assert_eq!(out.len(), 16 * 8);
    for r in 0..8 {
        for c in 0..16 {
            let expected = if c < 8 { pixels[r * 8 + c] } else { 0 };
            assert_eq!(out[r * 16 + c], expected);
        }
    }
}

#[test]
fn shrink_truncates_bottom_and_right() {
    let mut pixels = vec![0u8; 256];
    for k in 0..256 {
        pixels[k] = (k % 4) as u8;
    }
    let out = resize(&pixels, 16, 16, 8, 8);
    assert_eq!(out.len(), 64);
    for r in 0..8 {
        for c in 0..8 {
            assert_eq!(out[r * 8 + c], pixels[r * 16 + c]);
        }
    }
}
