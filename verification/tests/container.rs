use rzrtile::{read_file, write_file, ReadOutcome, TileMode};

#[test]
fn written_stream_has_the_documented_header() {
    let pixels = vec![0u8; 16 * 16];
    let out = write_file(&pixels, 16, 16, TileMode::Y8);
    assert_eq!(out.len(), 8 + 16 * 16 / 4);
    assert_eq!(&out[0..4], &[0x72, 0x54, 0x69, 0x6C]);
    assert_eq!(out[4], 1); // version
    assert_eq!(out[5], 8); // mode tag
    assert_eq!(out[6], 2); // tiles across
    assert_eq!(out[7], 2); // tiles down
}

#[test]
fn write_then_read_round_trips() {
    let mut pixels = vec![0u8; 16 * 16];
    for k in 0..pixels.len() {
        pixels[k] = (k % 4) as u8;
    }
    let stream = write_file(&pixels, 16, 16, TileMode::Y8);
    match read_file(&stream) {
        ReadOutcome::Loaded { pixels: p, width, height, mode } => {
            assert_eq!(p, pixels);
            assert_eq!(width, 16);
            assert_eq!(height, 16);
            assert_eq!(mode, TileMode::Y8);
        },
        _ => panic!("a written stream must be loaded"),
    }
}

#[test]
fn write_then_read_round_trips_rows16() {
    let mut pixels = vec![0u8; 8 * 32];
    for k in 0..pixels.len() {
        pixels[k] = ((k / 5) % 4) as u8;
    }
    let stream = write_file(&pixels, 8, 32, TileMode::Y16);
    match read_file(&stream) {
        ReadOutcome::Loaded { pixels: p, width, height, mode } => {
            assert_eq!(p, pixels);
            assert_eq!(width, 8);
            assert_eq!(height, 32);
            assert_eq!(mode, TileMode::Y16);
        },
        _ => panic!("a written stream must be loaded"),
    }
}

#[test]
fn wrong_magic_is_unrecognized() {
    let mut stream = write_file(&vec![0u8; 64], 8, 8, TileMode::Y8);
    stream[0] = b'X';
    assert!(matches!(read_file(&stream), ReadOutcome::Unrecognized));
}

#[test]
fn wrong_version_is_unrecognized() {
    let mut stream = write_file(&vec![0u8; 64], 8, 8, TileMode::Y8);
    stream[4] = 2;
    assert!(matches!(read_file(&stream), ReadOutcome::Unrecognized));
}

#[test]
fn short_body_is_truncated() {
    let mut stream = write_file(&vec![0u8; 64], 8, 8, TileMode::Y8);
    stream.truncate(8 + 10); // header says 16 tile bytes, only 10 remain
    assert!(matches!(read_file(&stream), ReadOutcome::Truncated));
}

#[test]
fn short_header_is_truncated() {
    assert!(matches!(read_file(&[]), ReadOutcome::Truncated));
    assert!(matches!(
        read_file(&[0x72, 0x54, 0x69, 0x6C]),
        ReadOutcome::Truncated
    ));
    assert!(matches!(
        read_file(&[0x72, 0x54, 0x69, 0x6C, 1, 8]),
        ReadOutcome::Truncated
    ));
}

#[test]
fn unknown_mode_byte_defaults_to_rows8() {
    let mut stream = vec![0x72, 0x54, 0x69, 0x6C, 1, 7, 1, 1];
    stream.extend_from_slice(&[0u8; 16]);
    match read_file(&stream) {
        ReadOutcome::Loaded { pixels, width, height, mode } => {
            assert_eq!(mode, TileMode::Y8);
            assert_eq!(width, 8);
            assert_eq!(height, 8);
            assert_eq!(pixels, vec![0u8; 64]);
        },
        _ => panic!("the lenient mode byte must still load"),
    }
}

#[test]
fn rows16_height_follows_the_mode() {
    // One 8x16 tile: the loaded height is 16 rows, not 8.
    let mut stream = vec![0x72, 0x54, 0x69, 0x6C, 1, 16, 1, 1];
    stream.extend_from_slice(&[0u8; 32]);
    match read_file(&stream) {
        ReadOutcome::Loaded { pixels, width, height, mode } => {
            assert_eq!(mode, TileMode::Y16);
            assert_eq!(width, 8);
            assert_eq!(height, 16);
            assert_eq!(pixels.len(), 8 * 16);
        },
        _ => panic!("a complete stream must be loaded"),
    }
}

#[test]
fn trailing_bytes_are_ignored() {
    let mut stream = write_file(&vec![1u8; 64], 8, 8, TileMode::Y8);
    stream.push(0xAB);
    stream.push(0xCD);
    match read_file(&stream) {
        ReadOutcome::Loaded { pixels, .. } => assert_eq!(pixels, vec![1u8; 64]),
        _ => panic!("trailing bytes must not fail the read"),
    }
}
