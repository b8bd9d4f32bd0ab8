use rzrtile::{LoadStatus, TileDoc, TileMode};

#[test]
fn default_document_is_a_blank_tile() {
    let doc = TileDoc::default();
    assert_eq!(doc.width, 8);
    assert_eq!(doc.height, 8);
    assert_eq!(doc.mode, TileMode::Y8);
    assert_eq!(doc.pixels, vec![0u8; 64]);
}

#[test]
fn set_then_get_reads_the_painted_pixel() {
    let mut doc = TileDoc::default();
    doc.set(3, 5, 2);
    assert_eq!(doc.get(3, 5), 2);
    assert_eq!(doc.get(5, 3), 0);
    assert_eq!(doc.pixels[5 * 8 + 3], 2);
}

#[test]
fn export_packs_the_current_buffer() {
    let mut doc = TileDoc::default();
    for x in 0..8 {
        doc.set(x, 0, 3);
    }
    let tiles = doc.export();
    assert_eq!(tiles[0], 0xFF);
    assert_eq!(tiles[1], 0xFF);
    for k in 2..16 {
        assert_eq!(tiles[k], 0);
    }
}

#[test]
fn import_replaces_buffer_and_geometry() {
    let mut doc = TileDoc::default();
    let mut tiles = vec![0u8; 32];
    tiles[0] = 0xFF;
    doc.import(&tiles, 2, 1);
    assert_eq!(doc.width, 16);
    assert_eq!(doc.height, 8);
    assert_eq!(doc.mode, TileMode::Y8);
    assert_eq!(doc.pixels.len(), 16 * 8);
    for x in 0..8 {
        assert_eq!(doc.get(x, 0), 1);
    }
    assert_eq!(doc.get(8, 0), 0);
}

#[test]
fn save_then_load_restores_the_document() {
    let mut doc = TileDoc::default();
    doc.resize_to(16, 16);
    for y in 0..16 {
        for x in 0..16 {
            doc.set(x, y, ((x * y) % 4) as u8);
        }
    }
    let bytes = doc.save_bytes();
    let mut other = TileDoc::default();
    assert_eq!(other.load_bytes(&bytes), LoadStatus::Loaded);
    assert_eq!(other.pixels, doc.pixels);
    assert_eq!(other.width, doc.width);
    assert_eq!(other.height, doc.height);
    assert_eq!(other.mode, doc.mode);
}

#[test]
fn save_then_load_restores_a_rows16_document() {
    let mut doc = TileDoc {
        pixels: vec![0u8; 8 * 16],
        width: 8,
        height: 16,
        mode: TileMode::Y16,
    };
    for y in 0..16 {
        doc.set(0, y, 3);
    }
    let bytes = doc.save_bytes();
    let mut other = TileDoc::default();
    assert_eq!(other.load_bytes(&bytes), LoadStatus::Loaded);
    assert_eq!(other.mode, TileMode::Y16);
    assert_eq!(other.width, 8);
    assert_eq!(other.height, 16);
    assert_eq!(other.pixels, doc.pixels);
}

#[test]
fn unrecognized_bytes_leave_the_document_untouched() {
    let mut doc = TileDoc::default();
    doc.set(1, 1, 3);
    let before = doc.pixels.clone();
    let status = doc.load_bytes(&[b'P', b'N', b'G', 0, 1, 8, 1, 1]);
    assert_eq!(status, LoadStatus::Unrecognized);
    assert_eq!(doc.pixels, before);
    assert_eq!(doc.width, 8);
    assert_eq!(doc.height, 8);
    assert_eq!(doc.mode, TileMode::Y8);
}

#[test]
fn truncated_bytes_leave_the_document_untouched() {
    let mut doc = TileDoc::default();
    doc.set(2, 2, 1);
    let before = doc.pixels.clone();
    let status = doc.load_bytes(&[0x72, 0x54, 0x69, 0x6C, 1, 8, 1, 1, 0, 0]);
    assert_eq!(status, LoadStatus::Truncated);
    assert_eq!(doc.pixels, before);
}

#[test]
fn resize_keeps_content_through_grow_and_shrink() {
    let mut doc = TileDoc::default();
    for y in 0..8 {
        for x in 0..8 {
            doc.set(x, y, ((x + y) % 4) as u8);
        }
    }
    let before = doc.pixels.clone();
    doc.resize_to(16, 16);
    assert_eq!(doc.width, 16);
    assert_eq!(doc.height, 16);
    doc.resize_to(8, 8);
    assert_eq!(doc.pixels, before);
}
