//! A 2-bit-per-pixel planar tile codec, the container format that persists a
//! packed tile stream, and the canvas-resize operation of a tile editor.
//!
//! Pixel buffers are flat, row-major `Vec<u8>` grids whose entries use only
//! their two low-order bits. Tiles are 8 pixels wide and either 8 or 16 rows
//! tall; each pixel row packs into two bytes, one per bit plane, most
//! significant bit first.

pub mod canvas;
pub mod codec;
pub mod doc;
pub mod file;
pub mod tile;

pub use crate::canvas::resize;
pub use crate::codec::gb_tiles_to_pixels;
pub use crate::codec::pixels_to_gb_tiles;
pub use crate::doc::LoadStatus;
pub use crate::doc::TileDoc;
pub use crate::file::read_file;
pub use crate::file::write_file;
pub use crate::file::ReadOutcome;
pub use crate::tile::TileMode;
