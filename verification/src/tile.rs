//! Tile geometry: the two tile heights and the bit-level layout shared by the
//! codec and the file format.

use vstd::prelude::*;

verus! {

/// Height of one tile in pixel rows. Tiles are always 8 pixels wide.
#[derive(Copy, Clone, PartialEq, Eq, Structural, Debug)]
pub enum TileMode {
    /// 8 pixel rows per tile.
    Y8,
    /// 16 pixel rows per tile.
    Y16,
}

impl TileMode {
    /// Number of pixel rows in one tile of this mode.
    pub open spec fn spec_rows(self) -> int {
        match self {
            TileMode::Y8 => 8,
            TileMode::Y16 => 16,
        }
    }

    /// The byte that stands for this mode in a file header; it equals the
    /// row count.
    pub open spec fn spec_tag(self) -> u8 {
        match self {
            TileMode::Y8 => 8,
            TileMode::Y16 => 16,
        }
    }

    /// The mode a header byte selects: 16 selects `Y16`, every other value
    /// falls back to `Y8`.
    pub open spec fn spec_from_tag(tag: u8) -> TileMode {
        if tag == 16 {
            TileMode::Y16
        } else {
            TileMode::Y8
        }
    }

    /// Number of pixel rows in one tile of this mode.
    pub fn rows(self) -> (r: u32)
        ensures
            r == self.spec_rows(),
    {
        match self {
            TileMode::Y8 => 8,
            TileMode::Y16 => 16,
        }
    }

    /// The byte that stands for this mode in a file header.
    pub fn tag(self) -> (t: u8)
        ensures
            t == self.spec_tag(),
    {
        match self {
            TileMode::Y8 => 8,
            TileMode::Y16 => 16,
        }
    }

    /// Select a mode from a header byte, falling back to `Y8` for every
    /// value but 16.
    pub fn from_tag(tag: u8) -> (m: TileMode)
        ensures
            m == TileMode::spec_from_tag(tag),
    {
        if tag == 16 {
            TileMode::Y16
        } else {
            TileMode::Y8
        }
    }
}

/// Bit `i` of byte `b`, counted from the most significant bit: bit 0 is the
/// leftmost pixel of a packed row.
pub open spec fn bit_of(b: u8, i: u8) -> u8
    recommends
        i < 8,
{
    (b >> ((7 - i) as u8)) & 1
}

} // verus!
