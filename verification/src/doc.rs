//! The editor's document: the live pixel buffer with its geometry and tile
//! mode, and the operations the editing surface drives — painting single
//! pixels, exporting and importing packed tile data, resizing the canvas,
//! and moving the whole document through the container format.

use vstd::prelude::*;

use crate::canvas::resize;
use crate::canvas::resized;
use crate::codec::buffer_len;
use crate::codec::gb_tiles_to_pixels;
use crate::codec::pixels_to_gb_tiles;
use crate::codec::stream_len;
use crate::codec::tiles_match;
use crate::file::body_len;
use crate::file::header_mode;
use crate::file::is_file_image;
use crate::file::read_accepts;
use crate::file::read_file;
use crate::file::read_rejects;
use crate::file::write_file;
use crate::file::ReadOutcome;
use crate::tile::TileMode;

verus! {

/// How an attempt to load container bytes into a document ended.
#[derive(Copy, Clone, PartialEq, Eq, Structural, Debug)]
pub enum LoadStatus {
    /// The bytes were this format; the document was replaced.
    Loaded,
    /// The bytes are some other format; the document was left untouched.
    Unrecognized,
    /// The bytes end before the data their header declares; the document
    /// was left untouched.
    Truncated,
}

/// A pixel buffer with its geometry and tile mode.
pub struct TileDoc {
    /// Row-major pixel values; only the two low-order bits are meaningful.
    pub pixels: Vec<u8>,
    /// Canvas width in pixels; always a multiple of 8.
    pub width: u32,
    /// Canvas height in pixels; always a multiple of the mode's row count.
    pub height: u32,
    /// The tile mode the document is edited and persisted in.
    pub mode: TileMode,
}

impl TileDoc {
    /// The document's invariant: the buffer fills the canvas exactly and
    /// the geometry fits whole tiles.
    pub open spec fn wf(self) -> bool {
        &&& self.pixels@.len() == self.width * self.height
        &&& self.width % 8 == 0
        &&& self.height as int % self.mode.spec_rows() == 0
    }

    /// The pixel at column `x`, row `y`.
    pub fn get(&self, x: u32, y: u32) -> (v: u8)
        requires
            self.wf(),
            x < self.width,
            y < self.height,
        ensures
            v == self.pixels@[y * self.width + x],
    {
        proof {
            assert(self.pixels.len() == self.pixels@.len());
            crate::canvas::lemma_rc_bound(y as int, x as int, self.width as int, self.height as int);
        }
        let index: usize = (y as usize) * (self.width as usize) + (x as usize);
        self.pixels[index]
    }

    /// Paint the pixel at column `x`, row `y`.
    pub fn set(&mut self, x: u32, y: u32, val: u8)
        requires
            old(self).wf(),
            x < old(self).width,
            y < old(self).height,
        ensures
            final(self).pixels@ == old(self).pixels@.update(
                y * old(self).width + x,
                val,
            ),
            final(self).width == old(self).width,
            final(self).height == old(self).height,
            final(self).mode == old(self).mode,
            final(self).wf(),
    {
        proof {
            assert(self.pixels.len() == self.pixels@.len());
            crate::canvas::lemma_rc_bound(y as int, x as int, self.width as int, self.height as int);
        }
        let index: usize = (y as usize) * (self.width as usize) + (x as usize);
        self.pixels[index] = val;
    }

    /// Pack the document's buffer into a planar tile stream.
    pub fn export(&self) -> (tiles: Vec<u8>)
        requires
            self.wf(),
        ensures
            tiles@.len() == self.width * self.height / 4,
            tiles_match(
                self.pixels@,
                tiles@,
                self.width as int / 8,
                self.height as int / self.mode.spec_rows(),
                self.mode.spec_rows(),
            ),
    {
        pixels_to_gb_tiles(self.pixels.as_slice(), self.width, self.height, self.mode)
    }

    /// Replace the document's buffer with one unpacked from a planar tile
    /// stream of `w` by `h` tiles, in the document's current mode.
    pub fn import(&mut self, data: &[u8], w: u32, h: u32)
        requires
            data@.len() == stream_len(w as int, h as int, old(self).mode.spec_rows()),
            buffer_len(w as int, h as int, old(self).mode.spec_rows()) <= usize::MAX,
            w * 8 <= u32::MAX,
            h * old(self).mode.spec_rows() <= u32::MAX,
        ensures
            final(self).mode == old(self).mode,
            final(self).width == w * 8,
            final(self).height == h * old(self).mode.spec_rows(),
            final(self).pixels@.len() == buffer_len(
                w as int,
                h as int,
                old(self).mode.spec_rows(),
            ),
            forall|k: int|
                0 <= k < final(self).pixels@.len() ==> final(self).pixels@[k] < 4,
            tiles_match(
                final(self).pixels@,
                data@,
                w as int,
                h as int,
                old(self).mode.spec_rows(),
            ),
            final(self).wf(),
    {
        let rows: u32 = self.mode.rows();
        self.pixels = gb_tiles_to_pixels(data, w, h, self.mode);
        self.width = w * 8;
        self.height = h * rows;
        proof {
            let rg = self.mode.spec_rows();
            assert(buffer_len(w as int, h as int, rg) == (w * 8) * (h * rg)) by (nonlinear_arith);
            assert((w * 8) as int % 8 == 0) by (nonlinear_arith);
            assert((h * rg) % rg == 0) by (nonlinear_arith)
                requires
                    rg == 8 || rg == 16,
            ;
        }
    }

    /// Serialize the whole document into a container byte stream.
    pub fn save_bytes(&self) -> (out: Vec<u8>)
        requires
            self.wf(),
            1 <= self.width / 8 <= 255,
            1 <= self.height as int / self.mode.spec_rows() <= 255,
        ensures
            is_file_image(out@, self.pixels@, self.width as int, self.height as int, self.mode),
    {
        write_file(self.pixels.as_slice(), self.width, self.height, self.mode)
    }

    /// Replace the document with one read from a container byte stream.
    /// Bytes of another format, and truncated streams, leave the document
    /// exactly as it was.
    pub fn load_bytes(&mut self, data: &[u8]) -> (st: LoadStatus)
        ensures
            st == LoadStatus::Loaded <==> read_accepts(data@),
            st == LoadStatus::Unrecognized <==> read_rejects(data@),
            st != LoadStatus::Loaded ==> *final(self) == *old(self),
            st == LoadStatus::Loaded ==> {
                &&& final(self).mode == header_mode(data@)
                &&& final(self).width == data@[6] * 8
                &&& final(self).height == data@[7] * header_mode(data@).spec_rows()
                &&& (forall|k: int|
                    0 <= k < final(self).pixels@.len() ==> final(self).pixels@[k] < 4)
                &&& tiles_match(
                    final(self).pixels@,
                    data@.subrange(8, 8 + body_len(data@)),
                    data@[6] as int,
                    data@[7] as int,
                    header_mode(data@).spec_rows(),
                )
                &&& final(self).wf()
            },
    {
        match read_file(data) {
            ReadOutcome::Loaded { pixels, width, height, mode } => {
                self.pixels = pixels;
                self.width = width;
                self.height = height;
                self.mode = mode;
                proof {
                    let rg = self.mode.spec_rows();
                    let tcx = data@[6] as int;
                    let tcy = data@[7] as int;
                    assert(buffer_len(tcx, tcy, rg) == (tcx * 8) * (tcy * rg))
                        by (nonlinear_arith);
                    assert((tcx * 8) % 8 == 0) by (nonlinear_arith);
                    assert((tcy * rg) % rg == 0) by (nonlinear_arith)
                        requires
                            rg == 8 || rg == 16,
                    ;
                }
                LoadStatus::Loaded
            },
            ReadOutcome::Unrecognized => LoadStatus::Unrecognized,
            ReadOutcome::Truncated => LoadStatus::Truncated,
        }
    }

    /// Remap the document onto a new canvas geometry, keeping the
    /// top-left overlap and zero-filling everything new.
    pub fn resize_to(&mut self, new_w: u32, new_h: u32)
        requires
            old(self).wf(),
            new_w % 8 == 0,
            new_h as int % old(self).mode.spec_rows() == 0,
            new_w * new_h <= usize::MAX,
        ensures
            final(self).width == new_w,
            final(self).height == new_h,
            final(self).mode == old(self).mode,
            resized(
                old(self).pixels@,
                final(self).pixels@,
                old(self).width as int,
                old(self).height as int,
                new_w as int,
                new_h as int,
            ),
            final(self).wf(),
    {
        self.pixels = resize(self.pixels.as_slice(), self.width, self.height, new_w, new_h);
        self.width = new_w;
        self.height = new_h;
    }
}

impl Default for TileDoc {
    /// A fresh document: an all-zero 8 by 8 canvas in the 8-row mode.
    fn default() -> (d: Self)
        ensures
            d.width == 8,
            d.height == 8,
            d.mode == TileMode::Y8,
            d.pixels@.len() == 64,
            forall|k: int| 0 <= k < 64 ==> d.pixels@[k] == 0,
            d.wf(),
    {
        TileDoc {
            pixels: crate::codec::filled(64, 0u8),
            width: 8,
            height: 8,
            mode: TileMode::Y8,
        }
    }
}

} // verus!
