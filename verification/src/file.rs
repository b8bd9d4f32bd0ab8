//! The persisted container format: a fixed header — 4 magic bytes, a
//! version byte, a mode byte and two tile-count bytes — followed by the
//! packed planar tile stream.
//!
//! A stream whose magic or version differ is not this format and is left
//! alone; a stream that ends before its declared tile data is a hard
//! truncation failure. Tile counts live in single bytes, so a canvas wider
//! or taller than 255 tiles cannot be represented: writing demands counts
//! in range rather than silently wrapping them.

use vstd::prelude::*;

use crate::codec::buffer_len;
use crate::codec::gb_tiles_to_pixels;
use crate::codec::lemma_pixels_determined;
use crate::codec::pixels_to_gb_tiles;
use crate::codec::stream_len;
use crate::codec::tiles_match;
use crate::tile::TileMode;

verus! {

/// First byte of the magic constant.
pub const TL_MAGIC0: u8 = 0x72;

/// Second byte of the magic constant.
pub const TL_MAGIC1: u8 = 0x54;

/// Third byte of the magic constant.
pub const TL_MAGIC2: u8 = 0x69;

/// Fourth byte of the magic constant.
pub const TL_MAGIC3: u8 = 0x6c;

/// The only format version this library reads and writes.
pub const TL_VERSION: u8 = 1;

/// The stream begins with the four magic bytes.
pub open spec fn magic_ok(d: Seq<u8>) -> bool {
    &&& d.len() >= 4
    &&& d[0] == TL_MAGIC0
    &&& d[1] == TL_MAGIC1
    &&& d[2] == TL_MAGIC2
    &&& d[3] == TL_MAGIC3
}

/// The version byte matches the one version this library understands.
pub open spec fn version_ok(d: Seq<u8>) -> bool {
    &&& d.len() >= 5
    &&& d[4] == TL_VERSION
}

/// The tile mode the header's mode byte selects.
pub open spec fn header_mode(d: Seq<u8>) -> TileMode
    recommends
        d.len() >= 6,
{
    TileMode::spec_from_tag(d[5])
}

/// Length in bytes of the tile data the header declares.
pub open spec fn body_len(d: Seq<u8>) -> int
    recommends
        d.len() >= 8,
{
    stream_len(d[6] as int, d[7] as int, header_mode(d).spec_rows())
}

/// Reading recognizes the stream and finds all its declared tile data.
pub open spec fn read_accepts(d: Seq<u8>) -> bool {
    &&& magic_ok(d)
    &&& version_ok(d)
    &&& d.len() >= 8
    &&& d.len() >= 8 + body_len(d)
}

/// Reading sees a stream of some other format: the magic or the version
/// differ, so the stream is ignored rather than failed.
pub open spec fn read_rejects(d: Seq<u8>) -> bool {
    ||| (d.len() >= 4 && !magic_ok(d))
    ||| (magic_ok(d) && d.len() >= 5 && d[4] != TL_VERSION)
}

/// `s` is exactly the container image of the pixel buffer `p` with
/// geometry `w` by `h` pixels in `mode`.
pub open spec fn is_file_image(s: Seq<u8>, p: Seq<u8>, w: int, h: int, mode: TileMode) -> bool {
    &&& s.len() == 8 + stream_len(w / 8, h / mode.spec_rows(), mode.spec_rows())
    &&& magic_ok(s)
    &&& version_ok(s)
    &&& s[5] == mode.spec_tag()
    &&& s[6] == w / 8
    &&& s[7] == h / mode.spec_rows()
    &&& tiles_match(p, s.skip(8), w / 8, h / mode.spec_rows(), mode.spec_rows())
}

/// What reading a container byte stream produced.
#[derive(Debug)]
pub enum ReadOutcome {
    /// The stream was recognized and decoded whole.
    Loaded { pixels: Vec<u8>, width: u32, height: u32, mode: TileMode },
    /// The stream is not this format; nothing was taken from it.
    Unrecognized,
    /// The stream ended before the data its header declares.
    Truncated,
}

/// Serialize a pixel buffer into a container byte stream: header first,
/// then the packed tile data.
pub fn write_file(pixels: &[u8], w: u32, h: u32, mode: TileMode) -> (out: Vec<u8>)
    requires
        pixels@.len() == w * h,
        w % 8 == 0,
        h as int % mode.spec_rows() == 0,
        1 <= w / 8 <= 255,
        1 <= h as int / mode.spec_rows() <= 255,
    ensures
        is_file_image(out@, pixels@, w as int, h as int, mode),
{
    let rows: u32 = mode.rows();
    let mut out: Vec<u8> = Vec::new();
    out.push(TL_MAGIC0);
    out.push(TL_MAGIC1);
    out.push(TL_MAGIC2);
    out.push(TL_MAGIC3);
    out.push(TL_VERSION);
    out.push(mode.tag());
    out.push((w / 8) as u8);
    out.push((h / rows) as u8);
    let ghost header = out@;
    let mut data = pixels_to_gb_tiles(pixels, w, h, mode);
    let ghost body = data@;
    out.append(&mut data);
    proof {
        assert(out@ == header + body);
        assert(out@.skip(8) =~= body);
    }
    out
}

/// Deserialize a container byte stream. A stream of another format is
/// reported `Unrecognized` and nothing more is read from it; one that ends
/// before its declared tile data is reported `Truncated`; otherwise the
/// tile data is decoded whole. Trailing bytes after the declared data are
/// ignored. The mode byte is read leniently: any value but 16 selects the
/// 8-row mode.
pub fn read_file(data: &[u8]) -> (r: ReadOutcome)
    ensures
        r is Loaded <==> read_accepts(data@),
        r is Unrecognized <==> read_rejects(data@),
        r is Truncated <==> (!read_accepts(data@) && !read_rejects(data@)),
        r matches ReadOutcome::Loaded { pixels, width, height, mode } ==> {
            &&& mode == header_mode(data@)
            &&& width == data@[6] * 8
            &&& height == data@[7] * mode.spec_rows()
            &&& pixels@.len() == buffer_len(data@[6] as int, data@[7] as int, mode.spec_rows())
            &&& (forall|k: int| 0 <= k < pixels@.len() ==> pixels@[k] < 4)
            &&& tiles_match(
                pixels@,
                data@.subrange(8, 8 + body_len(data@)),
                data@[6] as int,
                data@[7] as int,
                mode.spec_rows(),
            )
        },
{
    let n = data.len();
    if n < 4 {
        return ReadOutcome::Truncated;
    }
    if !(data[0] == TL_MAGIC0 && data[1] == TL_MAGIC1 && data[2] == TL_MAGIC2 && data[3]
        == TL_MAGIC3) {
        return ReadOutcome::Unrecognized;
    }
    if n < 5 {
        return ReadOutcome::Truncated;
    }
    if data[4] != TL_VERSION {
        return ReadOutcome::Unrecognized;
    }
    if n < 8 {
        return ReadOutcome::Truncated;
    }
    let mode = TileMode::from_tag(data[5]);
    let tcx = data[6];
    let tcy = data[7];
    let rows: u32 = mode.rows();
    proof {
        assert(tcx as int * (tcy as int) <= 65025) by (nonlinear_arith)
            requires
                tcx <= 255,
                tcy <= 255,
        ;
        assert(tcx as int * (tcy as int) * (rows as int) <= 65025 * 16) by (nonlinear_arith)
            requires
                0 <= tcx as int * (tcy as int) <= 65025,
                0 <= rows <= 16,
        ;
    }
    let body: usize = (tcx as usize) * (tcy as usize) * (rows as usize) * 2;
    proof {
        assert(body == stream_len(tcx as int, tcy as int, mode.spec_rows()));
    }
    if n - 8 < body {
        return ReadOutcome::Truncated;
    }
    let mut payload: Vec<u8> = Vec::new();
    let mut t: usize = 0;
    while t < body
        invariant
            t <= body,
            8 + body <= n,
            n == data@.len(),
            payload@ == data@.subrange(8, 8 + t as int),
        decreases body - t,
    {
        payload.push(data[8 + t]);
        proof {
            assert(payload@ =~= data@.subrange(8, 8 + (t + 1) as int));
        }
        t = t + 1;
    }
    let pixels = gb_tiles_to_pixels(payload.as_slice(), tcx as u32, tcy as u32, mode);
    let width: u32 = (tcx as u32) * 8;
    let height: u32 = (tcy as u32) * rows;
    ReadOutcome::Loaded { pixels, width, height, mode }
}

/// Container round-trip law: the container image of a buffer is accepted
/// by the reader, carries the same geometry and mode, and — for pixel
/// values below 4 — any buffer the reader decodes from it is exactly the
/// buffer that was written.
pub proof fn lemma_write_read_round_trip(
    p: Seq<u8>,
    q: Seq<u8>,
    s: Seq<u8>,
    w: int,
    h: int,
    mode: TileMode,
)
    requires
        w % 8 == 0,
        h % mode.spec_rows() == 0,
        1 <= w / 8 <= 255,
        1 <= h / mode.spec_rows() <= 255,
        p.len() == w * h,
        forall|k: int| 0 <= k < p.len() ==> p[k] < 4,
        is_file_image(s, p, w, h, mode),
        q.len() == buffer_len(s[6] as int, s[7] as int, header_mode(s).spec_rows()),
        forall|k: int| 0 <= k < q.len() ==> q[k] < 4,
        tiles_match(
            q,
            s.subrange(8, 8 + body_len(s)),
            s[6] as int,
            s[7] as int,
            header_mode(s).spec_rows(),
        ),
    ensures
        read_accepts(s),
        header_mode(s) == mode,
        s[6] * 8 == w,
        s[7] * header_mode(s).spec_rows() == h,
        q == p,
{
    vstd::arithmetic::div_mod::lemma_fundamental_div_mod(w, 8);
    vstd::arithmetic::div_mod::lemma_fundamental_div_mod(h, mode.spec_rows());
    assert(header_mode(s) == mode);
    assert(body_len(s) == stream_len(w / 8, h / mode.spec_rows(), mode.spec_rows()));
    assert(s.skip(8) =~= s.subrange(8, 8 + body_len(s)));
    lemma_pixels_determined(
        p,
        q,
        s.skip(8),
        w / 8,
        h / mode.spec_rows(),
        mode.spec_rows(),
    );
}

} // verus!
