//! The planar tile codec: conversion between a flat indexed-pixel buffer and
//! the packed two-bit-plane byte stream, in both directions.
//!
//! A stream holds tiles in raster tile order (tile rows top to bottom, tiles
//! left to right within a row). Each tile contributes `2 * rows` bytes: two
//! per pixel row, the first holding the low bit of each of the row's 8
//! pixels, the second the high bit, most significant bit first.

use vstd::prelude::*;

use crate::tile::TileMode;
use crate::tile::bit_of;

verus! {

/// Total number of packed pixel rows in a stream of `tw` by `th` tiles that
/// are each `rows` rows tall.
pub open spec fn row_total(tw: int, th: int, rows: int) -> int {
    tw * th * rows
}

/// Length in bytes of the packed stream for a `tw` by `th` tile grid.
pub open spec fn stream_len(tw: int, th: int, rows: int) -> int {
    row_total(tw, th, rows) * 2
}

/// Length in pixels of the buffer for a `tw` by `th` tile grid.
pub open spec fn buffer_len(tw: int, th: int, rows: int) -> int {
    row_total(tw, th, rows) * 8
}

/// Position of the low-plane byte of row `j` of the tile in tile column `tx`
/// of tile row `ty`; the high-plane byte follows it.
pub open spec fn pair_index(tw: int, rows: int, ty: int, tx: int, j: int) -> int {
    ((ty * tw + tx) * rows + j) * 2
}

/// Position in the pixel buffer of pixel `i` of row `j` of the tile in tile
/// column `tx` of tile row `ty`.
pub open spec fn pixel_index(tw: int, rows: int, ty: int, tx: int, j: int, i: int) -> int {
    (ty * rows + j) * (tw * 8) + tx * 8 + i
}

/// The two plane bytes of row `j` of tile `(ty, tx)` carry, at bit `i`, the
/// low and high bit of the pixel buffer's matching pixel.
pub open spec fn pixel_pair_ok(
    pixels: Seq<u8>,
    bytes: Seq<u8>,
    tw: int,
    rows: int,
    ty: int,
    tx: int,
    j: int,
    i: int,
) -> bool {
    let p = pixels[pixel_index(tw, rows, ty, tx, j, i)];
    let l = bytes[pair_index(tw, rows, ty, tx, j)];
    let r = bytes[pair_index(tw, rows, ty, tx, j) + 1];
    &&& bit_of(l, i as u8) == (p & 1)
    &&& bit_of(r, i as u8) == ((p >> 1) & 1)
}

/// `bytes` is the packed planar stream of `pixels` for a `tw` by `th` tile
/// grid of `rows`-row tiles: the lengths fit the grid and every bit of every
/// plane byte equals the matching bit of the matching pixel. Pixel values
/// take part only through their two low-order bits, so packing ignores any
/// higher bits.
pub open spec fn tiles_match(pixels: Seq<u8>, bytes: Seq<u8>, tw: int, th: int, rows: int) -> bool {
    &&& pixels.len() == buffer_len(tw, th, rows)
    &&& bytes.len() == stream_len(tw, th, rows)
    &&& forall|ty: int, tx: int, j: int, i: int|
        0 <= ty < th && 0 <= tx < tw && 0 <= j < rows && 0 <= i < 8 ==> #[trigger] pixel_pair_ok(
            pixels,
            bytes,
            tw,
            rows,
            ty,
            tx,
            j,
            i,
        )
}

/// A plane-byte pair's position is never negative.
pub proof fn lemma_pair_nonneg(tw: int, rows: int, a: int, b: int, c: int)
    by (nonlinear_arith)
    requires
        0 <= a,
        0 <= b < tw,
        0 <= c < rows,
    ensures
        0 <= pair_index(tw, rows, a, b, c),
{
}

/// A plane-byte pair that lies inside the stream belongs to a tile row
/// inside the grid.
pub proof fn lemma_pair_in_range(tw: int, th: int, rows: int, a: int, b: int, c: int)
    by (nonlinear_arith)
    requires
        0 <= a,
        0 <= b < tw,
        0 <= c < rows,
        pair_index(tw, rows, a, b, c) < stream_len(tw, th, rows),
    ensures
        a < th,
{
}

/// Distinct row triples own distinct plane-byte pairs.
pub proof fn lemma_pair_index_unique(
    tw: int,
    rows: int,
    a: int,
    b: int,
    c: int,
    p: int,
    q: int,
    r: int,
)
    requires
        0 <= a,
        0 <= b < tw,
        0 <= c < rows,
        0 <= p,
        0 <= q < tw,
        0 <= r < rows,
        pair_index(tw, rows, a, b, c) == pair_index(tw, rows, p, q, r),
    ensures
        a == p,
        b == q,
        c == r,
{
    lemma_mul_add_unique(a * tw + b, c, p * tw + q, r, rows);
    lemma_mul_add_unique(a, b, p, q, tw);
}

/// Both codec index maps stay inside their buffers and step as the
/// traversal does.
pub proof fn lemma_tile_coords(tw: int, th: int, rows: int, ty: int, tx: int, j: int, i: int)
    by (nonlinear_arith)
    requires
        0 <= ty < th,
        0 <= tx < tw,
        0 <= j < rows,
        0 <= i < 8,
    ensures
        0 <= ty * rows + j < th * rows,
        th * rows <= row_total(tw, th, rows),
        tw * 8 <= buffer_len(tw, th, rows),
        0 <= pixel_index(tw, rows, ty, tx, j, i) < buffer_len(tw, th, rows),
        0 <= pair_index(tw, rows, ty, tx, j),
        pair_index(tw, rows, ty, tx, j) + 2 <= stream_len(tw, th, rows),
{
}

/// A row-major pair decomposes uniquely: equal indexes mean equal rows and
/// equal columns.
pub proof fn lemma_mul_add_unique(a1: int, b1: int, a2: int, b2: int, m: int)
    by (nonlinear_arith)
    requires
        m > 0,
        0 <= b1 < m,
        0 <= b2 < m,
        a1 * m + b1 == a2 * m + b2,
    ensures
        a1 == a2,
        b1 == b2,
{
}

/// Distinct tile coordinates address distinct pixels.
pub proof fn lemma_pixel_index_distinct(
    tw: int,
    rows: int,
    ty1: int,
    tx1: int,
    j1: int,
    i1: int,
    ty2: int,
    tx2: int,
    j2: int,
    i2: int,
)
    requires
        0 <= tx1 < tw,
        0 <= j1 < rows,
        0 <= i1 < 8,
        0 <= ty1,
        0 <= tx2 < tw,
        0 <= j2 < rows,
        0 <= i2 < 8,
        0 <= ty2,
        !(ty1 == ty2 && tx1 == tx2 && j1 == j2 && i1 == i2),
    ensures
        pixel_index(tw, rows, ty1, tx1, j1, i1) != pixel_index(tw, rows, ty2, tx2, j2, i2),
{
    if pixel_index(tw, rows, ty1, tx1, j1, i1) == pixel_index(tw, rows, ty2, tx2, j2, i2) {
        let r1 = ty1 * rows + j1;
        let c1 = tx1 * 8 + i1;
        let r2 = ty2 * rows + j2;
        let c2 = tx2 * 8 + i2;
        assert(0 <= r1 && 0 <= r2) by (nonlinear_arith)
            requires
                0 <= ty1 && 0 <= j1 && 0 <= ty2 && 0 <= j2 && r1 == ty1 * rows + j1 && r2 == ty2
                    * rows + j2 && j1 < rows && j2 < rows,
        ;
        assert(c1 < tw * 8 && c2 < tw * 8);
        lemma_mul_add_unique(r1, c1, r2, c2, tw * 8);
        lemma_mul_add_unique(ty1, j1, ty2, j2, rows);
        lemma_mul_add_unique(tx1, i1, tx2, i2, 8);
    }
}

/// A freshly decoded pixel carries exactly the two plane bits it was built
/// from, and nothing above them.
proof fn lemma_combine_bits(l: u8, r: u8, i: u8)
    by (bit_vector)
    requires
        i < 8,
    ensures
        ({
            let c = ((l >> ((7 - i) as u8)) & 1) | (((r >> ((7 - i) as u8)) & 1) << 1);
            &&& c < 4
            &&& (c & 1) == bit_of(l, i)
            &&& ((c >> 1) & 1) == bit_of(r, i)
        }),
{
}

/// Packing one more pixel into a plane byte sets its own bit and leaves
/// every other bit alone.
proof fn lemma_set_bit(acc: u8, v: u8, x: u8, d: u8)
    by (bit_vector)
    requires
        x < 8,
        d < 8,
        v < 2,
    ensures
        d != x ==> bit_of(acc | (v << ((7 - x) as u8)), d) == bit_of(acc, d),
        bit_of(acc, x) == 0 ==> bit_of(acc | (v << ((7 - x) as u8)), x) == v,
{
}

/// The two planes of a pixel are single bits.
proof fn lemma_plane_bits(cur: u8)
    by (bit_vector)
    ensures
        (cur & 1) < 2,
        ((cur >> 1) & 1) < 2,
{
}

/// An all-zero byte has no bit set.
proof fn lemma_zero_bits()
    by (bit_vector)
    ensures
        forall|d: u8| d < 8 ==> #[trigger] bit_of(0u8, d) == 0,
{
}

/// Two pixel values below 4 with the same low and high bit are equal.
proof fn lemma_pixel_eq_by_bits(x: u8, y: u8)
    by (bit_vector)
    requires
        x < 4,
        y < 4,
        (x & 1) == (y & 1),
        ((x >> 1) & 1) == ((y >> 1) & 1),
    ensures
        x == y,
{
}

/// Two bytes that agree on all eight bits are equal.
proof fn lemma_byte_eq_by_bits(x: u8, y: u8)
    by (bit_vector)
    requires
        bit_of(x, 0) == bit_of(y, 0),
        bit_of(x, 1) == bit_of(y, 1),
        bit_of(x, 2) == bit_of(y, 2),
        bit_of(x, 3) == bit_of(y, 3),
        bit_of(x, 4) == bit_of(y, 4),
        bit_of(x, 5) == bit_of(y, 5),
        bit_of(x, 6) == bit_of(y, 6),
        bit_of(x, 7) == bit_of(y, 7),
    ensures
        x == y,
{
}

/// Every plane-byte pair that already lies whole inside the stream built so
/// far packs its pixel row.
pub open spec fn packed_upto(pixels: Seq<u8>, bytes: Seq<u8>, tw: int, rows: int) -> bool {
    forall|a: int, b: int, c: int, d: int|
        0 <= a && 0 <= b < tw && 0 <= c < rows && 0 <= d < 8 && pair_index(tw, rows, a, b, c) + 2
            <= bytes.len() ==> #[trigger] pixel_pair_ok(pixels, bytes, tw, rows, a, b, c, d)
}

/// Appending two bytes to the stream disturbs no pair already in it.
proof fn lemma_ppo_push2(
    pixels: Seq<u8>,
    bytes: Seq<u8>,
    l: u8,
    r: u8,
    tw: int,
    rows: int,
    a: int,
    b: int,
    c: int,
    d: int,
)
    requires
        0 <= pair_index(tw, rows, a, b, c),
        pair_index(tw, rows, a, b, c) + 2 <= bytes.len(),
        pixel_pair_ok(pixels, bytes, tw, rows, a, b, c, d),
    ensures
        pixel_pair_ok(pixels, bytes.push(l).push(r), tw, rows, a, b, c, d),
{
    let k = pair_index(tw, rows, a, b, c);
    assert(bytes.push(l).push(r)[k] == bytes[k]);
    assert(bytes.push(l).push(r)[k + 1] == bytes[k + 1]);
}

/// A vector of `n` copies of `v`.
pub(crate) fn filled(n: usize, v: u8) -> (out: Vec<u8>)
    ensures
        out@.len() == n,
        forall|k: int| 0 <= k < n ==> out@[k] == v,
{
    let mut out: Vec<u8> = Vec::new();
    let mut t: usize = 0;
    while t < n
        invariant
            t <= n,
            out@.len() == t,
            forall|k: int| 0 <= k < t ==> out@[k] == v,
        decreases n - t,
    {
        out.push(v);
        t = t + 1;
    }
    out
}

/// Every plane-byte pair that lies whole below position `n` of the stream
/// is already unpacked into the pixel buffer.
pub open spec fn unpacked_upto(
    pixels: Seq<u8>,
    bytes: Seq<u8>,
    tw: int,
    rows: int,
    n: int,
) -> bool {
    forall|a: int, b: int, c: int, d: int|
        0 <= a && 0 <= b < tw && 0 <= c < rows && 0 <= d < 8 && pair_index(tw, rows, a, b, c) + 2
            <= n ==> #[trigger] pixel_pair_ok(pixels, bytes, tw, rows, a, b, c, d)
}

/// Unpack a planar tile stream of `w` by `h` tiles into a pixel buffer of
/// `w * 8` by `h * rows` pixels. Every produced pixel value lies below 4.
pub fn gb_tiles_to_pixels(data: &[u8], w: u32, h: u32, mode: TileMode) -> (pixels: Vec<u8>)
    requires
        data@.len() == stream_len(w as int, h as int, mode.spec_rows()),
        buffer_len(w as int, h as int, mode.spec_rows()) <= usize::MAX,
    ensures
        pixels@.len() == buffer_len(w as int, h as int, mode.spec_rows()),
        forall|k: int| 0 <= k < pixels@.len() ==> pixels@[k] < 4,
        tiles_match(pixels@, data@, w as int, h as int, mode.spec_rows()),
{
    let rows_u: usize = mode.rows() as usize;
    let tw: usize = w as usize;
    let th: usize = h as usize;
    let ghost twg: int = w as int;
    let ghost thg: int = h as int;
    let ghost rg: int = mode.spec_rows();
    proof {
        assert(data.len() == data@.len());
        assert(stream_len(twg, thg, rg) * 4 == buffer_len(twg, thg, rg)) by (nonlinear_arith);
    }
    let total: usize = data.len() * 4;
    let mut pixels: Vec<u8> = filled(total, 0u8);
    let mut trow: usize = 0;
    let mut ty: usize = 0;
    while ty < th
        invariant
            rg == mode.spec_rows(),
            rows_u == rg,
            tw == twg,
            th == thg,
            data@.len() == stream_len(twg, thg, rg),
            pixels@.len() == buffer_len(twg, thg, rg),
            buffer_len(twg, thg, rg) <= usize::MAX,
            ty <= th,
            trow == pair_index(twg, rg, ty as int, 0, 0),
            forall|k: int| 0 <= k < pixels@.len() ==> pixels@[k] < 4,
            unpacked_upto(pixels@, data@, twg, rg, trow as int),
        decreases th - ty,
    {
        let mut tx: usize = 0;
        while tx < tw
            invariant
                rg == mode.spec_rows(),
                rows_u == rg,
                tw == twg,
                th == thg,
                data@.len() == stream_len(twg, thg, rg),
                pixels@.len() == buffer_len(twg, thg, rg),
                buffer_len(twg, thg, rg) <= usize::MAX,
                ty < th,
                tx <= tw,
                trow == pair_index(twg, rg, ty as int, tx as int, 0),
                forall|k: int| 0 <= k < pixels@.len() ==> pixels@[k] < 4,
                unpacked_upto(pixels@, data@, twg, rg, trow as int),
            decreases tw - tx,
        {
            let mut j: usize = 0;
            while j < rows_u
                invariant
                    rg == mode.spec_rows(),
                    rows_u == rg,
                    tw == twg,
                    th == thg,
                    data@.len() == stream_len(twg, thg, rg),
                    pixels@.len() == buffer_len(twg, thg, rg),
                    buffer_len(twg, thg, rg) <= usize::MAX,
                    ty < th,
                    tx < tw,
                    j <= rows_u,
                    trow == pair_index(twg, rg, ty as int, tx as int, j as int),
                    forall|k: int| 0 <= k < pixels@.len() ==> pixels@[k] < 4,
                    unpacked_upto(pixels@, data@, twg, rg, trow as int),
                decreases rows_u - j,
            {
                let ghost tyg: int = ty as int;
                let ghost txg: int = tx as int;
                let ghost jg: int = j as int;
                let ghost pcur: int = pair_index(twg, rg, tyg, txg, jg);
                proof {
                    lemma_tile_coords(twg, thg, rg, tyg, txg, jg, 0);
                }
                let left = data[trow];
                let right = data[trow + 1];
                trow = trow + 2;
                let tw8: usize = tw * 8;
                let row_base: usize = (ty * rows_u + j) * tw8 + tx * 8;
                assert(row_base == pixel_index(twg, rg, tyg, txg, jg, 0));
                let mut i: u8 = 0;
                while i < 8
                    invariant
                        i <= 8,
                        0 <= tyg < thg,
                        0 <= txg < twg,
                        0 <= jg < rg,
                        pcur == pair_index(twg, rg, tyg, txg, jg),
                        data@.len() == stream_len(twg, thg, rg),
                        pixels@.len() == buffer_len(twg, thg, rg),
                        buffer_len(twg, thg, rg) <= usize::MAX,
                        row_base == pixel_index(twg, rg, tyg, txg, jg, 0),
                        left == data@[pcur],
                        right == data@[pcur + 1],
                        forall|k: int| 0 <= k < pixels@.len() ==> pixels@[k] < 4,
                        unpacked_upto(pixels@, data@, twg, rg, pcur),
                        forall|d: int|
                            0 <= d < i ==> #[trigger] pixel_pair_ok(
                                pixels@,
                                data@,
                                twg,
                                rg,
                                tyg,
                                txg,
                                jg,
                                d,
                            ),
                    decreases 8 - i,
                {
                    let color = ((left >> (7 - i)) & 1) | (((right >> (7 - i)) & 1) << 1);
                    proof {
                        lemma_tile_coords(twg, thg, rg, tyg, txg, jg, i as int);
                        lemma_combine_bits(left, right, i);
                    }
                    let pi: usize = row_base + i as usize;
                    let ghost oldpix = pixels@;
                    pixels[pi] = color;
                    proof {
                        assert(pixels@ == oldpix.update(pi as int, color));
                        assert forall|a: int, b: int, c: int, d: int|
                            0 <= a && 0 <= b < twg && 0 <= c < rg && 0 <= d < 8 && pair_index(
                                twg,
                                rg,
                                a,
                                b,
                                c,
                            ) + 2 <= pcur implies #[trigger] pixel_pair_ok(
                            pixels@,
                            data@,
                            twg,
                            rg,
                            a,
                            b,
                            c,
                            d,
                        ) by {
                            assert(pixel_pair_ok(oldpix, data@, twg, rg, a, b, c, d));
                            lemma_tile_coords(twg, thg, rg, tyg, txg, jg, 0);
                            lemma_pair_in_range(twg, thg, rg, a, b, c);
                            lemma_tile_coords(twg, thg, rg, a, b, c, d);
                            if a == tyg && b == txg && c == jg {
                                assert(false);
                            } else {
                                lemma_pixel_index_distinct(
                                    twg,
                                    rg,
                                    a,
                                    b,
                                    c,
                                    d,
                                    tyg,
                                    txg,
                                    jg,
                                    i as int,
                                );
                            }
                        }
                        assert forall|d: int| 0 <= d < i + 1 implies #[trigger] pixel_pair_ok(
                            pixels@,
                            data@,
                            twg,
                            rg,
                            tyg,
                            txg,
                            jg,
                            d,
                        ) by {
                            if d < i {
                                assert(pixel_pair_ok(oldpix, data@, twg, rg, tyg, txg, jg, d));
                                lemma_pixel_index_distinct(
                                    twg,
                                    rg,
                                    tyg,
                                    txg,
                                    jg,
                                    d,
                                    tyg,
                                    txg,
                                    jg,
                                    i as int,
                                );
                            } else {
                                assert(pixels@[pixel_index(twg, rg, tyg, txg, jg, i as int)]
                                    == color);
                            }
                        }
                    }
                    i = i + 1;
                }
                proof {
                    assert forall|a: int, b: int, c: int, d: int|
                        0 <= a && 0 <= b < twg && 0 <= c < rg && 0 <= d < 8 && pair_index(
                            twg,
                            rg,
                            a,
                            b,
                            c,
                        ) + 2 <= trow implies #[trigger] pixel_pair_ok(
                        pixels@,
                        data@,
                        twg,
                        rg,
                        a,
                        b,
                        c,
                        d,
                    ) by {
                        if pair_index(twg, rg, a, b, c) + 2 <= pcur {
                        } else {
                            assert(pair_index(twg, rg, a, b, c) == pcur);
                            lemma_pair_index_unique(twg, rg, a, b, c, tyg, txg, jg);
                        }
                    }
                }
                j = j + 1;
            }
            tx = tx + 1;
            proof {
                assert(pair_index(twg, rg, ty as int, (tx - 1) as int, rg) == pair_index(
                    twg,
                    rg,
                    ty as int,
                    tx as int,
                    0,
                )) by (nonlinear_arith);
            }
        }
        ty = ty + 1;
        proof {
            assert(pair_index(twg, rg, (ty - 1) as int, twg, 0) == pair_index(
                twg,
                rg,
                ty as int,
                0,
                0,
            )) by (nonlinear_arith);
        }
    }
    proof {
        assert(pair_index(twg, rg, thg, 0, 0) == stream_len(twg, thg, rg)) by (nonlinear_arith);
        assert forall|a: int, b: int, c: int, d: int|
            0 <= a < thg && 0 <= b < twg && 0 <= c < rg && 0 <= d < 8 implies #[trigger] pixel_pair_ok(
            pixels@,
            data@,
            twg,
            rg,
            a,
            b,
            c,
            d,
        ) by {
            lemma_tile_coords(twg, thg, rg, a, b, c, d);
        }
    }
    pixels
}

/// Pack a pixel buffer of `w` by `h` pixels into a planar tile stream.
///
/// Only the two low-order bits of each pixel take part; higher bits are
/// dropped by the bit extraction, never rejected.
pub fn pixels_to_gb_tiles(data: &[u8], w: u32, h: u32, mode: TileMode) -> (tiles: Vec<u8>)
    requires
        data@.len() == w * h,
        w % 8 == 0,
        h as int % mode.spec_rows() == 0,
    ensures
        tiles@.len() == w * h / 4,
        tiles_match(data@, tiles@, w as int / 8, h as int / mode.spec_rows(), mode.spec_rows()),
{
    let rows_u: usize = mode.rows() as usize;
    let tw: usize = (w / 8) as usize;
    let th: usize = (h as usize) / rows_u;
    let ghost twg: int = w as int / 8;
    let ghost thg: int = h as int / mode.spec_rows();
    let ghost rg: int = mode.spec_rows();
    proof {
        assert(data.len() == data@.len());
        vstd::arithmetic::div_mod::lemma_fundamental_div_mod(w as int, 8);
        vstd::arithmetic::div_mod::lemma_fundamental_div_mod(h as int, rg);
        assert(data@.len() == buffer_len(twg, thg, rg)) by (nonlinear_arith)
            requires
                data@.len() == w * h,
                w == 8 * twg,
                h == rg * thg,
        ;
        assert(stream_len(twg, thg, rg) * 4 == buffer_len(twg, thg, rg)) by (nonlinear_arith);
    }
    let mut tiles: Vec<u8> = Vec::new();
    let mut ty: usize = 0;
    while ty < th
        invariant
            rg == mode.spec_rows(),
            rows_u == rg,
            tw == twg,
            th == thg,
            data@.len() == buffer_len(twg, thg, rg),
            data@.len() <= usize::MAX,
            data@.len() == w * h,
            stream_len(twg, thg, rg) * 4 == buffer_len(twg, thg, rg),
            ty <= th,
            tiles@.len() == pair_index(twg, rg, ty as int, 0, 0),
            packed_upto(data@, tiles@, twg, rg),
        decreases th - ty,
    {
        let mut tx: usize = 0;
        while tx < tw
            invariant
                rg == mode.spec_rows(),
                rows_u == rg,
                tw == twg,
                th == thg,
                data@.len() == buffer_len(twg, thg, rg),
            data@.len() <= usize::MAX,
                ty < th,
                tx <= tw,
                tiles@.len() == pair_index(twg, rg, ty as int, tx as int, 0),
                packed_upto(data@, tiles@, twg, rg),
            decreases tw - tx,
        {
            let mut j: usize = 0;
            while j < rows_u
                invariant
                    rg == mode.spec_rows(),
                    rows_u == rg,
                    tw == twg,
                    th == thg,
                    data@.len() == buffer_len(twg, thg, rg),
            data@.len() <= usize::MAX,
                    ty < th,
                    tx < tw,
                    j <= rows_u,
                    tiles@.len() == pair_index(twg, rg, ty as int, tx as int, j as int),
                    packed_upto(data@, tiles@, twg, rg),
                decreases rows_u - j,
            {
                let ghost tyg: int = ty as int;
                let ghost txg: int = tx as int;
                let ghost jg: int = j as int;
                proof {
                    lemma_tile_coords(twg, thg, rg, tyg, txg, jg, 0);
                }
                let tw8: usize = tw * 8;
                let row_base: usize = (ty * rows_u + j) * tw8 + tx * 8;
                assert(row_base == pixel_index(twg, rg, tyg, txg, jg, 0));
                let mut left: u8 = 0;
                let mut right: u8 = 0;
                let mut x: u8 = 0;
                proof {
                    lemma_zero_bits();
                }
                while x < 8
                    invariant
                        x <= 8,
                        0 <= tyg < thg,
                        0 <= txg < twg,
                        0 <= jg < rg,
                        data@.len() == buffer_len(twg, thg, rg),
            data@.len() <= usize::MAX,
                        row_base == pixel_index(twg, rg, tyg, txg, jg, 0),
                        forall|d: u8|
                            d < x ==> #[trigger] bit_of(left, d) == (data@[row_base + d] & 1),
                        forall|d: u8| x <= d && d < 8 ==> #[trigger] bit_of(left, d) == 0,
                        forall|d: u8|
                            d < x ==> #[trigger] bit_of(right, d) == ((data@[row_base + d] >> 1)
                                & 1),
                        forall|d: u8| x <= d && d < 8 ==> #[trigger] bit_of(right, d) == 0,
                    decreases 8 - x,
                {
                    proof {
                        lemma_tile_coords(twg, thg, rg, tyg, txg, jg, x as int);
                    }
                    let cur = data[row_base + x as usize];
                    let lv = cur & 1;
                    let rv = (cur >> 1) & 1;
                    proof {
                        lemma_plane_bits(cur);
                    }
                    let ghost left0 = left;
                    let ghost right0 = right;
                    left = left | (lv << (7 - x));
                    right = right | (rv << (7 - x));
                    proof {
                        assert forall|d: u8| d < x + 1 implies #[trigger] bit_of(left, d) == (
                        data@[row_base + d] & 1) by {
                            if d < x {
                                lemma_set_bit(left0, lv, x, d);
                            } else {
                                lemma_set_bit(left0, lv, x, x);
                            }
                        }
                        assert forall|d: u8| d < x + 1 implies #[trigger] bit_of(right, d) == ((
                        data@[row_base + d] >> 1) & 1) by {
                            if d < x {
                                lemma_set_bit(right0, rv, x, d);
                            } else {
                                lemma_set_bit(right0, rv, x, x);
                            }
                        }
                        assert forall|d: u8| x + 1 <= d && d < 8 implies #[trigger] bit_of(
                            left,
                            d,
                        ) == 0 by {
                            lemma_set_bit(left0, lv, x, d);
                        }
                        assert forall|d: u8| x + 1 <= d && d < 8 implies #[trigger] bit_of(
                            right,
                            d,
                        ) == 0 by {
                            lemma_set_bit(right0, rv, x, d);
                        }
                    }
                    x = x + 1;
                }
                let ghost prev = tiles@;
                tiles.push(left);
                tiles.push(right);
                proof {
                    assert(tiles@ == prev.push(left).push(right));
                    assert forall|a: int, b: int, c: int, d: int|
                        0 <= a && 0 <= b < twg && 0 <= c < rg && 0 <= d < 8 && pair_index(
                            twg,
                            rg,
                            a,
                            b,
                            c,
                        ) + 2 <= tiles@.len() implies #[trigger] pixel_pair_ok(
                        data@,
                        tiles@,
                        twg,
                        rg,
                        a,
                        b,
                        c,
                        d,
                    ) by {
                        lemma_pair_nonneg(twg, rg, a, b, c);
                        if pair_index(twg, rg, a, b, c) + 2 <= prev.len() {
                            lemma_ppo_push2(data@, prev, left, right, twg, rg, a, b, c, d);
                        } else {
                            assert(pair_index(twg, rg, a, b, c) == prev.len());
                            lemma_pair_index_unique(twg, rg, a, b, c, tyg, txg, jg);
                            assert(tiles@[pair_index(twg, rg, a, b, c)] == left);
                            assert(tiles@[pair_index(twg, rg, a, b, c) + 1] == right);
                            assert(bit_of(left, d as u8) == (data@[row_base + d] & 1));
                            assert(bit_of(right, d as u8) == ((data@[row_base + d] >> 1) & 1));
                            assert(data@[row_base + d] == data@[pixel_index(twg, rg, a, b, c, d)]);
                        }
                    }
                }
                j = j + 1;
            }
            tx = tx + 1;
            proof {
                assert(pair_index(twg, rg, ty as int, (tx - 1) as int, rg) == pair_index(
                    twg,
                    rg,
                    ty as int,
                    tx as int,
                    0,
                )) by (nonlinear_arith);
            }
        }
        ty = ty + 1;
        proof {
            assert(pair_index(twg, rg, (ty - 1) as int, twg, 0) == pair_index(
                twg,
                rg,
                ty as int,
                0,
                0,
            )) by (nonlinear_arith);
        }
    }
    proof {
        assert(pair_index(twg, rg, thg, 0, 0) == stream_len(twg, thg, rg)) by (nonlinear_arith);
        assert(w * h / 4 == stream_len(twg, thg, rg)) by (nonlinear_arith)
            requires
                w * h == buffer_len(twg, thg, rg),
                stream_len(twg, thg, rg) * 4 == buffer_len(twg, thg, rg),
        ;
        assert forall|a: int, b: int, c: int, d: int|
            0 <= a < thg && 0 <= b < twg && 0 <= c < rg && 0 <= d < 8 implies #[trigger] pixel_pair_ok(
            data@,
            tiles@,
            twg,
            rg,
            a,
            b,
            c,
            d,
        ) by {
            lemma_tile_coords(twg, thg, rg, a, b, c, d);
        }
    }
    tiles
}

/// A position inside a `w`-wide, `h`-high grid splits uniquely into a row
/// and a column.
pub proof fn lemma_div_decompose(k: int, m: int, n: int)
    by (nonlinear_arith)
    requires
        0 < m,
        0 <= k,
        k < n * m,
    ensures
        0 <= k / m < n,
        0 <= k % m < m,
        k == (k / m) * m + (k % m),
{
}

/// A grid with a cell has no empty side.
proof fn lemma_dims_positive(tw: int, th: int, rows: int, len: int, k: int)
    by (nonlinear_arith)
    requires
        tw >= 0,
        th >= 0,
        rows >= 0,
        len == tw * th * rows,
        0 <= k < len,
    ensures
        tw >= 1,
        th >= 1,
        rows >= 1,
{
}

/// Round-trip law: the packed stream determines the pixel buffer. Two
/// buffers whose pixel values lie below 4 and that both match the same
/// stream are equal — so unpacking what a buffer packed to gives back
/// exactly that buffer.
pub proof fn lemma_pixels_determined(
    p: Seq<u8>,
    q: Seq<u8>,
    b: Seq<u8>,
    tw: int,
    th: int,
    rows: int,
)
    requires
        tw >= 0,
        th >= 0,
        rows >= 0,
        tiles_match(p, b, tw, th, rows),
        tiles_match(q, b, tw, th, rows),
        forall|k: int| 0 <= k < p.len() ==> p[k] < 4,
        forall|k: int| 0 <= k < q.len() ==> q[k] < 4,
    ensures
        p == q,
{
    assert forall|k: int| 0 <= k < p.len() implies p[k] == q[k] by {
        lemma_dims_positive(tw, th, rows, row_total(tw, th, rows), k / 8);
        assert(buffer_len(tw, th, rows) == (th * rows) * (tw * 8)) by (nonlinear_arith);
        lemma_div_decompose(k, tw * 8, th * rows);
        let row = k / (tw * 8);
        let col = k % (tw * 8);
        lemma_div_decompose(row, rows, th);
        lemma_div_decompose(col, 8, tw);
        let ty = row / rows;
        let j = row % rows;
        let tx = col / 8;
        let i = col % 8;
        assert(pixel_index(tw, rows, ty, tx, j, i) == k);
        assert(pixel_pair_ok(p, b, tw, rows, ty, tx, j, i));
        assert(pixel_pair_ok(q, b, tw, rows, ty, tx, j, i));
        lemma_pixel_eq_by_bits(p[k], q[k]);
    }
    assert(p =~= q);
}

/// Inverse round-trip law: the pixel buffer determines the packed stream.
/// Two streams that both match the same buffer are equal — so packing what
/// a stream unpacked to gives back exactly that stream.
pub proof fn lemma_bytes_determined(
    p: Seq<u8>,
    b: Seq<u8>,
    c: Seq<u8>,
    tw: int,
    th: int,
    rows: int,
)
    requires
        tw >= 0,
        th >= 0,
        rows >= 0,
        tiles_match(p, b, tw, th, rows),
        tiles_match(p, c, tw, th, rows),
    ensures
        b == c,
{
    assert forall|k: int| 0 <= k < b.len() implies b[k] == c[k] by {
        lemma_dims_positive(tw, th, rows, row_total(tw, th, rows), k / 2);
        assert(stream_len(tw, th, rows) == ((tw * th) * rows) * 2) by (nonlinear_arith);
        lemma_div_decompose(k, 2, (tw * th) * rows);
        let t = k / 2;
        let s = k % 2;
        lemma_div_decompose(t, rows, tw * th);
        let u = t / rows;
        let j = t % rows;
        lemma_div_decompose(u, tw, th);
        let ty = u / tw;
        let tx = u % tw;
        assert(pair_index(tw, rows, ty, tx, j) == 2 * t);
        assert(pixel_pair_ok(p, b, tw, rows, ty, tx, j, 0));
        assert(pixel_pair_ok(p, b, tw, rows, ty, tx, j, 1));
        assert(pixel_pair_ok(p, b, tw, rows, ty, tx, j, 2));
        assert(pixel_pair_ok(p, b, tw, rows, ty, tx, j, 3));
        assert(pixel_pair_ok(p, b, tw, rows, ty, tx, j, 4));
        assert(pixel_pair_ok(p, b, tw, rows, ty, tx, j, 5));
        assert(pixel_pair_ok(p, b, tw, rows, ty, tx, j, 6));
        assert(pixel_pair_ok(p, b, tw, rows, ty, tx, j, 7));
        assert(pixel_pair_ok(p, c, tw, rows, ty, tx, j, 0));
        assert(pixel_pair_ok(p, c, tw, rows, ty, tx, j, 1));
        assert(pixel_pair_ok(p, c, tw, rows, ty, tx, j, 2));
        assert(pixel_pair_ok(p, c, tw, rows, ty, tx, j, 3));
        assert(pixel_pair_ok(p, c, tw, rows, ty, tx, j, 4));
        assert(pixel_pair_ok(p, c, tw, rows, ty, tx, j, 5));
        assert(pixel_pair_ok(p, c, tw, rows, ty, tx, j, 6));
        assert(pixel_pair_ok(p, c, tw, rows, ty, tx, j, 7));
        assert(k == 2 * t + s);
        lemma_byte_eq_by_bits(b[k], c[k]);
    }
    assert(b =~= c);
}

} // verus!
