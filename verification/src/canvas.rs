//! Canvas resizing: remap a pixel buffer onto a new geometry, keeping the
//! top-left overlap in place and zero-filling everything new. Growth adds
//! blank rows at the bottom and blank columns at the right; shrinking
//! truncates there.

use vstd::prelude::*;

use crate::codec::filled;

verus! {

/// The pixel at row `r`, column `c` of a `w`-wide row-major buffer.
pub open spec fn cell(s: Seq<u8>, w: int, r: int, c: int) -> u8 {
    s[r * w + c]
}

/// `new` is `old` remapped from `ow` by `oh` pixels onto `nw` by `nh`:
/// every cell that exists in both keeps its row and column, every other
/// cell of `new` is zero.
pub open spec fn resized(old: Seq<u8>, new: Seq<u8>, ow: int, oh: int, nw: int, nh: int) -> bool {
    forall|r: int, c: int|
        0 <= r < nh && 0 <= c < nw ==> #[trigger] cell(new, nw, r, c) == (if r < oh && c < ow {
            cell(old, ow, r, c)
        } else {
            0
        })
}

/// A cell of a `w`-wide, `h`-high grid lies inside its buffer.
pub proof fn lemma_rc_bound(r: int, c: int, w: int, h: int)
    by (nonlinear_arith)
    requires
        0 <= r < h,
        0 <= c < w,
    ensures
        0 <= r * w + c,
        r * w + c < h * w,
        h * w == w * h,
{
}

/// Remap a pixel buffer from `old_w` by `old_h` pixels onto a zero-filled
/// `new_w` by `new_h` buffer, copying the overlapping top-left region.
pub fn resize(pixels: &[u8], old_w: u32, old_h: u32, new_w: u32, new_h: u32) -> (out: Vec<u8>)
    requires
        pixels@.len() == old_w * old_h,
        new_w * new_h <= usize::MAX,
    ensures
        out@.len() == new_w * new_h,
        resized(pixels@, out@, old_w as int, old_h as int, new_w as int, new_h as int),
{
    let nw: usize = new_w as usize;
    let nh: usize = new_h as usize;
    let ow: usize = old_w as usize;
    let ghost owg: int = old_w as int;
    let ghost ohg: int = old_h as int;
    let ghost nwg: int = new_w as int;
    let ghost nhg: int = new_h as int;
    proof {
        assert(pixels.len() == pixels@.len());
        assert(nwg * nhg == nhg * nwg) by (nonlinear_arith);
    }
    let total: usize = nw * nh;
    let mut out: Vec<u8> = filled(total, 0u8);
    proof {
        assert forall|a: int, b: int| 0 <= a < nhg && 0 <= b < nwg implies #[trigger] cell(
            out@,
            nwg,
            a,
            b,
        ) == 0 by {
            lemma_rc_bound(a, b, nwg, nhg);
        }
    }
    let min_h: usize = if old_h < new_h {
        old_h as usize
    } else {
        new_h as usize
    };
    let min_w: usize = if old_w < new_w {
        old_w as usize
    } else {
        new_w as usize
    };
    let mut r: usize = 0;
    while r < min_h
        invariant
            pixels@.len() == owg * ohg,
            pixels@.len() <= usize::MAX,
            out@.len() == nwg * nhg,
            nwg * nhg <= usize::MAX,
            ow == owg,
            nw == nwg,
            nh == nhg,
            min_h <= ohg,
            min_h <= nhg,
            min_h == if ohg < nhg {
                ohg
            } else {
                nhg
            },
            min_w <= owg,
            min_w <= nwg,
            min_w == if owg < nwg {
                owg
            } else {
                nwg
            },
            r <= min_h,
            forall|a: int, b: int|
                0 <= a < nhg && 0 <= b < nwg ==> #[trigger] cell(out@, nwg, a, b) == (if a < r && a
                    < ohg && b < owg {
                    cell(pixels@, owg, a, b)
                } else {
                    0
                }),
        decreases min_h - r,
    {
        let mut c: usize = 0;
        while c < min_w
            invariant
                pixels@.len() == owg * ohg,
                pixels@.len() <= usize::MAX,
                out@.len() == nwg * nhg,
                nwg * nhg <= usize::MAX,
                ow == owg,
                nw == nwg,
                nh == nhg,
                r < min_h,
                min_h <= ohg,
                min_h <= nhg,
                min_w <= owg,
                min_w <= nwg,
                c <= min_w,
                forall|a: int, b: int|
                    0 <= a < nhg && 0 <= b < nwg ==> #[trigger] cell(out@, nwg, a, b) == (if (a < r
                        || (a == r && b < c)) && a < ohg && b < owg {
                        cell(pixels@, owg, a, b)
                    } else {
                        0
                    }),
            decreases min_w - c,
        {
            proof {
                lemma_rc_bound(r as int, c as int, nwg, nhg);
                lemma_rc_bound(r as int, c as int, owg, ohg);
            }
            let src: usize = r * ow + c;
            let dst: usize = r * nw + c;
            let v = pixels[src];
            let ghost before = out@;
            out[dst] = v;
            proof {
                assert forall|a: int, b: int|
                    0 <= a < nhg && 0 <= b < nwg implies #[trigger] cell(out@, nwg, a, b) == (if (a
                    < r || (a == r && b < c + 1)) && a < ohg && b < owg {
                    cell(pixels@, owg, a, b)
                } else {
                    0
                }) by {
                    if a == r && b == c {
                    } else {
                        lemma_rc_bound(a, b, nwg, nhg);
                        if a * nwg + b == r * nwg + c {
                            crate::codec::lemma_mul_add_unique(a, b, r as int, c as int, nwg);
                        }
                        assert(cell(out@, nwg, a, b) == cell(before, nwg, a, b));
                    }
                }
            }
            c = c + 1;
        }
        r = r + 1;
    }
    out
}

/// Overlap-preserving law: growing a canvas in both directions and then
/// shrinking it back to the original geometry restores the original buffer
/// exactly.
pub proof fn lemma_resize_round_trip(
    a: Seq<u8>,
    b: Seq<u8>,
    c: Seq<u8>,
    ow: int,
    oh: int,
    nw: int,
    nh: int,
)
    requires
        0 <= ow <= nw,
        0 <= oh <= nh,
        a.len() == ow * oh,
        c.len() == ow * oh,
        resized(a, b, ow, oh, nw, nh),
        resized(b, c, nw, nh, ow, oh),
    ensures
        a == c,
{
    assert forall|k: int| 0 <= k < a.len() implies a[k] == c[k] by {
        assert(ow >= 1 && oh >= 1 && ow * oh == oh * ow) by (nonlinear_arith)
            requires
                0 <= k,
                k < ow * oh,
                ow >= 0,
                oh >= 0,
        ;
        crate::codec::lemma_div_decompose(k, ow, oh);
        let r = k / ow;
        let cc = k % ow;
        assert(cell(c, ow, r, cc) == cell(b, nw, r, cc));
        assert(cell(b, nw, r, cc) == cell(a, ow, r, cc));
    }
    assert(a =~= c);
}

} // verus!
