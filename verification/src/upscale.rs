//! Bilinear enlargement of a low-resolution RGB565 image into display bytes, by precomputed
//! sample positions for each output column and row.
use vstd::prelude::*;

use crate::imath;

verus! {

/// The two source samples of an output coordinate, and the weight of the second in 255ths.
#[derive(Clone, Copy, Debug, PartialEq, Eq, Structural)]
pub struct UpSample1D {
    pub i0: u16,
    pub i1: u16,
    pub w1: u8,
}

/// Every sample lies among the first `n`.
pub open spec fn samples_ok(t: Seq<UpSample1D>, n: int) -> bool {
    forall|i: int| 0 <= i < t.len() ==> (#[trigger] t[i]).i0 < n && t[i].i1 < n
}

/// One channel of four pixels, weighted and rounded.
pub open spec fn blend_channel(c00: int, c10: int, c01: int, c11: int, w00: int, w10: int, w01: int, w11: int) -> int {
    (c00 * w00 + c10 * w10 + c01 * w01 + c11 * w11 + 127) / 255
}

pub open spec fn red_of(c: u16) -> int {
    c as int / 2048
}

pub open spec fn green_of(c: u16) -> int {
    c as int / 32 % 64
}

pub open spec fn blue_of(c: u16) -> int {
    c as int % 32
}

/// The blended pixel of four neighbours; `wx` and `wy` are the weights of the second column
/// and row in 255ths.
pub open spec fn blended(c00: u16, c10: u16, c01: u16, c11: u16, wx: int, wy: int) -> int {
    let w00 = (255 - wx) * (255 - wy) / 255;
    let w10 = wx * (255 - wy) / 255;
    let w01 = (255 - wx) * wy / 255;
    let w11 = wx * wy / 255;
    let r = blend_channel(red_of(c00), red_of(c10), red_of(c01), red_of(c11), w00, w10, w01, w11);
    let g = blend_channel(green_of(c00), green_of(c10), green_of(c01), green_of(c11), w00, w10, w01, w11);
    let b = blend_channel(blue_of(c00), blue_of(c10), blue_of(c01), blue_of(c11), w00, w10, w01, w11);
    r * 2048 + g * 32 + b
}

/// The weights of four neighbours add up to no more than one.
proof fn lemma_weights(wx: int, wy: int)
    requires
        0 <= wx <= 255,
        0 <= wy <= 255,
    ensures
        0 <= (255 - wx) * (255 - wy) <= 65_025,
        0 <= wx * (255 - wy) <= 65_025,
        0 <= (255 - wx) * wy <= 65_025,
        0 <= wx * wy <= 65_025,
        (255 - wx) * (255 - wy) / 255 + wx * (255 - wy) / 255 + (255 - wx) * wy / 255 + wx * wy / 255 <= 255,
{
    let (a, b, c, d) = ((255 - wx) * (255 - wy), wx * (255 - wy), (255 - wx) * wy, wx * wy);
    assert(a + b + c + d == 65_025 && 0 <= a <= 65_025 && 0 <= b <= 65_025 && 0 <= c <= 65_025 && 0 <= d <= 65_025)
        by (nonlinear_arith)
        requires
            a == (255 - wx) * (255 - wy),
            b == wx * (255 - wy),
            c == (255 - wx) * wy,
            d == wx * wy,
            0 <= wx <= 255,
            0 <= wy <= 255,
    ;
}

/// A blended channel is no brighter than its brightest value.
proof fn lemma_blend(c00: int, c10: int, c01: int, c11: int, w00: int, w10: int, w01: int, w11: int, m: int)
    requires
        0 <= c00 <= m,
        0 <= c10 <= m,
        0 <= c01 <= m,
        0 <= c11 <= m,
        0 <= w00,
        0 <= w10,
        0 <= w01,
        0 <= w11,
        w00 + w10 + w01 + w11 <= 255,
        m <= 63,
    ensures
        0 <= c00 * w00 + c10 * w10 + c01 * w01 + c11 * w11 <= 255 * m,
        0 <= blend_channel(c00, c10, c01, c11, w00, w10, w01, w11) <= m,
        0 <= c00 * w00 <= 255 * m,
        0 <= c10 * w10 <= 255 * m,
        0 <= c01 * w01 <= 255 * m,
        0 <= c11 * w11 <= 255 * m,
{
    lemma_product(c00, w00, m);
    lemma_product(c10, w10, m);
    lemma_product(c01, w01, m);
    lemma_product(c11, w11, m);
    let s = c00 * w00 + c10 * w10 + c01 * w01 + c11 * w11;
    assert(m * w00 + m * w10 + m * w01 + m * w11 <= 255 * m) by (nonlinear_arith)
        requires
            w00 + w10 + w01 + w11 <= 255,
            m >= 0,
    ;
    assert(s <= 255 * m);
    assert((s + 127) / 255 <= m);
}

proof fn lemma_product(c: int, w: int, m: int)
    requires
        0 <= c <= m,
        0 <= w <= 255,
    ensures
        0 <= c * w <= m * w,
        m * w <= 255 * m,
{
    assert(0 <= c * w <= m * w && m * w <= 255 * m) by (nonlinear_arith)
        requires
            0 <= c <= m,
            0 <= w <= 255,
    ;
}

fn blend_at(c00: u32, c10: u32, c01: u32, c11: u32, w: (u32, u32, u32, u32), Ghost(m): Ghost<int>) -> (r: u32)
    requires
        c00 <= m,
        c10 <= m,
        c01 <= m,
        c11 <= m,
        m <= 63,
        w.0 + w.1 + w.2 + w.3 <= 255,
    ensures
        r == blend_channel(
            c00 as int,
            c10 as int,
            c01 as int,
            c11 as int,
            w.0 as int,
            w.1 as int,
            w.2 as int,
            w.3 as int,
        ),
        r <= m,
{
    proof {
        lemma_blend(
            c00 as int,
            c10 as int,
            c01 as int,
            c11 as int,
            w.0 as int,
            w.1 as int,
            w.2 as int,
            w.3 as int,
            m,
        );
    }
    (c00 * w.0 + c10 * w.1 + c01 * w.2 + c11 * w.3 + 127) / 255
}

/// Blend four neighbours.
pub fn bilinear_rgb565(c00: u16, c10: u16, c01: u16, c11: u16, wx1: u8, wy1: u8) -> (p: u16)
    ensures
        p == blended(c00, c10, c01, c11, wx1 as int, wy1 as int),
{
    let (wx, wy): (u32, u32) = (wx1 as u32, wy1 as u32);
    proof {
        lemma_weights(wx as int, wy as int);
    }
    let w: (u32, u32, u32, u32) = (
        (255 - wx) * (255 - wy) / 255,
        wx * (255 - wy) / 255,
        (255 - wx) * wy / 255,
        wx * wy / 255,
    );
    let (a, b, c, d): (u32, u32, u32, u32) = (c00 as u32, c10 as u32, c01 as u32, c11 as u32);
    let r: u32 = blend_at(a / 2048, b / 2048, c / 2048, d / 2048, w, Ghost(31));
    let g: u32 = blend_at(a / 32 % 64, b / 32 % 64, c / 32 % 64, d / 32 % 64, w, Ghost(63));
    let l: u32 = blend_at(a % 32, b % 32, c % 32, d % 32, w, Ghost(31));
    (r * 2048 + g * 32 + l) as u16
}

/// Output pixel `(ox, oy)`.
pub open spec fn upscaled_px(low: Seq<u16>, lw: int, ux: Seq<UpSample1D>, uy: Seq<UpSample1D>, ox: int, oy: int) -> int {
    let (h, v) = (ux[ox], uy[oy]);
    blended(
        low[v.i0 * lw + h.i0],
        low[v.i0 * lw + h.i1],
        low[v.i1 * lw + h.i0],
        low[v.i1 * lw + h.i1],
        h.w1 as int,
        v.w1 as int,
    )
}

/// The output after rows `rs` to before `re` were enlarged into it, high byte first.
pub open spec fn upscaled(
    out: Seq<u8>,
    low: Seq<u16>,
    lw: int,
    ux: Seq<UpSample1D>,
    uy: Seq<UpSample1D>,
    out_w: int,
    rs: int,
    re: int,
) -> Seq<u8> {
    Seq::new(
        out.len(),
        |k: int|
            if rs * out_w <= k / 2 < re * out_w {
                let p = upscaled_px(low, lw, ux, uy, (k / 2) % out_w, (k / 2) / out_w);
                (if k % 2 == 0 { p / 256 } else { p % 256 }) as u8
            } else {
                out[k]
            },
    )
}

/// The tables and the image fit each other.
pub open spec fn shapes_ok(low_len: int, lw: int, lh: int, ux: Seq<UpSample1D>, uy: Seq<UpSample1D>, out_w: int) -> bool {
    &&& 1 <= lw <= 0xffff
    &&& 1 <= lh <= 0xffff
    &&& low_len >= lw * lh
    &&& 1 <= out_w <= 0xffff
    &&& ux.len() >= out_w
    &&& samples_ok(ux, lw)
    &&& samples_ok(uy, lh)
}

fn sample(low: &[u16], lw: usize, lh: usize, x: u16, y: u16) -> (p: u16)
    requires
        1 <= lw <= 0xffff,
        lh <= 0xffff,
        low@.len() >= lw * lh,
        x < lw,
        y < lh,
    ensures
        p == low@[y * lw + x],
{
    proof {
        assert(0 <= y * lw && y * lw + lw <= lw * lh) by (nonlinear_arith)
            requires
                0 <= y,
                y + 1 <= lh,
                lw >= 0,
        ;
    }
    let n: usize = low.len();
    assert(y * lw + x < n);
    low[y as usize * lw + x as usize]
}

/// Enlarge rows `rs` to before `re` into `out`.
pub fn upscale_into(
    low: &[u16],
    lw: usize,
    lh: usize,
    ux: &Vec<UpSample1D>,
    uy: &Vec<UpSample1D>,
    out_w: usize,
    out: &mut [u8],
    rs: usize,
    re: usize,
)
    requires
        shapes_ok(low@.len() as int, lw as int, lh as int, ux@, uy@, out_w as int),
        rs <= re <= uy@.len(),
        re <= 0xffff,
        old(out)@.len() >= re * out_w * 2,
    ensures
        final(out)@ == upscaled(old(out)@, low@, lw as int, ux@, uy@, out_w as int, rs as int, re as int),
{
    let n: usize = out.len();
    let ghost target = upscaled(out@, low@, lw as int, ux@, uy@, out_w as int, rs as int, re as int);
    let ghost out0 = out@;
    proof {
        assert(rs * out_w <= re * out_w) by (nonlinear_arith)
            requires
                rs <= re,
                out_w >= 0,
        ;
        assert(0 <= rs * out_w) by (nonlinear_arith)
            requires
                rs >= 0,
                out_w >= 0,
        ;
        assert(re * out_w * 2 == 2 * (re * out_w)) by (nonlinear_arith);
        assert(re * out_w <= 0xffff * 0xffff) by (nonlinear_arith)
            requires
                0 <= re <= 0xffff,
                0 <= out_w <= 0xffff,
        ;
    }
    let mut oy: usize = rs;
    while oy < re
        invariant
            shapes_ok(low@.len() as int, lw as int, lh as int, ux@, uy@, out_w as int),
            rs <= oy <= re <= uy@.len(),
            re <= 0xffff,
            n == out@.len(),
            n == out0.len(),
            n >= 2 * (re * out_w),
            target == upscaled(out0, low@, lw as int, ux@, uy@, out_w as int, rs as int, re as int),
            0 <= rs * out_w <= oy * out_w,
            forall|k: int| 0 <= k < 2 * (oy * out_w) ==> out@[k] == target[k],
            forall|k: int| 2 * (oy * out_w) <= k < n ==> out@[k] == out0[k],
        decreases re - oy,
    {
        let v = uy[oy];
        proof {
            assert(oy * out_w + out_w == (oy + 1) * out_w) by (nonlinear_arith);
            assert((oy + 1) * out_w <= re * out_w) by (nonlinear_arith)
                requires
                    oy + 1 <= re,
                    out_w >= 0,
            ;
        }
        let base: usize = oy * out_w;
        let mut ox: usize = 0;
        while ox < out_w
            invariant
                shapes_ok(low@.len() as int, lw as int, lh as int, ux@, uy@, out_w as int),
                rs <= oy < re <= uy@.len(),
                v == uy@[oy as int],
                ox <= out_w,
                base == oy * out_w,
                base + out_w <= re * out_w,
                n == out@.len(),
                n == out0.len(),
                n >= 2 * (re * out_w),
                rs * out_w <= base,
                target == upscaled(out0, low@, lw as int, ux@, uy@, out_w as int, rs as int, re as int),
                forall|k: int| 0 <= k < 2 * (base + ox) ==> out@[k] == target[k],
                forall|k: int| 2 * (base + ox) <= k < n ==> out@[k] == out0[k],
            decreases out_w - ox,
        {
            let h = ux[ox];
            assert(ux@[ox as int].i0 < lw && ux@[ox as int].i1 < lw);
            assert(uy@[oy as int].i0 < lh && uy@[oy as int].i1 < lh);
            let p: u16 = bilinear_rgb565(
                sample(low, lw, lh, h.i0, v.i0),
                sample(low, lw, lh, h.i1, v.i0),
                sample(low, lw, lh, h.i0, v.i1),
                sample(low, lw, lh, h.i1, v.i1),
                h.w1,
                v.w1,
            );
            let o: usize = (base + ox) * 2;
            proof {
                lemma_pixel_index(oy as int, ox as int, out_w as int);
                assert(p == upscaled_px(low@, lw as int, ux@, uy@, ox as int, oy as int));
            }
            out[o] = (p / 256) as u8;
            out[o + 1] = (p % 256) as u8;
            ox = ox + 1;
        }
        assert(2 * (base + out_w) == 2 * ((oy + 1) * out_w));
        oy = oy + 1;
    }
    assert(out@ =~= target);
}

/// `upscaled` with the rows kept to those of the panel.
pub open spec fn upscaled_rows(
    out: Seq<u8>,
    low: Seq<u16>,
    lw: int,
    ux: Seq<UpSample1D>,
    uy: Seq<UpSample1D>,
    out_w: int,
    out_h: int,
    rs: int,
    re: int,
) -> Seq<u8> {
    upscaled(out, low, lw, ux, uy, out_w, imath::smin(rs, out_h), imath::smin(re, out_h))
}

/// Enlarge rows `rs` to before `re`, as far as the panel has them, into `out`.
pub fn upscale_clipped(
    low: &[u16],
    lw: usize,
    lh: usize,
    ux: &Vec<UpSample1D>,
    uy: &Vec<UpSample1D>,
    out_w: usize,
    out_h: usize,
    out: &mut [u8],
    rs: usize,
    re: usize,
)
    requires
        shapes_ok(low@.len() as int, lw as int, lh as int, ux@, uy@, out_w as int),
        out_h <= uy@.len(),
        out_h <= 0xffff,
        old(out)@.len() >= imath::smin(re as int, out_h as int) * out_w * 2,
    ensures
        final(out)@ == upscaled_rows(
            old(out)@,
            low@,
            lw as int,
            ux@,
            uy@,
            out_w as int,
            out_h as int,
            rs as int,
            re as int,
        ),
{
    let a: usize = if rs < out_h { rs } else { out_h };
    let b: usize = if re < out_h { re } else { out_h };
    if a <= b {
        upscale_into(low, lw, lh, ux, uy, out_w, out, a, b);
    } else {
        proof {
            assert(b * out_w <= a * out_w) by (nonlinear_arith)
                requires
                    b <= a,
                    out_w >= 0,
            ;
            assert(out@ =~= upscaled(out@, low@, lw as int, ux@, uy@, out_w as int, a as int, b as int));
        }
    }
}

proof fn lemma_pixel_index(oy: int, ox: int, w: int)
    requires
        0 <= ox < w,
        0 <= oy,
    ensures
        (2 * (oy * w + ox)) / 2 == oy * w + ox,
        (2 * (oy * w + ox) + 1) / 2 == oy * w + ox,
        (oy * w + ox) % w == ox,
        (oy * w + ox) / w == oy,
{
    vstd::arithmetic::div_mod::lemma_fundamental_div_mod_converse(oy * w + ox, w, oy, ox);
}

/// Rows can be enlarged in any split: two halves give the whole.
pub proof fn lemma_upscale_split(
    out: Seq<u8>,
    low: Seq<u16>,
    lw: int,
    ux: Seq<UpSample1D>,
    uy: Seq<UpSample1D>,
    out_w: int,
    rs: int,
    rm: int,
    re: int,
)
    requires
        0 <= rs <= rm <= re,
        out_w >= 1,
    ensures
        upscaled(upscaled(out, low, lw, ux, uy, out_w, rs, rm), low, lw, ux, uy, out_w, rm, re) == upscaled(
            out,
            low,
            lw,
            ux,
            uy,
            out_w,
            rs,
            re,
        ),
{
    assert(rs * out_w <= rm * out_w <= re * out_w) by (nonlinear_arith)
        requires
            rs <= rm <= re,
            out_w >= 1,
    ;
    assert(upscaled(upscaled(out, low, lw, ux, uy, out_w, rs, rm), low, lw, ux, uy, out_w, rm, re) =~= upscaled(
        out,
        low,
        lw,
        ux,
        uy,
        out_w,
        rs,
        re,
    ));
}

} // verus!
