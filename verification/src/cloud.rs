//! The cloud shader: four rounds of sine and cosine feedback per pixel of a half-resolution image,
//! coloured between blue and purple, then enlarged.
use vstd::prelude::*;

use crate::imath;
use crate::raidal;
use crate::raidal::{lut_sin_cos_q14, q14_rgb_to_rgb565};
use crate::trig::FRAC_PI_2_Q14;
use crate::upscale;
use crate::upscale::UpSample1D;

verus! {

/// Panel pixels per image pixel.
pub const CLOUD_DIV: u16 = 2;
pub const LOW_W: u16 = 233;
pub const LOW_H: u16 = 233;
pub const LOW_PIXELS: usize = 54_289;

/// Fixed-point product, rounded down.
pub open spec fn times(a: int, b: int) -> int {
    a * b / 16_384
}

fn mul_q14(a: i32, b: i32) -> (r: i32)
    requires
        i32::MIN <= times(a as int, b as int) <= i32::MAX,
    ensures
        r == times(a as int, b as int),
{
    proof {
        assert(-0x4000_0000_0000_0000 <= a * b <= 0x4000_0000_0000_0000) by (nonlinear_arith)
            requires
                -0x8000_0000 <= a <= 0x7fff_ffff,
                -0x8000_0000 <= b <= 0x7fff_ffff,
        ;
    }
    imath::floor_div(a as i64 * b as i64, 16_384) as i32
}

/// A product with a factor of at most `m` in fixed point grows by at most that factor.
proof fn lemma_times(a: int, b: int, m: int)
    requires
        -16_384 * m <= b <= 16_384 * m,
        m >= 0,
    ensures
        -m * imath::sabs(a) <= times(a, b) <= m * imath::sabs(a),
{
    let k = imath::sabs(a);
    assert(-16_384 * (m * k) <= a * b <= 16_384 * (m * k)) by (nonlinear_arith)
        requires
            -16_384 * m <= b <= 16_384 * m,
            m >= 0,
            k >= 0,
            a == k || a == -k,
    ;
    assert(-m * k == -(m * k)) by (nonlinear_arith);
}

/// Position `coord` of `size` on the scale from -1 to 1.
#[verifier::opaque]
pub open spec fn unit_coord(coord: int, size: int) -> int {
    imath::tdiv((2 * coord - size) * 16_384, size)
}

fn calc_u_q(coord: i32, size: i32) -> (r: i32)
    requires
        0 <= coord < size <= 0xffff,
    ensures
        r == unit_coord(coord as int, size as int),
        -16_384 <= r <= 16_384,
{
    let num: i32 = (2 * coord - size) * 16_384;
    proof {
        reveal(unit_coord);
        let (n, d) = (num as int, size as int);
        let m = imath::sabs(n);
        assert(0 <= m / d <= 16_384) by (nonlinear_arith)
            requires
                0 <= m <= 16_384 * d,
                d >= 1,
        ;
    }
    num / size
}

/// Where the feedback stands.
pub struct Feedback {
    pub a: int,
    pub d: int,
}

/// Round `i` of the feedback at `(u, v)` and time `t`.
pub open spec fn fed(f: Feedback, i: int, u: int, v: int, t: int) -> Feedback {
    Feedback {
        a: f.a + raidal::cosine(i * 16_384 - f.d + imath::tdiv(t, 2) - times(f.a, u)),
        d: f.d + raidal::sine(times(i * 16_384, v) + f.a),
    }
}

/// The feedback after `n` rounds.
pub open spec fn feedback(n: int, u: int, v: int, t: int) -> Feedback
    decreases n,
{
    if n <= 0 { Feedback { a: 0, d: 0 } } else { fed(feedback(n - 1, u, v, t), n - 1, u, v, t) }
}

/// Brightness of a pixel: three tenths, and four tenths of the wave of its feedback.
pub open spec fn brightness(f: Feedback) -> int {
    4915 + times(6554, imath::tdiv(raidal::sine(f.a) + raidal::cosine(f.d), 2))
}

/// Colour of a pixel before its brightness: red, green and blue.
pub open spec fn tint(f: Feedback, u: int, v: int, t: int) -> (int, int, int) {
    let base = 1638 + times(2458, raidal::cosine(u + v + times(t, 4915)));
    let blue = times(3277, raidal::sine(times(f.a, 24_576) + times(t, 3277)));
    let purple = times(2458, raidal::sine(times(f.d, 32_768) + times(t, 1638)));
    (
        base + times(purple, 13_107),
        base + times(blue, 9830),
        base + times(blue, 19_661) + times(purple, 6554),
    )
}

/// The pixel at `(u, v)` and time `t`.
#[verifier::opaque]
pub open spec fn cloud_px(u: int, v: int, t: int) -> int {
    let f = feedback(4, u, v, t);
    let (c, k) = (tint(f, u, v, t), brightness(f));
    raidal::rgb565_of(times(c.0, k), times(c.1, k), times(c.2, k))
}

/// Pixel `p` of an image of `lw` by `lh` pixels.
pub open spec fn cloud_at(lw: int, lh: int, p: int, t: int) -> int {
    cloud_px(unit_coord(p % lw, lw), unit_coord(p / lw, lh), t)
}

/// Rows `rs` to before `re` of the clouds drawn into `low`.
pub open spec fn clouded(low: Seq<u16>, lw: int, lh: int, t: int, rs: int, re: int) -> Seq<u16> {
    Seq::new(low.len(), |p: int| if rs * lw <= p < re * lw { cloud_at(lw, lh, p, t) as u16 } else { low[p] })
}

fn feed(a: i32, d: i32, i: i32, u: i32, v: i32, t: i32) -> (r: (i32, i32))
    requires
        0 <= i < 4,
        -32_768 * i <= a <= 32_768 * i,
        -32_768 * i <= d <= 32_768 * i,
        -16_384 <= u <= 16_384,
        -16_384 <= v <= 16_384,
    ensures
        r.0 == fed(Feedback { a: a as int, d: d as int }, i as int, u as int, v as int, t as int).a,
        r.1 == fed(Feedback { a: a as int, d: d as int }, i as int, u as int, v as int, t as int).d,
        -32_768 * (i + 1) <= r.0 <= 32_768 * (i + 1),
        -32_768 * (i + 1) <= r.1 <= 32_768 * (i + 1),
{
    let i_q: i32 = i * 16_384;
    proof {
        lemma_times(a as int, u as int, 1);
        lemma_times(i_q as int, v as int, 1);
    }
    let arg: i32 = i_q - d + t / 2 - mul_q14(a, u);
    let c: i32 = lut_sin_cos_q14(arg + FRAC_PI_2_Q14);
    let s: i32 = lut_sin_cos_q14(mul_q14(i_q, v) + a);
    (a + c, d + s)
}

fn feed_all(u: i32, v: i32, t: i32) -> (r: (i32, i32))
    requires
        -16_384 <= u <= 16_384,
        -16_384 <= v <= 16_384,
    ensures
        r.0 == feedback(4, u as int, v as int, t as int).a,
        r.1 == feedback(4, u as int, v as int, t as int).d,
        -131_072 <= r.0 <= 131_072,
        -131_072 <= r.1 <= 131_072,
{
    let mut a: i32 = 0;
    let mut d: i32 = 0;
    let mut i: i32 = 0;
    while i < 4
        invariant
            0 <= i <= 4,
            -16_384 <= u <= 16_384,
            -16_384 <= v <= 16_384,
            a == feedback(i as int, u as int, v as int, t as int).a,
            d == feedback(i as int, u as int, v as int, t as int).d,
            -32_768 * i <= a <= 32_768 * i,
            -32_768 * i <= d <= 32_768 * i,
        decreases 4 - i,
    {
        let (a2, d2) = feed(a, d, i, u, v, t);
        a = a2;
        d = d2;
        i = i + 1;
    }
    (a, d)
}

fn brightness_of(a: i32, d: i32) -> (k: i32)
    requires
        -131_072 <= d <= 131_072,
    ensures
        k == brightness(Feedback { a: a as int, d: d as int }),
        -10_000 <= k <= 20_000,
{
    let wave: i32 = (lut_sin_cos_q14(a) + lut_sin_cos_q14(d + FRAC_PI_2_Q14)) / 2;
    proof {
        lemma_times(6554, wave as int, 2);
    }
    4915 + mul_q14(6554, wave)
}

fn tint_of(a: i32, d: i32, u: i32, v: i32, t: i32) -> (c: (i32, i32, i32))
    requires
        -131_072 <= a <= 131_072,
        -131_072 <= d <= 131_072,
        -16_384 <= u <= 16_384,
        -16_384 <= v <= 16_384,
    ensures
        (c.0 as int, c.1 as int, c.2 as int) == tint(Feedback { a: a as int, d: d as int }, u as int, v as int, t as int),
        -40_000 <= c.0 <= 40_000,
        -40_000 <= c.1 <= 40_000,
        -40_000 <= c.2 <= 40_000,
{
    assert(-700_000_000 <= times(t as int, 4915) <= 700_000_000);
    assert(-700_000_000 <= times(t as int, 3277) <= 700_000_000);
    assert(-700_000_000 <= times(t as int, 1638) <= 700_000_000);
    let cb: i32 = lut_sin_cos_q14(u + v + mul_q14(t, 4915) + FRAC_PI_2_Q14);
    proof {
        lemma_times(2458, cb as int, 2);
        lemma_times(a as int, 24_576, 2);
        lemma_times(d as int, 32_768, 2);
    }
    let base: i32 = 1638 + mul_q14(2458, cb);
    let sb: i32 = lut_sin_cos_q14(mul_q14(a, 24_576) + mul_q14(t, 3277));
    proof {
        lemma_times(3277, sb as int, 2);
    }
    let blue: i32 = mul_q14(3277, sb);
    let sp: i32 = lut_sin_cos_q14(mul_q14(d, 32_768) + mul_q14(t, 1638));
    proof {
        lemma_times(2458, sp as int, 2);
    }
    let purple: i32 = mul_q14(2458, sp);
    proof {
        lemma_times(purple as int, 13_107, 1);
        lemma_times(blue as int, 9830, 1);
        lemma_times(blue as int, 19_661, 2);
        lemma_times(purple as int, 6554, 1);
    }
    (
        base + mul_q14(purple, 13_107),
        base + mul_q14(blue, 9830),
        base + mul_q14(blue, 19_661) + mul_q14(purple, 6554),
    )
}

/// The pixel at `(u, v)` and time `t`.
pub fn eval_pixel(u: i32, v: i32, t: i32) -> (p: u16)
    requires
        -16_384 <= u <= 16_384,
        -16_384 <= v <= 16_384,
    ensures
        p == cloud_px(u as int, v as int, t as int),
{
    proof {
        reveal(cloud_px);
    }
    let (a, d) = feed_all(u, v, t);
    let k: i32 = brightness_of(a, d);
    let c = tint_of(a, d, u, v, t);
    proof {
        lemma_times(c.0 as int, k as int, 2);
        lemma_times(c.1 as int, k as int, 2);
        lemma_times(c.2 as int, k as int, 2);
    }
    q14_rgb_to_rgb565(mul_q14(c.0, k), mul_q14(c.1, k), mul_q14(c.2, k))
}

/// The clouds at a moment.
pub struct Cloud {
    pub low_w: u16,
    pub low_h: u16,
    pub out_w: u16,
    pub out_h: u16,
    pub ux: Vec<UpSample1D>,
    pub uy: Vec<UpSample1D>,
    /// Seconds in fixed point.
    pub t_q: i32,
}

impl Cloud {
    /// The sample tables match the sides of the image and of the panel.
    pub open spec fn wf(self) -> bool {
        &&& self.low_w == 233
        &&& self.low_h == 233
        &&& upscale::samples_ok(self.ux@, 233)
        &&& upscale::samples_ok(self.uy@, 233)
        &&& self.ux@.len() == self.out_w
        &&& self.uy@.len() == self.out_h
        &&& self.out_w >= 1
    }

    pub fn new(width: u16, height: u16, ux: Vec<UpSample1D>, uy: Vec<UpSample1D>) -> (c: Cloud)
        requires
            width >= 1,
            ux@.len() == width,
            uy@.len() == height,
            upscale::samples_ok(ux@, 233),
            upscale::samples_ok(uy@, 233),
        ensures
            c.wf(),
            c.out_w == width,
            c.out_h == height,
            c.ux == ux,
            c.uy == uy,
            c.t_q == 0,
    {
        Cloud { low_w: LOW_W, low_h: LOW_H, out_w: width, out_h: height, ux, uy, t_q: 0 }
    }

    /// Move to a moment.
    pub fn update_time(&mut self, t_q: i32)
        ensures
            *final(self) == (Cloud { t_q, ..*old(self) }),
    {
        self.t_q = t_q;
    }

    /// Draw rows `row_start` to before `row_end`.
    pub fn eval_rows(&self, low_buf: &mut [u16], row_start: usize, row_end: usize)
        requires
            self.wf(),
            old(low_buf)@.len() >= imath::smin(row_end as int, 233) * 233,
        ensures
            final(low_buf)@ == clouded(
                old(low_buf)@,
                233,
                233,
                self.t_q as int,
                imath::smin(row_start as int, 233),
                imath::smin(row_end as int, 233),
            ),
    {
        let rs: usize = if row_start < 233 { row_start } else { 233 };
        let re: usize = if row_end < 233 { row_end } else { 233 };
        let n: usize = low_buf.len();
        let ghost low0 = low_buf@;
        let ghost t = self.t_q as int;
        let ghost target = clouded(low0, 233, 233, t, rs as int, re as int);
        let mut ly: usize = rs;
        while ly < re
            invariant
                t == self.t_q,
                rs <= ly,
                ly <= re || ly == rs,
                re <= 233,
                n == low_buf@.len(),
                n == low0.len(),
                n >= re * 233,
                target == clouded(low0, 233, 233, t, rs as int, re as int),
                forall|k: int| 0 <= k < ly * 233 && k < n ==> low_buf@[k] == target[k],
                forall|k: int| ly * 233 <= k < n ==> low_buf@[k] == low0[k],
            decreases re - ly,
        {
            let v: i32 = calc_u_q(ly as i32, 233);
            let mut lx: usize = 0;
            while lx < 233
                invariant
                    t == self.t_q,
                    rs <= ly < re,
                    lx <= 233,
                    re <= 233,
                    v == unit_coord(ly as int, 233),
                    -16_384 <= v <= 16_384,
                    n == low_buf@.len(),
                    n == low0.len(),
                    n >= re * 233,
                    target == clouded(low0, 233, 233, t, rs as int, re as int),
                    forall|k: int| 0 <= k < ly * 233 + lx ==> low_buf@[k] == target[k],
                    forall|k: int| ly * 233 + lx <= k < n ==> low_buf@[k] == low0[k],
                decreases 233 - lx,
            {
                let u: i32 = calc_u_q(lx as i32, 233);
                let i: usize = ly * 233 + lx;
                low_buf[i] = eval_pixel(u, v, self.t_q);
                assert(i as int % 233 == lx && i as int / 233 == ly);
                lx = lx + 1;
            }
            ly = ly + 1;
        }
        assert(low_buf@ =~= target);
    }

    /// Draw the whole image.
    pub fn eval_pass(&self, low_buf: &mut [u16])
        requires
            self.wf(),
            old(low_buf)@.len() >= 54_289,
        ensures
            final(low_buf)@ == clouded(old(low_buf)@, 233, 233, self.t_q as int, 0, 233),
    {
        self.eval_rows(low_buf, 0, self.low_h as usize);
    }

    /// Enlarge an image into rows `row_start` to before `row_end` of the panel.
    pub fn upscale_rows(&self, low: &[u16], out: &mut [u8], row_start: usize, row_end: usize)
        requires
            self.wf(),
            low@.len() >= 54_289,
            old(out)@.len() >= imath::smin(row_end as int, self.out_h as int) * self.out_w * 2,
        ensures
            final(out)@ == upscale::upscaled_rows(
                old(out)@,
                low@,
                233,
                self.ux@,
                self.uy@,
                self.out_w as int,
                self.out_h as int,
                row_start as int,
                row_end as int,
            ),
    {
        upscale::upscale_clipped(
            low,
            self.low_w as usize,
            self.low_h as usize,
            &self.ux,
            &self.uy,
            self.out_w as usize,
            self.out_h as usize,
            out,
            row_start,
            row_end,
        );
    }
}

/// Two workers that split the image at any row draw the same clouds as one.
pub proof fn lemma_cloud_split(low: Seq<u16>, lw: int, lh: int, t: int, rs: int, rm: int, re: int)
    requires
        rs <= rm <= re,
        lw >= 1,
    ensures
        clouded(clouded(low, lw, lh, t, rs, rm), lw, lh, t, rm, re) == clouded(low, lw, lh, t, rs, re),
{
    assert(rs * lw <= rm * lw <= re * lw) by (nonlinear_arith)
        requires
            rs <= rm <= re,
            lw >= 1,
    ;
    assert(clouded(clouded(low, lw, lh, t, rs, rm), lw, lh, t, rm, re) =~= clouded(low, lw, lh, t, rs, re));
}

} // verus!
