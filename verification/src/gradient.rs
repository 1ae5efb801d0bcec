//! The blue gradient: a slowly turning diagonal ramp from navy to purple with two soft
//! waves, a vignette and a dither, drawn at half resolution and enlarged.
use vstd::prelude::*;

use crate::imath;
use crate::raidal;
use crate::raidal::{lut_sin_cos_q14, q14_rgb_to_rgb565};
use crate::upscale;
use crate::upscale::UpSample1D;

verus! {

/// Panel pixels per image pixel.
pub const GRAD_DIV: u16 = 2;
pub const LOW_W: u16 = 233;
pub const LOW_H: u16 = 233;
pub const LOW_PIXELS: usize = 54_289;

/// Speed of the sweep and height of the waves, in fixed point.
#[derive(Clone, Copy, Debug, PartialEq, Eq, Structural)]
pub struct GradientConfig {
    pub sweep_q: i32,
    pub amp_q: i32,
}

/// Offset of image coordinate `c` from the centre, in fixed point of the image's side.
#[verifier::opaque]
pub open spec fn offset(c: int) -> int {
    imath::tdiv((c - 116) * 16_384, 233)
}

fn offset_of(c: usize) -> (r: i32)
    requires
        c < 233,
    ensures
        r == offset(c as int),
        -8192 <= r <= 8192,
{
    proof {
        reveal(offset);
    }
    (c as i32 - 116) * 16_384 / 233
}

/// Phase of the sweep, on a wheel of 2^32.
pub open spec fn sweep_phase(t: i32, sweep_q: i32) -> int {
    t.wrapping_mul((sweep_q as int / 512) as i32) as int
}

/// How far a pixel lies along the turning diagonal.
pub open spec fn diagonal(x: int, y: int, t: i32) -> int {
    let rot = t as int / 512;
    (x * raidal::sine(rot + 4096) + y * raidal::sine(rot)) / 8192
}

/// Place of a pixel on the ramp from navy (0) to purple (16384), before the waves.
pub open spec fn ramp(x: int, y: int, t: i32, sweep_q: i32) -> int {
    imath::sclamp((diagonal(x, y, t) + sweep_phase(t, sweep_q) + 32_768) / 2, 0, 16_384)
}

/// What the two waves add.
pub open spec fn waves(x: int, y: int, t: i32, cfg: GradientConfig) -> int {
    let perp = imath::tdiv(x - y, 2);
    let ph = sweep_phase(t, cfg.sweep_q);
    let w1 = raidal::sine(perp + ph / 2);
    let w2 = raidal::sine(perp / 2 + ph / 8);
    (w1 + w2 / 2) * cfg.amp_q / 16_384
}

/// Place of a pixel on the ramp.
pub open spec fn place(x: int, y: int, t: i32, cfg: GradientConfig) -> int {
    imath::sclamp(ramp(x, y, t, cfg.sweep_q) + waves(x, y, t, cfg), 0, 16_384)
}

/// Vignette: full in the centre, never under 7500.
pub open spec fn vignette(x: int, y: int) -> int {
    let dist = imath::sqrt_of((x * x + y * y) / 1024);
    imath::smax(16_384 - dist * 2200 / 16_384, 7500)
}

/// A channel between its navy value `a` and its purple value `b`, dimmed.
pub open spec fn channel(a: int, b: int, place: int, vig: int) -> int {
    (a + (b - a) * place / 16_384) * vig / 16_384 * 15_200 / 16_384
}

/// Dither of a pixel, from -3 to 4.
pub open spec fn dither(lx: int, ly: int, t: i32) -> int {
    ((((lx * 19) as i32) ^ ((ly * 31 + t as int / 256) as i32)) & 7i32) - 3
}

/// Pixel `(lx, ly)` of the image.
#[verifier::opaque]
pub open spec fn gradient_px(lx: int, ly: int, t: i32, cfg: GradientConfig) -> int {
    let (x, y) = (offset(lx), offset(ly));
    let (f, vig, d) = (place(x, y, t, cfg), vignette(x, y), dither(lx, ly, t) * 210);
    raidal::rgb565_of(
        channel(0, 385, f, vig) + d,
        channel(321, 192, f, vig) + d,
        channel(1799, 3212, f, vig) + imath::tdiv(d, 2),
    )
}

/// Rows `rs` to before `re` of the gradient drawn into `low`.
pub open spec fn shaded(low: Seq<u16>, t: i32, cfg: GradientConfig, rs: int, re: int) -> Seq<u16> {
    Seq::new(
        low.len(),
        |p: int| if rs * 233 <= p < re * 233 { gradient_px(p % 233, p / 233, t, cfg) as u16 } else { low[p] },
    )
}

proof fn lemma_product(a: int, b: int, m: int, n: int)
    requires
        -m <= a <= m,
        -n <= b <= n,
    ensures
        -(m * n) <= a * b <= m * n,
{
    assert(-(m * n) <= a * b <= m * n) by (nonlinear_arith)
        requires
            -m <= a <= m,
            -n <= b <= n,
    ;
}

fn phase_of(t: i32, sweep_q: i32) -> (r: i32)
    ensures
        r == sweep_phase(t, sweep_q),
{
    let k: i32 = imath::asr(sweep_q, 9);
    assert(imath::p2(9) == 512);
    assert(k == (sweep_q as int / 512) as i32);
    t.wrapping_mul(k)
}

fn ramp_of(x: i32, y: i32, t: i32, ph: i32, Ghost(sweep_q): Ghost<i32>) -> (r: i64)
    requires
        -8192 <= x <= 8192,
        -8192 <= y <= 8192,
        ph == sweep_phase(t, sweep_q),
    ensures
        r == ramp(x as int, y as int, t, sweep_q),
        0 <= r <= 16_384,
{
    let rot: i32 = imath::asr(t, 9);
    assert(imath::p2(9) == 512);
    let c: i32 = lut_sin_cos_q14(rot + 4096);
    let s: i32 = lut_sin_cos_q14(rot);
    proof {
        lemma_product(x as int, c as int, 8192, 32_768);
        lemma_product(y as int, s as int, 8192, 32_768);
    }
    let diag: i32 = imath::asr(x * c + y * s, 13);
    assert(imath::p2(13) == 8192);
    let f: i64 = imath::floor_div(diag as i64 + ph as i64 + 32_768, 2);
    if f < 0 {
        0
    } else if f > 16_384 {
        16_384
    } else {
        f
    }
}

fn waves_of(x: i32, y: i32, t: i32, ph: i32, cfg: &GradientConfig) -> (r: i64)
    requires
        -8192 <= x <= 8192,
        -8192 <= y <= 8192,
        ph == sweep_phase(t, cfg.sweep_q),
    ensures
        r == waves(x as int, y as int, t, *cfg),
        -0x1_0000_0000_0000 <= r <= 0x1_0000_0000_0000,
{
    let perp: i32 = (x - y) / 2;
    assert(imath::p2(1) == 2 && imath::p2(3) == 8);
    let w1: i32 = lut_sin_cos_q14(perp + imath::asr(ph, 1));
    let w2: i32 = lut_sin_cos_q14(imath::asr(perp, 1) + imath::asr(ph, 3));
    let w: i32 = w1 + imath::asr(w2, 1);
    proof {
        lemma_product(w as int, cfg.amp_q as int, 65_536, 0x8000_0000);
    }
    imath::floor_div(w as i64 * cfg.amp_q as i64, 16_384)
}

fn place_of(x: i32, y: i32, t: i32, cfg: &GradientConfig) -> (r: i32)
    requires
        -8192 <= x <= 8192,
        -8192 <= y <= 8192,
    ensures
        r == place(x as int, y as int, t, *cfg),
        0 <= r <= 16_384,
{
    let ph: i32 = phase_of(t, cfg.sweep_q);
    let f: i64 = ramp_of(x, y, t, ph, Ghost(cfg.sweep_q)) + waves_of(x, y, t, ph, cfg);
    if f < 0 {
        0
    } else if f > 16_384 {
        16_384
    } else {
        f as i32
    }
}

fn vignette_of(x: i32, y: i32) -> (r: i32)
    requires
        -8192 <= x <= 8192,
        -8192 <= y <= 8192,
    ensures
        r == vignette(x as int, y as int),
        7500 <= r <= 16_384,
{
    proof {
        lemma_product(x as int, x as int, 8192, 8192);
        lemma_product(y as int, y as int, 8192, 8192);
        assert(x * x >= 0 && y * y >= 0) by (nonlinear_arith);
    }
    let d: i32 = (x * x + y * y) / 1024;
    let dist: i32 = imath::isqrt(d as u32) as i32;
    imath::imax(16_384 - dist * 2200 / 16_384, 7500)
}

fn channel_of(a: i32, b: i32, place: i32, vig: i32) -> (r: i32)
    requires
        0 <= a <= 4000,
        0 <= b <= 4000,
        0 <= place <= 16_384,
        0 <= vig <= 16_384,
    ensures
        r == channel(a as int, b as int, place as int, vig as int),
        -10_000 <= r <= 10_000,
{
    let d: i32 = b - a;
    proof {
        lemma_product(d as int, place as int, 4000, 16_384);
    }
    assert(imath::p2(14) == 16_384);
    let v: i32 = a + imath::asr(d * place, 14);
    proof {
        lemma_product(v as int, vig as int, 8000, 16_384);
    }
    let w: i32 = imath::asr(v * vig, 14);
    imath::asr(w * 15_200, 14)
}

fn dither_of(lx: usize, ly: usize, t: i32) -> (r: i32)
    requires
        lx < 233,
        ly < 233,
    ensures
        r == dither(lx as int, ly as int, t),
        -3 <= r <= 4,
{
    assert(imath::p2(8) == 256);
    let a: i32 = lx as i32 * 19;
    let b: i32 = ly as i32 * 31 + imath::asr(t, 8);
    assert(0 <= ((a ^ b) & 7i32) <= 7) by (bit_vector);
    ((a ^ b) & 7) - 3
}

/// Pixel `(lx, ly)` of the image.
pub fn eval_pixel(lx: usize, ly: usize, t: i32, cfg: &GradientConfig) -> (p: u16)
    requires
        lx < 233,
        ly < 233,
    ensures
        p == gradient_px(lx as int, ly as int, t, *cfg),
{
    proof {
        reveal(gradient_px);
    }
    let x: i32 = offset_of(lx);
    let y: i32 = offset_of(ly);
    let f: i32 = place_of(x, y, t, cfg);
    let vig: i32 = vignette_of(x, y);
    let d: i32 = dither_of(lx, ly, t) * 210;
    q14_rgb_to_rgb565(
        channel_of(0, 385, f, vig) + d,
        channel_of(321, 192, f, vig) + d,
        channel_of(1799, 3212, f, vig) + d / 2,
    )
}

/// Draw rows `row_start` to before `row_end` of the gradient.
pub fn eval_gradient_rows(t: i32, cfg: &GradientConfig, low_buf: &mut [u16], row_start: usize, row_end: usize)
    requires
        old(low_buf)@.len() >= imath::smin(row_end as int, 233) * 233,
    ensures
        final(low_buf)@ == shaded(
            old(low_buf)@,
            t,
            *cfg,
            imath::smin(row_start as int, 233),
            imath::smin(row_end as int, 233),
        ),
        final(low_buf)@.len() == old(low_buf)@.len(),
{
    let rs: usize = if row_start < 233 { row_start } else { 233 };
    let re: usize = if row_end < 233 { row_end } else { 233 };
    let n: usize = low_buf.len();
    let ghost low0 = low_buf@;
    let ghost target = shaded(low0, t, *cfg, rs as int, re as int);
    let mut ly: usize = rs;
    while ly < re
        invariant
            rs <= ly,
            ly <= re || ly == rs,
            re <= 233,
            n == low_buf@.len(),
            n == low0.len(),
            n >= re * 233,
            target == shaded(low0, t, *cfg, rs as int, re as int),
            forall|k: int| 0 <= k < ly * 233 && k < n ==> low_buf@[k] == target[k],
            forall|k: int| ly * 233 <= k < n ==> low_buf@[k] == low0[k],
        decreases re - ly,
    {
        let mut lx: usize = 0;
        while lx < 233
            invariant
                rs <= ly < re,
                lx <= 233,
                re <= 233,
                n == low_buf@.len(),
                n == low0.len(),
                n >= re * 233,
                target == shaded(low0, t, *cfg, rs as int, re as int),
                forall|k: int| 0 <= k < ly * 233 + lx ==> low_buf@[k] == target[k],
                forall|k: int| ly * 233 + lx <= k < n ==> low_buf@[k] == low0[k],
            decreases 233 - lx,
        {
            let i: usize = ly * 233 + lx;
            low_buf[i] = eval_pixel(lx, ly, t, cfg);
            assert(i as int % 233 == lx && i as int / 233 == ly);
            lx = lx + 1;
        }
        ly = ly + 1;
    }
    assert(low_buf@ =~= target);
}

/// The gradient at a moment, with an image of its own.
pub struct BlueGradient {
    pub config: GradientConfig,
    pub low_w: u16,
    pub low_h: u16,
    pub out_w: u16,
    pub out_h: u16,
    pub ux: Vec<UpSample1D>,
    pub uy: Vec<UpSample1D>,
    pub low_buf: Vec<u16>,
    /// Seconds in fixed point.
    pub t_q: i32,
}

impl BlueGradient {
    /// The image and the sample tables match the sides of the panel.
    pub open spec fn wf(self) -> bool {
        &&& self.low_w == 233
        &&& self.low_h == 233
        &&& self.low_buf@.len() == 54_289
        &&& upscale::samples_ok(self.ux@, 233)
        &&& upscale::samples_ok(self.uy@, 233)
        &&& self.ux@.len() == self.out_w
        &&& self.uy@.len() == self.out_h
        &&& self.out_w >= 1
    }

    pub fn new(config: GradientConfig, width: u16, height: u16, ux: Vec<UpSample1D>, uy: Vec<UpSample1D>) -> (g:
        BlueGradient)
        requires
            width >= 1,
            ux@.len() == width,
            uy@.len() == height,
            upscale::samples_ok(ux@, 233),
            upscale::samples_ok(uy@, 233),
        ensures
            g.wf(),
            g.config == config,
            g.out_w == width,
            g.out_h == height,
            g.ux == ux,
            g.uy == uy,
            g.low_buf@ == Seq::new(54_289, |i: int| 0u16),
            g.t_q == 0,
    {
        let mut low_buf: Vec<u16> = Vec::new();
        let mut k: usize = 0;
        while k < LOW_PIXELS
            invariant
                k <= 54_289,
                low_buf@.len() == k,
                forall|i: int| 0 <= i < k ==> low_buf@[i] == 0,
            decreases 54_289 - k,
        {
            low_buf.push(0);
            k = k + 1;
        }
        assert(low_buf@ =~= Seq::new(54_289, |i: int| 0u16));
        BlueGradient { config, low_w: LOW_W, low_h: LOW_H, out_w: width, out_h: height, ux, uy, low_buf, t_q: 0 }
    }

    /// Move to a moment.
    pub fn update_time(&mut self, t_q: i32)
        ensures
            *final(self) == (BlueGradient { t_q, ..*old(self) }),
    {
        self.t_q = t_q;
    }

    /// Draw rows `row_start` to before `row_end` of the gradient.
    pub fn eval_rows(&self, low_buf: &mut [u16], row_start: usize, row_end: usize)
        requires
            old(low_buf)@.len() >= imath::smin(row_end as int, 233) * 233,
        ensures
            final(low_buf)@ == shaded(
                old(low_buf)@,
                self.t_q,
                self.config,
                imath::smin(row_start as int, 233),
                imath::smin(row_end as int, 233),
            ),
    {
        eval_gradient_rows(self.t_q, &self.config, low_buf, row_start, row_end);
    }

    /// Draw the whole gradient.
    pub fn eval_pass(&self, low_buf: &mut [u16])
        requires
            self.wf(),
            old(low_buf)@.len() >= 54_289,
        ensures
            final(low_buf)@ == shaded(old(low_buf)@, self.t_q, self.config, 0, 233),
    {
        self.eval_rows(low_buf, 0, self.low_h as usize);
    }

    /// Enlarge an image into rows `row_start` to before `row_end` of the panel.
    pub fn upscale_rows(&self, low: &[u16], out: &mut [u8], row_start: usize, row_end: usize)
        requires
            self.wf(),
            low@.len() >= 54_289,
            old(out)@.len() >= imath::smin(row_end as int, self.out_h as int) * self.out_w * 2,
        ensures
            final(out)@ == upscale::upscaled_rows(
                old(out)@,
                low@,
                233,
                self.ux@,
                self.uy@,
                self.out_w as int,
                self.out_h as int,
                row_start as int,
                row_end as int,
            ),
    {
        upscale::upscale_clipped(
            low,
            self.low_w as usize,
            self.low_h as usize,
            &self.ux,
            &self.uy,
            self.out_w as usize,
            self.out_h as usize,
            out,
            row_start,
            row_end,
        );
    }

    /// Draw the frame of a moment: the gradient into the own image, and that enlarged onto
    /// the panel.
    pub fn render_to_fb(&mut self, fb: &mut [u8], t_q: i32)
        requires
            old(self).wf(),
            old(fb)@.len() >= old(self).out_h * old(self).out_w * 2,
        ensures
            final(self).wf(),
            final(self).t_q == t_q,
            final(self).low_buf@ == shaded(old(self).low_buf@, t_q, old(self).config, 0, 233),
            final(self).config == old(self).config,
            final(self).out_w == old(self).out_w,
            final(self).out_h == old(self).out_h,
            final(self).ux == old(self).ux,
            final(self).uy == old(self).uy,
            final(fb)@ == upscale::upscaled_rows(
                old(fb)@,
                final(self).low_buf@,
                233,
                old(self).ux@,
                old(self).uy@,
                old(self).out_w as int,
                old(self).out_h as int,
                0,
                old(self).out_h as int,
            ),
    {
        self.t_q = t_q;
        eval_gradient_rows(t_q, &self.config, &mut self.low_buf, 0, 233);
        upscale::upscale_clipped(
            &self.low_buf,
            self.low_w as usize,
            self.low_h as usize,
            &self.ux,
            &self.uy,
            self.out_w as usize,
            self.out_h as usize,
            fb,
            0,
            self.out_h as usize,
        );
    }
}

/// A frame does not depend on the frame before it: whatever the image held, drawing all its
/// rows gives the same gradient.
pub proof fn lemma_frame_is_fresh(a: Seq<u16>, b: Seq<u16>, t: i32, cfg: GradientConfig)
    requires
        a.len() == 54_289,
        b.len() == 54_289,
    ensures
        shaded(a, t, cfg, 0, 233) == shaded(b, t, cfg, 0, 233),
{
    assert(shaded(a, t, cfg, 0, 233) =~= shaded(b, t, cfg, 0, 233));
}

/// The ramp rises along the diagonal without a fold.
pub proof fn lemma_ramp_monotonic(x: int, y: int, u: int, v: int, t: i32, sweep_q: i32)
    requires
        diagonal(x, y, t) <= diagonal(u, v, t),
    ensures
        ramp(x, y, t, sweep_q) <= ramp(u, v, t, sweep_q),
{
}

} // verus!
