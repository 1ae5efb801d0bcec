//! The light rays: narrow vertical beams that fall from the upper middle of the panel onto
//! black, swaying and pulsing, drawn at half resolution and enlarged.
use vstd::prelude::*;

use crate::imath;
use crate::raidal;
use crate::raidal::{lut_sin_cos_q14, q14_rgb_to_rgb565};
use crate::upscale;
use crate::upscale::UpSample1D;

verus! {

/// Panel pixels per image pixel.
pub const LIGHT_RAYS_DIV: u16 = 2;
pub const LOW_W: u16 = 233;
pub const LOW_H: u16 = 233;

/// Number of rays, and half their width in fixed point of the image's side.
#[derive(Clone, Copy, Debug, PartialEq, Eq, Structural)]
pub struct LightRaysConfig {
    pub num_rays: u8,
    pub beam_w_q: i32,
}

/// Place of image coordinate `c` in fixed point of the image's side.
pub open spec fn unit(c: int) -> int {
    c * 16_384 / 233
}

/// Where ray `r` of `n` leaves the top edge: evenly from a quarter to three quarters of the
/// width.
pub open spec fn source(r: int, n: int) -> int {
    4096 + r * 8192 / (n - 1)
}

/// Where ray `r` stands at time `t`: its source, swaying.
pub open spec fn ray_x(r: int, n: int, t: int) -> int {
    source(r, n) + raidal::sine(t * 3 + r * 1200) * 1200 / 16_384
}

/// Strength of ray `r` at time `t`.
pub open spec fn pulse(r: int, t: int) -> int {
    (12_000 + raidal::sine(t * 4 + r * 1500)) / 2
}

/// Light left at height `y`: full at the top edge, a third at the bottom.
pub open spec fn depth_fade(y: int) -> int {
    16_384 - y * 11_000 / 16_384
}

/// Light of ray `r` at `(x, y)`: linear across the beam, none outside it.
pub open spec fn ray_light(x: int, y: int, r: int, n: int, beam: int, t: int) -> int {
    let dx = imath::sabs(x - ray_x(r, n, t));
    if dx < beam {
        let cross = 16_384 - dx * 16_384 / beam;
        imath::tdiv((cross * depth_fade(y) / 16_384) * pulse(r, t), 16_384)
    } else {
        0
    }
}

/// Light of the first `k` rays.
pub open spec fn light_sum(x: int, y: int, k: int, n: int, beam: int, t: int) -> int
    decreases k,
{
    if k <= 0 { 0 } else { light_sum(x, y, k - 1, n, beam, t) + ray_light(x, y, k - 1, n, beam, t) }
}

/// Grey of a light: the dark ground, and the light above it.
pub open spec fn grey(light: int) -> int {
    800 + imath::tdiv(imath::tdiv(light * 220, 16_384) * 16_384, 255)
}

/// Pixel `(lx, ly)` of the image.
#[verifier::opaque]
pub open spec fn rays_px(lx: int, ly: int, cfg: LightRaysConfig, t: int) -> int {
    let n = cfg.num_rays as int;
    let sum = light_sum(unit(lx), unit(ly), n, n, cfg.beam_w_q as int, t);
    let g = grey(imath::smin(imath::tdiv(sum, n), 16_384));
    raidal::rgb565_of(g, g, g)
}

/// Rows `rs` to before `re` of the rays drawn into `low`.
pub open spec fn lit(low: Seq<u16>, cfg: LightRaysConfig, t: int, rs: int, re: int) -> Seq<u16> {
    Seq::new(
        low.len(),
        |p: int| if rs * 233 <= p < re * 233 { rays_px(p % 233, p / 233, cfg, t) as u16 } else { low[p] },
    )
}

/// There are two rays or more, and their phases are 32-bit numbers.
pub open spec fn rays_ok(cfg: LightRaysConfig, t: int) -> bool {
    &&& cfg.num_rays >= 2
    &&& t * 4 >= i32::MIN
    &&& t * 4 + 1500 * (cfg.num_rays - 1) <= i32::MAX
}

proof fn lemma_source(r: int, n: int)
    requires
        0 <= r < n,
        n >= 2,
    ensures
        4096 <= source(r, n) <= 12_288,
{
    assert(0 <= r * 8192 / (n - 1) <= 8192) by (nonlinear_arith)
        requires
            0 <= r <= n - 1,
            n >= 2,
    ;
}

/// Every ray leaves the top edge between a quarter and three quarters of the width, the
/// first and the last at these ends.
pub proof fn lemma_sources(n: int)
    requires
        n >= 2,
    ensures
        source(0, n) == 4096,
        source(n - 1, n) == 12_288,
        forall|r: int| 0 <= r < n ==> 4096 <= #[trigger] source(r, n) <= 12_288,
{
    assert((n - 1) * 8192 / (n - 1) == 8192) by (nonlinear_arith)
        requires
            n >= 2,
    ;
    assert(0int * 8192 / (n - 1) == 0) by (nonlinear_arith)
        requires
            n >= 2,
    ;
    assert forall|r: int| 0 <= r < n implies 4096 <= #[trigger] source(r, n) <= 12_288 by {
        lemma_source(r, n);
    }
}

fn ray_light_of(x: i32, y: i32, r: i32, n: i32, beam: i32, t: i32) -> (v: i32)
    requires
        0 <= x <= 16_384,
        0 <= y <= 16_384,
        0 <= r < n <= 255,
        n >= 2,
        t * 4 >= i32::MIN,
        t * 4 + 1500 * (n - 1) <= i32::MAX,
    ensures
        v == ray_light(x as int, y as int, r as int, n as int, beam as int, t as int),
        -30_000 <= v <= 30_000,
{
    proof {
        lemma_source(r as int, n as int);
    }
    let base: i32 = 4096 + r * 8192 / (n - 1);
    let sway: i32 = imath::asr(lut_sin_cos_q14(t * 3 + r * 1200) * 1200, 14);
    assert(imath::p2(14) == 16_384 && imath::p2(1) == 2);
    let dx: i32 = imath::iabs(x - (base + sway));
    if dx >= beam {
        return 0;
    }
    proof {
        let (d, b) = (dx as int, beam as int);
        assert(0 <= d * 16_384 / b <= 16_384) by (nonlinear_arith)
            requires
                0 <= d < b,
        ;
    }
    let cross: i32 = 16_384 - dx * 16_384 / beam;
    let fade: i32 = 16_384 - y * 11_000 / 16_384;
    proof {
        assert(0 <= cross * fade <= 16_384 * 16_384) by (nonlinear_arith)
            requires
                0 <= cross <= 16_384,
                0 <= fade <= 16_384,
        ;
    }
    let k: i32 = cross * fade / 16_384;
    let p: i32 = imath::asr(12_000 + lut_sin_cos_q14(t * 4 + r * 1500), 1);
    proof {
        assert(-16_384 * 30_000 <= k * p <= 16_384 * 30_000) by (nonlinear_arith)
            requires
                0 <= k <= 16_384,
                -30_000 <= p <= 30_000,
        ;
    }
    k * p / 16_384
}

/// Pixel `(lx, ly)` of the image.
pub fn eval_pixel(lx: usize, ly: usize, cfg: &LightRaysConfig, t: i32) -> (p: u16)
    requires
        lx < 233,
        ly < 233,
        rays_ok(*cfg, t as int),
    ensures
        p == rays_px(lx as int, ly as int, *cfg, t as int),
{
    let x: i32 = lx as i32 * 16_384 / 233;
    let y: i32 = ly as i32 * 16_384 / 233;
    let n: i32 = cfg.num_rays as i32;
    let beam: i32 = cfg.beam_w_q;
    let mut sum: i32 = 0;
    let mut r: i32 = 0;
    while r < n
        invariant
            0 <= r <= n,
            2 <= n <= 255,
            0 <= x <= 16_384,
            0 <= y <= 16_384,
            t * 4 >= i32::MIN,
            t * 4 + 1500 * (n - 1) <= i32::MAX,
            sum == light_sum(x as int, y as int, r as int, n as int, beam as int, t as int),
            -30_000 * r <= sum <= 30_000 * r,
        decreases n - r,
    {
        sum = sum + ray_light_of(x, y, r, n, beam, t);
        r = r + 1;
    }
    proof {
        reveal(rays_px);
        let m = imath::sabs(sum as int);
        let k = n as int;
        assert(0 <= m / k <= 30_000) by (nonlinear_arith)
            requires
                0 <= m <= 30_000 * k,
                k >= 2,
        ;
    }
    let light: i32 = imath::imin(sum / n, 16_384);
    let g: i32 = 800 + (light * 220 / 16_384) * 16_384 / 255;
    q14_rgb_to_rgb565(g, g, g)
}

/// The rays at a moment.
pub struct LightRays {
    pub config: LightRaysConfig,
    pub low_w: u16,
    pub low_h: u16,
    pub out_w: u16,
    pub out_h: u16,
    pub ux: Vec<UpSample1D>,
    pub uy: Vec<UpSample1D>,
    /// Seconds in fixed point.
    pub t_q: i32,
}

impl LightRays {
    /// The sample tables match the sides of the image and of the panel.
    pub open spec fn wf(self) -> bool {
        &&& self.low_w == 233
        &&& self.low_h == 233
        &&& upscale::samples_ok(self.ux@, 233)
        &&& upscale::samples_ok(self.uy@, 233)
        &&& self.ux@.len() == self.out_w
        &&& self.uy@.len() == self.out_h
        &&& self.out_w >= 1
    }

    pub fn new(config: LightRaysConfig, width: u16, height: u16, ux: Vec<UpSample1D>, uy: Vec<UpSample1D>) -> (l:
        LightRays)
        requires
            width >= 1,
            ux@.len() == width,
            uy@.len() == height,
            upscale::samples_ok(ux@, 233),
            upscale::samples_ok(uy@, 233),
        ensures
            l.wf(),
            l.config == config,
            l.out_w == width,
            l.out_h == height,
            l.ux == ux,
            l.uy == uy,
            l.t_q == 0,
    {
        LightRays { config, low_w: LOW_W, low_h: LOW_H, out_w: width, out_h: height, ux, uy, t_q: 0 }
    }

    /// Move to a moment.
    pub fn update_time(&mut self, t_q: i32)
        ensures
            *final(self) == (LightRays { t_q, ..*old(self) }),
    {
        self.t_q = t_q;
    }

    /// Draw rows `row_start` to before `row_end`.
    pub fn eval_rows(&self, low_buf: &mut [u16], row_start: usize, row_end: usize)
        requires
            rays_ok(self.config, self.t_q as int),
            old(low_buf)@.len() >= imath::smin(row_end as int, 233) * 233,
        ensures
            final(low_buf)@ == lit(
                old(low_buf)@,
                self.config,
                self.t_q as int,
                imath::smin(row_start as int, 233),
                imath::smin(row_end as int, 233),
            ),
    {
        let rs: usize = if row_start < 233 { row_start } else { 233 };
        let re: usize = if row_end < 233 { row_end } else { 233 };
        let n: usize = low_buf.len();
        let ghost low0 = low_buf@;
        let ghost t = self.t_q as int;
        let ghost target = lit(low0, self.config, t, rs as int, re as int);
        let mut ly: usize = rs;
        while ly < re
            invariant
                t == self.t_q,
                rays_ok(self.config, t),
                rs <= ly,
                ly <= re || ly == rs,
                re <= 233,
                n == low_buf@.len(),
                n == low0.len(),
                n >= re * 233,
                target == lit(low0, self.config, t, rs as int, re as int),
                forall|k: int| 0 <= k < ly * 233 && k < n ==> low_buf@[k] == target[k],
                forall|k: int| ly * 233 <= k < n ==> low_buf@[k] == low0[k],
            decreases re - ly,
        {
            let mut lx: usize = 0;
            while lx < 233
                invariant
                    t == self.t_q,
                    rays_ok(self.config, t),
                    rs <= ly < re,
                    lx <= 233,
                    re <= 233,
                    n == low_buf@.len(),
                    n == low0.len(),
                    n >= re * 233,
                    target == lit(low0, self.config, t, rs as int, re as int),
                    forall|k: int| 0 <= k < ly * 233 + lx ==> low_buf@[k] == target[k],
                    forall|k: int| ly * 233 + lx <= k < n ==> low_buf@[k] == low0[k],
                decreases 233 - lx,
            {
                let i: usize = ly * 233 + lx;
                low_buf[i] = eval_pixel(lx, ly, &self.config, self.t_q);
                assert(i as int % 233 == lx && i as int / 233 == ly);
                lx = lx + 1;
            }
            ly = ly + 1;
        }
        assert(low_buf@ =~= target);
    }

    /// Draw the whole image.
    pub fn eval_pass(&self, low_buf: &mut [u16])
        requires
            self.wf(),
            rays_ok(self.config, self.t_q as int),
            old(low_buf)@.len() >= 54_289,
        ensures
            final(low_buf)@ == lit(old(low_buf)@, self.config, self.t_q as int, 0, 233),
    {
        self.eval_rows(low_buf, 0, self.low_h as usize);
    }

    /// Enlarge an image into rows `row_start` to before `row_end` of the panel.
    pub fn upscale_rows(&self, low: &[u16], out: &mut [u8], row_start: usize, row_end: usize)
        requires
            self.wf(),
            low@.len() >= 54_289,
            old(out)@.len() >= imath::smin(row_end as int, self.out_h as int) * self.out_w * 2,
        ensures
            final(out)@ == upscale::upscaled_rows(
                old(out)@,
                low@,
                233,
                self.ux@,
                self.uy@,
                self.out_w as int,
                self.out_h as int,
                row_start as int,
                row_end as int,
            ),
    {
        upscale::upscale_clipped(
            low,
            self.low_w as usize,
            self.low_h as usize,
            &self.ux,
            &self.uy,
            self.out_w as usize,
            self.out_h as usize,
            out,
            row_start,
            row_end,
        );
    }
}

/// Outside every beam the image shows its dark ground.
pub proof fn lemma_dark_ground(lx: int, ly: int, cfg: LightRaysConfig, t: int)
    requires
        cfg.num_rays >= 2,
        forall|r: int|
            0 <= r < cfg.num_rays ==> imath::sabs(unit(lx) - #[trigger] ray_x(r, cfg.num_rays as int, t))
                >= cfg.beam_w_q,
    ensures
        rays_px(lx, ly, cfg, t) == 0x0861,
{
    reveal(rays_px);
    let n = cfg.num_rays as int;
    lemma_no_light(unit(lx), unit(ly), n, n, cfg.beam_w_q as int, t);
    assert(0int / n == 0) by (nonlinear_arith)
        requires
            n >= 2,
    ;
}

proof fn lemma_no_light(x: int, y: int, k: int, n: int, beam: int, t: int)
    requires
        forall|r: int| 0 <= r < n ==> imath::sabs(x - #[trigger] ray_x(r, n, t)) >= beam,
        0 <= k <= n,
    ensures
        light_sum(x, y, k, n, beam, t) == 0,
    decreases k,
{
    if k > 0 {
        lemma_no_light(x, y, k - 1, n, beam, t);
        assert(imath::sabs(x - ray_x(k - 1, n, t)) >= beam);
    }
}

/// Angle of the direction `(x, y)` with half a turn as 16384, linear within each octant;
/// negative below the axis.
pub open spec fn direction(y: int, x: int) -> int {
    if x == 0 && y == 0 {
        0
    } else {
        let (ax, ay) = (imath::sabs(x), imath::sabs(y));
        let a = if ax > ay { ay * 4096 / (ax + ay) } else { 8192 - ax * 4096 / (ay + ax) };
        let b = if x < 0 { 16_384 - a } else { a };
        if y < 0 { -b } else { b }
    }
}

pub fn atan2_q14(y: i32, x: i32) -> (r: i32)
    requires
        -0x7_ffff <= x <= 0x7_ffff,
        -0x7_ffff <= y <= 0x7_ffff,
    ensures
        r == direction(y as int, x as int),
{
    if x == 0 && y == 0 {
        return 0;
    }
    let ay: i32 = imath::iabs(y);
    let ax: i32 = imath::iabs(x);
    proof {
        let s = ax + ay;
        assert(0 <= ay * 4096 / s <= 4096 && 0 <= ax * 4096 / s <= 4096) by (nonlinear_arith)
            requires
                s == ax + ay,
                s > 0,
                ax >= 0,
                ay >= 0,
        ;
    }
    let mut a: i32 = if ax > ay {
        ay * 4096 / (ax + ay)
    } else {
        8192 - ax * 4096 / (ay + ax)
    };
    if x < 0 {
        a = 16_384 - a;
    }
    if y < 0 {
        a = -a;
    }
    a
}

/// Mirrored across the axis the angle changes its sign.
pub proof fn lemma_direction_mirror(y: int, x: int)
    requires
        y != 0,
    ensures
        direction(-y, x) == -direction(y, x),
{
}

} // verus!
