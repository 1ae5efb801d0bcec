//! Laws of the shaders and of their enlargement: ends, order and symmetry of the curves they
//! are made of.
use vstd::prelude::*;

use crate::baker;
use crate::cloud;
use crate::gradient;
use crate::imath;
use crate::light_rays;
use crate::raidal;
use crate::trig;
use crate::upscale;

verus! {

/// The sine table: from 0 up to one in a quarter turn, back down mirrored, and the same below
/// the axis.
pub proof fn lemma_sine_table(i: int, j: int)
    requires
        0 <= i < 256,
        0 <= j < 128,
    ensures
        trig::sin_entry(i + 256) == -trig::sin_entry(i),
        trig::sin_entry(128 + j) == trig::sin_entry(128 - j),
        trig::sin_entry(j) < trig::sin_entry(j + 1),
        trig::sin_entry(0) == 0,
        trig::sin_entry(128) == 16_384,
{
    reveal(trig::sin_entry);
}

/// Half a turn on, the sine has the other sign; a whole turn on, it is the same.
pub proof fn lemma_sine_turns(phase: int)
    ensures
        raidal::sine(phase + 103_246) == raidal::sine(phase),
        raidal::sine(phase + 51_623) == -raidal::sine(phase),
        raidal::cosine(phase + 103_246) == raidal::cosine(phase),
{
    let m = phase % 103_246;
    assert((phase + 103_246) % 103_246 == m);
    assert((phase + 25_736 + 103_246) % 103_246 == (phase + 25_736) % 103_246);
    if m < 51_623 {
        assert((phase + 51_623) % 103_246 == m + 51_623);
        assert((m + 51_623) * 512 / 103_246 == m * 512 / 103_246 + 256);
        lemma_sine_table(m * 512 / 103_246, 0);
    } else {
        assert((phase + 51_623) % 103_246 == m - 51_623);
        assert((m - 51_623) * 512 / 103_246 == m * 512 / 103_246 - 256);
        lemma_sine_table(m * 512 / 103_246 - 256, 0);
    }
}

/// Enlarging keeps the samples: at the end of each weight stands its own sample.
pub proof fn lemma_blend_corners(a: u16, b: u16, c: u16, d: u16)
    ensures
        upscale::blended(a, b, c, d, 0, 0) == a,
        upscale::blended(a, b, c, d, 255, 0) == b,
        upscale::blended(a, b, c, d, 0, 255) == c,
        upscale::blended(a, b, c, d, 255, 255) == d,
{
    lemma_channels_of(a);
    lemma_channels_of(b);
    lemma_channels_of(c);
    lemma_channels_of(d);
}

proof fn lemma_channels_of(a: u16)
    ensures
        upscale::red_of(a) * 2048 + upscale::green_of(a) * 32 + upscale::blue_of(a) == a,
{
}

/// Enlarging is the same from either side: mirrored samples with mirrored weights.
pub proof fn lemma_blend_mirrors(a: u16, b: u16, c: u16, d: u16, wx: int, wy: int)
    requires
        0 <= wx <= 255,
        0 <= wy <= 255,
    ensures
        upscale::blended(a, b, c, d, wx, wy) == upscale::blended(b, a, d, c, 255 - wx, wy),
        upscale::blended(a, b, c, d, wx, wy) == upscale::blended(c, d, a, b, wx, 255 - wy),
        upscale::blended(a, b, c, d, wx, wy) == upscale::blended(a, c, b, d, wy, wx),
{
    let (u, v) = (255 - wx, 255 - wy);
    assert(255 - u == wx && 255 - v == wy);
    assert(wx * wy == wy * wx && u * v == v * u && u * wy == wy * u && wx * v == v * wx) by (nonlinear_arith);
}

/// No blend is brighter than its brightest sample.
pub proof fn lemma_blend_bounded(c00: int, c10: int, c01: int, c11: int, wx: int, wy: int, m: int)
    requires
        0 <= wx <= 255,
        0 <= wy <= 255,
        0 <= c00 <= m,
        0 <= c10 <= m,
        0 <= c01 <= m,
        0 <= c11 <= m,
    ensures
        ({
            let w00 = (255 - wx) * (255 - wy) / 255;
            let w10 = wx * (255 - wy) / 255;
            let w01 = (255 - wx) * wy / 255;
            let w11 = wx * wy / 255;
            0 <= upscale::blend_channel(c00, c10, c01, c11, w00, w10, w01, w11) <= m
        }),
{
    let (p, q, r, s) = ((255 - wx) * (255 - wy), wx * (255 - wy), (255 - wx) * wy, wx * wy);
    assert(p >= 0 && q >= 0 && r >= 0 && s >= 0 && p + q + r + s == 65_025) by (nonlinear_arith)
        requires
            p == (255 - wx) * (255 - wy),
            q == wx * (255 - wy),
            r == (255 - wx) * wy,
            s == wx * wy,
            0 <= wx <= 255,
            0 <= wy <= 255,
    ;
    let (a, b, c, d) = (p / 255, q / 255, r / 255, s / 255);
    assert(a + b + c + d <= 255);
    assert(0 <= c00 * a <= m * a && 0 <= c10 * b <= m * b && 0 <= c01 * c <= m * c && 0 <= c11 * d <= m * d)
        by (nonlinear_arith)
        requires
            0 <= c00 <= m,
            0 <= c10 <= m,
            0 <= c01 <= m,
            0 <= c11 <= m,
            a >= 0,
            b >= 0,
            c >= 0,
            d >= 0,
    ;
    assert(m * a + m * b + m * c + m * d <= m * 255) by (nonlinear_arith)
        requires
            a + b + c + d <= 255,
            m >= 0,
    ;
}

/// The ramp step: none up to the first edge, all from the second on.
pub proof fn lemma_step_ends(e0: int, e1: int, x: int)
    requires
        e0 < e1,
    ensures
        x <= e0 ==> raidal::step_q14(e0, e1, x) == 0,
        x >= e1 ==> raidal::step_q14(e0, e1, x) == 16_384,
{
    lemma_progress(x - e0, e1 - e0);
    let t = imath::sclamp(imath::tdiv((x - e0) * 16_384, e1 - e0), 0, 16_384);
    assert(t == 0 ==> t * t == 0 && t * t / 16_384 * (49_152 - 2 * t) == 0);
    assert(t == 16_384 ==> t * t == 268_435_456 && t * t / 16_384 * (49_152 - 2 * t) == 268_435_456);
}

proof fn lemma_progress(n: int, d: int)
    requires
        d >= 1,
    ensures
        n <= 0 ==> imath::tdiv(n * 16_384, d) <= 0,
        n >= d ==> imath::tdiv(n * 16_384, d) >= 16_384,
{
    if n >= d {
        assert(n * 16_384 / d >= 16_384) by (nonlinear_arith)
            requires
                n >= d,
                d >= 1,
        ;
    } else if n <= 0 {
        assert((-(n * 16_384)) / d >= 0) by (nonlinear_arith)
            requires
                n <= 0,
                d >= 1,
        ;
    }
}

/// Saturation is odd, keeps zero and is flat beyond 3.5.
pub proof fn lemma_saturation(x: int)
    ensures
        raidal::tanh_q14(-x) == -raidal::tanh_q14(x),
        raidal::tanh_q14(0) == 0,
        x > 57_344 ==> raidal::tanh_q14(x) == 16_384,
{
    assert((-x) * (-x) == x * x) by (nonlinear_arith);
    let d = 442_368 + x * x / 16_384;
    assert(x * x >= 0) by (nonlinear_arith);
    assert((-x) * d == -(x * d)) by (nonlinear_arith);
    let e = 442_368 + 9 * (x * x / 16_384);
    assert(0int * 442_368 == 0);
}

/// A fixed-point colour keeps the order of each channel.
pub proof fn lemma_packing(r: int, g: int, b: int)
    ensures
        ({
            let w = raidal::rgb565_of(r, g, b);
            &&& 0 <= w <= 65_535
            &&& w / 2048 == imath::sclamp(r, 0, 16_384) * 31 / 16_384
            &&& w / 32 % 64 == imath::sclamp(g, 0, 16_384) * 63 / 16_384
            &&& w % 32 == imath::sclamp(b, 0, 16_384) * 31 / 16_384
        }),
{
    let (x, y, z) = (
        imath::sclamp(r, 0, 16_384) * 31 / 16_384,
        imath::sclamp(g, 0, 16_384) * 63 / 16_384,
        imath::sclamp(b, 0, 16_384) * 31 / 16_384,
    );
    assert(0 <= x <= 31 && 0 <= y <= 63 && 0 <= z <= 31);
    let w = x * 2048 + y * 32 + z;
    assert(w / 2048 == x && w / 32 == x * 64 + y && w % 32 == z);
    assert((x * 64 + y) % 64 == y);
}

/// The vignette depends on the distance only: full at the centre, darker outwards, never under
/// its floor.
pub proof fn lemma_vignette(x: int, y: int, u: int, v: int)
    requires
        x * x + y * y <= u * u + v * v,
    ensures
        7500 <= gradient::vignette(u, v) <= gradient::vignette(x, y) <= 16_384,
        gradient::vignette(0, 0) == 16_384,
{
    let (d, e) = ((x * x + y * y) / 1024, (u * u + v * v) / 1024);
    assert(x * x + y * y >= 0) by (nonlinear_arith);
    assert(0 <= d <= e);
    lemma_roots(d, e);
    imath::lemma_sqrt_of(0, 0);
    assert(0int * 0 + 0int * 0 == 0);
}

proof fn lemma_roots(a: int, b: int)
    requires
        0 <= a <= b,
    ensures
        0 <= imath::sqrt_of(a) <= imath::sqrt_of(b),
{
    imath::lemma_sqrt_exists(a);
    imath::lemma_sqrt_exists(b);
    let (r, s) = (imath::sqrt_of(a), imath::sqrt_of(b));
    assert(r <= s) by (nonlinear_arith)
        requires
            r * r <= a,
            a <= b,
            b < (s + 1) * (s + 1),
            r >= 0,
            s >= 0,
    ;
}

/// A channel of the gradient goes from its navy to its purple value along the ramp, undimmed
/// by the vignette at the centre, and no vignette brightens it.
pub proof fn lemma_gradient_channel(a: int, b: int, p: int, vig: int)
    requires
        0 <= a <= b,
        0 <= p <= 16_384,
        0 <= vig <= 16_384,
    ensures
        gradient::channel(a, b, 0, 16_384) == a * 15_200 / 16_384,
        gradient::channel(a, b, 16_384, 16_384) == b * 15_200 / 16_384,
        gradient::channel(a, b, 0, 16_384) <= gradient::channel(a, b, p, 16_384) <= gradient::channel(
            a,
            b,
            16_384,
            16_384,
        ),
        gradient::channel(a, b, p, vig) <= gradient::channel(a, b, p, 16_384),
{
    let d = b - a;
    assert(0 <= d * p <= d * 16_384) by (nonlinear_arith)
        requires
            0 <= d,
            0 <= p <= 16_384,
    ;
    let c = a + d * p / 16_384;
    assert(a <= c <= b);
    assert(c * vig <= c * 16_384) by (nonlinear_arith)
        requires
            c >= 0,
            vig <= 16_384,
    ;
    assert(c * vig / 16_384 <= c);
}

/// Without height the waves add nothing.
pub proof fn lemma_flat_waves(x: int, y: int, t: i32, cfg: gradient::GradientConfig)
    requires
        cfg.amp_q == 0,
    ensures
        gradient::place(x, y, t, cfg) == gradient::ramp(x, y, t, cfg.sweep_q),
{
    let perp = imath::tdiv(x - y, 2);
    let ph = gradient::sweep_phase(t, cfg.sweep_q);
    let w = raidal::sine(perp + ph / 2) + raidal::sine(perp / 2 + ph / 8) / 2;
    assert(w * 0 == 0);
}

/// A ray is brightest on its line: less to either side, the same on both, none from the edge
/// of the beam on.
pub proof fn lemma_ray_profile(y: int, r: int, n: int, beam: int, t: int, d: int, e: int)
    requires
        0 <= d <= e,
        beam >= 1,
        0 <= y <= 16_384,
        light_rays::pulse(r, t) >= 0,
    ensures
        ({
            let x = light_rays::ray_x(r, n, t);
            &&& light_rays::ray_light(x + d, y, r, n, beam, t) == light_rays::ray_light(x - d, y, r, n, beam, t)
            &&& light_rays::ray_light(x + d, y, r, n, beam, t) >= light_rays::ray_light(x + e, y, r, n, beam, t) >= 0
            &&& d >= beam ==> light_rays::ray_light(x + d, y, r, n, beam, t) == 0
        }),
{
    let f = light_rays::depth_fade(y);
    let p = light_rays::pulse(r, t);
    assert(0 <= f);
    if e < beam {
        let (a, b) = (16_384 - d * 16_384 / beam, 16_384 - e * 16_384 / beam);
        assert(d * 16_384 / beam <= e * 16_384 / beam && e * 16_384 / beam <= 16_384) by (nonlinear_arith)
            requires
                0 <= d <= e < beam,
        ;
        lemma_light(a, b, f, p);
    } else if d < beam {
        let a = 16_384 - d * 16_384 / beam;
        assert(d * 16_384 / beam <= 16_384) by (nonlinear_arith)
            requires
                0 <= d < beam,
        ;
        lemma_light(a, 0, f, p);
    }
}

proof fn lemma_light(a: int, b: int, f: int, p: int)
    requires
        0 <= b <= a,
        0 <= f,
        0 <= p,
    ensures
        imath::tdiv((a * f / 16_384) * p, 16_384) >= imath::tdiv((b * f / 16_384) * p, 16_384) >= 0,
{
    assert(0 <= b * f <= a * f) by (nonlinear_arith)
        requires
            0 <= b <= a,
            0 <= f,
    ;
    let (u, v) = (a * f / 16_384, b * f / 16_384);
    assert(0 <= v * p <= u * p) by (nonlinear_arith)
        requires
            0 <= v <= u,
            0 <= p,
    ;
}

/// A ray fades downwards, to about a third at the bottom.
pub proof fn lemma_ray_fades(y: int, z: int)
    requires
        0 <= y <= z <= 16_384,
    ensures
        light_rays::depth_fade(0) == 16_384,
        light_rays::depth_fade(z) <= light_rays::depth_fade(y),
        light_rays::depth_fade(16_384) == 5384,
{
}

/// Where one ray alone reaches, the light is its own.
pub proof fn lemma_single_ray(x: int, y: int, k: int, n: int, beam: int, t: int, i: int)
    requires
        0 <= k <= n,
        0 <= i < n,
        forall|r: int| 0 <= r < k && r != i ==> #[trigger] light_rays::ray_light(x, y, r, n, beam, t) == 0,
    ensures
        light_rays::light_sum(x, y, k, n, beam, t) == (if i < k {
            light_rays::ray_light(x, y, i, n, beam, t)
        } else {
            0
        }),
    decreases k,
{
    if k > 0 {
        lemma_single_ray(x, y, k - 1, n, beam, t, i);
    }
}

/// Rays leave the top edge in order, evenly spread.
pub proof fn lemma_rays_spread(r: int, n: int)
    requires
        0 <= r,
        r + 1 < n,
    ensures
        light_rays::source(r, n) <= light_rays::source(r + 1, n),
        (light_rays::source(r, n) - 4096) * (n - 1) <= r * 8192 < (light_rays::source(r, n) - 4095) * (n - 1),
{
    let m = n - 1;
    let q = r * 8192 / m;
    assert(q * m <= r * 8192 && r * 8192 < (q + 1) * m) by (nonlinear_arith)
        requires
            q == r * 8192 / m,
            m >= 1,
    ;
    assert(r * 8192 / m <= (r + 1) * 8192 / m) by (nonlinear_arith)
        requires
            m >= 1,
    ;
}

/// More light is a lighter grey over the dark ground.
pub proof fn lemma_grey(a: int, b: int)
    requires
        0 <= a <= b <= 16_384,
    ensures
        800 == light_rays::grey(0),
        light_rays::grey(a) <= light_rays::grey(b) <= 16_384,
{
}

/// The clouds' coordinates: minus one at the first pixel, mirrored about the middle, below one
/// at the last, and rising.
pub proof fn lemma_unit_coord(c: int, size: int)
    requires
        size >= 1,
        0 <= c < size,
    ensures
        cloud::unit_coord(0, size) == -16_384,
        cloud::unit_coord(size - c, size) == -cloud::unit_coord(c, size),
        -16_384 <= cloud::unit_coord(c, size) < 16_384,
{
    reveal(cloud::unit_coord);
    let n = 2 * c - size;
    let (w, m) = ((2 * c - size) * 16_384, (2 * (size - c) - size) * 16_384);
    assert(m == -w);
    let z = (2 * 0 - size) * 16_384;
    assert(-z == size * 16_384);
    assert(size * 16_384 / size == 16_384) by (nonlinear_arith)
        requires
            size >= 1,
    ;
    assert(0int / size == 0) by (nonlinear_arith)
        requires
            size >= 1,
    ;
    if n >= 0 {
        assert(0 <= w / size && w / size < 16_384) by (nonlinear_arith)
            requires
                0 <= w,
                w < size * 16_384,
                size >= 1,
        ;
        assert(-m == w);
    } else {
        assert(0 <= m / size && m / size <= 16_384) by (nonlinear_arith)
            requires
                0 <= m,
                m <= size * 16_384,
                size >= 1,
        ;
        assert(-w == m);
    }
}

/// Each round of the clouds' feedback moves by at most one.
pub proof fn lemma_feedback_moves(n: int, u: int, v: int, t: int)
    requires
        n >= 0,
    ensures
        ({
            let (f, g) = (cloud::feedback(n, u, v, t), cloud::feedback(n + 1, u, v, t));
            -16_384 <= g.a - f.a <= 16_384 && -16_384 <= g.d - f.d <= 16_384
        }),
        cloud::feedback(0, u, v, t).a == 0 && cloud::feedback(0, u, v, t).d == 0,
{
    let f = cloud::feedback(n, u, v, t);
    raidal::lemma_sine_range(n * 16_384 - f.d + imath::tdiv(t, 2) - cloud::times(f.a, u) + 25_736);
    raidal::lemma_sine_range(cloud::times(n * 16_384, v) + f.a);
}

/// The difference of two frames: the same either way, nothing only between equal frames.
pub proof fn lemma_seam(a: Seq<u8>, b: Seq<u8>, n: int)
    requires
        0 <= n <= a.len(),
        n <= b.len(),
    ensures
        baker::diff_sum(a, b, n) == baker::diff_sum(b, a, n),
        baker::diff_sum(a, b, n) >= 0,
        baker::diff_sum(a, b, n) == 0 <==> forall|i: int| 0 <= i < n ==> a[i] == #[trigger] b[i],
    decreases n,
{
    if n > 0 {
        lemma_seam(a, b, n - 1);
        let d = a[n - 1] - b[n - 1];
        let e = b[n - 1] - a[n - 1];
        assert(d * d == e * e && d * d >= 0 && (d * d == 0 <==> d == 0)) by (nonlinear_arith)
            requires
                e == -d,
        ;
        if baker::diff_sum(a, b, n) == 0 {
            assert forall|i: int| 0 <= i < n implies a[i] == #[trigger] b[i] by {
                if i == n - 1 {
                    assert(d == 0);
                }
            }
        }
        if forall|i: int| 0 <= i < n ==> a[i] == #[trigger] b[i] {
            assert(a[n - 1] == b[n - 1]);
        }
    }
}

/// An enlarged pixel that falls on a sample of the small picture is that sample, in either
/// neighbour of either direction.
pub proof fn lemma_sample_is_kept(
    low: Seq<u16>,
    lw: int,
    ux: Seq<upscale::UpSample1D>,
    uy: Seq<upscale::UpSample1D>,
    ox: int,
    oy: int,
)
    ensures
        ({
            let (h, v) = (ux[ox], uy[oy]);
            let q = upscale::upscaled_px(low, lw, ux, uy, ox, oy);
            &&& h.w1 == 0 && v.w1 == 0 ==> q == low[v.i0 * lw + h.i0]
            &&& h.w1 == 255 && v.w1 == 0 ==> q == low[v.i0 * lw + h.i1]
            &&& h.w1 == 0 && v.w1 == 255 ==> q == low[v.i1 * lw + h.i0]
            &&& h.w1 == 255 && v.w1 == 255 ==> q == low[v.i1 * lw + h.i1]
        }),
{
    let (h, v) = (ux[ox], uy[oy]);
    lemma_blend_corners(
        low[v.i0 * lw + h.i0],
        low[v.i0 * lw + h.i1],
        low[v.i1 * lw + h.i0],
        low[v.i1 * lw + h.i1],
    );
}

/// The tone of an aurora layer: an offset of no angle leaves the layer's own sine, a quarter
/// turn gives its cosine, and angle and offset can change places.
pub proof fn lemma_tone(s: int, c: int, sd: int, cd: int)
    ensures
        raidal::tone(s, c, 0, 16_384) == 19_661 + s,
        raidal::tone(s, c, 16_384, 0) == 19_661 + c,
        raidal::tone(s, c, sd, cd) == raidal::tone(sd, cd, s, c),
{
    assert(s * 0 == 0 && c * 0 == 0);
    assert(s * cd == cd * s && c * sd == sd * c) by (nonlinear_arith);
}

/// A layer that has fallen off at a pixel adds nothing to it.
pub proof fn lemma_faded_layer(o: raidal::Glow, pack: Seq<i32>, lw: int, lx: int, t: raidal::LayerTables, l: int)
    requires
        pack[lw + l * lw + lx] == 0,
    ensures
        raidal::with_layer(o, pack, lw, lx, t, l) == o,
{
    let a = pack[lx] + t.frame_cos[l] + raidal::layer_phase(l);
    let m = raidal::step_q14(t.frame_cos[l] as int, 32_768, raidal::sine(a + 25_736));
    assert(pack[lw + l * lw + lx] * m == 0) by (nonlinear_arith)
        requires
            pack[lw + l * lw + lx] == 0,
    ;
    assert(forall|v: int| #![trigger (0 * v)] 0 * v == 0);
}

/// The swell of the gradient is a wave and a second one of half its height, half its length
/// across and a quarter of its pace, scaled by the amplitude; along the diagonal it is level.
pub proof fn lemma_swell(x: int, y: int, k: int, t: i32, cfg: gradient::GradientConfig)
    ensures
        ({
            let across = imath::tdiv(x - y, 2);
            let ph = gradient::sweep_phase(t, cfg.sweep_q);
            let (a, b) = (raidal::sine(across + ph / 2), raidal::sine(across / 2 + ph / 8));
            let s = gradient::waves(x, y, t, cfg);
            &&& gradient::waves(x + k, y + k, t, cfg) == s
            &&& cfg.amp_q == 16_384 ==> 2 * s <= 2 * a + b < 2 * s + 2
        }),
{
    let across = imath::tdiv(x - y, 2);
    let ph = gradient::sweep_phase(t, cfg.sweep_q);
    let v = raidal::sine(across + ph / 2) + raidal::sine(across / 2 + ph / 8) / 2;
    if cfg.amp_q == 16_384 {
        assert(v * cfg.amp_q == 16_384 * v) by (nonlinear_arith)
            requires
                cfg.amp_q == 16_384,
        ;
    }
    assert((x + k) - (y + k) == x - y);
}

/// The seam of a loop lies between its last frame and its first: the frames between do not
/// matter, and the last frame is held against the first.
pub proof fn lemma_loop_closes(fr: Seq<Seq<u8>>, off: int, p: int, i: int, g: Seq<u8>)
    requires
        0 <= off,
        p >= 2,
        off + p <= fr.len(),
        off < i < off + p,
    ensures
        i < off + p - 1 ==> baker::loop_seam(fr.update(i, g), off, p) == baker::loop_seam(fr, off, p),
        i == off + p - 1 ==> baker::loop_seam(fr.update(i, g), off, p) == baker::seam(g, fr[off]),
        i == off + p - 1 && g == fr[off] ==> baker::loop_seam(fr.update(i, g), off, p) == 0,
{
    lemma_seam(fr[off], fr[off], fr[off].len() as int);
}

} // verus!
