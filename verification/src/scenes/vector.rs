//! Procedural shapes: discs, glows and ring arcs swept clockwise from 12 o'clock. Arcs set
//! their pixels and glows keep the per-channel maximum, so drawing a shape twice is the
//! same as drawing it once.
use vstd::prelude::*;

use crate::imath;
use crate::pixel;
use crate::raster;

verus! {

/// An 8-bit colour.
pub type Tint = (i32, i32, i32);

pub open spec fn tint_ok(t: Tint) -> bool {
    0 <= t.0 <= 255 && 0 <= t.1 <= 255 && 0 <= t.2 <= 255
}

/// The tint at intensity `v`, held to 0..=255.
pub open spec fn lit(t: Tint, v: int) -> (u8, u8) {
    let c = imath::sclamp(v, 0, 255);
    pixel::rgb888(t.0 * c / 255, t.1 * c / 255, t.2 * c / 255)
}

fn scaled_channel(t: i32, v: i32) -> (r: i32)
    requires
        0 <= t <= 255,
        0 <= v <= 255,
    ensures
        r == t * v / 255,
        0 <= r <= 255,
{
    proof {
        assert(0 <= t * v <= 255 * 255) by (nonlinear_arith)
            requires
                0 <= t <= 255,
                0 <= v <= 255,
        ;
    }
    t * v / 255
}

pub(crate) fn lit_px(t: Tint, v: i32) -> (p: (u8, u8))
    requires
        tint_ok(t),
    ensures
        p == lit(t, v as int),
{
    let c: i32 = imath::iclamp(v, 0, 255);
    pixel::pack888(scaled_channel(t.0, c), scaled_channel(t.1, c), scaled_channel(t.2, c))
}

/// No intensity is black.
pub proof fn lemma_unlit(t: Tint, v: int)
    requires
        v <= 0,
    ensures
        lit(t, v) == (0u8, 0u8),
{
    assert(t.0 * 0 == 0 && t.1 * 0 == 0 && t.2 * 0 == 0);
    reveal(pixel::rgb);
}

/// The tint laid over `p` at coverage `v`, held to 0..=255.
pub open spec fn laid(p: (u8, u8), t: Tint, v: int) -> (u8, u8) {
    pixel::over(p, t.0 * 31 / 255, t.1 * 63 / 255, t.2 * 31 / 255, imath::sclamp(v, 0, 255))
}

pub(crate) fn lay(p: (u8, u8), t: Tint, v: i32) -> (q: (u8, u8))
    requires
        tint_ok(t),
    ensures
        q == laid(p, t, v as int),
{
    pixel::lay_over(p, t.0 * 31 / 255, t.1 * 63 / 255, t.2 * 31 / 255, imath::iclamp(v, 0, 255))
}

/// Squared distance.
pub open spec fn dist2(dx: int, dy: int) -> int {
    dx * dx + dy * dy
}

fn dist2_at(dx: i32, dy: i32) -> (r: i32)
    requires
        -1000 <= dx <= 1000,
        -1000 <= dy <= 1000,
    ensures
        r == dist2(dx as int, dy as int),
        0 <= r <= 2_000_000,
{
    proof {
        assert(0 <= dx * dx <= 1_000_000) by (nonlinear_arith)
            requires
                -1000 <= dx <= 1000,
        ;
        assert(0 <= dy * dy <= 1_000_000) by (nonlinear_arith)
            requires
                -1000 <= dy <= 1000,
        ;
    }
    dx * dx + dy * dy
}

/// Strength of a disc of radius `r` at squared distance `d2`: full inside, half on the last
/// pixel.
pub open spec fn disc_level(d2: int, r: int, v: int) -> int {
    if d2 <= (r - 1) * (r - 1) { v } else { v / 2 }
}

/// A filled disc laid over the canvas.
pub open spec fn disc_shader(cx: int, cy: int, r: int, t: Tint, v: int) -> raster::Shader {
    |x: int, y: int, p: (u8, u8)|
        if dist2(x - cx, y - cy) > r * r {
            p
        } else {
            laid(p, t, disc_level(dist2(x - cx, y - cy), r, v))
        }
}

pub open spec fn disc_on(fb: Seq<u8>, cx: int, cy: int, r: int, t: Tint, v: int) -> Seq<u8> {
    raster::shade(fb, cx - r, cy - r, cx + r + 1, cy + r + 1, disc_shader(cx, cy, r, t, v))
}

/// Draw a filled disc with a softened edge, source-over.
pub fn disc(fb: &mut [u8], cx: i32, cy: i32, r: i32, tint: Tint, vmax: i32)
    requires
        tint_ok(tint),
        0 <= r <= 500,
        -0x1000_0000 <= cx <= 0x1000_0000,
        -0x1000_0000 <= cy <= 0x1000_0000,
        0 <= vmax,
    ensures
        final(fb)@ == disc_on(old(fb)@, cx as int, cy as int, r as int, tint, vmax as int),
        final(fb)@.len() == old(fb)@.len(),
{
    let ghost sh = disc_shader(cx as int, cy as int, r as int, tint, vmax as int);
    let f = |x: i32, y: i32, p: (u8, u8)| -> (q: (u8, u8))
        requires
            cx - r <= x <= cx + r,
            cy - r <= y <= cy + r,
        ensures
            q == sh(x as int, y as int, p),
        {
            let d2: i32 = dist2_at(x - cx, y - cy);
            let (a, b) = radii2(r);
            if d2 > a {
                p
            } else {
                lay(p, tint, if d2 <= b { vmax } else { vmax / 2 })
            }
        };
    raster::paint(fb, cx - r, cy - r, cx + r + 1, cy + r + 1, f, Ghost(sh));
}

fn radii2(r: i32) -> (p: (i32, i32))
    requires
        -1000 <= r <= 1000,
    ensures
        p.0 == r * r,
        p.1 == (r - 1) * (r - 1),
        0 <= p.0 <= 1_000_000,
{
    proof {
        assert(0 <= r * r <= 1_000_000) by (nonlinear_arith)
            requires
                -1000 <= r <= 1000,
        ;
        assert(0 <= (r - 1) * (r - 1) <= 1_010_000) by (nonlinear_arith)
            requires
                -1000 <= r <= 1000,
        ;
    }
    (r * r, (r - 1) * (r - 1))
}

/// A filled disc merged by per-channel maximum.
pub open spec fn cap_shader(cx: int, cy: int, r: int, t: Tint, v: int) -> raster::Shader {
    |x: int, y: int, p: (u8, u8)|
        if dist2(x - cx, y - cy) > r * r {
            p
        } else {
            pixel::lighter(p, lit(t, disc_level(dist2(x - cx, y - cy), r, v)))
        }
}

pub open spec fn cap_on(fb: Seq<u8>, cx: int, cy: int, r: int, t: Tint, v: int) -> Seq<u8> {
    raster::shade(fb, cx - r, cy - r, cx + r + 1, cy + r + 1, cap_shader(cx, cy, r, t, v))
}

/// Draw a rounded stroke cap.
pub fn cap_dot(fb: &mut [u8], cx: i32, cy: i32, r: i32, tint: Tint, v: i32)
    requires
        tint_ok(tint),
        0 <= r <= 500,
        -0x1000_0000 <= cx <= 0x1000_0000,
        -0x1000_0000 <= cy <= 0x1000_0000,
        0 <= v,
    ensures
        final(fb)@ == cap_on(old(fb)@, cx as int, cy as int, r as int, tint, v as int),
        final(fb)@.len() == old(fb)@.len(),
{
    let ghost sh = cap_shader(cx as int, cy as int, r as int, tint, v as int);
    let f = |x: i32, y: i32, p: (u8, u8)| -> (q: (u8, u8))
        requires
            cx - r <= x <= cx + r,
            cy - r <= y <= cy + r,
        ensures
            q == sh(x as int, y as int, p),
        {
            let d2: i32 = dist2_at(x - cx, y - cy);
            let (a, b) = radii2(r);
            if d2 > a {
                p
            } else {
                pixel::lighten(p, lit_px(tint, if d2 <= b { v } else { v / 2 }))
            }
        };
    raster::paint(fb, cx - r, cy - r, cx + r + 1, cy + r + 1, f, Ghost(sh));
}

/// Strength of a glow of radius `r` at squared distance `d2`: the square of a linear fall.
pub open spec fn glow_level(d2: int, r: int, peak: int) -> int {
    peak * (r * r - d2) / (r * r) * (r * r - d2) / (r * r)
}

pub open spec fn soft_shader(cx: int, cy: int, r: int, t: Tint, peak: int) -> raster::Shader {
    |x: int, y: int, p: (u8, u8)|
        if dist2(x - cx, y - cy) > r * r {
            p
        } else {
            pixel::lighter(p, lit(t, glow_level(dist2(x - cx, y - cy), r, peak)))
        }
}

/// The canvas after a soft radial glow.
pub open spec fn soft_on(fb: Seq<u8>, cx: int, cy: int, r: int, t: Tint, peak: int) -> Seq<u8> {
    raster::shade(fb, cx - r, cy - r, cx + r + 1, cy + r + 1, soft_shader(cx, cy, r, t, peak))
}

fn glow_level_at(d2: i32, r: i32, peak: i32) -> (v: i32)
    requires
        1 <= r <= 30,
        0 <= d2 <= r * r,
        0 <= peak <= 0x1_0000,
    ensures
        v == glow_level(d2 as int, r as int, peak as int),
{
    proof {
        assert(1 <= r * r <= 900) by (nonlinear_arith)
            requires
                1 <= r <= 30,
        ;
    }
    let r2: i32 = r * r;
    let k: i32 = r2 - d2;
    proof {
        assert(0 <= peak * k <= 0x1_0000 * 900) by (nonlinear_arith)
            requires
                0 <= peak <= 0x1_0000,
                0 <= k <= 900,
        ;
    }
    let a: i32 = peak * k / r2;
    proof {
        assert(0 <= a <= peak) by (nonlinear_arith)
            requires
                a == peak * k / (r2 as int),
                0 <= k <= r2,
                0 <= peak,
                r2 >= 1,
        ;
        assert(0 <= a * k <= 0x1_0000 * 900) by (nonlinear_arith)
            requires
                0 <= a <= 0x1_0000,
                0 <= k <= 900,
        ;
    }
    a * k / r2
}

/// Draw a soft radial glow.
pub fn soft_dot(fb: &mut [u8], cx: i32, cy: i32, r: i32, tint: Tint, vpeak: i32)
    requires
        tint_ok(tint),
        1 <= r <= 30,
        -0x1000_0000 <= cx <= 0x1000_0000,
        -0x1000_0000 <= cy <= 0x1000_0000,
        0 <= vpeak <= 0x1_0000,
    ensures
        final(fb)@ == soft_on(old(fb)@, cx as int, cy as int, r as int, tint, vpeak as int),
        final(fb)@.len() == old(fb)@.len(),
{
    let ghost sh = soft_shader(cx as int, cy as int, r as int, tint, vpeak as int);
    let f = |x: i32, y: i32, p: (u8, u8)| -> (q: (u8, u8))
        requires
            cx - r <= x <= cx + r,
            cy - r <= y <= cy + r,
        ensures
            q == sh(x as int, y as int, p),
        {
            let d2: i32 = dist2_at(x - cx, y - cy);
            let (a, _b) = radii2(r);
            if d2 > a {
                p
            } else {
                pixel::lighten(p, lit_px(tint, glow_level_at(d2, r, vpeak)))
            }
        };
    raster::paint(fb, cx - r, cy - r, cx + r + 1, cy + r + 1, f, Ghost(sh));
}

/// Diamond angle, 0..1024 clockwise from 12 o'clock.
pub open spec fn diamond_angle(dx: int, dy: int) -> int {
    let ax = imath::sabs(dx);
    let ay = imath::sabs(dy);
    let d = imath::smax(ax + ay, 1);
    if dx >= 0 && dy < 0 {
        ax * 256 / d
    } else if dx >= 0 {
        256 + ay * 256 / d
    } else if dy >= 0 {
        512 + ax * 256 / d
    } else {
        768 + ay * 256 / d
    }
}

pub fn pseudo_angle(dx: i32, dy: i32) -> (a: i32)
    requires
        -0x10_0000 <= dx <= 0x10_0000,
        -0x10_0000 <= dy <= 0x10_0000,
    ensures
        a == diamond_angle(dx as int, dy as int),
        0 <= a <= 1023,
{
    let ax: i32 = imath::iabs(dx);
    let ay: i32 = imath::iabs(dy);
    let d: i32 = imath::imax(ax + ay, 1);
    proof {
        lemma_diamond_range(dx as int, dy as int);
    }
    if dx >= 0 && dy < 0 {
        ax * 256 / d
    } else if dx >= 0 {
        256 + ay * 256 / d
    } else if dy >= 0 {
        512 + ax * 256 / d
    } else {
        768 + ay * 256 / d
    }
}

/// Diamond angles lie in 0..1024, each quarter turn in its own 256.
pub proof fn lemma_diamond_range(dx: int, dy: int)
    ensures
        0 <= diamond_angle(dx, dy) <= 1023,
        dx >= 0 && dy < 0 ==> diamond_angle(dx, dy) < 256,
        dx >= 0 && dy >= 0 ==> 256 <= diamond_angle(dx, dy) <= 512,
        dx < 0 && dy >= 0 ==> 512 <= diamond_angle(dx, dy) <= 768,
        dx < 0 && dy < 0 ==> 768 <= diamond_angle(dx, dy),
{
    let ax = imath::sabs(dx);
    let ay = imath::sabs(dy);
    let d = imath::smax(ax + ay, 1);
    assert(0 <= ax * 256 / d <= 256 && (ay > 0 ==> ax * 256 / d < 256)) by (nonlinear_arith)
        requires
            0 <= ax,
            0 <= ay,
            d >= 1,
            d >= ax + ay,
    ;
    assert(0 <= ay * 256 / d <= 256 && (ax > 0 ==> ay * 256 / d < 256)) by (nonlinear_arith)
        requires
            0 <= ax,
            0 <= ay,
            d >= 1,
            d >= ax + ay,
    ;
}

/// Point of the diamond |x| + |y| = 256 at an angle.
pub open spec fn diamond_point(a: int) -> (int, int) {
    let m = a % 1024;
    let f = m % 256;
    if m < 256 {
        (f, f - 256)
    } else if m < 512 {
        (256 - f, f)
    } else if m < 768 {
        (-f, 256 - f)
    } else {
        (f - 256, -f)
    }
}

/// The angle of the point at an angle is that angle.
pub proof fn lemma_diamond_inverse(a: int)
    requires
        0 <= a < 1024,
    ensures
        diamond_angle(diamond_point(a).0, diamond_point(a).1) == a,
{
    let (dx, dy) = diamond_point(a);
    let d = imath::smax(imath::sabs(dx) + imath::sabs(dy), 1);
    assert(d == 256);
    assert(imath::sabs(dx) * 256 / d == imath::sabs(dx));
    assert(imath::sabs(dy) * 256 / d == imath::sabs(dy));
}

/// Unit direction, in 256ths, at an angle.
pub open spec fn direction(a: int) -> (int, int) {
    let (dx, dy) = diamond_point(a);
    let len = imath::smax(imath::sqrt_of(dist2(dx, dy)), 1);
    (imath::tdiv(dx * 256, len), imath::tdiv(dy * 256, len))
}

fn diamond_point_at(a: i32) -> (p: (i32, i32))
    requires
        0 <= a < 1024,
    ensures
        p.0 == diamond_point(a as int).0,
        p.1 == diamond_point(a as int).1,
        -256 <= p.0 <= 256,
        -256 <= p.1 <= 256,
{
    let f: i32 = a % 256;
    if a < 256 {
        (f, f - 256)
    } else if a < 512 {
        (256 - f, f)
    } else if a < 768 {
        (-f, 256 - f)
    } else {
        (f - 256, -f)
    }
}

/// Unit direction for an angle: where the tip of a sweep stands.
pub fn pseudo_dir(a: i32) -> (r: (i32, i32))
    requires
        0 <= a,
    ensures
        r.0 == direction(a as int).0,
        r.1 == direction(a as int).1,
        -65_536 <= r.0 <= 65_536,
        -65_536 <= r.1 <= 65_536,
{
    let (dx, dy) = diamond_point_at(a % 1024);
    let d2: i32 = dist2_at(dx, dy);
    let len: i32 = imath::imax(imath::isqrt(d2 as u32) as i32, 1);
    proof {
        lemma_quotient(dx * 256, len as int);
        lemma_quotient(dy * 256, len as int);
    }
    (dx * 256 / len, dy * 256 / len)
}

proof fn lemma_quotient(n: int, d: int)
    requires
        d >= 1,
    ensures
        -imath::sabs(n) <= imath::tdiv(n, d) <= imath::sabs(n),
{
    let m = imath::sabs(n);
    assert(0 <= m / d <= m) by (nonlinear_arith)
        requires
            m >= 0,
            d >= 1,
    ;
}

/// Distance from the centre in 16ths of a pixel.
pub open spec fn radius_q4(dx: int, dy: int) -> int {
    imath::sqrt_of(dist2(dx, dy) * 256)
}

/// The offset belongs to the arc: between the radii, a pixel of soft edge to either side,
/// and before the end of the sweep.
pub open spec fn in_arc(dx: int, dy: int, r_in: int, r_out: int, sweep: int) -> bool {
    let r = radius_q4(dx, dy);
    &&& 16 * r_in - 16 <= r <= 16 * r_out + 16
    &&& diamond_angle(dx, dy) < sweep
}

/// Intensity of an arc's pixel: full between the radii, fading over the edge pixels.
pub open spec fn arc_level(dx: int, dy: int, r_in: int, r_out: int, vmax: int) -> int {
    let r = radius_q4(dx, dy);
    let a = imath::sclamp(r - (16 * r_in - 16), 0, 16);
    let b = imath::sclamp(16 * r_out + 16 - r, 0, 16);
    vmax * imath::smin(a, b) / 16
}

/// A pixel at an offset from the centre of the arc.
pub open spec fn arc_px(p: (u8, u8), dx: int, dy: int, r_in: int, r_out: int, sweep: int, t: Tint, vmax: int) -> (u8, u8) {
    if in_arc(dx, dy, r_in, r_out, sweep) { lit(t, arc_level(dx, dy, r_in, r_out, vmax)) } else { p }
}

fn arc_px_at(p: (u8, u8), dx: i32, dy: i32, r_in: i32, r_out: i32, sweep: i32, tint: Tint, vmax: i32) -> (q: (u8, u8))
    requires
        tint_ok(tint),
        -1000 <= dx <= 1000,
        -1000 <= dy <= 1000,
        0 <= r_in <= 1000,
        0 <= r_out <= 1000,
        0 <= vmax <= 0x1_0000,
    ensures
        q == arc_px(p, dx as int, dy as int, r_in as int, r_out as int, sweep as int, tint, vmax as int),
{
    let r: i32 = imath::isqrt(dist2_at(dx, dy) as u32 * 256) as i32;
    if r < 16 * r_in - 16 || r > 16 * r_out + 16 {
        return p;
    }
    if pseudo_angle(dx, dy) >= sweep {
        return p;
    }
    let a: i32 = imath::iclamp(r - (16 * r_in - 16), 0, 16);
    let b: i32 = imath::iclamp(16 * r_out + 16 - r, 0, 16);
    let m: i32 = imath::imin(a, b);
    proof {
        assert(0 <= vmax * m <= 0x1_0000 * 16) by (nonlinear_arith)
            requires
                0 <= vmax <= 0x1_0000,
                0 <= m <= 16,
        ;
    }
    lit_px(tint, vmax * m / 16)
}

/// A whole ring arc about `(cx, cy)`: the arc's pixels no farther out than the edge pixel.
pub open spec fn ring_shader(cx: int, cy: int, r_in: int, r_out: int, sweep: int, t: Tint, vmax: int) -> raster::Shader {
    |x: int, y: int, p: (u8, u8)|
        if dist2(x - cx, y - cy) > (r_out + 1) * (r_out + 1) {
            p
        } else {
            arc_px(p, x - cx, y - cy, r_in, r_out, sweep, t, vmax)
        }
}

pub open spec fn ring_arc_on(
    fb: Seq<u8>,
    cx: int,
    cy: int,
    r_in: int,
    r_out: int,
    sweep: int,
    t: Tint,
    vmax: int,
) -> Seq<u8> {
    raster::shade(
        fb,
        cx - r_out - 1,
        cy - r_out - 1,
        cx + r_out + 2,
        cy + r_out + 2,
        ring_shader(cx, cy, r_in, r_out, sweep, t, vmax),
    )
}

/// Draw a ring arc swept clockwise from 12 o'clock.
pub fn draw_ring_arc(
    fb: &mut [u8],
    cx: i32,
    cy: i32,
    r_in: i32,
    r_out: i32,
    sweep: i32,
    tint: Tint,
    vmax: i32,
)
    requires
        tint_ok(tint),
        0 <= r_in <= 900,
        0 <= r_out <= 900,
        -0x1000_0000 <= cx <= 0x1000_0000,
        -0x1000_0000 <= cy <= 0x1000_0000,
        0 <= vmax <= 0x1_0000,
    ensures
        final(fb)@ == ring_arc_on(
            old(fb)@,
            cx as int,
            cy as int,
            r_in as int,
            r_out as int,
            sweep as int,
            tint,
            vmax as int,
        ),
        final(fb)@.len() == old(fb)@.len(),
{
    let ghost sh = ring_shader(cx as int, cy as int, r_in as int, r_out as int, sweep as int, tint, vmax as int);
    let f = |x: i32, y: i32, p: (u8, u8)| -> (q: (u8, u8))
        requires
            cx - r_out - 1 <= x <= cx + r_out + 1,
            cy - r_out - 1 <= y <= cy + r_out + 1,
        ensures
            q == sh(x as int, y as int, p),
        {
            let d2: i32 = dist2_at(x - cx, y - cy);
            let (a, _b) = radii2(r_out + 1);
            if d2 > a {
                p
            } else {
                arc_px_at(p, x - cx, y - cy, r_in, r_out, sweep, tint, vmax)
            }
        };
    raster::paint(fb, cx - r_out - 1, cy - r_out - 1, cx + r_out + 2, cy + r_out + 2, f, Ghost(sh));
}

/// An inclusive rectangle of pixel positions.
pub type Area = (i32, i32, i32, i32);

/// The pixels of an arc about the centre of the panel.
pub open spec fn arc_shader(r_in: int, r_out: int, sweep: int, t: Tint, vmax: int) -> raster::Shader {
    |x: int, y: int, p: (u8, u8)| arc_px(p, x - 233, y - 233, r_in, r_out, sweep, t, vmax)
}

pub open spec fn arc_in_rect_on(fb: Seq<u8>, r_in: int, r_out: int, sweep: int, t: Tint, vmax: int, a: Area) -> Seq<u8> {
    raster::shade(fb, a.0 as int, a.1 as int, a.2 + 1, a.3 + 1, arc_shader(r_in, r_out, sweep, t, vmax))
}

/// Repaint the pixels of an arc about the panel's centre that lie in a rectangle.
pub fn arc_in_rect(fb: &mut [u8], r_in: i32, r_out: i32, sweep: i32, tint: Tint, vmax: i32, rect: Area)
    requires
        tint_ok(tint),
        0 <= r_in <= 900,
        0 <= r_out <= 900,
        0 <= vmax <= 0x1_0000,
        rect.2 < i32::MAX,
        rect.3 < i32::MAX,
    ensures
        final(fb)@ == arc_in_rect_on(old(fb)@, r_in as int, r_out as int, sweep as int, tint, vmax as int, rect),
        final(fb)@.len() == old(fb)@.len(),
{
    let ghost sh = arc_shader(r_in as int, r_out as int, sweep as int, tint, vmax as int);
    let f = |x: i32, y: i32, p: (u8, u8)| -> (q: (u8, u8))
        requires
            0 <= x < 466,
            0 <= y < 466,
        ensures
            q == sh(x as int, y as int, p),
        { arc_px_at(p, x - 233, y - 233, r_in, r_out, sweep, tint, vmax) };
    raster::paint(fb, rect.0, rect.1, rect.2 + 1, rect.3 + 1, f, Ghost(sh));
}

/// Half the width of the row `dy` of a disc of radius `r`.
pub open spec fn row_half(r: int, dy: int) -> int {
    imath::sqrt_of(imath::smax(r * r - dy * dy, 0))
}

/// The offset is wiped with an annulus: on the rows of the outer disc, outside the inner one.
pub open spec fn in_annulus(dx: int, dy: int, r_in: int, r_out: int) -> bool {
    &&& dist2(dx, dy) <= (r_out + 1) * (r_out + 1)
    &&& imath::sabs(dy) >= r_in - 1 || imath::sabs(dx) >= row_half(r_in - 1, dy)
}

pub open spec fn annulus_shader(r_in: int, r_out: int) -> raster::Shader {
    |x: int, y: int, p: (u8, u8)| if in_annulus(x - 233, y - 233, r_in, r_out) { (0u8, 0u8) } else { p }
}

pub open spec fn annulus_cleared(fb: Seq<u8>, r_in: int, r_out: int) -> Seq<u8> {
    raster::shade(
        fb,
        232 - r_out,
        232 - r_out,
        235 + r_out,
        235 + r_out,
        annulus_shader(r_in, r_out),
    )
}

/// Black out an annulus about the centre of the panel.
pub fn clear_annulus(fb: &mut [u8], r_in: i32, r_out: i32)
    requires
        1 <= r_in <= 900,
        0 <= r_out <= 900,
    ensures
        final(fb)@ == annulus_cleared(old(fb)@, r_in as int, r_out as int),
        final(fb)@.len() == old(fb)@.len(),
{
    let ghost sh = annulus_shader(r_in as int, r_out as int);
    let f = |x: i32, y: i32, p: (u8, u8)| -> (q: (u8, u8))
        requires
            0 <= x < 466,
            0 <= y < 466,
        ensures
            q == sh(x as int, y as int, p),
        {
            let dx: i32 = x - 233;
            let dy: i32 = y - 233;
            let d2: i32 = dist2_at(dx, dy);
            let (a, _b) = radii2(r_out + 1);
            if d2 > a {
                p
            } else if imath::iabs(dy) >= r_in - 1 {
                (0, 0)
            } else {
                let (c, _d) = radii2(r_in - 1);
                let (e, _f) = radii2(dy);
                let xi: i32 = imath::isqrt(imath::imax(c - e, 0) as u32) as i32;
                if imath::iabs(dx) >= xi {
                    (0, 0)
                } else {
                    p
                }
            }
        };
    raster::paint(fb, 232 - r_out, 232 - r_out, 235 + r_out, 235 + r_out, f, Ghost(sh));
}

/// Drawing a cap, a glow or an arc twice is the same as drawing it once.
pub proof fn lemma_shapes_never_stack(
    fb: Seq<u8>,
    cx: int,
    cy: int,
    r_in: int,
    r: int,
    sweep: int,
    t: Tint,
    v: int,
)
    ensures
        cap_on(cap_on(fb, cx, cy, r, t, v), cx, cy, r, t, v) == cap_on(fb, cx, cy, r, t, v),
        soft_on(soft_on(fb, cx, cy, r, t, v), cx, cy, r, t, v) == soft_on(fb, cx, cy, r, t, v),
        ring_arc_on(ring_arc_on(fb, cx, cy, r_in, r, sweep, t, v), cx, cy, r_in, r, sweep, t, v) == ring_arc_on(
            fb,
            cx,
            cy,
            r_in,
            r,
            sweep,
            t,
            v,
        ),
{
    let c = cap_shader(cx, cy, r, t, v);
    assert forall|x: int, y: int, p: (u8, u8)| #[trigger] c(x, y, c(x, y, p)) == c(x, y, p) by {
        pixel::lemma_lighter_merges(p, lit(t, disc_level(dist2(x - cx, y - cy), r, v)), p);
    }
    raster::lemma_shade_twice(fb, cx - r, cy - r, cx + r + 1, cy + r + 1, c);
    let s = soft_shader(cx, cy, r, t, v);
    assert forall|x: int, y: int, p: (u8, u8)| #[trigger] s(x, y, s(x, y, p)) == s(x, y, p) by {
        pixel::lemma_lighter_merges(p, lit(t, glow_level(dist2(x - cx, y - cy), r, v)), p);
    }
    raster::lemma_shade_twice(fb, cx - r, cy - r, cx + r + 1, cy + r + 1, s);
    let a = ring_shader(cx, cy, r_in, r, sweep, t, v);
    assert forall|x: int, y: int, p: (u8, u8)| #[trigger] a(x, y, a(x, y, p)) == a(x, y, p) by {
    }
    raster::lemma_shade_twice(fb, cx - r - 1, cy - r - 1, cx + r + 2, cy + r + 2, a);
}

/// Blacking out a rectangle and repainting an arc in it gives the pixels that the whole arc
/// has on a black canvas.
pub proof fn lemma_arc_repair(
    fb: Seq<u8>,
    blank: Seq<u8>,
    r_in: int,
    r_out: int,
    sweep: int,
    t: Tint,
    vmax: int,
    a: Area,
    x: int,
    y: int,
)
    requires
        raster::has_px(fb.len() as int, x, y),
        blank.len() == fb.len(),
        raster::px_at(blank, x, y) == (0u8, 0u8),
        a.0 <= x <= a.2,
        a.1 <= y <= a.3,
        0 <= r_in,
        0 <= r_out,
    ensures
        raster::px_at(
            arc_in_rect_on(
                raster::shade(fb, a.0 as int, a.1 as int, a.2 + 1, a.3 + 1, raster::black()),
                r_in,
                r_out,
                sweep,
                t,
                vmax,
                a,
            ),
            x,
            y,
        ) == raster::px_at(ring_arc_on(blank, 233, 233, r_in, r_out, sweep, t, vmax), x, y),
{
    let wiped = raster::shade(fb, a.0 as int, a.1 as int, a.2 + 1, a.3 + 1, raster::black());
    raster::lemma_shade_len(fb, a.0 as int, a.1 as int, a.2 + 1, a.3 + 1, raster::black());
    raster::lemma_shade_px(fb, a.0 as int, a.1 as int, a.2 + 1, a.3 + 1, raster::black(), x, y);
    raster::lemma_shade_px(
        wiped,
        a.0 as int,
        a.1 as int,
        a.2 + 1,
        a.3 + 1,
        arc_shader(r_in, r_out, sweep, t, vmax),
        x,
        y,
    );
    raster::lemma_shade_px(
        blank,
        232 - r_out,
        232 - r_out,
        235 + r_out,
        235 + r_out,
        ring_shader(233, 233, r_in, r_out, sweep, t, vmax),
        x,
        y,
    );
    let (dx, dy) = (x - 233, y - 233);
    let d2 = dist2(dx, dy);
    let k = r_out + 1;
    if d2 > k * k {
        // the sixteenth-pixel radius is at least that of the edge, where nothing is left
        lemma_radius(dx, dy, k);
        assert(radius_q4(dx, dy) >= 16 * k);
        assert(vmax * 0 == 0);
        lemma_unlit(t, arc_level(dx, dy, r_in, r_out, vmax));
    } else {
        lemma_offset_in_square(dx, dy, k);
    }
}

proof fn lemma_offset_in_square(dx: int, dy: int, k: int)
    requires
        k >= 0,
        dist2(dx, dy) <= k * k,
    ensures
        -k <= dx <= k,
        -k <= dy <= k,
{
    assert(-k <= dx <= k && -k <= dy <= k) by (nonlinear_arith)
        requires
            k >= 0,
            dx * dx + dy * dy <= k * k,
    ;
}

proof fn lemma_radius(dx: int, dy: int, k: int)
    requires
        k >= 0,
        dist2(dx, dy) >= k * k,
    ensures
        radius_q4(dx, dy) >= 16 * k,
{
    let v = dist2(dx, dy) * 256;
    let r = radius_q4(dx, dy);
    assert(dist2(dx, dy) >= 0) by (nonlinear_arith);
    imath::lemma_sqrt_exists(v);
    assert(imath::is_isqrt(v, r));
    assert(r >= 16 * k) by (nonlinear_arith)
        requires
            v < (r + 1) * (r + 1),
            v >= 256 * (k * k),
            r >= 0,
            k >= 0,
    ;
}

} // verus!
