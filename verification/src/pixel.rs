//! RGB565 pixels as byte pairs (high byte first), their channels and the two
//! ways of combining them: source-over with a tint, and per-channel maximum.
use vstd::prelude::*;

use crate::imath;

verus! {

/// The 16-bit word of a pixel.
pub open spec fn word(p: (u8, u8)) -> int {
    p.0 * 256 + p.1
}

/// Red, 0..=31.
#[verifier::opaque]
pub open spec fn red(p: (u8, u8)) -> int {
    word(p) / 2048
}

/// Green, 0..=63.
#[verifier::opaque]
pub open spec fn green(p: (u8, u8)) -> int {
    (word(p) / 32) % 64
}

/// Blue, 0..=31.
#[verifier::opaque]
pub open spec fn blue(p: (u8, u8)) -> int {
    word(p) % 32
}

/// The pixel with these channels.
#[verifier::opaque]
pub open spec fn rgb(r: int, g: int, b: int) -> (u8, u8) {
    (((r * 2048 + g * 32 + b) / 256) as u8, ((r * 2048 + g * 32 + b) % 256) as u8)
}

/// `o` moved towards `t` by `v` 255ths, rounded towards `o`.
pub open spec fn mix(o: int, t: int, v: int) -> int {
    o + imath::tdiv((t - o) * v, 255)
}

/// Source-over: the tint `(tr, tg, tb)` at coverage `v` (of 255) laid over `p`.
pub open spec fn over(p: (u8, u8), tr: int, tg: int, tb: int, v: int) -> (u8, u8) {
    rgb(mix(red(p), tr, v), mix(green(p), tg, v), mix(blue(p), tb, v))
}

/// Per-channel maximum of two pixels.
pub open spec fn lighter(p: (u8, u8), q: (u8, u8)) -> (u8, u8) {
    rgb(
        imath::smax(red(p), red(q)),
        imath::smax(green(p), green(q)),
        imath::smax(blue(p), blue(q)),
    )
}

/// No channel of `q` is below that of `p`.
pub open spec fn as_bright(q: (u8, u8), p: (u8, u8)) -> bool {
    red(q) >= red(p) && green(q) >= green(p) && blue(q) >= blue(p)
}

/// An 8-bit colour reduced to RGB565.
pub open spec fn rgb888(r: int, g: int, b: int) -> (u8, u8) {
    rgb(r * 31 / 255, g * 63 / 255, b * 31 / 255)
}

/// Channels are recovered from the pixel they make.
pub proof fn lemma_rgb(r: int, g: int, b: int)
    requires
        0 <= r <= 31,
        0 <= g <= 63,
        0 <= b <= 31,
    ensures
        red(rgb(r, g, b)) == r,
        green(rgb(r, g, b)) == g,
        blue(rgb(r, g, b)) == b,
{
    reveal(red);
    reveal(green);
    reveal(blue);
    reveal(rgb);
    let w = r * 2048 + g * 32 + b;
    assert(0 <= w <= 65535);
    assert(word(rgb(r, g, b)) == w);
}

/// A pixel is made of its channels.
pub proof fn lemma_channels(p: (u8, u8))
    ensures
        0 <= red(p) <= 31,
        0 <= green(p) <= 63,
        0 <= blue(p) <= 31,
        rgb(red(p), green(p), blue(p)) == p,
{
    reveal(red);
    reveal(green);
    reveal(blue);
    reveal(rgb);
    let w = word(p);
    assert(w == red(p) * 2048 + green(p) * 32 + blue(p));
    assert(w / 256 == p.0);
    assert(w % 256 == p.1);
}

/// A mix of two channel values stays between them.
pub proof fn lemma_mix(o: int, t: int, v: int)
    requires
        0 <= v <= 255,
    ensures
        o <= t ==> o <= mix(o, t, v) <= t,
        t <= o ==> t <= mix(o, t, v) <= o,
        mix(o, t, 0) == o,
        mix(o, t, 255) == t,
{
    if t >= o {
        let d = t - o;
        assert(0 <= d * v <= d * 255) by (nonlinear_arith)
            requires 0 <= v <= 255, d >= 0;
        assert((t - o) * v == d * v);
    } else {
        let d = o - t;
        assert(0 <= d * v <= d * 255) by (nonlinear_arith)
            requires 0 <= v <= 255, d >= 0;
        assert((t - o) * v == -(d * v)) by (nonlinear_arith)
            requires d == o - t;
    }
    assert((t - o) * 0 == 0);
    assert((t - o) * 255 == 255 * (t - o));
}

/// Full coverage replaces the pixel; no coverage keeps it.
pub proof fn lemma_over_ends(p: (u8, u8), tr: int, tg: int, tb: int)
    ensures
        over(p, tr, tg, tb, 0) == p,
        over(p, tr, tg, tb, 255) == rgb(tr, tg, tb),
{
    lemma_channels(p);
    lemma_mix(red(p), tr, 0);
    lemma_mix(green(p), tg, 0);
    lemma_mix(blue(p), tb, 0);
    lemma_mix(red(p), tr, 255);
    lemma_mix(green(p), tg, 255);
    lemma_mix(blue(p), tb, 255);
}

/// The maximum is as bright as either pixel in every channel, and taking it again changes
/// nothing.
pub proof fn lemma_lighter(c: (u8, u8), p: (u8, u8))
    ensures
        red(lighter(c, p)) == imath::smax(red(c), red(p)),
        green(lighter(c, p)) == imath::smax(green(c), green(p)),
        blue(lighter(c, p)) == imath::smax(blue(c), blue(p)),
        lighter(c, lighter(c, p)) == lighter(c, p),
{
    lemma_channels(c);
    lemma_channels(p);
    lemma_rgb(
        imath::smax(red(c), red(p)),
        imath::smax(green(c), green(p)),
        imath::smax(blue(c), blue(p)),
    );
}

/// Overlapping glows merge: the maximum does not depend on the order in which they are
/// drawn, and drawing one twice changes nothing.
pub proof fn lemma_lighter_merges(p: (u8, u8), q: (u8, u8), s: (u8, u8))
    ensures
        lighter(p, q) == lighter(q, p),
        lighter(lighter(p, q), s) == lighter(p, lighter(q, s)),
        lighter(lighter(p, q), q) == lighter(p, q),
        lighter(p, p) == p,
        lighter(p, (0u8, 0u8)) == p,
{
    lemma_channels(p);
    lemma_channels(q);
    lemma_channels(s);
    lemma_rgb(
        imath::smax(red(p), red(q)),
        imath::smax(green(p), green(q)),
        imath::smax(blue(p), blue(q)),
    );
    lemma_rgb(
        imath::smax(red(q), red(s)),
        imath::smax(green(q), green(s)),
        imath::smax(blue(q), blue(s)),
    );
    assert(red((0u8, 0u8)) == 0 && green((0u8, 0u8)) == 0 && blue((0u8, 0u8)) == 0) by {
        reveal(red);
        reveal(green);
        reveal(blue);
    }
}

/// Split a pixel into its channels.
pub fn channels(p: (u8, u8)) -> (c: (i32, i32, i32))
    ensures
        c.0 == red(p),
        c.1 == green(p),
        c.2 == blue(p),
        0 <= c.0 <= 31,
        0 <= c.1 <= 63,
        0 <= c.2 <= 31,
{
    proof {
        reveal(red);
        reveal(green);
        reveal(blue);
    }
    let w: i32 = p.0 as i32 * 256 + p.1 as i32;
    (w / 2048, (w / 32) % 64, w % 32)
}

/// Pack three channels.
pub fn pack(r: i32, g: i32, b: i32) -> (p: (u8, u8))
    requires
        0 <= r <= 31,
        0 <= g <= 63,
        0 <= b <= 31,
    ensures
        p == rgb(r as int, g as int, b as int),
{
    proof {
        reveal(rgb);
    }
    let w: i32 = r * 2048 + g * 32 + b;
    ((w / 256) as u8, (w % 256) as u8)
}

/// Reduce an 8-bit colour to RGB565.
pub fn pack888(r: i32, g: i32, b: i32) -> (p: (u8, u8))
    requires
        0 <= r <= 255,
        0 <= g <= 255,
        0 <= b <= 255,
    ensures
        p == rgb888(r as int, g as int, b as int),
{
    pack(r * 31 / 255, g * 63 / 255, b * 31 / 255)
}

fn blend(o: i32, t: i32, v: i32) -> (r: i32)
    requires
        0 <= o <= 63,
        0 <= t <= 63,
        0 <= v <= 255,
    ensures
        r == mix(o as int, t as int, v as int),
        o <= t ==> o <= r <= t,
        t <= o ==> t <= r <= o,
{
    proof {
        lemma_mix(o as int, t as int, v as int);
        assert(-63 * 255 <= (t - o) * v <= 63 * 255) by (nonlinear_arith)
            requires -63 <= t - o <= 63, 0 <= v <= 255;
    }
    o + (t - o) * v / 255
}

/// Lay a tint over a pixel.
pub fn lay_over(p: (u8, u8), tr: i32, tg: i32, tb: i32, v: i32) -> (q: (u8, u8))
    requires
        0 <= tr <= 31,
        0 <= tg <= 63,
        0 <= tb <= 31,
        0 <= v <= 255,
    ensures
        q == over(p, tr as int, tg as int, tb as int, v as int),
{
    let (r, g, b) = channels(p);
    pack(blend(r, tr, v), blend(g, tg, v), blend(b, tb, v))
}

/// Combine two pixels by their per-channel maximum.
pub fn lighten(p: (u8, u8), q: (u8, u8)) -> (m: (u8, u8))
    ensures
        m == lighter(p, q),
{
    let (r0, g0, b0) = channels(p);
    let (r1, g1, b1) = channels(q);
    pack(imath::imax(r0, r1), imath::imax(g0, g1), imath::imax(b0, b1))
}

} // verus!
