//! What moves in a resting scene: the flourish, the breathing disc and the ring tips, and which
//! app shows what.
use vstd::prelude::*;

use crate::font;
use crate::imath;
use crate::pixel;
use crate::raster;
use crate::scenes::activity;
use crate::scenes::app_laws;
use crate::scenes::apps;
use crate::scenes::apps::{AppAssets, State};
use crate::scenes::face_laws;
use crate::scenes::flourish;
use crate::scenes::picture::Picture;
use crate::scenes::ring;
use crate::scenes::settings;
use crate::scenes::sprite;
use crate::scenes::time_app;
use crate::scenes::time_app::Face;
use crate::scenes::vector;
use crate::scenes::wheel;
use crate::time::WallTime;

verus! {

/// The flourish comes in and goes out alike, over eight frames each, and is whole between.
pub proof fn lemma_crossfade(fr: int)
    requires
        0 <= fr <= 54,
    ensures
        fr <= 53 ==> flourish::crossfade(fr) == flourish::crossfade(53 - fr),
        0 <= flourish::crossfade(fr) <= 256,
        fr < 7 ==> flourish::crossfade(fr + 1) == flourish::crossfade(fr) + 32,
        7 <= fr <= 46 ==> flourish::crossfade(fr) == 256,
        flourish::crossfade(54) == 0,
{
}

/// The blade is lit from twelve o'clock round: never back, all of it from the fifteenth frame
/// on, and what lies further round is lit later.
pub proof fn lemma_ignition(fr: int, gr: int, a: int, b: int)
    requires
        0 <= fr <= gr < 54,
        0 <= a <= b < 256,
    ensures
        flourish::front(fr) <= flourish::front(gr),
        flourish::front(0) == 0,
        gr >= 14 ==> flourish::mask(gr, b) == 256,
        flourish::mask(fr, b) <= flourish::mask(fr, a),
        flourish::mask(fr, a) <= flourish::mask(gr, a),
        fr < 14 && a >= flourish::front(fr) ==> flourish::mask(fr, a) == 0,
{
    lemma_crossfade(fr);
    lemma_crossfade(gr);
    if gr < 14 {
        let (u, v) = (14 - fr, 14 - gr);
        assert(v * v <= u * u && u * u <= 196 && v * v >= 1) by (nonlinear_arith)
            requires
                1 <= v <= u <= 14,
        ;
        assert(256 * u * u == 256 * (u * u) && 256 * v * v == 256 * (v * v)) by (nonlinear_arith);
    } else if fr < 14 {
        let u = 14 - fr;
        assert(1 <= u * u <= 196) by (nonlinear_arith)
            requires
                1 <= u <= 14,
        ;
        assert(256 * u * u == 256 * (u * u)) by (nonlinear_arith);
    }
}

/// The glow inside the blade surges, holds and collapses.
pub proof fn lemma_bloom(fr: int, gr: int)
    requires
        0 <= fr <= gr <= 54,
    ensures
        gr < 41 ==> flourish::bloom(fr) <= flourish::bloom(gr),
        fr >= 41 ==> flourish::bloom(gr) <= flourish::bloom(fr),
        0 <= flourish::bloom(fr) <= 256,
{
    lemma_surge(fr);
    lemma_surge(gr);
    let (a, b) = (8 - (fr - 14), 8 - (gr - 14));
    if 14 <= fr && gr < 23 {
        assert(b * b <= a * a) by (nonlinear_arith)
            requires
                0 <= b <= a,
        ;
        assert(256 * a * a == 256 * (a * a) && 256 * b * b == 256 * (b * b)) by (nonlinear_arith);
    }
    let (c, d) = (13 - (fr - 41), 13 - (gr - 41));
    if 41 <= fr {
        assert(d * d <= c * c) by (nonlinear_arith)
            requires
                0 <= d <= c,
        ;
        assert(256 * c * c == 256 * (c * c) && 256 * d * d == 256 * (d * d)) by (nonlinear_arith);
    }
}

proof fn lemma_surge(fr: int)
    requires
        0 <= fr <= 54,
    ensures
        0 <= flourish::bloom(fr) <= 256,
{
    let a = 8 - (fr - 14);
    if 14 <= fr < 23 {
        assert(0 <= a * a <= 64) by (nonlinear_arith)
            requires
                0 <= a <= 8,
        ;
        assert(256 * a * a == 256 * (a * a)) by (nonlinear_arith);
    }
    let c = 13 - (fr - 41);
    if fr >= 41 {
        assert(0 <= c * c <= 169) by (nonlinear_arith)
            requires
                0 <= c <= 13,
        ;
        assert(256 * c * c == 256 * (c * c)) by (nonlinear_arith);
    }
}

/// The flourish keeps to its band, and within it shows its own colours.
pub proof fn lemma_flourish_keeps_band(fb: Seq<u8>, fr: int, x: int, y: int)
    requires
        raster::has_px(fb.len() as int, x, y),
    ensures
        ({
            let q = raster::px_at(flourish::flourish_on(fb, fr), x, y);
            let (dx, dy) = (x - 233, y - 233);
            let inside = 179 * 179 <= dx * dx + dy * dy <= 233 * 233;
            &&& !inside ==> q == raster::px_at(fb, x, y)
            &&& inside ==> q == flourish::blend_color(
                flourish::intensity(y * 466 + x, fr),
                flourish::crossfade(fr),
            )
        }),
{
    raster::lemma_shade_px(
        fb,
        0,
        0,
        466,
        466,
        ring::sel_shader(ring::band_sel(), flourish::flourish_val(fr), 217_156),
        x,
        y,
    );
    ring::lemma_pixel_index(x, y);
}

/// The blade is brightest on its line and symmetric about it.
pub proof fn lemma_blade(d: int, bloom: int, shimmer: int)
    requires
        0 <= d <= 11,
    ensures
        flourish::profile(128, bloom, shimmer) == 255,
        flourish::profile(128 + d, bloom, shimmer) == flourish::profile(128 - d, bloom, shimmer),
        flourish::profile(128 + d, bloom, shimmer) <= 255,
{
    assert(d * d == (-d) * (-d) && 0 <= d * d <= 121) by (nonlinear_arith)
        requires
            0 <= d <= 11,
    ;
    assert(0int * 0 == 0);
}

/// Each app has its own content, low and faint at first, in place and whole at the end; the
/// others have none.
pub proof fn lemma_content(
    f: Picture,
    a: AppAssets,
    w: int,
    h: int,
    now: WallTime,
    batt: Option<u8>,
    idx: int,
    q: int,
    ms: int,
    st: State,
)
    requires
        0 <= q <= 256,
    ensures
        ({
            let g = apps::content_on(f, a, w, h, now, batt, idx, q, ms, st);
            let rise = 20 - q * 20 / 256;
            let low = (256 - q) * 20 / 256;
            &&& rise - 1 <= low <= rise
            &&& q == 256 ==> low == 0
            &&& idx == 0 ==> g.fb == time_app::digits_on(f.fb, a, now, low, q)
            &&& idx == 4 ==> g.fb == activity::activity_on(f.fb, a, q, low)
            &&& idx == 5 ==> g.fb == settings::settings_on(f.fb, a, st, q, low, batt, ms)
            &&& idx == 7 ==> g == apps::photos_on(f, a, w, h, q, low, ms)
            &&& idx != 0 && idx != 4 && idx != 5 && idx != 7 ==> g == f
        }),
{
}

/// A resting app moves nothing but its own element, and one without an element rests still.
pub proof fn lemma_only_three_move(
    f: Face,
    a: AppAssets,
    w: int,
    h: int,
    idx: int,
    now: WallTime,
    ms: int,
    now_ms: u64,
)
    requires
        idx != 0,
        idx != 4,
        idx != 7,
    ensures
        apps::ticked(f, a, w, h, idx, now, ms, now_ms) == f,
{
}

/// Breathing follows the wheel's pulse, between 150 and 204.
pub proof fn lemma_breathing(cycle: int, k: int, r: int)
    requires
        cycle >= 0,
        0 <= k < 512,
        0 <= r < 8,
    ensures
        ({
            let v = if k < 256 { k } else { 511 - k };
            apps::breathing(4096 * cycle + 8 * k + r) == 150 + v * 55 / 256
        }),
{
    crate::scenes::wheel_laws::lemma_pulse(cycle, k, r);
}

/// The resting disc: outside its square and the aperture nothing changes, and within the square
/// it starts from black.
pub proof fn lemma_disc_rests(fb: Seq<u8>, a: AppAssets, ms: int, x: int, y: int)
    requires
        apps::assets_ok(a),
        raster::has_px(fb.len() as int, x, y),
    ensures
        ({
            let q = raster::px_at(apps::photos_rest(fb, a, ms), x, y);
            let (d, n) = (a.photos_disc_px as int, a.aperture_px as int);
            let (r, s) = (d / 2, n / 2);
            let on_disc = 233 - r <= x < 233 - r + d && 230 - r <= y < 230 - r + d;
            let wiped = 233 - r <= x < 233 + r && 230 - r <= y < 230 + r;
            let on_icon = 233 - s <= x < 233 - s + n && 230 - s <= y < 230 - s + n;
            let t = a.photos_disc@[(y - (230 - r)) * d + (x - (233 - r))] as int;
            let o = if wiped { (0u8, 0u8) } else { raster::px_at(fb, x, y) };
            &&& !on_disc && !on_icon ==> q == raster::px_at(fb, x, y)
            &&& on_disc && !on_icon ==> q == (if t < 6 {
                o
            } else {
                pixel::lighter(
                    wheel::saber_color(imath::sclamp(t * apps::breathing(ms) / 256, 0, 255), 0),
                    o,
                )
            })
        }),
{
    let (d, n) = (a.photos_disc_px as int, a.aperture_px as int);
    let (r, s) = (d / 2, n / 2);
    raster::lemma_shade_len(fb, 233 - r, 230 - r, 233 + r, 230 + r, raster::black());
    raster::lemma_shade_px(fb, 233 - r, 230 - r, 233 + r, 230 + r, raster::black(), x, y);
    let f1 = raster::shade(fb, 233 - r, 230 - r, 233 + r, 230 + r, raster::black());
    let lut = wheel::saber_table(0);
    let br = apps::breathing(ms);
    let ls = sprite::lut_shader(a.photos_disc@, d, lut, 233 - r, 230 - r, br);
    raster::lemma_shade_len(f1, 233 - r, 230 - r, 233 - r + d, 230 - r + d, ls);
    raster::lemma_shade_px(f1, 233 - r, 230 - r, 233 - r + d, 230 - r + d, ls, x, y);
    let f2 = sprite::lut_sprite_on(f1, a.photos_disc@, d, lut, 233, 230, br);
    let is = sprite::icon_shader(a.aperture@, n, 233 - s, 230 - s, 128);
    raster::lemma_shade_px(f2, 233 - s, 230 - s, 233 - s + n, 230 - s + n, is, x, y);
}

proof fn lemma_repair_keeps(fb: Seq<u8>, a: vector::Area, n: int, x: int, y: int)
    requires
        raster::has_px(fb.len() as int, x, y),
        0 <= n <= 3,
    ensures
        activity::repaired(fb, a, n).len() == fb.len(),
    decreases n,
{
    if n > 0 {
        lemma_repair_keeps(fb, a, n - 1, x, y);
        let r = activity::ring_of(n - 1);
        let prev = activity::repaired(fb, a, n - 1);
        let full = activity::full_sweep(r);
        let sh = vector::arc_shader(r.rc - 8, r.rc + 8, full, r.tint, 230);
        raster::lemma_shade_len(prev, a.0 as int, a.1 as int, a.2 + 1, a.3 + 1, sh);
        let f1 = vector::arc_in_rect_on(prev, r.rc - 8, r.rc + 8, full, r.tint, 230, a);
        let (px, py) = activity::ring_point(r.rc as int, full);
        app_laws::lemma_cap_px(f1, px, py, 8, r.tint, 230, x, y);
    }
}

/// The last tip glows with the breath: its centre is at least as light as its tint at that
/// strength.
pub proof fn lemma_tip_glows(fb: Seq<u8>, breath: int, n: int, x: int, y: int)
    requires
        raster::has_px(fb.len() as int, x, y),
        1 <= n <= 3,
        (x, y) == activity::ring_point(
            activity::ring_of(n - 1).rc as int,
            activity::full_sweep(activity::ring_of(n - 1)),
        ),
    ensures
        pixel::as_bright(
            raster::px_at(activity::tips_on(fb, breath, n), x, y),
            vector::lit(activity::ring_of(n - 1).tint, breath * 240 / 256),
        ),
{
    lemma_tips_len(fb, breath, n - 1, x, y);
    let prev = activity::tips_on(fb, breath, n - 1);
    let r = activity::ring_of(n - 1);
    let a = activity::tip_area(n - 1);
    raster::lemma_shade_len(prev, a.0 as int, a.1 as int, a.2 + 1, a.3 + 1, raster::black());
    let f1 = raster::shade(prev, a.0 as int, a.1 as int, a.2 + 1, a.3 + 1, raster::black());
    lemma_repair_keeps(f1, a, 3, x, y);
    let f2 = activity::repaired(f1, a, 3);
    face_laws::lemma_soft_px(f2, x, y, 10, r.tint, breath * 240 / 256, x, y);
    pixel::lemma_lighter(raster::px_at(f2, x, y), vector::lit(r.tint, breath * 240 / 256));
    assert((x - x) * (x - x) + (y - y) * (y - y) == 0);
}

proof fn lemma_tips_len(fb: Seq<u8>, breath: int, n: int, x: int, y: int)
    requires
        raster::has_px(fb.len() as int, x, y),
        0 <= n <= 3,
    ensures
        activity::tips_on(fb, breath, n).len() == fb.len(),
    decreases n,
{
    if n > 0 {
        lemma_tips_len(fb, breath, n - 1, x, y);
        let prev = activity::tips_on(fb, breath, n - 1);
        let r = activity::ring_of(n - 1);
        let a = activity::tip_area(n - 1);
        raster::lemma_shade_len(prev, a.0 as int, a.1 as int, a.2 + 1, a.3 + 1, raster::black());
        let f1 = raster::shade(prev, a.0 as int, a.1 as int, a.2 + 1, a.3 + 1, raster::black());
        lemma_repair_keeps(f1, a, 3, x, y);
        let f2 = activity::repaired(f1, a, 3);
        let (px, py) = activity::ring_point(r.rc as int, activity::full_sweep(r));
        face_laws::lemma_soft_px(f2, px, py, 10, r.tint, breath * 240 / 256, x, y);
    }
}

/// The photos app, coming in: the disc glows below the open lens, and the caption stands on
/// its baseline where one of its characters alone covers.
pub proof fn lemma_photos_are_shown(f: Picture, a: AppAssets, w: int, h: int, q: int, rise: int, ms: int, k: int, x: int, y: int)
    requires
        apps::assets_ok(a),
        raster::has_px(f.fb.len() as int, x, y),
    ensures
        ({
            let o = raster::px_at(apps::photos_on(f, a, w, h, q, rise, ms).fb, x, y);
            let p = raster::px_at(f.fb, x, y);
            let (d, n) = (a.photos_disc_px as int, a.aperture_px as int);
            let (gx, gy, ix, iy) = (233 - d / 2, 230 + rise - d / 2, 233 - n / 2, 230 + rise - n / 2);
            let on_disc = gx <= x < gx + d && gy <= y < gy + d;
            let on_lens = ix <= x < ix + n && iy <= y < iy + n;
            let t = a.photos_disc@[(y - gy) * d + (x - gx)] as int;
            let u = a.aperture@[(y - iy) * n + (x - ix)] as int;
            let glow = apps::breathing(ms) * q / 256;
            let below = if on_disc && t >= 6 {
                pixel::lighter(wheel::saber_color(imath::sclamp(t * glow / 256, 0, 255), 0), p)
            } else {
                p
            };
            let lens = if on_lens && u >= 8 {
                sprite::tinted(below, u * (128 * q / 256) / 256)
            } else {
                below
            };
            let cap = font::codes_of("nothing captured yet"@);
            &&& app_laws::word_clear(a.wheel.text@, cap, 356 + rise, x, y) ==> o == lens
            &&& app_laws::word_at(a.wheel.text@, cap, 356 + rise, k, x, y) ==> app_laws::word_shown(
                a.wheel.text@,
                cap,
                356 + rise,
                102 * q / 256,
                k,
                x,
                y,
                lens,
                o,
            )
        }),
{
    let (d, n) = (a.photos_disc_px as int, a.aperture_px as int);
    let (gx, gy, ix, iy) = (233 - d / 2, 230 + rise - d / 2, 233 - n / 2, 230 + rise - n / 2);
    let lut = wheel::saber_table(0);
    let glow = apps::breathing(ms) * q / 256;
    let ls = sprite::lut_shader(a.photos_disc@, d, lut, gx, gy, glow);
    raster::lemma_shade_len(f.fb, gx, gy, gx + d, gy + d, ls);
    raster::lemma_shade_px(f.fb, gx, gy, gx + d, gy + d, ls, x, y);
    let f1 = sprite::lut_sprite_on(f.fb, a.photos_disc@, d, lut, 233, 230 + rise, glow);
    let is = sprite::icon_shader(a.aperture@, n, ix, iy, 128 * q / 256);
    raster::lemma_shade_len(f1, ix, iy, ix + n, iy + n, is);
    raster::lemma_shade_px(f1, ix, iy, ix + n, iy + n, is, x, y);
    let f2 = sprite::icon_on(f1, a.aperture@, n, 233, 230 + rise, 128 * q / 256);
    app_laws::lemma_word(
        f2,
        a.wheel.text@,
        font::codes_of("nothing captured yet"@),
        356 + rise,
        102 * q / 256,
        k,
        x,
        y,
    );
}

/// A layer of a bloom has its full height at its line, falls with the square of what is left
/// to its reach, and is gone there.
pub proof fn lemma_bloom_layer(x: int, a: int, reach: int)
    requires
        0 <= x,
        0 <= a,
        0 < reach,
    ensures
        ({
            let (l, left) = (flourish::layer(x, a, reach), reach - x);
            &&& x >= reach ==> l == 0
            &&& x < reach ==> l * (reach * reach) <= a * left * left < (l + 1) * (reach * reach)
            &&& x == 0 ==> l == a
        }),
{
    if x < reach {
        let (n, d) = (a * (reach - x) * (reach - x), reach * reach);
        assert(d > 0) by (nonlinear_arith)
            requires
                d == reach * reach,
                reach > 0,
        ;
        lemma_quotient(n, d);
        if x == 0 {
            vstd::arithmetic::mul::lemma_mul_is_associative(a, reach, reach);
            vstd::arithmetic::div_mod::lemma_div_multiples_vanish(a, d);
            assert(d * a == a * d) by (nonlinear_arith);
        }
    }
}

proof fn lemma_quotient(n: int, d: int)
    requires
        d > 0,
    ensures
        n / d * d <= n < (n / d + 1) * d,
{
    vstd::arithmetic::div_mod::lemma_fundamental_div_mod(n, d);
    let q = n / d;
    assert(d * q == q * d && (q + 1) * d == q * d + d) by (nonlinear_arith);
}

} // verus!
