//! What the open/close morph shows, how a wheel frame begins, and the ring's gradient.
use vstd::prelude::*;

use crate::font;
use crate::font_laws;
use crate::imath;
use crate::pixel;
use crate::raster;
use crate::scenes::sprite;
use crate::scenes::wheel;
use crate::scenes::wheel::{Frame, Rect, WheelApp, WheelAssets};
use crate::scenes::wheel_damage;
use crate::scenes::wheel_laws;

verus! {

/// A wheel frame begins on black wherever the last one drew, and on all of a canvas that it
/// does not own; what the last one did not draw is kept.
pub proof fn lemma_frame_starts_clean(fb: Seq<u8>, rects: Seq<Rect>, seeded: bool, x: int, y: int)
    requires
        raster::has_px(fb.len() as int, x, y),
    ensures
        ({
            let q = raster::px_at(wheel::frame_start(fb, rects, seeded), x, y);
            &&& !seeded ==> q == (0u8, 0u8)
            &&& seeded && wheel_damage::tracked_at(rects, x, y) ==> q == (0u8, 0u8)
            &&& seeded && !wheel_damage::tracked_at(rects, x, y) ==> q == raster::px_at(fb, x, y)
        }),
{
    if seeded {
        let n = rects.len() as int;
        lemma_wiped(fb, rects, n, x, y);
        if wheel_damage::tracked_at(rects, x, y) {
            let i = choose|i: int| 0 <= i < rects.len() && wheel_damage::rect_has(#[trigger] rects[i], x, y);
            assert(wheel_damage::rect_has(rects[i], x, y));
        }
    }
}

proof fn lemma_wiped(fb: Seq<u8>, rects: Seq<Rect>, n: int, x: int, y: int)
    requires
        raster::has_px(fb.len() as int, x, y),
        0 <= n <= rects.len(),
    ensures
        wheel::cleared(fb, rects, n).len() == fb.len(),
        (exists|i: int| 0 <= i < n && wheel_damage::rect_has(#[trigger] rects[i], x, y)) ==> raster::px_at(
            wheel::cleared(fb, rects, n),
            x,
            y,
        ) == (0u8, 0u8),
        (forall|i: int| 0 <= i < n ==> !wheel_damage::rect_has(#[trigger] rects[i], x, y)) ==> raster::px_at(
            wheel::cleared(fb, rects, n),
            x,
            y,
        ) == raster::px_at(fb, x, y),
    decreases n,
{
    if n > 0 {
        lemma_wiped(fb, rects, n - 1, x, y);
        let (x0, y0, x1, y1) = rects[n - 1];
        let prev = wheel::cleared(fb, rects, n - 1);
        raster::lemma_shade_len(prev, x0 as int, y0 as int, x1 + 1, y1 + 1, raster::black());
        raster::lemma_shade_px(prev, x0 as int, y0 as int, x1 + 1, y1 + 1, raster::black(), x, y);
        assert(wheel_damage::rect_has(rects[n - 1], x, y) <==> x0 <= x <= x1 && y0 <= y <= y1);
        if exists|i: int| 0 <= i < n && wheel_damage::rect_has(#[trigger] rects[i], x, y) {
            let i = choose|i: int| 0 <= i < n && wheel_damage::rect_has(#[trigger] rects[i], x, y);
            if i < n - 1 {
                assert(0 <= i < n - 1 && wheel_damage::rect_has(rects[i], x, y));
            }
        }
    }
}

/// Row of a leaving or coming neighbour: up to twelve pixels further out.
pub open spec fn drift_y(y_c: int, f_q8: int) -> int {
    y_c + (if y_c >= 233 { 12 * f_q8 / 256 } else { -12 * f_q8 / 256 })
}

/// Opacity of a neighbour.
pub open spec fn drift_alpha(y_c: int, f_q8: int) -> int {
    wheel::row_fade(y_c) * (256 - f_q8) / 256
}

/// A neighbour that is seen at all.
pub open spec fn drift_seen(y_c: int, f_q8: int) -> bool {
    -68 <= y_c <= 534 && wheel::row_fade(y_c) != 0 && drift_alpha(y_c, f_q8) >= 8
}

/// The icon square of a neighbour holds the point.
pub open spec fn drift_icon(a: WheelAssets, y_c: int, f_q8: int, x: int, y: int) -> bool {
    let n = a.icon_s_px as int;
    let (cy, cx) = (drift_y(y_c, f_q8), wheel::icon_x(drift_y(y_c, f_q8), n));
    cx - n / 2 <= x < cx - n / 2 + n && cy - n / 2 <= y < cy - n / 2 + n
}

/// Left edge of its label.
pub open spec fn drift_left(a: WheelAssets, app: WheelApp, y_c: int, f_q8: int) -> int {
    let n = a.icon_s_px as int;
    imath::smax(
        233 - font::width_of(a.text@, font::codes_of(app.name@)) / 2,
        wheel::icon_x(drift_y(y_c, f_q8), n) + n / 2 + 10,
    )
}

/// Its label box holds the point.
pub open spec fn drift_label(a: WheelAssets, app: WheelApp, y_c: int, f_q8: int, x: int, y: int) -> bool {
    let left = drift_left(a, app, y_c, f_q8);
    let cy = drift_y(y_c, f_q8);
    left <= x <= left + font::width_of(a.text@, font::codes_of(app.name@)) + 1 && cy - 36 <= y <= cy + 36
}

/// A neighbour pixel by pixel: its small icon and its name, faded, and nothing off them.
pub proof fn lemma_neighbour_shows(f: Frame, a: WheelAssets, app: WheelApp, y_c: int, f_q8: int, k: int, x: int, y: int)
    requires
        wheel::assets_ok(a),
        wheel_damage::art_fits(a),
        0 <= f_q8 <= 256,
        raster::has_px(f.fb.len() as int, x, y),
    ensures
        ({
            let g = wheel::morph_row_on(f, a, app, y_c, f_q8);
            let (p, q) = (raster::px_at(f.fb, x, y), raster::px_at(g.fb, x, y));
            let seen = drift_seen(y_c, f_q8);
            let (icon, label) = (drift_icon(a, y_c, f_q8, x, y), drift_label(a, app, y_c, f_q8, x, y));
            let n = a.icon_s_px as int;
            let (cy, cx) = (drift_y(y_c, f_q8), wheel::icon_x(drift_y(y_c, f_q8), n));
            let t = app.icon_s@[(y - (cy - n / 2)) * n + (x - (cx - n / 2))] as int;
            let al = drift_alpha(y_c, f_q8);
            let (name, left) = (font::codes_of(app.name@), drift_left(a, app, y_c, f_q8));
            let c = font_laws::coverage(a.text@, name, left, cy + 11, k, x, y);
            &&& g.fb.len() == f.fb.len()
            &&& !seen ==> q == p
            &&& !icon && !label ==> q == p
            &&& seen && icon && !label ==> q == (if t < 8 { p } else { sprite::tinted(p, t * al / 256) })
            &&& seen && !icon && wheel_laws::only(a.text@, name, left, cy + 11, k, x, y) ==> q == sprite::tinted(
                p,
                c * 17 * al / 256,
            )
        }),
{
    if drift_seen(y_c, f_q8) {
        let n = a.icon_s_px as int;
        let (cy, cx) = (drift_y(y_c, f_q8), wheel::icon_x(drift_y(y_c, f_q8), n));
        let al = drift_alpha(y_c, f_q8);
        let (name, left) = (font::codes_of(app.name@), drift_left(a, app, y_c, f_q8));
        let (ox, oy) = (cx - n / 2, cy - n / 2);
        let sh = sprite::icon_shader(app.icon_s@, n, ox, oy, al);
        raster::lemma_shade_len(f.fb, ox, oy, ox + n, oy + n, sh);
        raster::lemma_shade_px(f.fb, ox, oy, ox + n, oy + n, sh, x, y);
        let f1 = sprite::icon_on(f.fb, app.icon_s@, n, cx, cy, al);
        wheel_damage::lemma_text_confined(f1, a.text@, name, name.len() as int, left, cy + 11, al, 26, 15, x, y);
        wheel_laws::lemma_text_shows(f1, a.text@, name, left, cy + 11, al, k, x, y);
    }
}

/// No neighbour among the first `n` but `i` reaches the pixel.
pub open spec fn others_off(
    a: WheelAssets,
    s_px: int,
    focused: int,
    f_q8: int,
    i: int,
    n: int,
    x: int,
    y: int,
) -> bool {
    forall|j: int|
        0 <= j < n && j != i && j != focused ==> !drift_label(
            a,
            #[trigger] a.apps@[j],
            233 + 68 * j - s_px,
            f_q8,
            x,
            y,
        ) && !drift_icon(a, 233 + 68 * j - s_px, f_q8, x, y)
}

/// The neighbours of a morph are their own apps, and the app that opens is not among them:
/// where neighbour `i` alone reaches, the rows are it alone.
proof fn lemma_morph_rows_show(
    f: Frame,
    a: WheelAssets,
    s_px: int,
    focused: int,
    f_q8: int,
    i: int,
    n: int,
    x: int,
    y: int,
)
    requires
        wheel::assets_ok(a),
        wheel_damage::art_fits(a),
        0 <= f_q8 <= 256,
        raster::has_px(f.fb.len() as int, x, y),
        0 <= n <= a.apps@.len(),
        others_off(a, s_px, focused, f_q8, i, n, x, y),
    ensures
        ({
            let g = wheel::morph_rows(f, a, s_px, focused, f_q8, n);
            &&& g.fb.len() == f.fb.len()
            &&& raster::px_at(g.fb, x, y) == (if 0 <= i < n && i != focused {
                raster::px_at(wheel::morph_row_on(f, a, a.apps@[i], 233 + 68 * i - s_px, f_q8).fb, x, y)
            } else {
                raster::px_at(f.fb, x, y)
            })
        }),
    decreases n,
{
    if n > 0 {
        lemma_morph_rows_show(f, a, s_px, focused, f_q8, i, n - 1, x, y);
        let prev = wheel::morph_rows(f, a, s_px, focused, f_q8, n - 1);
        if n - 1 != focused {
            let app = a.apps@[n - 1];
            let y_c = 233 + 68 * (n - 1) - s_px;
            lemma_neighbour_shows(prev, a, app, y_c, f_q8, 0, x, y);
            if n - 1 == i {
                lemma_neighbour_local(prev, f, a, app, y_c, f_q8, x, y);
            }
        }
    }
}

proof fn lemma_neighbour_local(
    f: Frame,
    g: Frame,
    a: WheelAssets,
    app: WheelApp,
    y_c: int,
    f_q8: int,
    x: int,
    y: int,
)
    requires
        raster::has_px(f.fb.len() as int, x, y),
        wheel_laws::same_px(f.fb, g.fb, x, y),
    ensures
        wheel_laws::same_px(
            wheel::morph_row_on(f, a, app, y_c, f_q8).fb,
            wheel::morph_row_on(g, a, app, y_c, f_q8).fb,
            x,
            y,
        ),
{
    if drift_seen(y_c, f_q8) {
        let n = a.icon_s_px as int;
        let (cy, cx) = (drift_y(y_c, f_q8), wheel::icon_x(drift_y(y_c, f_q8), n));
        let al = drift_alpha(y_c, f_q8);
        let (name, left) = (font::codes_of(app.name@), drift_left(a, app, y_c, f_q8));
        let (ox, oy) = (cx - n / 2, cy - n / 2);
        let sh = sprite::icon_shader(app.icon_s@, n, ox, oy, al);
        raster::lemma_shade_len(f.fb, ox, oy, ox + n, oy + n, sh);
        raster::lemma_shade_px(f.fb, ox, oy, ox + n, oy + n, sh, x, y);
        raster::lemma_shade_len(g.fb, ox, oy, ox + n, oy + n, sh);
        raster::lemma_shade_px(g.fb, ox, oy, ox + n, oy + n, sh, x, y);
        let (p, q) = (
            sprite::icon_on(f.fb, app.icon_s@, n, cx, cy, al),
            sprite::icon_on(g.fb, app.icon_s@, n, cx, cy, al),
        );
        wheel_damage::lemma_line_local(p, q, a.text@, name, name.len() as int, left, cy + 11, al, x, y);
    }
}

/// Side, column and row of the flying icon.
pub open spec fn flight(a: WheelAssets, y_c: int, f_q8: int) -> (int, int, int) {
    let pl = a.icon_l_px as int;
    let from = wheel::icon_x(y_c, pl);
    (
        pl + (128 - pl) * f_q8 / 256,
        from + (233 - from) * f_q8 / 256,
        y_c + (210 - y_c) * f_q8 / 256,
    )
}

/// The icon flies from its row, at its size there, straight to the splash slot, and no step
/// takes it back.
pub proof fn lemma_icon_flies(a: WheelAssets, y_c: int, f: int, g: int)
    requires
        0 <= f <= g <= 256,
    ensures
        flight(a, y_c, 0) == (a.icon_l_px as int, wheel::icon_x(y_c, a.icon_l_px as int), y_c),
        flight(a, y_c, 256) == (128int, 233int, 210int),
        between(a.icon_l_px as int, flight(a, y_c, f).0, flight(a, y_c, g).0, 128),
        between(wheel::icon_x(y_c, a.icon_l_px as int), flight(a, y_c, f).1, flight(a, y_c, g).1, 233),
        between(y_c, flight(a, y_c, f).2, flight(a, y_c, g).2, 210),
{
    let pl = a.icon_l_px as int;
    lemma_between(pl, 128, f, g);
    lemma_between(wheel::icon_x(y_c, pl), 233, f, g);
    lemma_between(y_c, 210, f, g);
}

/// From `o` by `a` and `b` to `t`, in this order.
pub open spec fn between(o: int, a: int, b: int, t: int) -> bool {
    if o <= t { o <= a <= b <= t } else { t <= b <= a <= o }
}

proof fn lemma_between(o: int, t: int, f: int, g: int)
    requires
        0 <= f <= g <= 256,
    ensures
        between(o, o + (t - o) * f / 256, o + (t - o) * g / 256, t),
{
    let d = t - o;
    assert(d >= 0 ==> 0 <= d * f && d * f <= d * g && d * g <= d * 256) by (nonlinear_arith)
        requires
            0 <= f <= g <= 256,
    ;
    assert(d <= 0 ==> d * 256 <= d * g && d * g <= d * f && d * f <= 0) by (nonlinear_arith)
        requires
            0 <= f <= g <= 256,
    ;
}

/// The app that opens shows its own large logo: a pixel of the flying icon, off the status
/// line, is that of its extra-large sprite scaled to the flight's size, over what else the
/// frame has there.
pub proof fn lemma_flying_icon_shows(
    f: Frame,
    a: WheelAssets,
    status: Seq<u8>,
    s_px: int,
    focused: int,
    f_q8: int,
    icon_a: int,
    show_status: bool,
    x: int,
    y: int,
)
    requires
        wheel::assets_ok(a),
        wheel_damage::art_fits(a),
        0 <= f_q8 <= 256,
        8 < icon_a <= 256,
        0 <= focused < a.apps@.len(),
        font::width_of(a.text@, status) <= 218,
        raster::has_px(f.fb.len() as int, x, y),
        show_status ==> !wheel_laws::in_status(x, y),
        ({
            let (side, ix, iy) = flight(a, 233 + 68 * focused - s_px, f_q8);
            ix - side / 2 <= x < ix - side / 2 + side && iy - side / 2 <= y < iy - side / 2 + side
        }),
    ensures
        ({
            let (side, ix, iy) = flight(a, 233 + 68 * focused - s_px, f_q8);
            let app = a.apps@[focused];
            let t = sprite::scaled_texel(
                app.icon_x@,
                a.icon_x_px as int,
                side,
                x - (ix - side / 2),
                y - (iy - side / 2),
                false,
            );
            let q = raster::px_at(
                wheel::morph_frame(f, a, status, s_px, focused, f_q8, icon_a, show_status).fb,
                x,
                y,
            );
            let p = raster::px_at(wheel::morph_frame(f, a, status, s_px, focused, f_q8, 0, false).fb, x, y);
            q == (if t < 8 { p } else { sprite::tinted(p, t * icon_a / 256) })
        }),
{
    let n = a.apps@.len() as int;
    let y_c = 233 + 68 * focused - s_px;
    assert(y_c == 233 + focused * 68 - s_px);
    let app = a.apps@[focused];
    lemma_morph_len(f, a, s_px, focused, f_q8, n);
    let f1 = wheel::morph_rows(f, a, s_px, focused, f_q8, n);
    let f2 = wheel::morph_focus_on(f1, a, app, y_c, f_q8, 0);
    lemma_focus_len(f1, a, app, y_c, f_q8);
    let (side, ix, iy) = flight(a, y_c, f_q8);
    let (ox, oy) = (ix - side / 2, iy - side / 2);
    let sh = sprite::scaled_icon_shader(app.icon_x@, a.icon_x_px as int, side, ox, oy, icon_a, false);
    raster::lemma_shade_len(f2.fb, ox, oy, ox + side, oy + side, sh);
    raster::lemma_shade_px(f2.fb, ox, oy, ox + side, oy + side, sh, x, y);
    let f3 = wheel::morph_focus_on(f1, a, app, y_c, f_q8, icon_a);
    assert(f3.fb == raster::shade(f2.fb, ox, oy, ox + side, oy + side, sh));
    wheel_damage::lemma_status_confined(f3.fb, a.text@, status, x, y);
}

proof fn lemma_morph_len(f: Frame, a: WheelAssets, s_px: int, focused: int, f_q8: int, n: int)
    requires
        0 <= n,
    ensures
        wheel::morph_rows(f, a, s_px, focused, f_q8, n).fb.len() == f.fb.len(),
    decreases n,
{
    if n > 0 {
        lemma_morph_len(f, a, s_px, focused, f_q8, n - 1);
        if n - 1 != focused {
            let prev = wheel::morph_rows(f, a, s_px, focused, f_q8, n - 1);
            let app = a.apps@[n - 1];
            let y_c = 233 + (n - 1) * 68 - s_px;
            let ps = a.icon_s_px as int;
            let (cy, cx) = (drift_y(y_c, f_q8), wheel::icon_x(drift_y(y_c, f_q8), ps));
            let al = drift_alpha(y_c, f_q8);
            let (name, left) = (font::codes_of(app.name@), drift_left(a, app, y_c, f_q8));
            let (ox, oy) = (cx - ps / 2, cy - ps / 2);
            raster::lemma_shade_len(
                prev.fb,
                ox,
                oy,
                ox + ps,
                oy + ps,
                sprite::icon_shader(app.icon_s@, ps, ox, oy, al),
            );
            let f1 = sprite::icon_on(prev.fb, app.icon_s@, ps, cx, cy, al);
            wheel_laws::lemma_text_len(f1, a.text@, name, name.len() as int, left, cy + 11, al);
        }
    }
}

proof fn lemma_focus_len(f: Frame, a: WheelAssets, app: WheelApp, y_c: int, f_q8: int)
    ensures
        wheel::morph_focus_on(f, a, app, y_c, f_q8, 0).fb.len() == f.fb.len(),
{
    let pl = a.icon_l_px as int;
    let from = wheel::icon_x(y_c, pl);
    let ga = imath::sclamp(256 - f_q8 * 5 / 2, 0, 256);
    let g = a.glow_ring_px as int;
    let (ox, oy) = (from - g / 2, y_c - g / 2);
    raster::lemma_shade_len(
        f.fb,
        ox,
        oy,
        ox + g,
        oy + g,
        sprite::lut_shader(a.glow_ring@, g, wheel::saber_table(0), ox, oy, ga),
    );
    let f1 = if ga > 8 { wheel::glow_on(f, a, wheel::saber_table(0), from, y_c, ga) } else { f };
    let la = imath::sclamp(256 - f_q8 * 2, 0, 256);
    let name = font::codes_of(app.name@);
    let tw = font::width_of(a.labelf@, name);
    let x = imath::smax(233 - tw / 2, from + pl / 2 + 10);
    wheel_laws::lemma_text_len(f1.fb, a.labelf@, name, name.len() as int, x, y_c + 11, la);
}

/// The neighbours of the app that opens are their own apps: where neighbour `i` alone reaches,
/// the rows show its icon.
pub proof fn lemma_neighbours_show(
    f: Frame,
    a: WheelAssets,
    s_px: int,
    focused: int,
    f_q8: int,
    i: int,
    k: int,
    x: int,
    y: int,
)
    requires
        wheel::assets_ok(a),
        wheel_damage::art_fits(a),
        0 <= f_q8 <= 256,
        0 <= i < a.apps@.len(),
        i != focused,
        raster::has_px(f.fb.len() as int, x, y),
        others_off(a, s_px, focused, f_q8, i, a.apps@.len() as int, x, y),
        drift_seen(233 + 68 * i - s_px, f_q8),
        drift_icon(a, 233 + 68 * i - s_px, f_q8, x, y),
        !drift_label(a, a.apps@[i], 233 + 68 * i - s_px, f_q8, x, y),
    ensures
        ({
            let y_c = 233 + 68 * i - s_px;
            let n = a.icon_s_px as int;
            let (cy, cx) = (drift_y(y_c, f_q8), wheel::icon_x(drift_y(y_c, f_q8), n));
            let t = a.apps@[i].icon_s@[(y - (cy - n / 2)) * n + (x - (cx - n / 2))] as int;
            let p = raster::px_at(f.fb, x, y);
            raster::px_at(wheel::morph_rows(f, a, s_px, focused, f_q8, a.apps@.len() as int).fb, x, y) == (if t < 8 {
                p
            } else {
                sprite::tinted(p, t * drift_alpha(y_c, f_q8) / 256)
            })
        }),
{
    lemma_morph_rows_show(f, a, s_px, focused, f_q8, i, a.apps@.len() as int, x, y);
    lemma_neighbour_shows(f, a, a.apps@[i], 233 + 68 * i - s_px, f_q8, k, x, y);
}

/// The ring's gradient is black at no intensity.
pub proof fn lemma_saber_dark(phase: int)
    requires
        0 <= phase <= 256,
    ensures
        wheel::saber_color(0, phase) == pixel::rgb(0, 0, 0),
{
    assert(0 * wheel::phase_mix(10, 60, phase) == 0);
    assert(0 * wheel::phase_mix(40, 20, phase) == 0);
    assert(0 * wheel::phase_mix(140, 160, phase) == 0);
}

/// Over the phase each stop of the gradient moves from its azure to its violet value.
pub proof fn lemma_saber_phase(a: int, b: int, p: int, q: int)
    requires
        0 <= p <= q <= 256,
        0 <= a <= 255,
        0 <= b <= 255,
    ensures
        wheel::phase_mix(a, b, 0) == a,
        wheel::phase_mix(a, b, 256) == b,
        between(a, wheel::phase_mix(a, b, p), wheel::phase_mix(a, b, q), b),
{
    let d = b - a;
    assert(d >= 0 ==> 0 <= d * p && d * p <= d * q && d * q <= d * 256) by (nonlinear_arith)
        requires
            0 <= p <= q <= 256,
    ;
    assert(d <= 0 ==> d * 256 <= d * q && d * q <= d * p && d * p <= 0) by (nonlinear_arith)
        requires
            0 <= p <= q <= 256,
    ;
    assert(d * 0 == 0);
}

/// Between two stops the gradient runs from the one's value to the other's.
pub proof fn lemma_saber_stops(c0: int, c1: int, c2: int, c3: int)
    requires
        0 <= c0 <= 255,
        0 <= c1 <= 255,
        0 <= c2 <= 255,
        0 <= c3 <= 255,
    ensures
        wheel::saber_channel(0, c0, c1, c2, c3) == 0,
        wheel::saber_channel(72, c0, c1, c2, c3) == c0,
        wheel::saber_channel(160, c0, c1, c2, c3) == c1,
        wheel::saber_channel(216, c0, c1, c2, c3) == c2,
        wheel::saber_channel(255, c0, c1, c2, c3) == c3,
{
    assert(0 * c0 == 0 && 0 * (c1 - c0) == 0 && 0 * (c2 - c1) == 0 && 0 * (c3 - c2) == 0);
}

/// The resting focus ring: its box starts from black, the glow comes through the gradient of
/// the phase, and the large icon of the app in focus stands on it at full strength.
pub proof fn lemma_focus_ring_shows(fb: Seq<u8>, a: WheelAssets, app: WheelApp, phase: int, x: int, y: int)
    requires
        raster::has_px(fb.len() as int, x, y),
        a.glow_ring_px % 2 == 0,
        0 <= a.icon_l_px <= a.glow_ring_px,
    ensures
        ({
            let q = raster::px_at(wheel::ring_on(fb, a, app, phase), x, y);
            let (g, n) = (a.glow_ring_px as int, a.icon_l_px as int);
            let cx = wheel::icon_x(233, n);
            let (gx, gy, ix, iy) = (cx - g / 2, 233 - g / 2, cx - n / 2, 233 - n / 2);
            let glows = gx <= x < gx + g && gy <= y < gy + g;
            let stands = ix <= x < ix + n && iy <= y < iy + n;
            let t = a.glow_ring@[(y - gy) * g + (x - gx)] as int;
            let u = app.icon_l@[(y - iy) * n + (x - ix)] as int;
            let under = if t < 6 {
                (0u8, 0u8)
            } else {
                pixel::lighter(wheel::saber_color(t, phase), (0u8, 0u8))
            };
            &&& !glows ==> q == raster::px_at(fb, x, y)
            &&& glows && (!stands || u < 8) ==> q == under
            &&& glows && stands && u >= 8 ==> q == sprite::tinted(under, u)
        }),
{
    let (g, n) = (a.glow_ring_px as int, a.icon_l_px as int);
    let cx = wheel::icon_x(233, n);
    let s = g / 2;
    let (gx, gy, ix, iy) = (cx - g / 2, 233 - g / 2, cx - n / 2, 233 - n / 2);
    raster::lemma_shade_len(fb, cx - s, 233 - s, cx + s, 233 + s, raster::black());
    raster::lemma_shade_px(fb, cx - s, 233 - s, cx + s, 233 + s, raster::black(), x, y);
    let f1 = raster::shade(fb, cx - s, 233 - s, cx + s, 233 + s, raster::black());
    let lut = wheel::saber_table(phase);
    let ls = sprite::lut_shader(a.glow_ring@, g, lut, gx, gy, 256);
    raster::lemma_shade_len(f1, gx, gy, gx + g, gy + g, ls);
    raster::lemma_shade_px(f1, gx, gy, gx + g, gy + g, ls, x, y);
    let f2 = sprite::lut_sprite_on(f1, a.glow_ring@, g, lut, cx, 233, 256);
    let is = sprite::icon_shader(app.icon_l@, n, ix, iy, 256);
    raster::lemma_shade_px(f2, ix, iy, ix + n, iy + n, is, x, y);
    let t = a.glow_ring@[(y - gy) * g + (x - gx)] as int;
    let u = app.icon_l@[(y - iy) * n + (x - ix)] as int;
    assert(t * 256 / 256 == t && u * 256 / 256 == u);
    assert(0 <= t <= 255);
}

} // verus!
