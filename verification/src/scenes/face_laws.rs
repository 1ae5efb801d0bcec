//! What the time app and the activity rings show.
use vstd::prelude::*;

use crate::font;
use crate::imath;
use crate::pixel;
use crate::raster;
use crate::scenes::activity;
use crate::scenes::app_laws;
use crate::scenes::apps;
use crate::scenes::apps::AppAssets;
use crate::scenes::lock;
use crate::scenes::time_app;
use crate::scenes::time_app::Face;
use crate::scenes::vector;
use crate::scenes::vector::Tint;
use crate::time;
use crate::time::WallTime;

verus! {

/// The time app shows the time on baseline 244 and the date on baseline 298, centred, where
/// one character alone covers the pixel and the other line does not.
pub proof fn lemma_digits_are_shown(fb: Seq<u8>, a: AppAssets, now: WallTime, rise: int, q: int, k: int, x: int, y: int)
    requires
        raster::has_px(fb.len() as int, x, y),
    ensures
        ({
            let (t, d) = (lock::time_codes(now.hour, now.minute), time_app::short_date(now));
            let p = raster::px_at(fb, x, y);
            let o = raster::px_at(time_app::digits_on(fb, a, now, rise, q), x, y);
            let no_time = app_laws::word_clear(a.time@, t, 244 + rise, x, y);
            let no_date = app_laws::word_clear(a.wheel.text@, d, 298 + rise, x, y);
            &&& no_date && app_laws::word_at(a.time@, t, 244 + rise, k, x, y) ==> app_laws::word_shown(
                a.time@,
                t,
                244 + rise,
                q,
                k,
                x,
                y,
                p,
                o,
            )
            &&& no_time && app_laws::word_at(a.wheel.text@, d, 298 + rise, k, x, y) ==> app_laws::word_shown(
                a.wheel.text@,
                d,
                298 + rise,
                150 * q / 256,
                k,
                x,
                y,
                p,
                o,
            )
            &&& no_time && no_date ==> o == p
        }),
{
    let (t, d) = (lock::time_codes(now.hour, now.minute), time_app::short_date(now));
    app_laws::lemma_word(fb, a.time@, t, 244 + rise, q, k, x, y);
    let fb1 = apps::centered_on(fb, a.time@, t, 244 + rise, q);
    app_laws::lemma_word(fb1, a.wheel.text@, d, 298 + rise, 150 * q / 256, k, x, y);
}

/// The short date reads the weekday of the calendar, the day and the month.
pub proof fn lemma_short_date_reads(now: WallTime)
    requires
        now.year >= 1,
        time::valid_date(now.year as int, now.month as int, now.day as int),
    ensures
        ({
            let s = time_app::short_date(now);
            let w = time::weekday_of(time::civil_days(now.year as int, now.month as int, now.day as int));
            let e: int = if now.day < 10 { 5 } else { 6 };
            &&& s.len() == e + 4
            &&& s.take(3) == time_app::weekday_codes(w)
            &&& s[3] == 32 && s[e] == 32
            &&& now.day < 10 ==> s[4] - 48 == now.day
            &&& now.day >= 10 ==> (s[4] - 48) * 10 + (s[5] - 48) == now.day && 48 <= s[5] <= 57
            &&& s.skip(e + 1) == time_app::month_codes(now.month as int)
        }),
{
    time_app::lemma_weekday(now.year as int, now.month as int, now.day as int);
    let s = time_app::short_date(now);
    let w = time_app::weekday_codes(
        time_app::weekday_by_key(now.year as int, now.month as int, now.day as int),
    );
    let m = time_app::month_codes(now.month as int);
    let e: int = if now.day < 10 { 5 } else { 6 };
    assert(s.take(3) =~= w);
    assert(s.skip(e + 1) =~= m);
}

/// Each weekday and each month has its own three letters.
pub proof fn lemma_names_differ(a: int, b: int)
    ensures
        0 <= a < 7 && 0 <= b < 7 && time_app::weekday_codes(a) == time_app::weekday_codes(b) ==> a == b,
        1 <= a <= 12 && 1 <= b <= 12 && time_app::month_codes(a) == time_app::month_codes(b) ==> a == b,
{
    let (p, q) = (time_app::weekday_codes(a), time_app::weekday_codes(b));
    assert(p == q ==> p[0] == q[0] && p[1] == q[1] && p[2] == q[2]);
    let (u, v) = (time_app::month_codes(a), time_app::month_codes(b));
    assert(u == v ==> u[0] == v[0] && u[1] == v[1] && u[2] == v[2]);
}

/// The offset lies well inside a band around the centre: no soft edge.
pub open spec fn in_band(dx: int, dy: int, r_in: int, r_out: int) -> bool {
    r_in * r_in <= dx * dx + dy * dy <= r_out * r_out
}

/// Inside the band the radius is within its limits.
proof fn lemma_band_radius(dx: int, dy: int, r_in: int, r_out: int)
    requires
        0 <= r_in <= r_out,
        in_band(dx, dy, r_in, r_out),
    ensures
        16 * r_in <= vector::radius_q4(dx, dy) <= 16 * r_out,
{
    let d = dx * dx + dy * dy;
    imath::lemma_sqrt_exists(d * 256);
    let r = imath::sqrt_of(d * 256);
    assert(16 * r_in <= r) by (nonlinear_arith)
        requires
            r_in * r_in <= d,
            d * 256 < (r + 1) * (r + 1),
            r >= 0,
            r_in >= 0,
    ;
    assert(r <= 16 * r_out) by (nonlinear_arith)
        requires
            d <= r_out * r_out,
            r * r <= d * 256,
            r >= 0,
            r_out >= 0,
    ;
}

/// A ring arc pixel by pixel: inside the band it has its colour before the end of the sweep,
/// and what was there behind it; far off the band nothing changes.
pub proof fn lemma_ring_arc_px(
    fb: Seq<u8>,
    r_in: int,
    r_out: int,
    sweep: int,
    t: Tint,
    v: int,
    x: int,
    y: int,
)
    requires
        raster::has_px(fb.len() as int, x, y),
        1 <= r_in <= r_out,
    ensures
        ({
            let g = vector::ring_arc_on(fb, 233, 233, r_in, r_out, sweep, t, v);
            let (p, q) = (raster::px_at(fb, x, y), raster::px_at(g, x, y));
            let (dx, dy) = (x - 233, y - 233);
            let before = vector::diamond_angle(dx, dy) < sweep;
            &&& g.len() == fb.len()
            &&& in_band(dx, dy, r_in, r_out) && before ==> q == vector::lit(t, v)
            &&& !before ==> q == p
            &&& dx * dx + dy * dy > (r_out + 1) * (r_out + 1) ==> q == p
            &&& dx * dx + dy * dy < (r_in - 1) * (r_in - 1) ==> q == p
        }),
{
    let sh = vector::ring_shader(233, 233, r_in, r_out, sweep, t, v);
    let o = 233 - r_out - 1;
    raster::lemma_shade_len(fb, o, o, 233 + r_out + 2, 233 + r_out + 2, sh);
    raster::lemma_shade_px(fb, o, o, 233 + r_out + 2, 233 + r_out + 2, sh, x, y);
    let (dx, dy) = (x - 233, y - 233);
    let d = dx * dx + dy * dy;
    if in_band(dx, dy, r_in, r_out) {
        lemma_band_radius(dx, dy, r_in, r_out);
        assert(-r_out <= dx <= r_out && -r_out <= dy <= r_out) by (nonlinear_arith)
            requires
                dx * dx + dy * dy <= r_out * r_out,
                r_out >= 0,
        ;
        assert(d <= (r_out + 1) * (r_out + 1)) by (nonlinear_arith)
            requires
                d <= r_out * r_out,
                r_out >= 0,
        ;
        assert(vector::arc_level(dx, dy, r_in, r_out, v) == v * 16 / 16);
    }
    if d < (r_in - 1) * (r_in - 1) {
        assert(d >= 0) by (nonlinear_arith)
            requires
                d == dx * dx + dy * dy,
        ;
        imath::lemma_sqrt_exists(d * 256);
        let r = imath::sqrt_of(d * 256);
        assert(r < 16 * r_in - 16) by (nonlinear_arith)
            requires
                d < (r_in - 1) * (r_in - 1),
                r * r <= d * 256,
                r >= 0,
                r_in >= 1,
        ;
    }
}

/// A soft glow lightens within its radius and nowhere else.
pub proof fn lemma_soft_px(fb: Seq<u8>, cx: int, cy: int, r: int, t: Tint, peak: int, x: int, y: int)
    requires
        raster::has_px(fb.len() as int, x, y),
        r >= 1,
    ensures
        ({
            let g = vector::soft_on(fb, cx, cy, r, t, peak);
            let (p, q) = (raster::px_at(fb, x, y), raster::px_at(g, x, y));
            let d = (x - cx) * (x - cx) + (y - cy) * (y - cy);
            &&& g.len() == fb.len()
            &&& pixel::as_bright(q, p)
            &&& d > r * r ==> q == p
            &&& d == 0 ==> q == pixel::lighter(p, vector::lit(t, peak))
        }),
{
    let sh = vector::soft_shader(cx, cy, r, t, peak);
    raster::lemma_shade_len(fb, cx - r, cy - r, cx + r + 1, cy + r + 1, sh);
    raster::lemma_shade_px(fb, cx - r, cy - r, cx + r + 1, cy + r + 1, sh, x, y);
    let (dx, dy) = (x - cx, y - cy);
    let d = dx * dx + dy * dy;
    pixel::lemma_lighter(raster::px_at(fb, x, y), vector::lit(t, vector::glow_level(d, r, peak)));
    if d == 0 {
        assert(dx == 0 && dy == 0) by (nonlinear_arith)
            requires
                dx * dx + dy * dy == 0,
        ;
        let s = r * r;
        assert(s >= 1) by (nonlinear_arith)
            requires
                s == r * r,
                r >= 1,
        ;
        assert(peak * s / s == peak) by (nonlinear_arith)
            requires
                s >= 1,
        ;
        assert(peak * (s - 0) / s * (s - 0) / s == peak);
    }
    if d > r * r {
    } else {
        assert(-r <= dx <= r && -r <= dy <= r) by (nonlinear_arith)
            requires
                dx * dx + dy * dy <= r * r,
                r >= 0,
        ;
    }
}

/// The first frame of the seconds arc: off its tip, the rim is azure up to the angle of the
/// second and black beyond it.
pub proof fn lemma_seconds_start(f: Face, w: int, h: int, second: u8, now_ms: u64, x: int, y: int)
    requires
        raster::has_px(f.fb.len() as int, x, y),
        second < 60,
        in_band(x - 233, y - 233, 224, 228),
        off_tip(second as int * 1024 / 60, x, y),
        off_tip(4, x, y),
    ensures
        ({
            let g = time_app::arc_seeded(f, w, h, second, now_ms);
            let a = second as int * 1024 / 60;
            let at = if a < 4 { 4 } else { a };
            &&& raster::px_at(g.fb, x, y) == (if vector::diamond_angle(x - 233, y - 233) < at {
                vector::lit((70, 155, 255), 230)
            } else {
                (0u8, 0u8)
            })
            &&& g.st.t_last_a == at
            &&& g.st.t_sec == second && g.st.t_anchor == Some(now_ms)
        }),
{
    let a = imath::smax(second * 1024 / 60, 4);
    let (tx, ty) = time_app::tip_at(a);
    let fb1 = raster::shade(f.fb, 123, 26, 344, 67, raster::black());
    raster::lemma_shade_len(f.fb, 123, 26, 344, 67, raster::black());
    let fb2 = vector::annulus_cleared(fb1, 222, 230);
    lemma_annulus(fb1, x, y);
    lemma_ring_arc_px(fb2, 224, 228, a, (70, 155, 255), 230, x, y);
    let fb3 = vector::ring_arc_on(fb2, 233, 233, 224, 228, a, (70, 155, 255), 230);
    lemma_soft_px(fb3, tx, ty, 9, (70, 155, 255), 210, x, y);
}

/// The pixel lies off the glow of the arc's tip at angle `a`.
pub open spec fn off_tip(a: int, x: int, y: int) -> bool {
    let (tx, ty) = time_app::tip_at(a);
    (x - tx) * (x - tx) + (y - ty) * (y - ty) > 81
}

proof fn lemma_annulus(fb: Seq<u8>, x: int, y: int)
    requires
        raster::has_px(fb.len() as int, x, y),
        in_band(x - 233, y - 233, 224, 228),
    ensures
        vector::annulus_cleared(fb, 222, 230).len() == fb.len(),
        raster::px_at(vector::annulus_cleared(fb, 222, 230), x, y) == (0u8, 0u8),
{
    let sh = vector::annulus_shader(222, 230);
    raster::lemma_shade_len(fb, 2, 2, 465, 465, sh);
    raster::lemma_shade_px(fb, 2, 2, 465, 465, sh, x, y);
    let (dx, dy) = (x - 233, y - 233);
    assert(-228 <= dx <= 228 && -228 <= dy <= 228) by (nonlinear_arith)
        requires
            dx * dx + dy * dy <= 228 * 228,
    ;
    if imath::sabs(dy) < 221 {
        let v = 221 * 221 - dy * dy;
        assert(v > 0) by (nonlinear_arith)
            requires
                -221 < dy < 221,
                v == 221 * 221 - dy * dy,
        ;
        imath::lemma_sqrt_exists(v);
        let r = imath::sqrt_of(v);
        let ax = imath::sabs(dx);
        assert(ax * ax == dx * dx) by (nonlinear_arith)
            requires
                ax == dx || ax == -dx,
        ;
        assert(r <= ax) by (nonlinear_arith)
            requires
                r * r <= v,
                v == 221 * 221 - dy * dy,
                ax * ax == dx * dx,
                224 * 224 <= dx * dx + dy * dy,
                ax >= 0,
        ;
    }
}

/// The arc as it moves on: inside the tip it leaves and the tip it enters, off the new tip's
/// glow, the rim is azure up to the new angle; behind it the tip it left is black.
pub proof fn lemma_seconds_move(f: Face, w: int, h: int, a: int, x: int, y: int)
    requires
        raster::has_px(f.fb.len() as int, x, y),
        f.st.t_last_a < a,
        0 <= a <= 1023,
        in_band(x - 233, y - 233, 224, 228),
        off_tip(a, x, y),
    ensures
        ({
            let g = time_app::arc_moved(f, w, h, a);
            let (o, n) = (f.st.t_tip, time_app::tip_area(a));
            let before = vector::diamond_angle(x - 233, y - 233) < a;
            let (was, is) = (
                o.0 <= x <= o.2 && o.1 <= y <= o.3,
                n.0 <= x <= n.2 && n.1 <= y <= n.3,
            );
            let q = raster::px_at(g.fb, x, y);
            &&& (was || is) && before ==> q == vector::lit((70, 155, 255), 230)
            &&& was && !before ==> q == (0u8, 0u8)
            &&& !was && !(is && before) ==> q == raster::px_at(f.fb, x, y)
            &&& g.st.t_last_a == a
        }),
{
    let o = f.st.t_tip;
    let n = time_app::tip_area(a);
    let (tx, ty) = time_app::tip_at(a);
    let (x0, y0, x1, y1) = (o.0 as int, o.1 as int, o.2 + 1, o.3 + 1);
    let fb1 = raster::shade(f.fb, x0, y0, x1, y1, raster::black());
    raster::lemma_shade_len(f.fb, x0, y0, x1, y1, raster::black());
    raster::lemma_shade_px(f.fb, x0, y0, x1, y1, raster::black(), x, y);
    let sh = vector::arc_shader(224, 228, a, (70, 155, 255), 230);
    raster::lemma_shade_len(fb1, x0, y0, x1, y1, sh);
    raster::lemma_shade_px(fb1, x0, y0, x1, y1, sh, x, y);
    let fb2 = vector::arc_in_rect_on(fb1, 224, 228, a, (70, 155, 255), 230, o);
    raster::lemma_shade_len(fb2, n.0 as int, n.1 as int, n.2 + 1, n.3 + 1, sh);
    raster::lemma_shade_px(fb2, n.0 as int, n.1 as int, n.2 + 1, n.3 + 1, sh, x, y);
    let fb3 = vector::arc_in_rect_on(fb2, 224, 228, a, (70, 155, 255), 230, n);
    lemma_soft_px(fb3, tx, ty, 9, (70, 155, 255), 210, x, y);
    lemma_band_radius(x - 233, y - 233, 224, 228);
    assert(vector::arc_level(x - 233, y - 233, 224, 228, 230) == 230 * 16 / 16);
}

/// A smaller angle begins the next minute: the rim is wiped.
pub proof fn lemma_minute_wraps(f: Face, w: int, h: int, a: int, x: int, y: int)
    requires
        raster::has_px(f.fb.len() as int, x, y),
        a < f.st.t_last_a,
        in_band(x - 233, y - 233, 224, 228),
    ensures
        raster::px_at(time_app::arc_moved(f, w, h, a).fb, x, y) == (0u8, 0u8),
        time_app::arc_moved(f, w, h, a).st.t_last_a == 0,
{
    lemma_annulus(f.fb, x, y);
}

/// The arc goes round once a minute, evenly, after a stub at its start.
pub proof fn lemma_arc_pace(ms: int)
    requires
        0 <= ms < 60_000,
    ensures
        ({
            let a = time_app::arc_angle(ms);
            &&& 4 <= a <= 1023
            &&& a > 4 ==> a * 60_000 <= ms * 1024 < (a + 1) * 60_000
            &&& a == 4 ==> ms * 1024 < 5 * 60_000
        }),
{
}

/// The rings of the activity app keep to their own bands.
pub proof fn lemma_ring_bands(i: int, j: int)
    requires
        0 <= i < j < 3,
    ensures
        activity::ring_of(i).rc - 9 > activity::ring_of(j).rc + 9,
        activity::ring_of(j).rc - 9 > 0,
        activity::ring_of(i).tint != activity::ring_of(j).tint,
{
}

/// The rings sweep in one after the other, never back, each to its share of a turn.
pub proof fn lemma_rings_sweep_in(i: int, p: int, q: int)
    requires
        0 <= i < 3,
        p <= q <= 256,
    ensures
        ({
            let full = activity::full_sweep(activity::ring_of(i));
            let (s, t) = (activity::reveal_sweep(i, p), activity::reveal_sweep(i, q));
            &&& 0 <= s <= t <= full
            &&& p <= 36 * i ==> s == 0
            &&& q >= 36 * i + 184 ==> t == full
            &&& full * 100 <= activity::ring_of(i).closure * 1024 < (full + 1) * 100
        }),
{
    let full = activity::full_sweep(activity::ring_of(i));
    let (u, v) = (
        imath::sclamp((p - i * 36) * 256 / 184, 0, 256),
        imath::sclamp((q - i * 36) * 256 / 184, 0, 256),
    );
    assert(0 <= u <= v <= 256);
    assert(0 <= full * u <= full * v && full * v <= full * 256) by (nonlinear_arith)
        requires
            0 <= full,
            0 <= u <= v <= 256,
    ;
}

/// Each ring is shown in its own colour: a pixel inside the band of ring `i` before the end of
/// its sweep is at least as light as its tint.
pub proof fn lemma_rings_are_shown(fb: Seq<u8>, q: int, i: int, n: int, x: int, y: int)
    requires
        raster::has_px(fb.len() as int, x, y),
        0 <= i < n <= 3,
        in_band(x - 233, y - 233, activity::ring_of(i).rc - 8, activity::ring_of(i).rc + 8),
        vector::diamond_angle(x - 233, y - 233) < activity::reveal_sweep(i, q),
    ensures
        activity::rings_on(fb, q, n).len() == fb.len(),
        pixel::as_bright(
            raster::px_at(activity::rings_on(fb, q, n), x, y),
            vector::lit(activity::ring_of(i).tint, 230),
        ),
    decreases n,
{
    let prev = activity::rings_on(fb, q, n - 1);
    let r = activity::ring_of(n - 1);
    let s = activity::reveal_sweep(n - 1, q);
    if i < n - 1 {
        lemma_rings_are_shown(fb, q, i, n - 1, x, y);
    } else {
        lemma_rings_len(fb, q, n - 1, x, y);
        vector::lemma_diamond_range(x - 233, y - 233);
    }
    if s > 0 {
        let rc = r.rc as int;
        lemma_ring_arc_px(prev, rc - 8, rc + 8, s, r.tint, 230, x, y);
        let fb1 = vector::ring_arc_on(prev, 233, 233, rc - 8, rc + 8, s, r.tint, 230);
        app_laws::lemma_cap_px(fb1, 233, 233 - rc, 8, r.tint, 230, x, y);
        let fb2 = vector::cap_on(fb1, 233, 233 - rc, 8, r.tint, 230);
        let (px, py) = activity::ring_point(rc, s);
        app_laws::lemma_cap_px(fb2, px, py, 8, r.tint, 230, x, y);
        if i < n - 1 {
            lemma_ring_bands(i, n - 1);
            let (dx, dy) = (x - 233, y - 233);
            let d = dx * dx + dy * dy;
            let (big, small) = (activity::ring_of(i).rc - 8, rc + 9);
            assert(d > small * small) by (nonlinear_arith)
                requires
                    d >= big * big,
                    big > small,
                    small >= 0,
            ;
        }
    }
}

proof fn lemma_rings_len(fb: Seq<u8>, q: int, n: int, x: int, y: int)
    requires
        raster::has_px(fb.len() as int, x, y),
        0 <= n <= 3,
    ensures
        activity::rings_on(fb, q, n).len() == fb.len(),
    decreases n,
{
    if n > 0 {
        lemma_rings_len(fb, q, n - 1, x, y);
        let prev = activity::rings_on(fb, q, n - 1);
        let r = activity::ring_of(n - 1);
        let s = activity::reveal_sweep(n - 1, q);
        if s > 0 {
            let rc = r.rc as int;
            lemma_ring_arc_px(prev, rc - 8, rc + 8, s, r.tint, 230, x, y);
            let fb1 = vector::ring_arc_on(prev, 233, 233, rc - 8, rc + 8, s, r.tint, 230);
            app_laws::lemma_cap_px(fb1, 233, 233 - rc, 8, r.tint, 230, x, y);
            let fb2 = vector::cap_on(fb1, 233, 233 - rc, 8, r.tint, 230);
            let (px, py) = activity::ring_point(rc, s);
            app_laws::lemma_cap_px(fb2, px, py, 8, r.tint, 230, x, y);
        }
    }
}

/// The step count and its unit stand in the middle of the rings, where nothing else is drawn.
pub proof fn lemma_steps_are_shown(fb: Seq<u8>, a: AppAssets, q: int, rise: int, k: int, x: int, y: int)
    requires
        raster::has_px(fb.len() as int, x, y),
    ensures
        ({
            let (t, u) = (font::codes_of("6 412"@), font::codes_of("steps"@));
            let p = raster::px_at(activity::rings_on(fb, q, 3), x, y);
            let o = raster::px_at(activity::activity_on(fb, a, q, rise), x, y);
            let no_count = app_laws::word_clear(a.wheel.labelf@, t, 248 + rise, x, y);
            let no_unit = app_laws::word_clear(a.wheel.text@, u, 284 + rise, x, y);
            &&& no_unit && app_laws::word_at(a.wheel.labelf@, t, 248 + rise, k, x, y) ==> app_laws::word_shown(
                a.wheel.labelf@,
                t,
                248 + rise,
                q,
                k,
                x,
                y,
                p,
                o,
            )
            &&& no_count && app_laws::word_at(a.wheel.text@, u, 284 + rise, k, x, y) ==> app_laws::word_shown(
                a.wheel.text@,
                u,
                284 + rise,
                102 * q / 256,
                k,
                x,
                y,
                p,
                o,
            )
            &&& no_count && no_unit ==> o == p
        }),
{
    let (t, u) = (font::codes_of("6 412"@), font::codes_of("steps"@));
    lemma_rings_len(fb, q, 3, x, y);
    let fb0 = activity::rings_on(fb, q, 3);
    app_laws::lemma_word(fb0, a.wheel.labelf@, t, 248 + rise, q, k, x, y);
    let fb1 = apps::centered_on(fb0, a.wheel.labelf@, t, 248 + rise, q);
    app_laws::lemma_word(fb1, a.wheel.text@, u, 284 + rise, 102 * q / 256, k, x, y);
}

/// A tick of the time app: the first one starts the arc at the second; a later one shows the
/// minute, keeps the second, and leads the arc to the time within the minute, or clears it
/// where the minute has wrapped.
pub proof fn lemma_time_ticks(f: Face, a: AppAssets, w: int, h: int, now: WallTime, now_ms: u64)
    requires
        now.second < 60,
        f.st.t_anchor matches Some(t0) ==> t0 <= now_ms,
        0 <= f.st.t_last_a <= 1023,
    ensures
        ({
            let g = time_app::time_ticked(f, a, w, h, now, now_ms);
            let since = if f.st.t_sec != now.second { 0 } else { now_ms - f.st.t_anchor->0 };
            let ms = now.second * 1000 + (if since < 999 { since } else { 999 });
            let to = time_app::arc_angle(ms);
            &&& g.st.t_sec == now.second
            &&& f.st.t_anchor is None || f.st.t_sec != now.second ==> g.st.t_anchor == Some(now_ms)
            &&& f.st.t_anchor is Some && f.st.t_sec == now.second ==> g.st.t_anchor == f.st.t_anchor
            &&& f.st.t_anchor is Some ==> g.st.t_min == now.minute
            &&& f.st.t_anchor is Some ==> g.st.t_last_a == (if to < f.st.t_last_a { 0 } else { to })
        }),
{
    if let Some(t0) = f.st.t_anchor {
        let since = if f.st.t_sec != now.second { 0 } else { now_ms - t0 };
        time_app::lemma_arc_angle(0, now.second * 1000 + imath::smin(since, 999));
    }
}

/// A new minute repaints the digits from black, in their box; in the same minute nothing there
/// is touched.
pub proof fn lemma_minute_repaints(f: Face, a: AppAssets, w: int, h: int, now: WallTime, k: int, x: int, y: int)
    requires
        raster::has_px(f.fb.len() as int, x, y),
        63 <= x < 404,
        150 <= y < 311,
    ensures
        ({
            let (t, d) = (lock::time_codes(now.hour, now.minute), time_app::short_date(now));
            let g = time_app::minute_shown(f, a, w, h, now);
            let q = raster::px_at(g.fb, x, y);
            let no_time = app_laws::word_clear(a.time@, t, 244, x, y);
            let no_date = app_laws::word_clear(a.wheel.text@, d, 298, x, y);
            let fresh = f.st.t_min != now.minute;
            &&& !fresh ==> g == f
            &&& fresh && no_time && no_date ==> q == (0u8, 0u8)
            &&& fresh && no_date && app_laws::word_at(a.time@, t, 244, k, x, y) ==> app_laws::word_shown(
                a.time@,
                t,
                244,
                256,
                k,
                x,
                y,
                (0u8, 0u8),
                q,
            )
            &&& fresh && no_time && app_laws::word_at(a.wheel.text@, d, 298, k, x, y) ==> app_laws::word_shown(
                a.wheel.text@,
                d,
                298,
                150,
                k,
                x,
                y,
                (0u8, 0u8),
                q,
            )
        }),
{
    let fb = raster::shade(f.fb, 63, 150, 404, 311, raster::black());
    raster::lemma_shade_len(f.fb, 63, 150, 404, 311, raster::black());
    raster::lemma_shade_px(f.fb, 63, 150, 404, 311, raster::black(), x, y);
    lemma_digits_are_shown(fb, a, now, 0, 256, k, x, y);
}

/// The three rings close to 82, 64 and 91 hundredths of a turn, from the outermost in.
pub proof fn lemma_ring_goals(i: int)
    requires
        0 <= i < 3,
    ensures
        ({
            let full = activity::full_sweep(activity::ring_of(i));
            &&& i == 0 ==> 100 * full <= 82 * 1024 < 100 * (full + 1)
            &&& i == 1 ==> 100 * full <= 64 * 1024 < 100 * (full + 1)
            &&& i == 2 ==> 100 * full <= 91 * 1024 < 100 * (full + 1)
        }),
{
}

} // verus!
