//! What a finger does to the wheel, in terms of where and when it was.
use vstd::prelude::*;

use crate::input::gesture_laws;
use crate::input::gestures;
use crate::input::gestures::{GestureEvent, SwipeDir};
use crate::motion;
use crate::motion::{Coast, CoastEvent, CoastFrame, Direct, DirectSession};

verus! {

/// A distance over a time has one speed.
proof fn lemma_speed_unique(v: int, px: int, ms: int)
    requires
        0 <= ms < 0x8000_0000,
        gesture_laws::is_speed(v, px, ms),
    ensures
        v == gestures::speed_q8(px, ms),
{
    gesture_laws::lemma_speed(px, ms);
    let w = gestures::speed_q8(px, ms);
    let d = if ms < 1 { 1 } else { ms };
    assert(v == w) by (nonlinear_arith)
        requires
            d >= 1,
            px >= 0 ==> v * d <= 256 * px < (v + 1) * d && w * d <= 256 * px < (w + 1) * d,
            px <= 0 ==> (v - 1) * d < 256 * px <= v * d && (w - 1) * d < 256 * px <= w * d,
    ;
}

/// Time between two samples, at least the 5 ms that a velocity needs.
pub open spec fn step_ms(later: u32, earlier: u32) -> int {
    let ms = gestures::since(later, earlier);
    if ms < 5 { 5 } else { ms }
}

/// The session's samples are in order of time.
pub open spec fn timely(d: DirectSession) -> bool {
    gestures::since(d.t1, d.t0) < 0x8000_0000 && gestures::since(d.t2, d.t1) < 0x8000_0000
}

/// Duration of a press, at least 5 ms.
pub open spec fn press_ms(held: u32) -> int {
    if held < 5 { 5 } else { held as int }
}

/// What a lift-off is: a tap where the finger left when it was short and stayed within 13
/// pixels; else nothing while the finger never left the jitter threshold, and nothing either
/// when it was held and paused before it lifted; else a fling when a quick press moved at all,
/// or when the last stretch was fast enough.
pub proof fn lemma_release_kind(d: DirectSession, held: u32, now: u32)
    requires
        motion::session_ok(d),
        timely(d),
    ensures
        ({
            let r = motion::session_end(d, held, now);
            let tap = d.max_disp <= 13 && held < 350;
            let along = (d.y0 <= d.y1 && d.y1 < d.y2) || (d.y0 >= d.y1 && d.y1 > d.y2);
            let far = if d.y2 >= d.y1 { d.y2 - d.y1 } else { d.y1 - d.y2 };
            let paused = gestures::since(now, d.t2) > 50;
            &&& tap <==> r is Tap
            &&& r matches Direct::Tap { y } ==> y == d.last_y
            &&& r matches Direct::Fling { held_ms, raw } ==> held_ms == held && raw != 0
            &&& !tap && !d.gate_open ==> r is Rest
            &&& !tap && held > 180 && paused ==> r is Rest
            &&& !tap && d.gate_open && held <= 180 && d.origin_y != d.last_y ==> r is Fling
            &&& !tap && d.gate_open && !paused && along && 256 * far >= 2 * step_ms(d.t2, d.t1) ==> r is Fling
        }),
{
    lemma_segments(d);
    if held <= 180 {
        lemma_mean(d, held);
    }
    lemma_session_speed_fits(d, held, now);
    let (va, vb) = segment_speeds(d);
    let far = if d.y2 >= d.y1 { d.y2 - d.y1 } else { d.y1 - d.y2 };
    let dt = step_ms(d.t2, d.t1);
    if 256 * far >= 2 * dt {
        assert(vb >= 2 || vb <= -2) by (nonlinear_arith)
            requires
                256 * far >= 2 * dt,
                dt >= 5,
                d.y1 - d.y2 >= 0 ==> far == d.y1 - d.y2 && vb >= 0 && 256 * (d.y1 - d.y2) < (vb + 1) * dt,
                d.y1 - d.y2 <= 0 ==> far == d.y2 - d.y1 && vb <= 0 && (vb - 1) * dt < 256 * (d.y1 - d.y2),
        ;
    }
}

spec fn segment_speeds(d: DirectSession) -> (int, int) {
    (
        gestures::speed_q8(d.y0 - d.y1, step_ms(d.t1, d.t0)),
        gestures::speed_q8(d.y1 - d.y2, step_ms(d.t2, d.t1)),
    )
}

proof fn lemma_segments(d: DirectSession)
    requires
        timely(d),
    ensures
        gesture_laws::is_speed(segment_speeds(d).0, d.y0 - d.y1, step_ms(d.t1, d.t0)),
        gesture_laws::is_speed(segment_speeds(d).1, d.y1 - d.y2, step_ms(d.t2, d.t1)),
{
    gesture_laws::lemma_speed(d.y0 - d.y1, step_ms(d.t1, d.t0));
    gesture_laws::lemma_speed(d.y1 - d.y2, step_ms(d.t2, d.t1));
}

spec fn mean_speed(d: DirectSession, held: u32) -> int {
    gestures::speed_q8(d.origin_y - d.last_y, press_ms(held))
}

proof fn lemma_mean(d: DirectSession, held: u32)
    requires
        held <= 180,
    ensures
        gesture_laws::is_speed(mean_speed(d, held), d.origin_y - d.last_y, press_ms(held)),
        d.origin_y > d.last_y ==> mean_speed(d, held) >= 1,
        d.origin_y < d.last_y ==> mean_speed(d, held) <= -1,
{
    gesture_laws::lemma_speed(d.origin_y - d.last_y, press_ms(held));
    let (m, t, px) = (mean_speed(d, held), press_ms(held), d.origin_y - d.last_y);
    if px > 0 {
        assert(m >= 1) by (nonlinear_arith)
            requires
                256 * px < (m + 1) * t,
                px >= 1,
                5 <= t <= 180,
        ;
    }
    if px < 0 {
        assert(m <= -1) by (nonlinear_arith)
            requires
                (m - 1) * t < 256 * px,
                px <= -1,
                5 <= t <= 180,
        ;
    }
}

proof fn lemma_session_speed_fits(d: DirectSession, held: u32, now: u32)
    requires
        motion::session_ok(d),
        timely(d),
    ensures
        -0x7fff_ffff <= motion::session_speed(d, held as int, now) <= 0x7fff_ffff,
{
    lemma_segments(d);
    lemma_bounded(segment_speeds(d).0, d.y0 - d.y1, step_ms(d.t1, d.t0));
    lemma_bounded(segment_speeds(d).1, d.y1 - d.y2, step_ms(d.t2, d.t1));
    if held <= 180 {
        lemma_mean(d, held);
        lemma_bounded(mean_speed(d, held), d.origin_y - d.last_y, press_ms(held));
    }
}

proof fn lemma_bounded(v: int, px: int, ms: int)
    requires
        gesture_laws::is_speed(v, px, ms),
        -65_535 <= px <= 65_535,
        ms >= 5,
    ensures
        -3_355_392 <= v <= 3_355_392,
{
    assert(-3_355_392 <= v <= 3_355_392) by (nonlinear_arith)
        requires
            px >= 0 ==> v >= 0 && v * ms <= 256 * px,
            px <= 0 ==> v <= 0 && 256 * px <= v * ms,
            -65_535 <= px <= 65_535,
            ms >= 5,
    ;
}

/// A fling goes the way the finger went: backwards through the list when its samples run down
/// the panel, forwards when they run up.
pub proof fn lemma_fling_direction(d: DirectSession, held: u32, now: u32)
    requires
        motion::session_ok(d),
        timely(d),
    ensures
        ({
            let r = motion::session_end(d, held, now);
            &&& d.y0 <= d.y1 <= d.y2 && (held <= 180 ==> d.origin_y <= d.last_y) ==> (r matches Direct::Fling {
                raw,
                ..
            } ==> raw < 0)
            &&& d.y0 >= d.y1 >= d.y2 && (held <= 180 ==> d.origin_y >= d.last_y) ==> (r matches Direct::Fling {
                raw,
                ..
            } ==> raw > 0)
        }),
{
    lemma_segments(d);
    if held <= 180 {
        lemma_mean(d, held);
    }
    lemma_session_speed_fits(d, held, now);
}

/// The session with every position mirrored about a row of the panel.
pub open spec fn mirrored(d: DirectSession, twice: int) -> DirectSession {
    DirectSession {
        anchor_y: (twice - d.anchor_y) as i32,
        origin_y: (twice - d.origin_y) as i32,
        last_y: (twice - d.last_y) as i32,
        y0: (twice - d.y0) as i32,
        y1: (twice - d.y1) as i32,
        y2: (twice - d.y2) as i32,
        ..d
    }
}

/// The mirrored session releases with the opposite velocity. Left out are a last stretch after
/// a standstill, and one that the stretch before it cancels: from those only an upward one
/// gains speed.
pub proof fn lemma_release_mirrors(d: DirectSession, twice: int, held: u32, now: u32, va: int, vb: int)
    requires
        motion::session_ok(d),
        motion::session_ok(mirrored(d, twice)),
        timely(d),
        -200_000 <= twice <= 200_000,
        gesture_laws::is_speed(va, d.y0 - d.y1, step_ms(d.t1, d.t0)),
        gesture_laws::is_speed(vb, d.y1 - d.y2, step_ms(d.t2, d.t1)),
        vb != 0 ==> va != 0 && !(-3 < 2 * vb + va < 3),
    ensures
        match motion::session_end(d, held, now) {
            Direct::Fling { raw, held_ms } => motion::session_end(mirrored(d, twice), held, now) == (Direct::Fling {
                raw: (-raw) as i32,
                held_ms,
            }),
            Direct::Rest => motion::session_end(mirrored(d, twice), held, now) is Rest,
            Direct::Tap { y } => motion::session_end(mirrored(d, twice), held, now) == (Direct::Tap {
                y: (twice - y) as i32,
            }),
        },
{
    let m = mirrored(d, twice);
    let (dt_a, dt_b) = (step_ms(d.t1, d.t0), step_ms(d.t2, d.t1));
    lemma_speed_unique(va, d.y0 - d.y1, dt_a);
    lemma_speed_unique(vb, d.y1 - d.y2, dt_b);
    lemma_speed_odd(d.y0 - d.y1, dt_a);
    lemma_speed_odd(d.y1 - d.y2, dt_b);
    lemma_release_odd(va, vb, motion::signed_ms(dt_b));
    assert(m.y0 - m.y1 == -(d.y0 - d.y1));
    assert(m.y1 - m.y2 == -(d.y1 - d.y2));
    lemma_session_speed_fits(d, held, now);
    lemma_session_odd(d, m, held, now);
    assert(m.max_disp == d.max_disp && m.gate_open == d.gate_open);
}

proof fn lemma_session_odd(d: DirectSession, m: DirectSession, held: u32, now: u32)
    requires
        m.t0 == d.t0 && m.t1 == d.t1 && m.t2 == d.t2,
        m.origin_y - m.last_y == -(d.origin_y - d.last_y),
        segment_release(m) == -segment_release(d),
    ensures
        motion::session_speed(m, held as int, now) == -motion::session_speed(d, held as int, now),
{
    if held <= 180 {
        lemma_speed_odd(d.origin_y - d.last_y, press_ms(held));
        lemma_mean(d, held);
        lemma_mean(m, held);
    }
}

spec fn segment_release(d: DirectSession) -> int {
    motion::release_speed(segment_speeds(d).0, segment_speeds(d).1, motion::signed_ms(step_ms(d.t2, d.t1)))
}

proof fn lemma_release_odd(va: int, vb: int, dt: int)
    requires
        vb != 0 ==> va != 0 && !(-3 < 2 * vb + va < 3),
    ensures
        motion::release_speed(-va, -vb, dt) == -motion::release_speed(va, vb, dt),
{
}

proof fn lemma_speed_odd(px: int, ms: int)
    requires
        0 <= ms < 0x8000_0000,
    ensures
        gestures::speed_q8(-px, ms) == -gestures::speed_q8(px, ms),
{
    let d = if ms < 1 { 1 } else { ms };
    assert(0int / d == 0) by (nonlinear_arith)
        requires
            d >= 1,
    ;
}

/// The size of a release: an even motion held for longer leaves with just its speed; a quick
/// flick leaves with at least one and a half times its mean speed; and no release is faster
/// than one and a half times the fastest of its mean and its last two stretches.
pub proof fn lemma_release_size(d: DirectSession, held: u32, now: u32, raw: int, va: int, vb: int, m: int)
    requires
        motion::session_ok(d),
        timely(d),
        motion::session_end(d, held, now) matches Direct::Fling { raw: r, .. } && r == raw,
        gesture_laws::is_speed(va, d.y0 - d.y1, step_ms(d.t1, d.t0)),
        gesture_laws::is_speed(vb, d.y1 - d.y2, step_ms(d.t2, d.t1)),
        gesture_laws::is_speed(m, d.origin_y - d.last_y, press_ms(held)),
        held < 0x8000_0000,
    ensures
        ({
            let size = |v: int| if v < 0 { -v } else { v };
            let top = if size(va) > size(vb) { size(va) } else { size(vb) };
            &&& held > 180 && va == vb ==> raw == vb
            &&& held > 180 ==> 2 * size(raw) <= 3 * top
            &&& held <= 180 && ((d.y0 <= d.y1 <= d.y2 && d.origin_y <= d.last_y) || (d.y0 >= d.y1 >= d.y2
                && d.origin_y >= d.last_y)) ==> 2 * size(raw) + 1 >= 3 * size(m)
            &&& 2 * size(raw) <= 3 * size(m) || 2 * size(raw) <= 3 * top
        }),
{
    lemma_speed_unique(va, d.y0 - d.y1, step_ms(d.t1, d.t0));
    lemma_speed_unique(vb, d.y1 - d.y2, step_ms(d.t2, d.t1));
    lemma_speed_unique(m, d.origin_y - d.last_y, press_ms(held));
    lemma_session_speed_fits(d, held, now);
}

/// A report moves the samples on where it is a new row, tells the finger's row and how far it
/// ever was from touch-down, and opens the threshold for good.
pub proof fn lemma_report(d: DirectSession, y: int, pressed: bool, now: u32)
    requires
        motion::session_ok(d),
        0 <= y <= 65_535,
    ensures
        ({
            let n = motion::session_after(d, y, pressed, now);
            let off = if y >= d.origin_y { y - d.origin_y } else { d.origin_y - y };
            &&& n.last_y == y
            &&& n.origin_y == d.origin_y && n.anchor_s == d.anchor_s
            &&& n.max_disp >= d.max_disp && n.max_disp >= off && (n.max_disp == d.max_disp || n.max_disp == off)
            &&& y != d.last_y ==> n.y2 == y && n.t2 == now && n.y1 == d.y2 && n.t1 == d.t2 && n.y0 == d.y1 && n.t0
                == d.t1
            &&& y == d.last_y ==> n.y2 == d.y2 && n.t2 == d.t2 && n.y1 == d.y1 && n.t1 == d.t1 && n.y0 == d.y0
                && n.t0 == d.t0
            &&& n.gate_open == (d.gate_open || off > 6)
            &&& !pressed ==> n.target == d.target
        }),
{
}

/// One pixel of the finger is one pixel of the wheel: between two pressed reports past the
/// threshold the target moves by just what the finger moved, upwards being forwards.
pub proof fn lemma_one_to_one(d: DirectSession, y: int, z: int, now: u32, later: u32)
    requires
        motion::session_ok(d),
        0 <= y <= 65_535,
        0 <= z <= 65_535,
        d.gate_open,
    ensures
        ({
            let a = motion::session_after(d, y, true, now);
            let b = motion::session_after(a, z, true, later);
            b.target - a.target == (y - z) * 256
        }),
{
}

/// Distance between two offsets.
pub open spec fn apart(a: int, b: int) -> int {
    if a >= b { a - b } else { b - a }
}

/// The nearest resting offset is a row of the list, and no row is nearer.
pub proof fn lemma_nearest_is_nearest(s: int, rows: int, k: int)
    requires
        rows >= 1,
        0 <= k < rows,
    ensures
        motion::nearest(s, rows) % 17_408 == 0,
        0 <= motion::nearest(s, rows) <= (rows - 1) * 17_408,
        apart(motion::nearest(s, rows), s) <= apart(k * 17_408, s),
{
}

/// A slow release goes to the row nearest to it. A definite one goes to the row nearest to
/// where 112 ms more would take it, as far as the list goes, but at least one row on. The
/// faster, the farther.
pub proof fn lemma_release_goes_to(s: int, v: int, w: int, rows: int, k: int)
    requires
        rows >= 1,
        0 <= k < rows,
        v <= w,
    ensures
        ({
            let last = (rows - 1) * 17_408;
            let stop = if s + v * 112 < 0 { 0 } else if s + v * 112 > last { last } else { s + v * 112 };
            let t = motion::aim(s, v, rows);
            let near = motion::nearest(s, rows);
            &&& -77 < v < 77 ==> apart(t, s) <= apart(k * 17_408, s)
            &&& v >= 77 || v <= -77 ==> apart(t, stop) <= apart(k * 17_408, stop) || t == near + 17_408 || t == near
                - 17_408 || t == near
            &&& (v >= 77 || v <= -77) && apart(stop, near) > 8_704 ==> apart(t, stop) <= apart(k * 17_408, stop)
            &&& v >= 77 && near < last && 0 <= s <= last ==> t >= near + 17_408
            &&& v <= -77 && near > 0 && 0 <= s <= last ==> t <= near - 17_408
            &&& 0 <= s <= last ==> t <= motion::aim(s, w, rows)
        }),
{
    lemma_nearest_is_nearest(s, rows, k);
    let last = (rows - 1) * 17_408;
    let stop = if s + v * 112 < 0 { 0 } else if s + v * 112 > last { last } else { s + v * 112 };
    lemma_nearest_is_nearest(stop, rows, k);
    motion::lemma_flick_advances(s, v, rows);
    motion::lemma_flick_advances(s, w, rows);
    motion::lemma_aim_is_row(s, v, rows);
    motion::lemma_aim_is_row(s, w, rows);
}

/// The focused row is the one whose resting offset is nearest, and the row under a finger is
/// the one whose band of 68 pixels the finger is in; past the ends, the last one.
pub proof fn lemma_rows_on_panel(s: int, y: int, rows: int, k: int)
    requires
        rows >= 1,
        0 <= k < rows,
    ensures
        s >= 0 ==> motion::focused(s, rows) * 17_408 == motion::nearest(s, rows),
        0 <= motion::focused(s, rows) < rows,
        0 <= motion::tapped(y, s, rows) < rows,
        ({
            let centre = 233 + 68 * k - s / 256;
            &&& centre - 34 <= y < centre + 34 ==> motion::tapped(y, s, rows) == k
            &&& k == 0 && y < centre ==> motion::tapped(y, s, rows) == 0
            &&& k == rows - 1 && y > centre ==> motion::tapped(y, s, rows) == k
        }),
{
}

/// The power curve adds the square of a flick over 1200 to it, keeps its direction, and a
/// harder flick is never the slower.
pub proof fn lemma_power_curve(v: int, w: int)
    requires
        0 <= v <= w,
    ensures
        ({
            let e = motion::power(v);
            &&& e < 1400 ==> (e - v) * 1200 <= v * v < (e - v + 1) * 1200
            &&& e == 1400 ==> v * v >= (1400 - v) * 1200
            &&& v <= e || e == 1400
            &&& e <= motion::power(w)
            &&& motion::power(-v) == -e
        }),
{
    motion::lemma_power(v);
    assert(v * v <= w * w) by (nonlinear_arith)
        requires
            0 <= v <= w,
    ;
    assert(v * v >= 0) by (nonlinear_arith);
}

/// The band gives as `1/g = 1/(0.55 x) + 1/128`, in pixels, at both ends alike, and not at all
/// inside the list.
pub proof fn lemma_band(x: int, max: int, t: int)
    requires
        x >= 0,
        max >= 0,
    ensures
        ({
            let g = motion::rubber(max + x, max) - max;
            let d = 32_768 * 256 + 141 * x;
            &&& g * d <= 141 * x * 32_768 < (g + 1) * d
            &&& motion::rubber(-x, max) == -g
        }),
        0 <= t <= max ==> motion::rubber(t, max) == t,
{
    let n = x * 141 * 32_768;
    let d = 256 * 32_768 + 141 * x;
    let q = n / d;
    assert(q * d <= n < (q + 1) * d) by (nonlinear_arith)
        requires
            q == n / d,
            d > 0,
    ;
    motion::lemma_rubber_give(0);
    assert(141 * x * 32_768 == n) by (nonlinear_arith)
        requires
            n == x * 141 * 32_768,
    ;
}

/// Easing lands on the last pixel and else covers five sixteenths of the way.
pub proof fn lemma_landing(diff: int)
    ensures
        ({
            let s = motion::landing_step(diff);
            let (a, b) = (apart(diff, 0), apart(s, 0));
            &&& a <= 256 ==> s == diff
            &&& a > 256 ==> 16 * b <= 5 * a < 16 * (b + 1)
            &&& diff >= 0 ==> s >= 0
            &&& diff <= 0 ==> s <= 0
        }),
{
}

/// Momentum fades evenly to nothing over a hold of 400 ms, and a fling in its direction is the
/// faster for it; against it, or slow, the fling counts alone.
pub proof fn lemma_momentum(carry: int, raw: int, held: int)
    requires
        0 <= held,
        -4_000_000 <= carry <= 4_000_000,
    ensures
        ({
            let left = if held >= 400 { 0 } else { 400 - held };
            let c = motion::carried(carry, held);
            let v = motion::chained(carry, raw, held);
            let alone = motion::power(raw);
            &&& carry >= 0 ==> c >= 0 && c * 400 <= carry * left < (c + 1) * 400
            &&& carry <= 0 ==> c <= 0 && (c - 1) * 400 < carry * left <= c * 400
            &&& raw >= 77 && c > 0 ==> v >= alone && v == motion::power(raw + c)
            &&& raw <= -77 && c < 0 ==> v <= alone && v == motion::power(raw + c)
            &&& -77 < raw < 77 || (raw > 0 && c <= 0) || (raw < 0 && c >= 0) ==> v == alone
        }),
{
    let left = if held >= 400 { 0 } else { 400 - held };
    assert(carry >= 0 ==> carry * left >= 0) by (nonlinear_arith)
        requires
            left >= 0,
    ;
    assert(carry <= 0 ==> carry * left <= 0) by (nonlinear_arith)
        requires
            left >= 0,
    ;
    let c = motion::carried(carry, held);
    if raw >= 77 && c > 0 {
        lemma_power_curve(raw, raw + c);
    }
    if raw <= -77 && c < 0 {
        lemma_power_curve(-raw, -(raw + c));
        motion::lemma_power(raw);
        motion::lemma_power(raw + c);
    }
}

/// A whole flick during a glide: a finger flicked up sends the wheel on, one flicked down
/// back, by at least a row while there is one, and the glide starts anew with the velocity that
/// lands there.
pub proof fn lemma_flick_during_glide(c: Coast, dir: SwipeDir, dist: u16, vel: i32, rows: int)
    requires
        motion::coast_ok(c, rows),
        0 <= c.s_q8 <= (rows - 1) * 17_408,
        77 <= vel <= 0x4000_0000,
    ensures
        ({
            let (n, r) = motion::coast_event(c, GestureEvent::DragEnd { dir, dist, vel_q8: vel }, rows);
            let near = motion::nearest(c.s_q8 as int, rows);
            let last = (rows - 1) * 17_408;
            let run = apart(n.target as int, n.s_q8 as int);
            let v = apart(n.v_q8 as int, 0);
            &&& r is Glide
            &&& n.s_q8 == c.s_q8 && n.landed_at is None
            &&& dir is Up && near < last ==> n.target >= near + 17_408
            &&& dir is Down && near > 0 ==> n.target <= near - 17_408
            &&& 0 <= n.target <= last && n.target as int % 17_408 == 0
            &&& v * 112 <= run < (v + 1) * 112
            &&& n.target >= n.s_q8 ==> n.v_q8 >= 0
            &&& n.target <= n.s_q8 ==> n.v_q8 <= 0
        }),
{
    let raw = if dir is Up { vel as int } else { -(vel as int) };
    let e = motion::flick_velocity(c.v_q8 as int, vel as int, raw);
    lemma_fling_keeps_way(c.v_q8 as int, vel as int, raw);
    lemma_release_goes_to(c.s_q8 as int, e, e, rows, 0);
    motion::lemma_aim_is_row(c.s_q8 as int, e, rows);
}

proof fn lemma_fling_keeps_way(v: int, rel: int, raw: int)
    requires
        rel >= 77,
        raw == rel || raw == -rel,
    ensures
        raw > 0 ==> motion::flick_velocity(v, rel, raw) >= 77,
        raw < 0 ==> motion::flick_velocity(v, rel, raw) <= -77,
{
    let t = if raw > 0 && v > 0 || raw < 0 && v < 0 { v + raw } else { raw };
    if t >= 0 {
        lemma_power_curve(t, t);
    } else {
        lemma_power_curve(-t, -t);
        motion::lemma_power(t);
    }
}

/// A tap stops a gliding wheel at the nearest row; on a resting one it selects the row under
/// the finger, or ends the glide when that is the focused one.
pub proof fn lemma_tap_during_glide(c: Coast, x: u16, y: u16, rows: int)
    requires
        motion::coast_ok(c, rows),
    ensures
        ({
            let (n, r) = motion::coast_event(c, GestureEvent::Tap { x, y }, rows);
            let under = motion::tapped(y as int, c.s_q8 as int, rows);
            &&& c.landed_at is None ==> r is Glide && n.v_q8 == 0 && n.target == motion::nearest(c.s_q8 as int, rows)
                && n.s_q8 == c.s_q8
            &&& c.landed_at is Some ==> n == c
            &&& c.landed_at is Some && under != motion::focused(c.s_q8 as int, rows) ==> r == CoastEvent::Select(
                under as usize,
            )
            &&& c.landed_at is Some && under == motion::focused(c.s_q8 as int, rows) ==> r is Stop
        }),
{
    lemma_nearest_is_nearest(c.s_q8 as int, rows, 0);
}

/// A glide far from its target moves by its velocity over the frame's time and keeps 199 of 256
/// parts of it every 25 ms.
pub proof fn lemma_glide_pace(c: Coast, rows: int)
    requires
        motion::coast_ok(c, rows),
        0 <= c.s_q8 <= (rows - 1) * 17_408,
        apart(c.target as int, c.s_q8 as int) > 4096,
        (c.target > c.s_q8 && c.v_q8 > 0) || (c.target < c.s_q8 && c.v_q8 < 0),
    ensures
        ({
            let (s, v) = motion::glide_step(c, rows);
            let (a, b) = (apart(c.v_q8 as int, 0), apart(v, 0));
            &&& s - c.s_q8 == c.v_q8 * c.dt_ms
            &&& c.dt_ms == 25 ==> 256 * b <= 199 * a < 256 * (b + 1)
            &&& b <= a
            &&& c.v_q8 > 0 ==> v >= 0
            &&& c.v_q8 < 0 ==> v <= 0
        }),
{
    let k = 256 - 57 * c.dt_ms as int / 25;
    let v = c.v_q8 as int;
    assert(v > 0 ==> 0 <= v * k <= 256 * v) by (nonlinear_arith)
        requires
            0 <= k <= 256,
    ;
    assert(v < 0 ==> 256 * v <= v * k <= 0) by (nonlinear_arith)
        requires
            0 <= k <= 256,
    ;
    if c.dt_ms == 25 {
        assert(v * k == 199 * v) by (nonlinear_arith)
            requires
                k == 199,
        ;
    }
}

/// A frame of a glide: a finger takes its momentum and nothing moves; landed, it waits 150 ms
/// and is over; otherwise it goes on to the same row, and lands exactly on it, at rest.
pub proof fn lemma_coast_frame(c: Coast, finger: bool, now: u64, rows: int)
    requires
        motion::coast_ok(c, rows),
        c.landed_at matches Some(t0) ==> t0 <= now,
    ensures
        ({
            let (n, r) = motion::coast_frame(c, finger, now, rows);
            let gliding = !finger && c.landed_at is None;
            let (s, last) = (c.s_q8 as int, (rows - 1) * 17_408);
            &&& finger ==> r == CoastFrame::HandOff(c.v_q8)
            &&& !gliding ==> n == c
            &&& !finger ==> (c.landed_at matches Some(t0) ==> (r is Done <==> now >= t0 + 150) && (r is Wait <==> now
                < t0 + 150))
            &&& gliding ==> (r is Land || r is Draw) && n.target == c.target && n.dt_ms == c.dt_ms
            &&& gliding && apart(c.target as int, s) > 256 ==> r is Draw && n.landed_at is None
            &&& gliding && apart(c.target as int, s) <= 256 && 0 <= s <= last ==> r is Land
            &&& r is Land ==> n.s_q8 == c.target && n.v_q8 == 0 && n.landed_at == Some(now)
            &&& gliding && s != c.target && 0 <= s <= last && c.v_q8 == 0 ==> apart(c.target as int, n.s_q8 as int)
                < apart(c.target as int, s)
        }),
{
}

} // verus!
