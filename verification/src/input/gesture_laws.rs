//! What touch gestures mean, in terms of where and when the finger was.
use vstd::prelude::*;

use crate::drivers::cst9217::TouchPoint;
use crate::input::gestures;
use crate::input::gestures::{GestureEvent, Phase, SwipeDir, SwipeTracker, Track};

verus! {

/// `v` is `px` pixels in `ms` milliseconds, in 256ths of a pixel per millisecond, rounded
/// towards zero; no time counts as one millisecond.
pub open spec fn is_speed(v: int, px: int, ms: int) -> bool {
    let d = if ms < 1 { 1 } else { ms };
    &&& px >= 0 ==> v >= 0 && v * d <= 256 * px < (v + 1) * d
    &&& px <= 0 ==> v <= 0 && (v - 1) * d < 256 * px <= v * d
}

/// Time on the 32-bit clock runs on over its wrap.
pub proof fn lemma_since(now: u32, then_ms: u32)
    ensures
        0 <= gestures::since(now, then_ms) <= 0xffff_ffff,
        (then_ms + gestures::since(now, then_ms)) % 0x1_0000_0000 == now,
{
}

/// A speed is distance over time, with its sign.
pub proof fn lemma_speed(px: int, ms: int)
    requires
        0 <= ms < 0x8000_0000,
    ensures
        is_speed(gestures::speed_q8(px, ms), px, ms),
{
    let d = if ms < 1 { 1 } else { ms };
    let n = if px >= 0 { px * 256 } else { -px * 256 };
    let q = n / d;
    assert(q * d <= n < (q + 1) * d && q >= 0) by (nonlinear_arith)
        requires
            q == n / d,
            d >= 1,
            n >= 0,
    ;
    if px <= 0 {
        let v = -q;
        assert((v - 1) * d == -((q + 1) * d)) by (nonlinear_arith)
            requires
                v == -q,
        ;
        assert(v * d == -(q * d)) by (nonlinear_arith)
            requires
                v == -q,
        ;
        assert(-px * 256 == n);
    }
    if px == 0 {
        assert(0int / d == 0) by (nonlinear_arith)
            requires
                d >= 1,
        ;
    }
}

/// Rows from touch-down `a` to `b` along a direction.
pub open spec fn is_travel(dist: int, dir: SwipeDir, a: int, b: int) -> bool {
    match dir {
        SwipeDir::Down => (b >= a ==> dist == b - a) && (b <= a ==> dist == 0),
        SwipeDir::Up => (b <= a ==> dist == a - b) && (b >= a ==> dist == 0),
    }
}

/// A drag reports how far the finger is from touch-down along its direction, the same
/// whether the finger moved to a point or lifted there.
pub proof fn lemma_drag_follows_finger(s: SwipeTracker, tr: Track, dir: SwipeDir, t: TouchPoint, now: u32)
    requires
        s.phase == Phase::Dragging(tr, dir),
        now >= 800,
    ensures
        ({
            let (moving, m) = gestures::fed(s, Some(TouchPoint { pressed: true, ..t }), now);
            let (_, l) = gestures::fed(s, Some(TouchPoint { pressed: false, ..t }), now);
            &&& m matches GestureEvent::DragMove { dir: d, dist } && d == dir && is_travel(
                dist as int,
                dir,
                tr.start_y as int,
                t.y as int,
            )
            &&& l matches GestureEvent::DragEnd { dir: d, dist, .. } && d == dir && dist == m->DragMove_dist
            &&& moving.phase == Phase::Dragging(
                Track { last_x: t.x, last_y: t.y, last_ms: now, prev_y: tr.last_y, prev_ms: tr.last_ms, ..tr },
                dir,
            )
        }),
{
}

/// A drag that is no longer reported ends where it was last seen.
pub proof fn lemma_lost_drag(s: SwipeTracker, tr: Track, dir: SwipeDir, now: u32)
    requires
        s.phase == Phase::Dragging(tr, dir),
        now >= 800,
        gestures::since(now, tr.last_ms) > 1500,
        gestures::since(tr.last_ms, tr.prev_ms) < 0x8000_0000,
    ensures
        ({
            let (_, e) = gestures::fed(s, None, now);
            let px = if dir is Down { tr.last_y - tr.prev_y } else { tr.prev_y - tr.last_y };
            e matches GestureEvent::DragEnd { dir: d, dist, vel_q8 } && d == dir && is_travel(
                dist as int,
                dir,
                tr.start_y as int,
                tr.last_y as int,
            ) && is_speed(vel_q8 as int, px, gestures::since(tr.last_ms, tr.prev_ms))
        }),
{
    let px = if dir is Down { tr.last_y - tr.prev_y } else { tr.prev_y - tr.last_y };
    lemma_speed(px, gestures::since(tr.last_ms, tr.prev_ms));
    lemma_speed_fits(px, gestures::since(tr.last_ms, tr.prev_ms));
}

proof fn lemma_speed_fits(px: int, ms: int)
    requires
        -65535 <= px <= 65535,
        0 <= ms < 0x8000_0000,
    ensures
        -16_776_960 <= gestures::speed_q8(px, ms) <= 16_776_960,
{
    let d = if ms < 1 { 1 } else { ms };
    let n = if px >= 0 { px * 256 } else { -px * 256 };
    assert(0 <= n / d <= n) by (nonlinear_arith)
        requires
            d >= 1,
            n >= 0,
    ;
}

/// The speed of a lifted drag is that of its last stretch along its direction: up to the lift
/// where that is a new point, else between the last two samples.
pub proof fn lemma_drag_release_speed(s: SwipeTracker, tr: Track, dir: SwipeDir, t: TouchPoint, now: u32)
    requires
        s.phase == Phase::Dragging(tr, dir),
        now >= 800,
        !t.pressed,
        gestures::since(now, tr.last_ms) < 0x8000_0000,
        gestures::since(tr.last_ms, tr.prev_ms) < 0x8000_0000,
    ensures
        ({
            let (after, e) = gestures::fed(s, Some(t), now);
            let fresh = t.x != tr.last_x || t.y != tr.last_y;
            let (from, to) = if fresh { (tr.last_y as int, t.y as int) } else { (tr.prev_y as int, tr.last_y as int) };
            let ms = if fresh { gestures::since(now, tr.last_ms) } else { gestures::since(tr.last_ms, tr.prev_ms) };
            &&& after.phase is Idle
            &&& e is DragEnd
            &&& dir is Down ==> is_speed(e->DragEnd_vel_q8 as int, to - from, ms)
            &&& dir is Up ==> is_speed(e->DragEnd_vel_q8 as int, from - to, ms)
        }),
{
    let fresh = t.x != tr.last_x || t.y != tr.last_y;
    let (from, to) = if fresh { (tr.last_y as int, t.y as int) } else { (tr.prev_y as int, tr.last_y as int) };
    let ms = if fresh { gestures::since(now, tr.last_ms) } else { gestures::since(tr.last_ms, tr.prev_ms) };
    lemma_speed(to - from, ms);
    lemma_speed(from - to, ms);
    lemma_speed_fits(to - from, ms);
    lemma_speed_fits(from - to, ms);
}

/// The direction a touch from `(x0, y0)` to `(x, y)` swipes on a panel of height `h`: from the
/// lower three eighths upwards or from the upper three eighths downwards, at least half as far
/// along as across.
pub open spec fn swipes(h: int, x0: int, y0: int, x: int, y: int) -> Option<SwipeDir> {
    let across = if x >= x0 { x - x0 } else { x0 - x };
    if y < y0 && 8 * y0 > 5 * h - 8 && 2 * (y0 - y) >= across {
        Some(SwipeDir::Up)
    } else if y > y0 && 8 * (y0 + 1) <= 3 * h && 2 * (y - y0) >= across {
        Some(SwipeDir::Down)
    } else {
        None
    }
}

/// No more than ten pixels from touch-down on either axis.
pub open spec fn close_by(tr: Track, t: TouchPoint) -> bool {
    -10 <= t.x - tr.start_x <= 10 && -10 <= t.y - tr.start_y <= 10
}

/// A pending touch that moves stays pending near touch-down; beyond, it becomes a drag that
/// tells its origin and travel when it swipes, and nothing otherwise.
pub proof fn lemma_pending_moves(s: SwipeTracker, tr: Track, t: TouchPoint, now: u32)
    requires
        s.phase == Phase::Pending(tr),
        t.pressed,
        now >= 800,
    ensures
        ({
            let (n, e) = gestures::fed(s, Some(t), now);
            let to = Track { last_x: t.x, last_y: t.y, last_ms: now, prev_y: tr.last_y, prev_ms: tr.last_ms, ..tr };
            let d = swipes(s.height as int, tr.start_x as int, tr.start_y as int, t.x as int, t.y as int);
            &&& n.height == s.height && n.last_tap_ms == s.last_tap_ms
            &&& close_by(tr, t) ==> e is Nothing && n.phase == Phase::Pending(to)
            &&& !close_by(tr, t) && d is None ==> e is Nothing && n.phase == Phase::Rejected(to)
            &&& !close_by(tr, t) && d is Some ==> {
                &&& n.phase == Phase::Dragging(to, d->0)
                &&& e is DragStart
                &&& e->DragStart_dir == d->0
                &&& e->DragStart_x == tr.start_x && e->DragStart_y == tr.start_y
                &&& is_travel(e->DragStart_dist as int, d->0, tr.start_y as int, t.y as int)
            }
        }),
{
}

/// A pending touch that lifts far from touch-down is a whole swipe, with its travel and mean
/// speed, or nothing; one that lifts near it is a tap at touch-down exactly when it lasted
/// 40 ms and comes 350 ms after the last tap.
pub proof fn lemma_pending_lifts(s: SwipeTracker, tr: Track, t: TouchPoint, now: u32)
    requires
        s.phase == Phase::Pending(tr),
        !t.pressed,
        now >= 800,
        gestures::since(now, tr.start_ms) < 0x8000_0000,
    ensures
        ({
            let (n, e) = gestures::fed(s, Some(t), now);
            let d = swipes(s.height as int, tr.start_x as int, tr.start_y as int, t.x as int, t.y as int);
            let held = gestures::since(now, tr.start_ms);
            let tap = close_by(tr, t) && held >= 40 && gestures::since(now, s.last_tap_ms) >= 350;
            &&& n.phase is Idle
            &&& tap ==> e == (GestureEvent::Tap { x: tr.start_x, y: tr.start_y }) && n.last_tap_ms == now
            &&& close_by(tr, t) && !tap ==> e is Nothing && n.last_tap_ms == s.last_tap_ms
            &&& !close_by(tr, t) && d is None ==> e is Nothing && n.last_tap_ms == s.last_tap_ms
            &&& !close_by(tr, t) && d is Some ==> {
                &&& e is DragEnd
                &&& e->DragEnd_dir == d->0
                &&& is_travel(e->DragEnd_dist as int, d->0, tr.start_y as int, t.y as int)
                &&& is_speed(e->DragEnd_vel_q8 as int, e->DragEnd_dist as int, held)
                &&& n.last_tap_ms == s.last_tap_ms
            }
        }),
{
    let ms = gestures::since(now, tr.start_ms);
    let up = if tr.start_y >= t.y { tr.start_y - t.y } else { t.y - tr.start_y };
    lemma_speed(up, ms);
    lemma_speed_fits(up, ms);
}

/// A pending touch that is lost lifts where it began: a tap if it lasted and the last tap is
/// past.
pub proof fn lemma_lost_touch(s: SwipeTracker, tr: Track, now: u32)
    requires
        s.phase == Phase::Pending(tr),
        now >= 800,
        gestures::since(now, tr.last_ms) > 1500,
    ensures
        ({
            let (n, e) = gestures::fed(s, None, now);
            let tap = gestures::since(now, tr.start_ms) >= 40 && gestures::since(now, s.last_tap_ms) >= 350;
            &&& n.phase is Idle
            &&& tap ==> e == (GestureEvent::Tap { x: tr.start_x, y: tr.start_y })
            &&& !tap ==> e is Nothing
        }),
{
}

/// Track of the touch that is down.
pub open spec fn track_of(p: Phase) -> Option<Track> {
    match p {
        Phase::Idle => None,
        Phase::Pending(tr) => Some(tr),
        Phase::Dragging(tr, _) => Some(tr),
        Phase::Rejected(tr) => Some(tr),
    }
}

/// A press begins a pending touch at its point and time; until it lifts, whatever is reported,
/// the touch keeps where and when it began.
pub proof fn lemma_touch_keeps_its_origin(s: SwipeTracker, report: Option<TouchPoint>, now: u32)
    requires
        now >= 800,
    ensures
        ({
            let (n, e) = gestures::fed(s, report, now);
            let (a, b) = (track_of(s.phase), track_of(n.phase));
            &&& a is None ==> e is Nothing
            &&& a is None && report is Some && report->0.pressed ==> n.phase is Pending && b->0.start_x == report->0.x
                && b->0.start_y == report->0.y && b->0.start_ms == now && b->0.last_y == report->0.y && b->0.last_ms
                == now && b->0.last_x == report->0.x && b->0.prev_y == report->0.y && b->0.prev_ms == now
            &&& a is None && !(report is Some && report->0.pressed) ==> n == s
            &&& a is Some && report is Some && report->0.pressed ==> b is Some && b->0.start_x == a->0.start_x
                && b->0.start_y == a->0.start_y && b->0.start_ms == a->0.start_ms && b->0.last_x == report->0.x
                && b->0.last_y == report->0.y && b->0.last_ms == now
            &&& a is Some && report is Some && !report->0.pressed ==> b is None
        }),
{
}

} // verus!
