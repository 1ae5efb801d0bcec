//! Wheel physics: rows and offsets, flick power, the rubber band past the ends, the
//! direct-manipulation session, the velocity-projected glide and its soft landing.
//! Offsets are 256ths of a pixel (Q8); row `i` rests at `i * 68` pixels.
use vstd::prelude::*;

use crate::imath;
use crate::input::gestures;
use crate::input::gestures::{GestureEvent, SwipeDir};

verus! {

/// One row in Q8.
pub const PITCH_Q8: i32 = 17_408;
/// Slower releases settle to the nearest row and never chain.
pub const FLING_FLOOR_Q8: i32 = 77;
/// Carried momentum fades to nothing over this hold.
pub const CHAIN_HOLD_MS: u32 = 400;
/// Per-frame travel above which details are dropped.
pub const FAST_LOD_Q8: i32 = 12_800;
/// A landed wheel keeps polling this long.
pub const WHEEL_LINGER_MS: u64 = 150;
/// Deceleration per 25 ms, in 256ths.
pub const DECAY_NUM: i32 = 199;
/// Projection horizon of the deceleration.
pub const K_MS: i32 = 112;
/// Movement below this never scrolls.
pub const GATE_PX: i32 = 6;
/// A short press that stayed this close is a tap.
pub const TAP_RADIUS_PX: i32 = 13;
/// A pause this long before lift-off ends the motion.
pub const STALE_MS: u32 = 50;
/// Smallest time step of a velocity estimate.
pub const DT_FLOOR_MS: u32 = 5;

/// A list the arithmetic can hold.
pub open spec fn rows_ok(rows: int) -> bool {
    1 <= rows <= 0x800
}

/// An offset the arithmetic can hold.
pub open spec fn offset_ok(s: int) -> bool {
    -0x1000_0000 <= s <= 0x1000_0000
}

/// Offset of the last row.
pub open spec fn last_row_q8(rows: int) -> int {
    (rows - 1) * 17_408
}

/// Wheel scroll range.
pub fn wheel_s_max(rows: i32) -> (r: i32)
    requires
        rows_ok(rows as int),
    ensures
        r == last_row_q8(rows as int),
{
    (rows - 1) * PITCH_Q8
}

/// Flick power: the velocity grows superlinearly with its size, up to the ceiling.
pub open spec fn power(v: int) -> int {
    imath::sclamp(v + imath::tdiv(v * imath::sabs(v), 1200), -1400, 1400)
}

pub fn wheel_power(v: i32) -> (r: i32)
    requires
        -2_145_000_000 <= v <= 2_145_000_000,
    ensures
        r == power(v as int),
        -1400 <= r <= 1400,
{
    let a: i64 = imath::iabs(v) as i64;
    let w: i64 = v as i64;
    proof {
        assert(-0x4000_0000_0000_0000 <= w * a <= 0x4000_0000_0000_0000) by (nonlinear_arith)
            requires -0x8000_0000 <= w <= 0x8000_0000, 0 <= a <= 0x8000_0000;
    }
    let e: i64 = w + w * a / 1200;
    if e < -1400 {
        -1400
    } else if e > 1400 {
        1400
    } else {
        e as i32
    }
}

/// The power curve is odd, never slows a flick below the ceiling, and never exceeds it.
pub proof fn lemma_power(v: int)
    ensures
        power(-v) == -power(v),
        -1400 <= power(v) <= 1400,
        0 <= v <= 1400 ==> power(v) >= v,
        v >= 1400 ==> power(v) == 1400,
        power(0) == 0,
{
    assert((-v) * imath::sabs(-v) == -(v * imath::sabs(v))) by (nonlinear_arith)
        requires imath::sabs(-v) == imath::sabs(v);
    if v >= 0 {
        assert(v * imath::sabs(v) >= 0) by (nonlinear_arith)
            requires v >= 0, imath::sabs(v) == v;
    } else {
        assert(v * imath::sabs(v) <= 0) by (nonlinear_arith)
            requires v < 0, imath::sabs(v) == -v;
    }
}

/// Stretch of the rubber band pulled by `x`.
pub open spec fn rubber_give(x: int) -> int {
    x * 141 * 32_768 / (256 * 32_768 + 141 * x)
}

/// The offset shown for a finger offset `t`: itself inside the list, stretched beyond.
pub open spec fn rubber(t: int, max: int) -> int {
    if t < 0 {
        -rubber_give(-t)
    } else if t > max {
        max + rubber_give(t - max)
    } else {
        t
    }
}

/// The stretch starts at zero, is less than the pull and never reaches 128 px.
pub proof fn lemma_rubber_give(x: int)
    requires
        x >= 0,
    ensures
        0 <= rubber_give(x) < 32_768,
        rubber_give(x) <= x,
        rubber_give(0) == 0,
{
    let n = x * 141 * 32_768;
    let d = 256 * 32_768 + 141 * x;
    assert(n < 32_768 * d) by (nonlinear_arith)
        requires n == x * 141 * 32_768, d == 256 * 32_768 + 141 * x, x >= 0;
    assert(n / d < 32_768) by (nonlinear_arith)
        requires n < 32_768 * d, d > 0, n >= 0;
    assert(n / d >= 0) by (nonlinear_arith)
        requires n >= 0, d > 0;
    assert(n <= x * d) by (nonlinear_arith)
        requires n == x * 141 * 32_768, d == 256 * 32_768 + 141 * x, x >= 0;
    assert(n / d <= x) by (nonlinear_arith)
        requires n <= x * d, d > 0;
    assert(0 * 141 * 32_768 / (256 * 32_768 + 141 * 0) == 0);
}

/// The harder the pull, the farther the stretch.
pub proof fn lemma_rubber_monotonic(x: int, y: int)
    requires
        0 <= x <= y,
    ensures
        rubber_give(x) <= rubber_give(y),
{
    let n1 = x * 141 * 32_768;
    let d1 = 256 * 32_768 + 141 * x;
    let n2 = y * 141 * 32_768;
    let d2 = 256 * 32_768 + 141 * y;
    let q1 = n1 / d1;
    // n1/d1 <= n2/d2 because n1*d2 <= n2*d1
    assert(n1 * d2 <= n2 * d1) by (nonlinear_arith)
        requires
            n1 == x * 141 * 32_768,
            d1 == 256 * 32_768 + 141 * x,
            n2 == y * 141 * 32_768,
            d2 == 256 * 32_768 + 141 * y,
            0 <= x <= y;
    assert(q1 * d1 <= n1) by (nonlinear_arith)
        requires q1 == n1 / d1, d1 > 0;
    assert(q1 * d2 <= n2) by (nonlinear_arith)
        requires q1 * d1 <= n1, n1 * d2 <= n2 * d1, d1 > 0, d2 > 0;
    assert(q1 <= n2 / d2) by (nonlinear_arith)
        requires q1 * d2 <= n2, d2 > 0;
}

fn give(x: i32) -> (r: i32)
    requires
        x >= 0,
    ensures
        r == rubber_give(x as int),
        0 <= r < 32_768,
{
    proof {
        lemma_rubber_give(x as int);
    }
    let w: i64 = x as i64;
    ((w * 141 * 32_768) / (256 * 32_768 + 141 * w)) as i32
}

/// Progressive rubber band past the wheel's ends.
pub fn wheel_rubber(t: i32, max: i32) -> (r: i32)
    requires
        t > i32::MIN,
        0 <= max <= i32::MAX - 32_768,
    ensures
        r == rubber(t as int, max as int),
        -32_768 < r < max + 32_768,
{
    if t < 0 {
        -give(-t)
    } else if t > max {
        max + give(t - max)
    } else {
        t
    }
}

/// Index of the row nearest to an offset.
pub open spec fn nearest_row(s: int, rows: int) -> int {
    imath::sclamp(imath::tdiv(s + 8_704, 17_408), 0, rows - 1)
}

/// Resting offset nearest to `s`.
pub open spec fn nearest(s: int, rows: int) -> int {
    nearest_row(s, rows) * 17_408
}

/// Where a release at `s` with velocity `v` would naturally stop, rounded to a row.
pub open spec fn project(s: int, v: int, rows: int) -> int {
    if imath::sabs(v) < 77 {
        nearest(s, rows)
    } else {
        nearest(imath::sclamp(s + v * 112, 0, last_row_q8(rows)), rows)
    }
}

/// Where a release goes: its projection, but a definite flick always advances a row.
pub open spec fn aim(s: int, v: int, rows: int) -> int {
    let t = project(s, v, rows);
    if imath::sabs(v) >= 77 && t == nearest(s, rows) {
        imath::sclamp(nearest(s, rows) + imath::ssgn(v) * 17_408, 0, last_row_q8(rows))
    } else {
        t
    }
}

proof fn lemma_nearest(s: int, rows: int)
    requires
        rows >= 1,
    ensures
        0 <= nearest(s, rows) <= last_row_q8(rows),
        nearest(s, rows) % 17_408 == 0,
        0 <= nearest_row(s, rows) <= rows - 1,
        0 <= s <= last_row_q8(rows) ==> -8_704 <= nearest(s, rows) - s <= 8_704,
{
}

proof fn lemma_nearest_monotonic(a: int, b: int, rows: int)
    requires
        rows >= 1,
        a <= b,
    ensures
        nearest(a, rows) <= nearest(b, rows),
{
}

/// A release always ends on a row of the list.
pub proof fn lemma_aim_is_row(s: int, v: int, rows: int)
    requires
        rows >= 1,
    ensures
        0 <= aim(s, v, rows) <= last_row_q8(rows),
        aim(s, v, rows) % 17_408 == 0,
{
    lemma_nearest(s, rows);
    lemma_nearest(imath::sclamp(s + v * 112, 0, last_row_q8(rows)), rows);
}

/// A definite flick moves at least one row on, until the list ends.
pub proof fn lemma_flick_advances(s: int, v: int, rows: int)
    requires
        rows >= 1,
    ensures
        v >= 77 ==> aim(s, v, rows) >= imath::smin(nearest(s, rows) + 17_408, last_row_q8(rows)),
        v <= -77 ==> aim(s, v, rows) <= imath::smax(nearest(s, rows) - 17_408, 0),
{
    let c = imath::sclamp(s + v * 112, 0, last_row_q8(rows));
    lemma_nearest(s, rows);
    lemma_nearest(c, rows);
    let m = last_row_q8(rows);
    if v >= 77 {
        if s <= m {
            lemma_nearest_monotonic(s, c, rows);
        }
    }
    if v <= -77 {
        if s >= 0 {
            lemma_nearest_monotonic(c, s, rows);
        }
    }
}

/// Resting offset nearest to `s`.
pub fn nearest_rest(s: i32, rows: i32) -> (r: i32)
    requires
        rows_ok(rows as int),
        s <= i32::MAX - 8_704,
    ensures
        r == nearest(s as int, rows as int),
        0 <= r <= last_row_q8(rows as int),
{
    imath::iclamp((s + PITCH_Q8 / 2) / PITCH_Q8, 0, rows - 1) * PITCH_Q8
}

/// Target of a release at `s` with velocity `v`.
pub fn aim_row(s: i32, v: i32, rows: i32) -> (r: i32)
    requires
        rows_ok(rows as int),
        offset_ok(s as int),
        v > i32::MIN,
    ensures
        r == aim(s as int, v as int, rows as int),
        0 <= r <= last_row_q8(rows as int),
{
    let s_max: i32 = wheel_s_max(rows);
    let near: i32 = nearest_rest(s, rows);
    if imath::iabs(v) < FLING_FLOOR_Q8 {
        return near;
    }
    let p: i64 = s as i64 + v as i64 * 112;
    let c: i32 = if p < 0 {
        0
    } else if p > s_max as i64 {
        s_max
    } else {
        p as i32
    };
    let t: i32 = nearest_rest(c, rows);
    if t == near {
        imath::iclamp(near + imath::isgn(v) * PITCH_Q8, 0, s_max)
    } else {
        t
    }
}

/// The focused row: the one nearest to the centre.
pub open spec fn focused(s: int, rows: int) -> int {
    imath::sclamp(imath::tdiv(s / 256 + 34, 68), 0, rows - 1)
}

pub fn focused_row(s_q8: i32, rows: i32) -> (r: usize)
    requires
        rows_ok(rows as int),
    ensures
        r == focused(s_q8 as int, rows as int),
        r < rows,
{
    imath::iclamp((imath::asr(s_q8, 8) + 34) / 68, 0, rows - 1) as usize
}

/// The row under panel row `y`.
pub open spec fn tapped(y: int, s: int, rows: int) -> int {
    imath::sclamp((y - 233 + s / 256 + 34) / 68, 0, rows - 1)
}

pub fn tap_row(y: i32, s_q8: i32, rows: i32) -> (r: usize)
    requires
        rows_ok(rows as int),
        -0x1_0000 <= y <= 0x1_0000,
    ensures
        r == tapped(y as int, s_q8 as int, rows as int),
        r < rows,
{
    let q: i32 = y - 233 + imath::asr(s_q8, 8) + 34;
    let row: i32 = if q >= 0 { q / 68 } else { 0 };
    imath::iclamp(row, 0, rows - 1) as usize
}

/// At rest on row `i`, tapping anywhere within half a pitch of the centre selects it.
pub proof fn lemma_tap_at_rest(i: int, y: int, rows: int)
    requires
        0 <= i < rows,
        199 <= y < 267,
    ensures
        tapped(y, i * 17_408, rows) == i,
        focused(i * 17_408, rows) == i,
{
    assert(i * 17_408 / 256 == i * 68);
}

/// Ease towards `target`: the last pixel is taken at once, otherwise 5/16 of the way.
pub open spec fn landing_step(diff: int) -> int {
    if imath::sabs(diff) <= 256 { diff } else { imath::tdiv(diff * 5, 16) }
}

/// One frame of easing the wheel onto a row.
pub fn settle_step(s_q8: i32, target: i32) -> (r: i32)
    requires
        offset_ok(s_q8 as int),
        0 <= target <= 0x400_0000,
    ensures
        r == s_q8 + landing_step(target - s_q8),
        offset_ok(r as int),
        s_q8 != target ==> imath::sabs(target - r) < imath::sabs(target - s_q8),
{
    let diff: i32 = target - s_q8;
    s_q8 + if imath::iabs(diff) <= 256 { diff } else { diff * 5 / 16 }
}

/// Offset of row `row`.
pub fn row_offset(row: usize, rows: i32) -> (r: i32)
    requires
        rows_ok(rows as int),
        row < rows,
    ensures
        r == row * 17_408,
        0 <= r <= last_row_q8(rows as int),
{
    row as i32 * PITCH_Q8
}

/// Outcome of a direct-manipulation session.
#[derive(Clone, Copy, Debug, PartialEq, Eq, Structural)]
pub enum Direct {
    /// Released in motion: signed velocity in scroll space and hold time.
    Fling { raw: i32, held_ms: u32 },
    /// Slow or held release: the wheel stays where the finger left it.
    Rest,
    /// A tap at this row of the panel.
    Tap { y: i32 },
}

/// A finger on the wheel: anchored where it touched down, with the last three distinct
/// positions for the release velocity.
#[derive(Clone, Copy, Debug, PartialEq, Eq, Structural)]
pub struct DirectSession {
    pub anchor_y: i32,
    pub anchor_s: i32,
    pub origin_y: i32,
    pub max_disp: i32,
    pub last_y: i32,
    pub gate_open: bool,
    pub target: i32,
    pub y0: i32,
    pub t0: u32,
    pub y1: i32,
    pub t1: u32,
    pub y2: i32,
    pub t2: u32,
}

/// Positions are touch coordinates and the target follows the finger.
pub open spec fn session_ok(d: DirectSession) -> bool {
    &&& -6 <= d.anchor_y <= 65_541
    &&& 0 <= d.origin_y <= 65_535
    &&& 0 <= d.max_disp <= 65_535
    &&& 0 <= d.last_y <= 65_535
    &&& 0 <= d.y0 <= 65_535
    &&& 0 <= d.y1 <= 65_535
    &&& 0 <= d.y2 <= 65_535
    &&& offset_ok(d.anchor_s as int)
    &&& -0x1200_0000 <= d.target <= 0x1200_0000
    &&& !d.gate_open ==> d.anchor_y == d.origin_y && d.target == d.anchor_s
}

/// The session after a raw report at row `y`.
pub open spec fn session_after(d: DirectSession, y: int, pressed: bool, now: u32) -> DirectSession {
    let d1 = if y != d.last_y {
        DirectSession {
            y0: d.y1,
            t0: d.t1,
            y1: d.y2,
            t1: d.t2,
            y2: y as i32,
            t2: now,
            last_y: y as i32,
            ..d
        }
    } else {
        d
    };
    let d2 = DirectSession {
        max_disp: imath::smax(d.max_disp as int, imath::sabs(d.origin_y - y)) as i32,
        ..d1
    };
    let off = d.anchor_y - y;
    let d3 = if !d.gate_open && imath::sabs(off) > 6 {
        DirectSession { gate_open: true, anchor_y: (d.anchor_y - 6 * imath::ssgn(off)) as i32, ..d2 }
    } else {
        d2
    };
    if d3.gate_open && pressed {
        DirectSession { target: (d.anchor_s + (d3.anchor_y - y) * 256) as i32, ..d3 }
    } else {
        d3
    }
}

/// The jitter threshold subtracts itself: when it is crossed the content starts moving from
/// zero, by the travel beyond it; from then on it follows the finger one to one.
pub proof fn lemma_gate(d: DirectSession, y: int, now: u32)
    requires
        session_ok(d),
        0 <= y <= 65_535,
    ensures
        ({
            let n = session_after(d, y, true, now);
            let off = d.origin_y - y;
            &&& !d.gate_open && imath::sabs(off) <= 6 ==> n.target == d.target && !n.gate_open
            &&& !d.gate_open && imath::sabs(off) > 6 ==> n.gate_open && n.target - d.anchor_s == (off - 6
                * imath::ssgn(off)) * 256
            &&& d.gate_open ==> n.target == d.anchor_s + (d.anchor_y - y) * 256
        }),
{
}

/// Release velocity of the last two segments `a` and `b` (the later), where `dt_b` is the
/// duration of the later: the later one, or the weighted mean when that is faster, plus
/// half the gain of a motion still accelerating.
pub open spec fn release_speed(v_a: int, v_b: int, dt_b: int) -> int {
    let v_w = imath::tdiv(2 * v_b + v_a, 3);
    let raw = if dt_b > 60 {
        v_b
    } else if (v_b >= 0) == (v_w >= 0) && imath::sabs(v_b) > imath::sabs(v_w) {
        v_b
    } else {
        v_w
    };
    let acc = v_b + imath::tdiv(v_b - v_a, 2);
    if (v_b >= 0) == (v_a >= 0) && imath::sabs(v_b) > imath::sabs(v_a) && (acc >= 0) == (raw >= 0) && imath::sabs(
        acc,
    ) > imath::sabs(raw) {
        acc
    } else {
        raw
    }
}

/// A time step read as a signed 32-bit number.
pub open spec fn signed_ms(ms: int) -> int {
    if ms < 0x8000_0000 { ms } else { ms - 0x1_0000_0000 }
}

/// Velocity of the release at time `now`.
pub open spec fn session_speed(d: DirectSession, held: int, now: u32) -> int {
    let seg = if gestures::since(now, d.t2) > 50 {
        0
    } else {
        let dt_b = imath::smax(gestures::since(d.t2, d.t1), 5);
        let dt_a = imath::smax(gestures::since(d.t1, d.t0), 5);
        release_speed(
            gestures::speed_q8(d.y0 - d.y1, dt_a),
            gestures::speed_q8(d.y1 - d.y2, dt_b),
            signed_ms(dt_b),
        )
    };
    if held <= 180 {
        let vp = imath::tdiv(imath::tdiv((d.origin_y - d.last_y) * 256, imath::smax(held, 5)) * 3, 2);
        if seg == 0 || ((vp >= 0) == (seg >= 0) && imath::sabs(vp) > imath::sabs(seg)) {
            vp
        } else {
            seg
        }
    } else {
        seg
    }
}

/// What a lift-off means: a short press that stayed close is a tap, even if it scrolled a
/// little; a press that never crossed the jitter threshold, or without speed, rests.
pub open spec fn session_end(d: DirectSession, held: u32, now: u32) -> Direct {
    if d.max_disp <= 13 && held < 350 {
        Direct::Tap { y: d.last_y }
    } else if !d.gate_open || session_speed(d, held as int, now) == 0 {
        Direct::Rest
    } else {
        Direct::Fling { raw: session_speed(d, held as int, now) as i32, held_ms: held }
    }
}

impl DirectSession {
    /// Anchor at the finger's row.
    pub fn new(y: u16, s_q8: i32, now_ms: u32) -> (d: Self)
        requires
            offset_ok(s_q8 as int),
        ensures
            session_ok(d),
            d.anchor_y == y,
            d.origin_y == y,
            d.last_y == y,
            d.anchor_s == s_q8,
            d.target == s_q8,
            d.max_disp == 0,
            !d.gate_open,
            d.y0 == y && d.y1 == y && d.y2 == y,
            d.t0 == now_ms && d.t1 == now_ms && d.t2 == now_ms,
    {
        let a: i32 = y as i32;
        DirectSession {
            anchor_y: a,
            anchor_s: s_q8,
            origin_y: a,
            max_disp: 0,
            last_y: a,
            gate_open: false,
            target: s_q8,
            y0: a,
            t0: now_ms,
            y1: a,
            t1: now_ms,
            y2: a,
            t2: now_ms,
        }
    }

    /// Take a raw report.
    pub fn report(&mut self, y: u16, pressed: bool, now_ms: u32)
        requires
            session_ok(*old(self)),
        ensures
            *final(self) == session_after(*old(self), y as int, pressed, now_ms),
            session_ok(*final(self)),
    {
        let row: i32 = y as i32;
        if row != self.last_y {
            self.y0 = self.y1;
            self.t0 = self.t1;
            self.y1 = self.y2;
            self.t1 = self.t2;
            self.y2 = row;
            self.t2 = now_ms;
            self.last_y = row;
        }
        self.max_disp = imath::imax(self.max_disp, imath::iabs(self.origin_y - row));
        if !self.gate_open {
            let off: i32 = self.anchor_y - row;
            if imath::iabs(off) > GATE_PX {
                self.gate_open = true;
                self.anchor_y = self.anchor_y - GATE_PX * imath::isgn(off);
            }
        }
        if self.gate_open && pressed {
            self.target = self.anchor_s + (self.anchor_y - row) * 256;
        }
    }

    /// The offset of the next frame and whether details are dropped, `None` when the wheel
    /// is where the finger wants it.
    pub fn pursue(&self, s_q8: i32, rows: i32) -> (r: Option<(i32, bool)>)
        requires
            session_ok(*self),
            offset_ok(s_q8 as int),
            rows_ok(rows as int),
        ensures
            ({
                let diff = rubber(self.target as int, last_row_q8(rows as int)) - s_q8;
                &&& r is None <==> diff == 0
                &&& r is Some ==> (r->0).0 == s_q8 + (if imath::sabs(diff) <= 512 {
                    diff
                } else {
                    imath::tdiv(diff * 3, 4)
                }) && (r->0).1 == (imath::sabs(diff) > 12_800)
                &&& r is Some ==> offset_ok((r->0).0 as int)
            }),
    {
        let diff: i32 = wheel_rubber(self.target, wheel_s_max(rows)) - s_q8;
        if diff == 0 {
            return None;
        }
        let step: i32 = if imath::iabs(diff) <= 512 { diff } else { diff * 3 / 4 };
        Some((s_q8 + step, imath::iabs(diff) > FAST_LOD_Q8))
    }

    fn segment_speed(&self, now_ms: u32) -> (r: i32)
        requires
            session_ok(*self),
        ensures
            r == (if gestures::since(now_ms, self.t2) > 50 {
                0
            } else {
                let dt_b = imath::smax(gestures::since(self.t2, self.t1), 5);
                let dt_a = imath::smax(gestures::since(self.t1, self.t0), 5);
                release_speed(
                    gestures::speed_q8(self.y0 - self.y1, dt_a),
                    gestures::speed_q8(self.y1 - self.y2, dt_b),
                    signed_ms(dt_b),
                )
            }),
            -0x400_0000 <= r <= 0x400_0000,
    {
        if gestures::elapsed(now_ms, self.t2) > STALE_MS {
            return 0;
        }
        let eb: u32 = gestures::elapsed(self.t2, self.t1);
        let ea: u32 = gestures::elapsed(self.t1, self.t0);
        let dt_b: u32 = if eb < DT_FLOOR_MS { DT_FLOOR_MS } else { eb };
        let dt_a: u32 = if ea < DT_FLOOR_MS { DT_FLOOR_MS } else { ea };
        let v_b: i32 = gestures::speed(self.y1 - self.y2, dt_b);
        let v_a: i32 = gestures::speed(self.y0 - self.y1, dt_a);
        let v_w: i32 = (2 * v_b + v_a) / 3;
        let slow: bool = dt_b > 60 && dt_b < 0x8000_0000;
        let raw: i32 = if slow {
            v_b
        } else if (v_b >= 0) == (v_w >= 0) && imath::iabs(v_b) > imath::iabs(v_w) {
            v_b
        } else {
            v_w
        };
        if (v_b >= 0) == (v_a >= 0) && imath::iabs(v_b) > imath::iabs(v_a) {
            let acc: i32 = v_b + (v_b - v_a) / 2;
            if (acc >= 0) == (raw >= 0) && imath::iabs(acc) > imath::iabs(raw) {
                return acc;
            }
        }
        raw
    }

    /// Decide what the touch was, after it lifted.
    pub fn release(&self, held_ms: u32, now_ms: u32) -> (r: Direct)
        requires
            session_ok(*self),
        ensures
            r == session_end(*self, held_ms, now_ms),
            r matches Direct::Fling { raw, .. } ==> -0x600_0000 <= raw <= 0x600_0000,
            r matches Direct::Tap { y } ==> 0 <= y <= 65_535,
    {
        if self.max_disp <= TAP_RADIUS_PX && held_ms < 350 {
            return Direct::Tap { y: self.last_y };
        }
        if !self.gate_open {
            return Direct::Rest;
        }
        let mut raw: i32 = self.segment_speed(now_ms);
        if held_ms <= 180 {
            let dt: i32 = if held_ms < DT_FLOOR_MS { 5 } else { held_ms as i32 };
            let px: i32 = (self.origin_y - self.last_y) * 256;
            proof {
                assert(px >= 0 ==> 0 <= px as int / dt as int <= px) by (nonlinear_arith)
                    requires dt >= 1;
                assert(px < 0 ==> 0 <= (-px) as int / dt as int <= -px) by (nonlinear_arith)
                    requires dt >= 1;
            }
            let vp: i32 = px / dt * 3 / 2;
            if raw == 0 || ((vp >= 0) == (raw >= 0) && imath::iabs(vp) > imath::iabs(raw)) {
                raw = vp;
            }
        }
        if raw == 0 {
            return Direct::Rest;
        }
        Direct::Fling { raw, held_ms }
    }
}

/// Momentum left of `carry` after a hold: it fades linearly to nothing.
pub open spec fn carried(carry: int, held: int) -> int {
    imath::tdiv(carry * imath::smax(400 - held, 0), 400)
}

/// Velocity after a release `raw` that caught a wheel with momentum `carry`: flicks in the
/// same direction compound, others start fresh.
pub open spec fn chained(carry: int, raw: int, held: int) -> int {
    let c = carried(carry, held);
    if imath::sabs(raw) >= 77 && imath::ssgn(raw) == imath::ssgn(c) {
        power(c + raw)
    } else {
        power(raw)
    }
}

/// A hold of 400 ms leaves no momentum; catching and releasing at once keeps it all.
pub proof fn lemma_carried(carry: int, held: int)
    ensures
        held >= 400 ==> carried(carry, held) == 0,
        carried(carry, 0) == carry,
{
    assert(carry * 0 == 0);
}

/// Velocity after a fling.
pub fn chain_velocity(carry: i32, raw: i32, held_ms: u32) -> (r: i32)
    requires
        -4_000_000 <= carry <= 4_000_000,
        -0x4000_0000 <= raw <= 0x4000_0000,
    ensures
        r == chained(carry as int, raw as int, held_ms as int),
        -1400 <= r <= 1400,
{
    let left: i32 = CHAIN_HOLD_MS.saturating_sub(held_ms) as i32;
    proof {
        assert(-4_000_000 * 400 <= carry * left <= 4_000_000 * 400) by (nonlinear_arith)
            requires -4_000_000 <= carry <= 4_000_000, 0 <= left <= 400;
    }
    let c: i32 = carry * left / 400;
    if imath::iabs(raw) >= FLING_FLOOR_Q8 && imath::isgn(raw) == imath::isgn(c) {
        wheel_power(c + raw)
    } else {
        wheel_power(raw)
    }
}

/// A glide of the wheel: offset, velocity, target row, duration of the last frame and,
/// once it has landed, when.
#[derive(Clone, Copy, Debug, PartialEq, Eq, Structural)]
pub struct Coast {
    pub s_q8: i32,
    pub v_q8: i32,
    pub target: i32,
    pub dt_ms: i32,
    pub landed_at: Option<u64>,
}

pub open spec fn coast_ok(c: Coast, rows: int) -> bool {
    &&& rows_ok(rows)
    &&& offset_ok(c.s_q8 as int)
    &&& -2_800_000 <= c.v_q8 <= 2_800_000
    &&& 0 <= c.target <= last_row_q8(rows)
    &&& 10 <= c.dt_ms <= 50
}

/// What comes of a gesture during the glide.
#[derive(Clone, Copy, Debug, PartialEq, Eq, Structural)]
pub enum CoastEvent {
    /// Go on.
    Glide,
    /// A tap on the resting wheel: settle on this row and stop.
    Select(usize),
    /// A tap on the row already focused: stop.
    Stop,
}

/// What to do in a frame of the glide.
#[derive(Clone, Copy, Debug, PartialEq, Eq, Structural)]
pub enum CoastFrame {
    /// A finger took the wheel; this momentum is carried into its session.
    HandOff(i32),
    /// Landed long enough ago: the glide is over.
    Done,
    /// Landed: only poll.
    Wait,
    /// Draw at the new offset.
    Draw { fast: bool },
    /// Draw the resting row; the wheel has landed.
    Land,
}

/// The glide retargeted with velocity `v`.
pub open spec fn relaunched(c: Coast, v: int, rows: int) -> Coast {
    let t = aim(c.s_q8 as int, v, rows);
    Coast {
        target: t as i32,
        v_q8: imath::tdiv(t - c.s_q8, 112) as i32,
        landed_at: None,
        ..c
    }
}

/// Velocity after a whole flick `raw` arrives during the glide.
pub open spec fn flick_velocity(v: int, rel: int, raw: int) -> int {
    if rel >= 77 && imath::ssgn(raw) == imath::ssgn(v) {
        power(v + raw)
    } else {
        power(raw)
    }
}

/// Signed velocity in scroll space: upwards is forward.
pub open spec fn scroll_sign(dir: SwipeDir, v: int) -> int {
    match dir {
        SwipeDir::Up => v,
        SwipeDir::Down => -v,
    }
}

/// The glide and the outcome after a gesture.
pub open spec fn coast_event(c: Coast, ev: GestureEvent, rows: int) -> (Coast, CoastEvent) {
    match ev {
        GestureEvent::DragEnd { dir, vel_q8, .. } => {
            let raw = scroll_sign(dir, vel_q8 as int);
            (relaunched(c, flick_velocity(c.v_q8 as int, vel_q8 as int, raw), rows), CoastEvent::Glide)
        },
        GestureEvent::Tap { y, .. } => if c.landed_at is Some {
            let row = tapped(y as int, c.s_q8 as int, rows);
            if row != focused(c.s_q8 as int, rows) {
                (c, CoastEvent::Select(row as usize))
            } else {
                (c, CoastEvent::Stop)
            }
        } else {
            (
                Coast { v_q8: 0, target: nearest(c.s_q8 as int, rows) as i32, ..c },
                CoastEvent::Glide,
            )
        },
        _ => (c, CoastEvent::Glide),
    }
}

/// Offset and velocity of the next frame of a glide that has not landed. Outside the list
/// it springs back; far from the target it glides and decelerates; near it lands softly.
pub open spec fn glide_step(c: Coast, rows: int) -> (int, int) {
    let s = c.s_q8 as int;
    let v = c.v_q8 as int;
    let dt = c.dt_ms as int;
    let diff = c.target - s;
    if (s < 0 || s > last_row_q8(rows)) && diff != 0 {
        (s + (if imath::sabs(diff) <= 512 { diff } else { imath::tdiv(diff, 2) }), v)
    } else if imath::ssgn(diff) == imath::ssgn(v) && imath::sabs(diff) > 4096 {
        (s + v * dt, imath::tdiv(v * (256 - 57 * dt / 25), 256))
    } else if imath::sabs(diff) <= 256 {
        (c.target as int, 0)
    } else {
        (s + imath::tdiv(diff * 5, 16), v)
    }
}

/// The wheel is on its row.
pub open spec fn lands(c: Coast, rows: int) -> bool {
    let s = c.s_q8 as int;
    let diff = c.target - s;
    &&& !((s < 0 || s > last_row_q8(rows)) && diff != 0)
    &&& !(imath::ssgn(diff) == imath::ssgn(c.v_q8 as int) && imath::sabs(diff) > 4096)
    &&& imath::sabs(diff) <= 256
}

/// The glide and the action after one frame.
pub open spec fn coast_frame(c: Coast, finger: bool, now: u64, rows: int) -> (Coast, CoastFrame) {
    if finger {
        (c, CoastFrame::HandOff(c.v_q8))
    } else {
        match c.landed_at {
            Some(t0) => (c, if now - t0 >= 150 { CoastFrame::Done } else { CoastFrame::Wait }),
            None => {
                let (s, v) = glide_step(c, rows);
                let n = Coast { s_q8: s as i32, v_q8: v as i32, ..c };
                if lands(c, rows) {
                    (Coast { landed_at: Some(now), ..n }, CoastFrame::Land)
                } else {
                    (n, CoastFrame::Draw { fast: imath::sabs(v) > 512 })
                }
            },
        }
    }
}

proof fn lemma_glide_bounds(c: Coast, rows: int)
    requires
        coast_ok(c, rows),
    ensures
        offset_ok(glide_step(c, rows).0),
        -2_800_000 <= glide_step(c, rows).1 <= 2_800_000,
        -140_000_000 <= c.v_q8 * c.dt_ms <= 140_000_000,
        142 <= 256 - 57 * c.dt_ms as int / 25 <= 256,
        -2_800_000 * 256 <= c.v_q8 * (256 - 57 * c.dt_ms as int / 25) <= 2_800_000 * 256,
{
    let v = c.v_q8 as int;
    let dt = c.dt_ms as int;
    let k = 256 - 57 * dt / 25;
    assert(-140_000_000 <= v * dt <= 140_000_000) by (nonlinear_arith)
        requires -2_800_000 <= v <= 2_800_000, 10 <= dt <= 50;
    assert(-2_800_000 * 256 <= v * k <= 2_800_000 * 256) by (nonlinear_arith)
        requires -2_800_000 <= v <= 2_800_000, 0 <= k <= 256;
    assert(v > 0 ==> v * dt > 0) by (nonlinear_arith)
        requires dt >= 10;
    assert(v < 0 ==> v * dt < 0) by (nonlinear_arith)
        requires dt >= 10;
}

impl Coast {
    /// Start a glide with release velocity `v0_q8`.
    pub fn launch(s_q8: i32, v0_q8: i32, rows: i32) -> (c: Self)
        requires
            rows_ok(rows as int),
            offset_ok(s_q8 as int),
            v0_q8 > i32::MIN,
        ensures
            coast_ok(c, rows as int),
            c.s_q8 == s_q8,
            c.target == aim(s_q8 as int, v0_q8 as int, rows as int),
            c.v_q8 == imath::tdiv(c.target - s_q8, 112),
            c.dt_ms == 25,
            c.landed_at is None,
    {
        let target: i32 = aim_row(s_q8, v0_q8, rows);
        Coast { s_q8, v_q8: (target - s_q8) / K_MS, target, dt_ms: 25, landed_at: None }
    }

    /// Take a gesture that came during the glide.
    pub fn event(&mut self, ev: GestureEvent, rows: i32) -> (r: CoastEvent)
        requires
            coast_ok(*old(self), rows as int),
            ev matches GestureEvent::DragEnd { vel_q8, .. } ==> -0x4000_0000 <= vel_q8 <= 0x4000_0000,
        ensures
            (*final(self), r) == coast_event(*old(self), ev, rows as int),
            coast_ok(*final(self), rows as int),
    {
        match ev {
            GestureEvent::DragEnd { dir, dist: _, vel_q8 } => {
                let raw: i32 = match dir {
                    SwipeDir::Up => vel_q8,
                    SwipeDir::Down => -vel_q8,
                };
                let v: i32 = if vel_q8 >= FLING_FLOOR_Q8 && imath::isgn(raw) == imath::isgn(self.v_q8) {
                    wheel_power(self.v_q8 + raw)
                } else {
                    wheel_power(raw)
                };
                self.landed_at = None;
                self.target = aim_row(self.s_q8, v, rows);
                self.v_q8 = (self.target - self.s_q8) / K_MS;
                CoastEvent::Glide
            },
            GestureEvent::Tap { x: _, y } => {
                if self.landed_at.is_some() {
                    let row: usize = tap_row(y as i32, self.s_q8, rows);
                    if row != focused_row(self.s_q8, rows) {
                        return CoastEvent::Select(row);
                    }
                    return CoastEvent::Stop;
                }
                self.v_q8 = 0;
                self.target = nearest_rest(self.s_q8, rows);
                CoastEvent::Glide
            },
            _ => CoastEvent::Glide,
        }
    }

    /// Advance one frame at monotonic time `now_ms`.
    pub fn frame(&mut self, finger_down: bool, now_ms: u64, rows: i32) -> (r: CoastFrame)
        requires
            coast_ok(*old(self), rows as int),
            old(self).landed_at is Some ==> old(self).landed_at->0 <= now_ms,
        ensures
            (*final(self), r) == coast_frame(*old(self), finger_down, now_ms, rows as int),
            coast_ok(*final(self), rows as int),
    {
        if finger_down {
            return CoastFrame::HandOff(self.v_q8);
        }
        if let Some(t0) = self.landed_at {
            return if now_ms - t0 >= WHEEL_LINGER_MS {
                CoastFrame::Done
            } else {
                CoastFrame::Wait
            };
        }
        proof {
            lemma_glide_bounds(*self, rows as int);
        }
        let s_max: i32 = wheel_s_max(rows);
        let diff: i32 = self.target - self.s_q8;
        if (self.s_q8 < 0 || self.s_q8 > s_max) && diff != 0 {
            self.s_q8 = self.s_q8 + if imath::iabs(diff) <= 512 { diff } else { diff / 2 };
        } else if imath::isgn(diff) == imath::isgn(self.v_q8) && imath::iabs(diff) > 4096 {
            let k: i32 = 256 - (256 - DECAY_NUM) * self.dt_ms / 25;
            assert(k == 256 - 57 * self.dt_ms as int / 25);
            self.s_q8 = self.s_q8 + self.v_q8 * self.dt_ms;
            self.v_q8 = self.v_q8 * k / 256;
        } else if imath::iabs(diff) <= 256 {
            self.s_q8 = self.target;
            self.v_q8 = 0;
            self.landed_at = Some(now_ms);
            return CoastFrame::Land;
        } else {
            self.s_q8 = self.s_q8 + diff * 5 / 16;
        }
        CoastFrame::Draw { fast: imath::iabs(self.v_q8) > FAST_LOD_Q8 / 25 }
    }

    /// Record how long the frame took.
    pub fn paced(&mut self, frame_ms: u64)
        ensures
            *final(self) == (Coast {
                dt_ms: imath::sclamp(frame_ms as int, 10, 50) as i32,
                ..*old(self)
            }),
    {
        self.dt_ms = if frame_ms < 10 {
            10
        } else if frame_ms > 50 {
            50
        } else {
            frame_ms as i32
        };
    }
}

/// Room that the deceleration leaves in front of a glide, `diff` from its target at velocity
/// `v`: with frames of any length, or, `steady`, at the 25 ms cadence.
pub open spec fn glide_has_room(diff: int, v: int, steady: bool) -> bool {
    if steady {
        6400 * v - 57 * diff <= 815_000
    } else {
        1280 * v - 11 * diff <= 59_684
    }
}

/// The wheel is on the list and heads for its target, upwards (`dir` 1) or downwards (-1):
/// what is left before it and its velocity both point there, and while it glides there is
/// room.
pub open spec fn on_course(c: Coast, rows: int, dir: int, steady: bool) -> bool {
    let diff = dir * (c.target - c.s_q8);
    let v = dir * c.v_q8;
    &&& 0 <= c.s_q8 <= last_row_q8(rows)
    &&& 0 <= diff
    &&& 0 <= v
    &&& diff > 4096 && v > 0 ==> glide_has_room(diff, v, steady)
}

/// Longest glide that keeps its room: 8 rows, or 327 at the 25 ms cadence.
pub open spec fn glide_reach(steady: bool) -> int {
    if steady {
        5_692_416
    } else {
        139_264
    }
}

/// No frame of a glide, of whatever length, reverses or passes the target: the wheel comes
/// nearer in the direction it has, and stays on course.
pub proof fn lemma_glide_never_overshoots(c: Coast, rows: int, dir: int, steady: bool)
    requires
        coast_ok(c, rows),
        dir == 1 || dir == -1,
        on_course(c, rows, dir, steady),
        steady ==> c.dt_ms == 25,
    ensures
        ({
            let (s, v) = glide_step(c, rows);
            &&& 0 <= dir * (s - c.s_q8)
            &&& 0 <= dir * (c.target - s)
            &&& c.target != c.s_q8 ==> s != c.s_q8
            &&& 0 <= dir * v <= dir * c.v_q8
            &&& on_course(Coast { s_q8: s as i32, v_q8: v as i32, ..c }, rows, dir, steady)
        }),
{
    let dt = c.dt_ms as int;
    let (diff, v) = (dir * (c.target - c.s_q8), dir * c.v_q8);
    let f = 57 * dt / 25;
    let (n, k) = (v * dt, v * (256 - f));
    assert(c.v_q8 * dt == (if dir == 1 { n } else { -n })) by (nonlinear_arith)
        requires
            dir == 1 || dir == -1,
            v == dir * c.v_q8,
            n == v * dt,
    ;
    assert(c.v_q8 * (256 - f) == (if dir == 1 { k } else { -k })) by (nonlinear_arith)
        requires
            dir == 1 || dir == -1,
            v == dir * c.v_q8,
            k == v * (256 - f),
    ;
    assert(v > 0 ==> n > 0) by (nonlinear_arith)
        requires
            n == v * dt,
            dt >= 10,
    ;
    assert(0 <= n <= 50 * v && (steady ==> n == 25 * v)) by (nonlinear_arith)
        requires
            n == v * dt,
            10 <= dt <= 50,
            v >= 0,
            steady ==> dt == 25,
    ;
    assert(0 <= k <= 256 * v && (steady ==> k == 199 * v)) by (nonlinear_arith)
        requires
            k == v * (256 - f),
            0 <= f <= 114,
            v >= 0,
            steady ==> f == 57,
    ;
    assert(5 * f >= 11 * dt);
    assert(5 * k <= 1280 * v - 11 * n) by (nonlinear_arith)
        requires
            k == v * (256 - f),
            n == v * dt,
            5 * f >= 11 * dt,
            v >= 0,
    ;
    let (s2, v2) = glide_step(c, rows);
    let w = dir * v2;
    if dir == 1 {
        assert(v == c.v_q8 && diff == c.target - c.s_q8);
    } else {
        assert(v == -c.v_q8 && diff == c.s_q8 - c.target);
    }
    if diff > 4096 && v > 0 {
        assert(s2 == c.s_q8 + c.v_q8 * dt);
        assert(w == k / 256);
        assert(n < diff);
        assert(glide_has_room(diff - n, w, steady));
    } else if diff <= 256 {
        assert(s2 == c.target && v2 == 0);
    } else {
        assert(v2 == c.v_q8);
        assert(s2 == c.s_q8 + (if dir == 1 { diff * 5 / 16 } else { -(diff * 5 / 16) }));
    }
    assert(0 <= s2 <= last_row_q8(rows));
}

/// A glide starts on course: aimed at a row within reach, with the velocity that its
/// deceleration carries that far.
pub proof fn lemma_launch_on_course(s: int, target: int, rows: int, dir: int, steady: bool)
    requires
        rows_ok(rows),
        0 <= s <= last_row_q8(rows),
        0 <= target <= last_row_q8(rows),
        dir == 1 || dir == -1,
        0 <= dir * (target - s) <= glide_reach(steady),
    ensures
        on_course(
            (Coast {
                s_q8: s as i32,
                v_q8: imath::tdiv(target - s, 112) as i32,
                target: target as i32,
                dt_ms: 25,
                landed_at: None,
            }),
            rows,
            dir,
            steady,
        ),
{
}

/// The glide after `n` frames that took `dts` milliseconds each.
pub open spec fn glided(c: Coast, dts: Seq<int>, rows: int, n: int) -> Coast
    decreases n,
{
    if n <= 0 {
        c
    } else {
        let p = Coast { dt_ms: dts[n - 1] as i32, ..glided(c, dts, rows, n - 1) };
        let (s, v) = glide_step(p, rows);
        Coast { s_q8: s as i32, v_q8: v as i32, ..p }
    }
}

/// A fling never reverses: launched on the list at a row within reach, whatever time its
/// frames take, each brings the wheel on in the direction of the target, never past it, until
/// it is there.
pub proof fn lemma_fling_never_reverses(c: Coast, dts: Seq<int>, rows: int, steady: bool, n: int)
    requires
        coast_ok(c, rows),
        0 <= c.s_q8 <= last_row_q8(rows),
        imath::sabs(c.target - c.s_q8) <= glide_reach(steady),
        c.v_q8 == imath::tdiv(c.target - c.s_q8, 112),
        0 <= n < dts.len(),
        forall|i: int| 0 <= i < dts.len() ==> 10 <= #[trigger] dts[i] <= 50 && (steady ==> dts[i] == 25),
    ensures
        ({
            let (a, b) = (glided(c, dts, rows, n), glided(c, dts, rows, n + 1));
            &&& a.target == c.target && b.target == c.target
            &&& c.s_q8 <= c.target ==> c.s_q8 <= a.s_q8 <= b.s_q8 <= c.target
            &&& c.s_q8 >= c.target ==> c.s_q8 >= a.s_q8 >= b.s_q8 >= c.target
            &&& a.s_q8 != c.target ==> b.s_q8 != a.s_q8
        }),
{
    let dir = if c.s_q8 <= c.target { 1int } else { -1int };
    lemma_launch_on_course(c.s_q8 as int, c.target as int, rows, dir, steady);
    lemma_glided(c, dts, rows, dir, steady, n);
    let p = Coast { dt_ms: dts[n] as i32, ..glided(c, dts, rows, n) };
    lemma_glide_never_overshoots(p, rows, dir, steady);
}

proof fn lemma_glided(c: Coast, dts: Seq<int>, rows: int, dir: int, steady: bool, n: int)
    requires
        coast_ok(c, rows),
        dir == 1 || dir == -1,
        on_course(c, rows, dir, steady),
        0 <= n <= dts.len(),
        forall|i: int| 0 <= i < dts.len() ==> 10 <= #[trigger] dts[i] <= 50 && (steady ==> dts[i] == 25),
    ensures
        ({
            let a = glided(c, dts, rows, n);
            &&& coast_ok(a, rows)
            &&& on_course(a, rows, dir, steady)
            &&& a.target == c.target
            &&& 0 <= dir * (a.s_q8 - c.s_q8)
        }),
    decreases n,
{
    if n > 0 {
        lemma_glided(c, dts, rows, dir, steady, n - 1);
        assert(10 <= dts[n - 1] <= 50);
        let p = Coast { dt_ms: dts[n - 1] as i32, ..glided(c, dts, rows, n - 1) };
        lemma_glide_never_overshoots(p, rows, dir, steady);
    }
}

/// Near its row and inside the list, a wheel always comes closer: no frame reverses or stalls.
pub proof fn lemma_landing_converges(c: Coast, rows: int)
    requires
        coast_ok(c, rows),
        0 <= c.s_q8 <= last_row_q8(rows),
        imath::ssgn(c.target - c.s_q8) != imath::ssgn(c.v_q8 as int) || imath::sabs(c.target - c.s_q8) <= 4096,
        c.target != c.s_q8,
    ensures
        imath::sabs(c.target - glide_step(c, rows).0) < imath::sabs(c.target - c.s_q8),
{
}

/// A released overscroll springs back towards the list.
pub proof fn lemma_overscroll_returns(c: Coast, rows: int)
    requires
        coast_ok(c, rows),
        c.s_q8 < 0 || c.s_q8 > last_row_q8(rows),
    ensures
        imath::sabs(c.target - glide_step(c, rows).0) < imath::sabs(c.target - c.s_q8),
{
}

} // verus!
