//! Touch gesture recognition: every touch starts pending and becomes exactly one of a
//! tap (lifted without moving past the slop), a drag (moved along its axis from the edge
//! zone that arms it) or nothing.
use vstd::prelude::*;

use crate::drivers::cst9217::TouchPoint;
use crate::imath;

verus! {

/// Movement beyond this many pixels on either axis ends the pending phase.
pub const MOVE_SLOP_PX: i32 = 10;
/// Eighths of the panel at each edge that arm a swipe.
pub const ARM_ZONE_EIGHTHS: u32 = 3;
/// Refractory window after a tap.
pub const TAP_DEBOUNCE_MS: u32 = 350;
/// Shortest press that is a tap.
pub const MIN_TAP_MS: u32 = 40;
/// Reports this soon after start are ignored.
pub const STARTUP_SUPPRESS_MS: u32 = 800;
/// A finger not reported for longer than this has lifted.
pub const RELEASE_TIMEOUT_MS: u32 = 1_500;

/// Swipe direction.
#[derive(Clone, Copy, Debug, PartialEq, Eq, Structural)]
pub enum SwipeDir {
    /// Upward, armed from the bottom zone.
    Up,
    /// Downward, armed from the top zone.
    Down,
}

#[derive(Clone, Copy, Debug, PartialEq, Eq, Structural)]
pub enum GestureEvent {
    Nothing,
    /// A drag begins; `dist` is the travel already covered.
    DragStart { dir: SwipeDir, x: u16, y: u16, dist: u16 },
    /// A drag goes on; `dist` is the travel from touch-down.
    DragMove { dir: SwipeDir, dist: u16 },
    /// A drag ended with `vel_q8` px/ms (in 256ths) along `dir`.
    DragEnd { dir: SwipeDir, dist: u16, vel_q8: i32 },
    /// Press and lift without movement.
    Tap { x: u16, y: u16 },
}

/// A touch: where and when it began, its last sample and the one before.
#[derive(Clone, Copy, Debug, PartialEq, Eq, Structural)]
pub struct Track {
    pub start_x: u16,
    pub start_y: u16,
    pub start_ms: u32,
    pub last_x: u16,
    pub last_y: u16,
    pub last_ms: u32,
    pub prev_y: u16,
    pub prev_ms: u32,
}

#[derive(Clone, Copy, Debug, PartialEq, Eq, Structural)]
pub enum Phase {
    Idle,
    /// Touched, not yet classified.
    Pending(Track),
    /// A swipe along a direction.
    Dragging(Track, SwipeDir),
    /// Neither tap nor drag; swallowed until lift-off.
    Rejected(Track),
}

#[derive(Clone, Copy, Debug, PartialEq, Eq, Structural)]
pub struct SwipeTracker {
    pub phase: Phase,
    pub height: u16,
    /// Time of the last tap.
    pub last_tap_ms: u32,
}

/// What one feed amounts to for a touch in progress.
pub enum Input {
    Move(TouchPoint),
    Lift(Option<TouchPoint>),
    Nothing,
}

/// Milliseconds from `then` to `now` on the wrapping clock.
pub open spec fn since(now: u32, then_ms: u32) -> int {
    if now >= then_ms { now - then_ms } else { now - then_ms + 0x1_0000_0000 }
}

/// Speed in 256ths of a pixel per millisecond over `ms` milliseconds, at least one, read
/// as a signed 32-bit number.
pub open spec fn speed_q8(px: int, ms: int) -> int {
    let d = imath::smax(ms, 1);
    if d < 0x8000_0000 {
        imath::tdiv(px * 256, d)
    } else {
        imath::tdiv(-px * 256, 0x1_0000_0000 - d)
    }
}

/// Moved past the slop on either axis.
pub open spec fn past_slop(dx: int, dy: int) -> bool {
    imath::sabs(dx) > 10 || imath::sabs(dy) > 10
}

/// Direction of a swipe that began on row `start_y`: it has to begin in the zone that arms
/// it and to run at least half as far along its axis as across.
pub open spec fn swipe_dir(height: int, start_y: int, dx: int, dy_up: int) -> Option<SwipeDir> {
    if start_y >= height * 5 / 8 && dy_up > 0 && dy_up * 2 >= imath::sabs(dx) {
        Some(SwipeDir::Up)
    } else if start_y < height * 3 / 8 && dy_up < 0 && -dy_up * 2 >= imath::sabs(dx) {
        Some(SwipeDir::Down)
    } else {
        None
    }
}

/// Travel from row `from` to row `to` along `dir`; none when it runs backwards.
pub open spec fn travel(dir: SwipeDir, from: int, to: int) -> int {
    match dir {
        SwipeDir::Up => imath::smax(from - to, 0),
        SwipeDir::Down => imath::smax(to - from, 0),
    }
}

/// The track with one more sample.
pub open spec fn sampled(tr: Track, t: TouchPoint, now: u32) -> Track {
    Track {
        prev_y: tr.last_y,
        prev_ms: tr.last_ms,
        last_x: t.x,
        last_y: t.y,
        last_ms: now,
        ..tr
    }
}

/// What a report, or its absence, means for a touch in progress.
pub open spec fn input_of(tr: Track, report: Option<TouchPoint>, now: u32) -> Input {
    match report {
        Some(t) => if t.pressed { Input::Move(t) } else { Input::Lift(Some(t)) },
        None => if since(now, tr.last_ms) > 1500 { Input::Lift(None) } else { Input::Nothing },
    }
}

/// Outcome of lifting a pending touch. A lift far from touch-down is classified as a whole
/// swipe or dropped; otherwise it is a tap unless too short or too soon after the last one.
pub open spec fn lifted(s: SwipeTracker, tr: Track, lift: Option<TouchPoint>, now: u32) -> (SwipeTracker, GestureEvent) {
    let idle = SwipeTracker { phase: Phase::Idle, ..s };
    let far = lift matches Some(t) && past_slop(t.x - tr.start_x, tr.start_y - t.y);
    if far {
        let t = lift->0;
        match swipe_dir(s.height as int, tr.start_y as int, t.x - tr.start_x, tr.start_y - t.y) {
            Some(dir) => {
                let dist = travel(dir, tr.start_y as int, t.y as int);
                (
                    idle,
                    GestureEvent::DragEnd {
                        dir,
                        dist: dist as u16,
                        vel_q8: speed_q8(dist, since(now, tr.start_ms)) as i32,
                    },
                )
            },
            None => (idle, GestureEvent::Nothing),
        }
    } else if since(now, tr.start_ms) < 40 || since(now, s.last_tap_ms) < 350 {
        (idle, GestureEvent::Nothing)
    } else {
        (
            SwipeTracker { phase: Phase::Idle, last_tap_ms: now, ..s },
            GestureEvent::Tap { x: tr.start_x, y: tr.start_y },
        )
    }
}

/// The tracker and the event after one feed.
pub open spec fn fed(s: SwipeTracker, report: Option<TouchPoint>, now: u32) -> (SwipeTracker, GestureEvent) {
    if now < 800 {
        (s, GestureEvent::Nothing)
    } else {
        match s.phase {
            Phase::Idle => match report {
                Some(t) if t.pressed => (
                    SwipeTracker {
                        phase: Phase::Pending(
                            Track {
                                start_x: t.x,
                                start_y: t.y,
                                start_ms: now,
                                last_x: t.x,
                                last_y: t.y,
                                last_ms: now,
                                prev_y: t.y,
                                prev_ms: now,
                            },
                        ),
                        ..s
                    },
                    GestureEvent::Nothing,
                ),
                _ => (s, GestureEvent::Nothing),
            },
            Phase::Pending(tr) => match input_of(tr, report, now) {
                Input::Move(t) => {
                    let n = sampled(tr, t, now);
                    let (dx, dy) = (t.x - tr.start_x, tr.start_y - t.y);
                    if !past_slop(dx, dy) {
                        (SwipeTracker { phase: Phase::Pending(n), ..s }, GestureEvent::Nothing)
                    } else {
                        match swipe_dir(s.height as int, tr.start_y as int, dx, dy) {
                            Some(dir) => (
                                SwipeTracker { phase: Phase::Dragging(n, dir), ..s },
                                GestureEvent::DragStart {
                                    dir,
                                    x: tr.start_x,
                                    y: tr.start_y,
                                    dist: travel(dir, tr.start_y as int, t.y as int) as u16,
                                },
                            ),
                            None => (SwipeTracker { phase: Phase::Rejected(n), ..s }, GestureEvent::Nothing),
                        }
                    }
                },
                Input::Lift(lift) => lifted(s, tr, lift, now),
                Input::Nothing => (s, GestureEvent::Nothing),
            },
            Phase::Dragging(tr, dir) => match input_of(tr, report, now) {
                Input::Move(t) => (
                    SwipeTracker { phase: Phase::Dragging(sampled(tr, t, now), dir), ..s },
                    GestureEvent::DragMove {
                        dir,
                        dist: travel(dir, tr.start_y as int, t.y as int) as u16,
                    },
                ),
                Input::Lift(lift) => {
                    let n = match lift {
                        Some(t) if t.x != tr.last_x || t.y != tr.last_y => sampled(tr, t, now),
                        _ => tr,
                    };
                    let px = match dir {
                        SwipeDir::Up => n.prev_y - n.last_y,
                        SwipeDir::Down => n.last_y - n.prev_y,
                    };
                    (
                        SwipeTracker { phase: Phase::Idle, ..s },
                        GestureEvent::DragEnd {
                            dir,
                            dist: travel(dir, n.start_y as int, n.last_y as int) as u16,
                            vel_q8: speed_q8(px, since(n.last_ms, n.prev_ms)) as i32,
                        },
                    )
                },
                Input::Nothing => (s, GestureEvent::Nothing),
            },
            Phase::Rejected(tr) => match input_of(tr, report, now) {
                Input::Move(t) => (
                    SwipeTracker {
                        phase: Phase::Rejected(Track { last_x: t.x, last_y: t.y, last_ms: now, ..tr }),
                        ..s
                    },
                    GestureEvent::Nothing,
                ),
                Input::Lift(_) => (SwipeTracker { phase: Phase::Idle, ..s }, GestureEvent::Nothing),
                Input::Nothing => (s, GestureEvent::Nothing),
            },
        }
    }
}

/// Milliseconds between two times of the wrapping clock.
pub fn elapsed(now: u32, then_ms: u32) -> (r: u32)
    ensures
        r == since(now, then_ms),
{
    now.wrapping_sub(then_ms)
}

/// Speed over a time span.
pub fn speed(px: i32, ms: u32) -> (r: i32)
    requires
        -65535 <= px <= 65535,
    ensures
        r == speed_q8(px as int, ms as int),
        -16_776_960 <= r <= 16_776_960,
{
    let d: u32 = if ms < 1 { 1 } else { ms };
    if d < 0x8000_0000 {
        px * 256 / d as i32
    } else {
        let back: u32 = 0xffff_ffff - d + 1;
        if back == 0x8000_0000 {
            assert(imath::tdiv(-px * 256, 0x8000_0000) == 0);
            0
        } else {
            -px * 256 / back as i32
        }
    }
}

/// Travel from touch-down along the swipe direction.
fn dist_along(tr: &Track, dir: SwipeDir) -> (r: u16)
    ensures
        r == travel(dir, tr.start_y as int, tr.last_y as int),
{
    match dir {
        SwipeDir::Up => tr.start_y.saturating_sub(tr.last_y),
        SwipeDir::Down => tr.last_y.saturating_sub(tr.start_y),
    }
}

fn moved_far(dx: i32, dy: i32) -> (r: bool)
    requires
        -65535 <= dx <= 65535,
        -65535 <= dy <= 65535,
    ensures
        r == past_slop(dx as int, dy as int),
{
    imath::imax(imath::iabs(dx), imath::iabs(dy)) > MOVE_SLOP_PX
}

impl SwipeTracker {
    /// No touch yet.
    pub fn new(height: u16) -> (r: Self)
        ensures
            r.phase == Phase::Idle,
            r.height == height,
            r.last_tap_ms == 0,
    {
        SwipeTracker { phase: Phase::Idle, height, last_tap_ms: 0 }
    }

    /// A touch is being followed.
    pub fn finger_down(&self) -> (r: bool)
        ensures
            r == !(self.phase is Idle),
    {
        match self.phase {
            Phase::Idle => false,
            _ => true,
        }
    }

    /// Row where the touch that is down began.
    pub fn press_origin_y(&self) -> (r: Option<u16>)
        ensures
            r == (match self.phase {
                Phase::Idle => None,
                Phase::Pending(tr) => Some(tr.start_y),
                Phase::Dragging(tr, _) => Some(tr.start_y),
                Phase::Rejected(tr) => Some(tr.start_y),
            }),
    {
        match self.phase {
            Phase::Idle => None,
            Phase::Pending(tr) => Some(tr.start_y),
            Phase::Dragging(tr, _) => Some(tr.start_y),
            Phase::Rejected(tr) => Some(tr.start_y),
        }
    }

    /// Swallow the touch that is down: its lift gives no event.
    pub fn cancel(&mut self)
        ensures
            *final(self) == (SwipeTracker {
                phase: match old(self).phase {
                    Phase::Idle => Phase::Idle,
                    Phase::Pending(tr) => Phase::Rejected(tr),
                    Phase::Dragging(tr, _) => Phase::Rejected(tr),
                    Phase::Rejected(tr) => Phase::Rejected(tr),
                },
                ..*old(self)
            }),
    {
        self.phase = match self.phase {
            Phase::Idle => Phase::Idle,
            Phase::Pending(tr) => Phase::Rejected(tr),
            Phase::Dragging(tr, _) => Phase::Rejected(tr),
            Phase::Rejected(tr) => Phase::Rejected(tr),
        };
    }

    /// Feed a report, or `None` for an idle tick; at most one event comes out.
    pub fn feed(&mut self, report: Option<TouchPoint>, now_ms: u32) -> (e: GestureEvent)
        ensures
            (*final(self), e) == fed(*old(self), report, now_ms),
    {
        if now_ms < STARTUP_SUPPRESS_MS {
            return GestureEvent::Nothing;
        }
        match self.phase {
            Phase::Idle => {
                if let Some(t) = report {
                    if t.pressed {
                        self.phase = Phase::Pending(
                            Track {
                                start_x: t.x,
                                start_y: t.y,
                                start_ms: now_ms,
                                last_x: t.x,
                                last_y: t.y,
                                last_ms: now_ms,
                                prev_y: t.y,
                                prev_ms: now_ms,
                            },
                        );
                    }
                }
                GestureEvent::Nothing
            },
            Phase::Pending(tr) => match Self::classify_input(&tr, report, now_ms) {
                Input::Move(t) => {
                    let n = Self::sample(tr, t, now_ms);
                    let dx: i32 = t.x as i32 - tr.start_x as i32;
                    let dy_up: i32 = tr.start_y as i32 - t.y as i32;
                    if moved_far(dx, dy_up) {
                        if let Some(dir) = self.classify_dir(tr.start_y, dx, dy_up) {
                            self.phase = Phase::Dragging(n, dir);
                            return GestureEvent::DragStart {
                                dir,
                                x: tr.start_x,
                                y: tr.start_y,
                                dist: dist_along(&n, dir),
                            };
                        }
                        self.phase = Phase::Rejected(n);
                    } else {
                        self.phase = Phase::Pending(n);
                    }
                    GestureEvent::Nothing
                },
                Input::Lift(lift) => self.lift_pending(tr, lift, now_ms),
                Input::Nothing => GestureEvent::Nothing,
            },
            Phase::Dragging(tr, dir) => match Self::classify_input(&tr, report, now_ms) {
                Input::Move(t) => {
                    let n = Self::sample(tr, t, now_ms);
                    self.phase = Phase::Dragging(n, dir);
                    GestureEvent::DragMove { dir, dist: dist_along(&n, dir) }
                },
                Input::Lift(lift) => {
                    self.phase = Phase::Idle;
                    let mut n = tr;
                    if let Some(t) = lift {
                        if t.x != tr.last_x || t.y != tr.last_y {
                            n = Self::sample(tr, t, now_ms);
                        }
                    }
                    let px: i32 = match dir {
                        SwipeDir::Up => n.prev_y as i32 - n.last_y as i32,
                        SwipeDir::Down => n.last_y as i32 - n.prev_y as i32,
                    };
                    GestureEvent::DragEnd {
                        dir,
                        dist: dist_along(&n, dir),
                        vel_q8: speed(px, elapsed(n.last_ms, n.prev_ms)),
                    }
                },
                Input::Nothing => GestureEvent::Nothing,
            },
            Phase::Rejected(tr) => match Self::classify_input(&tr, report, now_ms) {
                Input::Lift(_) => {
                    self.phase = Phase::Idle;
                    GestureEvent::Nothing
                },
                Input::Move(t) => {
                    self.phase = Phase::Rejected(Track { last_x: t.x, last_y: t.y, last_ms: now_ms, ..tr });
                    GestureEvent::Nothing
                },
                Input::Nothing => GestureEvent::Nothing,
            },
        }
    }

    fn sample(tr: Track, t: TouchPoint, now_ms: u32) -> (r: Track)
        ensures
            r == sampled(tr, t, now_ms),
    {
        Track {
            prev_y: tr.last_y,
            prev_ms: tr.last_ms,
            last_x: t.x,
            last_y: t.y,
            last_ms: now_ms,
            ..tr
        }
    }

    fn lift_pending(&mut self, tr: Track, lift: Option<TouchPoint>, now_ms: u32) -> (e: GestureEvent)
        ensures
            (*final(self), e) == lifted(*old(self), tr, lift, now_ms),
    {
        self.phase = Phase::Idle;
        if let Some(t) = lift {
            let dx: i32 = t.x as i32 - tr.start_x as i32;
            let dy_up: i32 = tr.start_y as i32 - t.y as i32;
            if moved_far(dx, dy_up) {
                if let Some(dir) = self.classify_dir(tr.start_y, dx, dy_up) {
                    let dist: u16 = match dir {
                        SwipeDir::Up => tr.start_y.saturating_sub(t.y),
                        SwipeDir::Down => t.y.saturating_sub(tr.start_y),
                    };
                    return GestureEvent::DragEnd {
                        dir,
                        dist,
                        vel_q8: speed(dist as i32, elapsed(now_ms, tr.start_ms)),
                    };
                }
                return GestureEvent::Nothing;
            }
        }
        if elapsed(now_ms, tr.start_ms) < MIN_TAP_MS {
            return GestureEvent::Nothing;
        }
        if elapsed(now_ms, self.last_tap_ms) < TAP_DEBOUNCE_MS {
            return GestureEvent::Nothing;
        }
        self.last_tap_ms = now_ms;
        GestureEvent::Tap { x: tr.start_x, y: tr.start_y }
    }

    fn classify_input(tr: &Track, report: Option<TouchPoint>, now_ms: u32) -> (r: Input)
        ensures
            r == input_of(*tr, report, now_ms),
    {
        match report {
            Some(t) => if t.pressed {
                Input::Move(t)
            } else {
                Input::Lift(Some(t))
            },
            None => if elapsed(now_ms, tr.last_ms) > RELEASE_TIMEOUT_MS {
                Input::Lift(None)
            } else {
                Input::Nothing
            },
        }
    }

    fn classify_dir(&self, start_y: u16, dx: i32, dy_up: i32) -> (r: Option<SwipeDir>)
        requires
            -65535 <= dx <= 65535,
            -65535 <= dy_up <= 65535,
        ensures
            r == swipe_dir(self.height as int, start_y as int, dx as int, dy_up as int),
    {
        let lower: u32 = 8 - ARM_ZONE_EIGHTHS;
        assert(lower == 5);
        let in_bottom = start_y as u32 >= self.height as u32 * lower / 8;
        let in_top = (start_y as u32) < self.height as u32 * ARM_ZONE_EIGHTHS / 8;
        if in_bottom && dy_up > 0 && dy_up * 2 >= imath::iabs(dx) {
            Some(SwipeDir::Up)
        } else if in_top && dy_up < 0 && -dy_up * 2 >= imath::iabs(dx) {
            Some(SwipeDir::Down)
        } else {
            None
        }
    }
}

/// Nothing happens while the controller settles.
pub proof fn lemma_startup_is_silent(s: SwipeTracker, report: Option<TouchPoint>, now: u32)
    requires
        now < 800,
    ensures
        fed(s, report, now) == (s, GestureEvent::Nothing),
{
}

/// A tap is pressed for at least 40 ms, moved no farther than the slop as far as the tracker
/// saw, comes at least 350 ms after the tap before it and is reported at touch-down.
pub proof fn lemma_tap(s: SwipeTracker, report: Option<TouchPoint>, now: u32)
    requires
        fed(s, report, now).1 is Tap,
    ensures
        s.phase is Pending,
        since(now, s.phase->Pending_0.start_ms) >= 40,
        since(now, s.last_tap_ms) >= 350,
        fed(s, report, now).0.last_tap_ms == now,
        fed(s, report, now).0.phase is Idle,
        fed(s, report, now).1 == (GestureEvent::Tap {
            x: s.phase->Pending_0.start_x,
            y: s.phase->Pending_0.start_y,
        }),
        report is Some ==> !past_slop(
            report->0.x - s.phase->Pending_0.start_x,
            s.phase->Pending_0.start_y - report->0.y,
        ),
{
}

/// Only a tap moves the refractory window.
pub proof fn lemma_refractory_anchor(s: SwipeTracker, report: Option<TouchPoint>, now: u32)
    requires
        !(fed(s, report, now).1 is Tap),
    ensures
        fed(s, report, now).0.last_tap_ms == s.last_tap_ms,
        fed(s, report, now).0.height == s.height,
{
}

/// A touch is one thing only: a drag never ends as a tap, a rejected touch stays silent
/// until it lifts, and a drag keeps its direction.
pub proof fn lemma_one_classification(s: SwipeTracker, report: Option<TouchPoint>, now: u32)
    ensures
        s.phase is Rejected ==> fed(s, report, now).1 is Nothing && (fed(s, report, now).0.phase is Rejected || fed(
            s,
            report,
            now,
        ).0.phase is Idle),
        s.phase is Dragging ==> !(fed(s, report, now).1 is Tap) && !(fed(s, report, now).1 is DragStart),
        s.phase is Dragging && fed(s, report, now).1 is DragMove ==> fed(s, report, now).1->DragMove_dir
            == s.phase->Dragging_1,
        s.phase is Dragging && fed(s, report, now).1 is DragEnd ==> fed(s, report, now).1->DragEnd_dir
            == s.phase->Dragging_1,
        fed(s, report, now).1 is DragMove ==> s.phase is Dragging,
        fed(s, report, now).1 is DragStart ==> s.phase is Pending && fed(s, report, now).0.phase is Dragging,
        fed(s, report, now).1 is DragEnd ==> fed(s, report, now).0.phase is Idle,
{
}

/// A drag starts, or is recognised at lift-off, only in the zone that arms its direction and
/// with travel along it.
pub proof fn lemma_drag_is_armed(s: SwipeTracker, report: Option<TouchPoint>, now: u32)
    requires
        s.phase is Pending,
    ensures
        ({
            let y = s.phase->Pending_0.start_y as int;
            let e = fed(s, report, now).1;
            let up = (e is DragStart && e->DragStart_dir is Up) || (e is DragEnd && e->DragEnd_dir is Up);
            let down = (e is DragStart && e->DragStart_dir is Down) || (e is DragEnd && e->DragEnd_dir is Down);
            &&& up ==> y >= s.height as int * 5 / 8 && report is Some && report->0.y < y
            &&& down ==> y < s.height as int * 3 / 8 && report is Some && report->0.y > y
        }),
{
}

/// A finger that is no longer reported is taken to have lifted, but not before the timeout.
pub proof fn lemma_release_timeout(s: SwipeTracker, now: u32)
    requires
        now >= 800,
        s.phase is Pending || s.phase is Dragging || s.phase is Rejected,
    ensures
        ({
            let last = match s.phase {
                Phase::Pending(tr) => tr.last_ms,
                Phase::Dragging(tr, _) => tr.last_ms,
                Phase::Rejected(tr) => tr.last_ms,
                Phase::Idle => 0,
            };
            &&& since(now, last) > 1500 ==> fed(s, None, now).0.phase is Idle
            &&& since(now, last) <= 1500 ==> fed(s, None, now) == (s, GestureEvent::Nothing)
        }),
{
}

} // verus!
