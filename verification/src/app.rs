//! The application shell's decisions: scenes, the idle power ladder, what a frame draws,
//! where a gesture goes, the touch poll, the flush plan and the open/close morph timeline.
//! The loop around them performs what they decide.
use vstd::prelude::*;

use crate::display::dmi;
use crate::display::dmi::Span;
use crate::drivers::axp2101::PowerKey;
use crate::drivers::cst9217::TouchPoint;
use crate::imath;
use crate::input::gestures::{GestureEvent, SwipeDir};
use crate::motion;
use crate::motion::Direct;

verus! {

/// Cadence at rest, of ring and settle animations, and while the panel is idle.
pub const FRAME_US: u64 = 50_000;
pub const ANIM_FRAME_US: u64 = 25_000;
pub const IDLE_FRAME_US: u64 = 500_000;
/// Shortest gap between drag frames.
pub const COMPOSE_MIN_US: u64 = 12_000;
/// Unlocked scenes relock after this long without interaction.
pub const AUTO_RELOCK_MS: u64 = 60_000;
/// Idle times of the power ladder.
pub const IDLE_DIM_MS: u64 = 30_000;
pub const AOD_MS: u64 = 120_000;
pub const SLEEP_MS: u64 = 600_000;
/// Brightness levels.
pub const FULL_BRIGHTNESS: u8 = 0xFF;
pub const IDLE_DIM_LEVEL: u8 = 0x38;
pub const AOD_BRIGHTNESS: u8 = 0x18;
/// Dimming step per frame.
pub const DIM_STEP: u8 = 8;
/// A swipe down from above this row relocks.
pub const RELOCK_ZONE_PX: u16 = 55;
/// Consecutive touch errors before the controller is set up again.
pub const TOUCH_REINIT_ERRORS: u32 = 5;

#[derive(Clone, Copy, Debug, PartialEq, Eq, Structural)]
pub enum Scene {
    Locked,
    /// The app wheel, where an unlock lands.
    Wheel,
    /// An open app.
    App(usize),
}

/// The idle ladder.
#[derive(Clone, Copy, Debug, PartialEq, Eq, Structural)]
pub enum Power {
    Awake,
    /// Dimmed; the scene goes on, the minute sweep does not.
    Dim,
    /// Black but for the time; locked only.
    Aod,
    /// The panel is off; locked only.
    Sleep,
}

/// Rung of the ladder for an idle time.
pub open spec fn rung(idle_ms: int, scene: Scene) -> Power {
    if idle_ms < 30_000 {
        Power::Awake
    } else if idle_ms < 120_000 || !(scene is Locked) {
        Power::Dim
    } else if idle_ms < 600_000 {
        Power::Aod
    } else {
        Power::Sleep
    }
}

pub fn desired_power(idle_ms: u64, scene: Scene) -> (p: Power)
    ensures
        p == rung(idle_ms as int, scene),
{
    if idle_ms < IDLE_DIM_MS {
        Power::Awake
    } else if idle_ms < AOD_MS || scene != Scene::Locked {
        Power::Dim
    } else if idle_ms < SLEEP_MS {
        Power::Aod
    } else {
        Power::Sleep
    }
}

/// Longer idling never climbs the ladder, and only a locked watch goes below dim.
pub proof fn lemma_ladder(a: int, b: int, scene: Scene)
    requires
        a <= b,
    ensures
        rung(b, scene) is Awake ==> rung(a, scene) is Awake,
        rung(b, scene) is Dim ==> rung(a, scene) is Awake || rung(a, scene) is Dim,
        rung(b, scene) is Aod ==> !(rung(a, scene) is Sleep),
        rung(b, scene) is Aod || rung(b, scene) is Sleep ==> scene is Locked,
{
}

/// Power state of the panel.
#[derive(Clone, Copy, Debug, PartialEq, Eq, Structural)]
pub struct Panel {
    pub power: Power,
    pub brightness: u8,
    /// Minute shown by the always-on frame; 255 when none is.
    pub aod_minute: u8,
}

/// What the panel has to be told.
#[derive(Clone, Copy, Debug, PartialEq, Eq, Structural)]
pub enum PanelAction {
    Keep,
    /// Wake up.
    Wake(WakeSteps),
    /// Entering or staying dim: suppress the minute sweep, write a brightness.
    Dim { suppress: bool, brightness: Option<u8> },
    /// Entering or staying in the always-on state: write its brightness, draw a frame.
    Aod { enter: bool, draw: bool },
    /// Entering or staying asleep: switch the panel off.
    Sleep { enter: bool },
}

/// Steps of waking up: leave sleep (with its settling time), repaint the lock scene, switch
/// the panel on again, restore the brightness.
#[derive(Clone, Copy, Debug, PartialEq, Eq, Structural)]
pub struct WakeSteps {
    pub sleep_out: bool,
    pub repaint: bool,
    pub brightness: bool,
}

pub open spec fn wake_steps(p: Panel) -> WakeSteps {
    WakeSteps {
        sleep_out: p.power is Sleep,
        repaint: p.power is Sleep || p.power is Aod,
        brightness: p.brightness != 0xFF,
    }
}

/// The panel after waking.
pub open spec fn awake(p: Panel) -> Panel {
    Panel { power: Power::Awake, brightness: 0xFF, ..p }
}

/// The panel and its action for one frame at a rung of the ladder.
pub open spec fn ladder_step(p: Panel, want: Power, minute: u8) -> (Panel, PanelAction) {
    match want {
        Power::Awake => if p.power is Awake && p.brightness == 0xFF {
            (p, PanelAction::Keep)
        } else {
            (awake(p), PanelAction::Wake(wake_steps(p)))
        },
        Power::Dim => {
            let dimmed = imath::smax(p.brightness - 8, 0x38) as u8;
            (
                Panel {
                    power: Power::Dim,
                    brightness: if p.brightness > 0x38 { dimmed } else { p.brightness },
                    ..p
                },
                PanelAction::Dim {
                    suppress: !(p.power is Dim),
                    brightness: if p.brightness > 0x38 { Some(dimmed) } else { None },
                },
            )
        },
        Power::Aod => {
            let enter = !(p.power is Aod);
            let draw = enter && minute != 255 || p.aod_minute != minute && !enter;
            (
                Panel {
                    power: Power::Aod,
                    brightness: if enter { 0x18u8 } else { p.brightness },
                    aod_minute: minute,
                },
                PanelAction::Aod { enter, draw },
            )
        },
        Power::Sleep => (
            Panel { power: Power::Sleep, ..p },
            PanelAction::Sleep { enter: !(p.power is Sleep) },
        ),
    }
}

impl Panel {
    /// Awake at full brightness.
    pub fn new() -> (p: Self)
        ensures
            p == (Panel { power: Power::Awake, brightness: 0xFF, aod_minute: 255 }),
    {
        Panel { power: Power::Awake, brightness: FULL_BRIGHTNESS, aod_minute: 255 }
    }

    /// The panel shows the scene at full brightness.
    pub fn is_awake(&self) -> (r: bool)
        ensures
            r == (self.power is Awake && self.brightness == 0xFF),
    {
        self.power == Power::Awake && self.brightness == FULL_BRIGHTNESS
    }

    /// Wake up at once, from any state.
    pub fn wake(&mut self) -> (r: WakeSteps)
        ensures
            *final(self) == awake(*old(self)),
            r == wake_steps(*old(self)),
    {
        let r = WakeSteps {
            sleep_out: self.power == Power::Sleep,
            repaint: self.power == Power::Sleep || self.power == Power::Aod,
            brightness: self.brightness != FULL_BRIGHTNESS,
        };
        self.power = Power::Awake;
        self.brightness = FULL_BRIGHTNESS;
        r
    }

    /// One frame of the idle ladder.
    pub fn ladder(&mut self, idle_ms: u64, scene: Scene, minute: u8) -> (r: PanelAction)
        ensures
            (*final(self), r) == ladder_step(*old(self), rung(idle_ms as int, scene), minute),
    {
        match desired_power(idle_ms, scene) {
            Power::Awake => {
                if self.is_awake() {
                    PanelAction::Keep
                } else {
                    PanelAction::Wake(self.wake())
                }
            },
            Power::Dim => {
                let suppress = self.power != Power::Dim;
                self.power = Power::Dim;
                if self.brightness > IDLE_DIM_LEVEL {
                    let lower: u8 = self.brightness.saturating_sub(DIM_STEP);
                    self.brightness = if lower > IDLE_DIM_LEVEL { lower } else { IDLE_DIM_LEVEL };
                    PanelAction::Dim { suppress, brightness: Some(self.brightness) }
                } else {
                    PanelAction::Dim { suppress, brightness: None }
                }
            },
            Power::Aod => {
                let enter = self.power != Power::Aod;
                if enter {
                    self.power = Power::Aod;
                    self.aod_minute = 255;
                    self.brightness = AOD_BRIGHTNESS;
                }
                let draw = self.aod_minute != minute;
                self.aod_minute = minute;
                PanelAction::Aod { enter, draw }
            },
            Power::Sleep => {
                let enter = self.power != Power::Sleep;
                self.power = Power::Sleep;
                PanelAction::Sleep { enter }
            },
        }
    }
}

/// Dimming never goes below the idle level, and waking always restores full brightness.
pub proof fn lemma_brightness(p: Panel, want: Power, minute: u8)
    ensures
        want is Dim && p.brightness >= 0x38 ==> 0x38 <= ladder_step(p, want, minute).0.brightness <= p.brightness,
        want is Awake ==> ladder_step(p, want, minute).0.brightness == 0xFF,
        ladder_step(p, want, minute).0.power == want,
{
}

/// An unlocked scene has been left alone long enough.
pub fn auto_relocks(scene: Scene, since_interaction_ms: u64) -> (r: bool)
    ensures
        r == (!(scene is Locked) && since_interaction_ms >= 60_000),
{
    scene != Scene::Locked && since_interaction_ms >= AUTO_RELOCK_MS
}

/// A press on the awake wheel below the relock zone takes the wheel over.
pub fn takes_over(scene: Scene, power: Power, press_y: Option<u16>) -> (r: bool)
    ensures
        r == (scene is Wheel && power is Awake && press_y is Some && press_y->0 >= 55),
{
    match press_y {
        Some(y) => scene == Scene::Wheel && power == Power::Awake && y >= RELOCK_ZONE_PX,
        None => false,
    }
}

/// What a frame draws.
#[derive(Clone, Copy, Debug, PartialEq, Eq, Structural)]
pub enum FrameDraw {
    Nothing,
    /// The lock scene.
    Lock,
    /// A frame of the wheel's entrance.
    WheelEntrance,
    /// The resting wheel's focus ring, and the status line when the minute changed.
    WheelRest { status: bool },
    /// The open app's breathing element, and the status line when the minute changed.
    AppRest { idx: usize, status: bool },
}

/// What to draw; a gesture that came before the frame takes its place on the wheel.
pub open spec fn drawn(scene: Scene, power: Power, preempted: bool, entrance: bool, shown_minute: u8, minute: u8) -> FrameDraw {
    match scene {
        Scene::Locked => if power is Aod || power is Sleep { FrameDraw::Nothing } else { FrameDraw::Lock },
        Scene::Wheel => if !(power is Awake) || preempted {
            FrameDraw::Nothing
        } else if entrance {
            FrameDraw::WheelEntrance
        } else {
            FrameDraw::WheelRest { status: shown_minute != minute }
        },
        Scene::App(idx) => if power is Awake {
            FrameDraw::AppRest { idx, status: shown_minute != minute }
        } else {
            FrameDraw::Nothing
        },
    }
}

pub fn frame_draw(scene: Scene, power: Power, preempted: bool, entrance: bool, shown_minute: u8, minute: u8) -> (r: FrameDraw)
    ensures
        r == drawn(scene, power, preempted, entrance, shown_minute, minute),
{
    match scene {
        Scene::Locked => if power == Power::Aod || power == Power::Sleep {
            FrameDraw::Nothing
        } else {
            FrameDraw::Lock
        },
        Scene::Wheel => if power != Power::Awake || preempted {
            FrameDraw::Nothing
        } else if entrance {
            FrameDraw::WheelEntrance
        } else {
            FrameDraw::WheelRest { status: shown_minute != minute }
        },
        Scene::App(idx) => if power == Power::Awake {
            FrameDraw::AppRest { idx, status: shown_minute != minute }
        } else {
            FrameDraw::Nothing
        },
    }
}

/// Duration of a frame.
pub fn frame_us(power: Power, scene: Scene, ring_moving: bool, entrance: bool) -> (r: u64)
    ensures
        r == (if power is Aod || power is Sleep {
            500_000int
        } else if (scene is Locked && ring_moving) || (scene is Wheel && entrance) {
            25_000
        } else {
            50_000
        }),
{
    if power == Power::Aod || power == Power::Sleep {
        IDLE_FRAME_US
    } else if (scene == Scene::Locked && ring_moving) || (scene == Scene::Wheel && entrance) {
        ANIM_FRAME_US
    } else {
        FRAME_US
    }
}

/// What a power-key event does.
#[derive(Clone, Copy, Debug, PartialEq, Eq, Structural)]
pub enum KeyAction {
    Nothing,
    /// Counts as activity only.
    Noted,
    /// Wake, then start the flourish.
    Flourish,
    /// Wake, then open an app.
    Open(usize),
    /// Wake, then close the app.
    Close(usize),
}

/// A short press ignites the flourish while locked, opens the focused app on the wheel and
/// closes an open one.
pub open spec fn key_does(key: PowerKey, scene: Scene, s_q8: int, rows: int) -> KeyAction {
    match key {
        PowerKey::NoPress => KeyAction::Nothing,
        PowerKey::LongPress => KeyAction::Noted,
        PowerKey::ShortPress => match scene {
            Scene::Locked => KeyAction::Flourish,
            Scene::Wheel => KeyAction::Open(motion::focused(s_q8, rows) as usize),
            Scene::App(idx) => KeyAction::Close(idx),
        },
    }
}

pub fn key_action(key: PowerKey, scene: Scene, s_q8: i32, rows: i32) -> (r: KeyAction)
    requires
        motion::rows_ok(rows as int),
    ensures
        r == key_does(key, scene, s_q8 as int, rows as int),
{
    match key {
        PowerKey::NoPress => KeyAction::Nothing,
        PowerKey::LongPress => KeyAction::Noted,
        PowerKey::ShortPress => match scene {
            Scene::Locked => KeyAction::Flourish,
            Scene::Wheel => KeyAction::Open(motion::focused_row(s_q8, rows)),
            Scene::App(idx) => KeyAction::Close(idx),
        },
    }
}

/// Where a gesture goes.
#[derive(Clone, Copy, Debug, PartialEq, Eq, Structural)]
pub enum Route {
    Ignored,
    /// The sheet follows the finger: unlock or relock.
    Sheet { dir: SwipeDir, dist: u16, start_y: u16 },
    /// The finger scrolls the wheel.
    WheelDrag,
    /// A flick of the wheel, signed in scroll space.
    WheelFlick(i32),
    /// A tap on the wheel.
    WheelTap(u16),
    /// A whole swipe up on the lock scene.
    UnlockFlick { dist: u16, vel_q8: i32 },
}

pub open spec fn routed(ev: GestureEvent, scene: Scene) -> Route {
    match ev {
        GestureEvent::DragStart { dir, y, dist, .. } => {
            if (dir is Up && scene is Locked) || (dir is Down && !(scene is Locked) && y < 55) {
                Route::Sheet { dir, dist, start_y: y }
            } else if scene is Wheel {
                Route::WheelDrag
            } else {
                Route::Ignored
            }
        },
        GestureEvent::DragEnd { dir, dist, vel_q8 } => {
            if scene is Wheel {
                Route::WheelFlick(motion::scroll_sign(dir, vel_q8 as int) as i32)
            } else if dir is Up && scene is Locked {
                Route::UnlockFlick { dist, vel_q8 }
            } else {
                Route::Ignored
            }
        },
        GestureEvent::Tap { y, .. } => if scene is Wheel { Route::WheelTap(y) } else { Route::Ignored },
        _ => Route::Ignored,
    }
}

/// Decide where a gesture goes.
pub fn route(ev: GestureEvent, scene: Scene) -> (r: Route)
    requires
        ev matches GestureEvent::DragEnd { vel_q8, .. } ==> vel_q8 > i32::MIN,
    ensures
        r == routed(ev, scene),
{
    match ev {
        GestureEvent::DragStart { dir, x: _, y, dist } => {
            if (dir == SwipeDir::Up && scene == Scene::Locked) || (dir == SwipeDir::Down && scene
                != Scene::Locked && y < RELOCK_ZONE_PX) {
                Route::Sheet { dir, dist, start_y: y }
            } else if scene == Scene::Wheel {
                Route::WheelDrag
            } else {
                Route::Ignored
            }
        },
        GestureEvent::DragEnd { dir, dist, vel_q8 } => {
            if scene == Scene::Wheel {
                Route::WheelFlick(
                    match dir {
                        SwipeDir::Up => vel_q8,
                        SwipeDir::Down => -vel_q8,
                    },
                )
            } else if dir == SwipeDir::Up && scene == Scene::Locked {
                Route::UnlockFlick { dist, vel_q8 }
            } else {
                Route::Ignored
            }
        },
        GestureEvent::Tap { x: _, y } => if scene == Scene::Wheel {
            Route::WheelTap(y)
        } else {
            Route::Ignored
        },
        _ => Route::Ignored,
    }
}

/// The sheet moves up from the lock scene and down from everywhere else, never the other way.
pub proof fn lemma_sheet_routes(ev: GestureEvent, scene: Scene)
    ensures
        routed(ev, scene) matches Route::Sheet { dir, dist, start_y } ==> (dir is Up <==> scene is Locked),
        routed(ev, scene) is UnlockFlick ==> scene is Locked,
        routed(ev, scene) is WheelDrag || routed(ev, scene) is WheelFlick || routed(ev, scene) is WheelTap ==> scene
            is Wheel,
{
}

/// What follows a direct session on the wheel.
#[derive(Clone, Copy, Debug, PartialEq, Eq, Structural)]
pub enum AfterDirect {
    /// Glide with this velocity.
    Coast(i32),
    /// Settle on this row.
    Settle(usize),
}

/// A fling chains with the momentum it caught; a tap selects a row, unless it caught a
/// moving wheel, which it only stops.
pub fn after_direct(d: Direct, carry: i32, s_q8: i32, rows: i32) -> (r: AfterDirect)
    requires
        motion::rows_ok(rows as int),
        -4_000_000 <= carry <= 4_000_000,
        d matches Direct::Fling { raw, .. } ==> -0x4000_0000 <= raw <= 0x4000_0000,
        d matches Direct::Tap { y } ==> -0x1_0000 <= y <= 0x1_0000,
    ensures
        r == (match d {
            Direct::Fling { raw, held_ms } => AfterDirect::Coast(
                motion::chained(carry as int, raw as int, held_ms as int) as i32,
            ),
            Direct::Rest => AfterDirect::Coast(0),
            Direct::Tap { y } => if carry != 0 {
                AfterDirect::Coast(0)
            } else {
                AfterDirect::Settle(motion::tapped(y as int, s_q8 as int, rows as int) as usize)
            },
        }),
{
    match d {
        Direct::Fling { raw, held_ms } => AfterDirect::Coast(motion::chain_velocity(carry, raw, held_ms)),
        Direct::Rest => AfterDirect::Coast(0),
        Direct::Tap { y } => if carry != 0 {
            AfterDirect::Coast(0)
        } else {
            AfterDirect::Settle(motion::tap_row(y, s_q8, rows))
        },
    }
}

/// Touch polling: when the bus was read last, its errors, and the last report.
#[derive(Clone, Copy, Debug, PartialEq, Eq, Structural)]
pub struct TouchPoll {
    pub last_read_ms: u64,
    pub i2c_errors: u32,
    pub consec_errors: u32,
    pub int_was_low: bool,
    pub last_activity_ms: u64,
    pub last_raw: Option<TouchPoint>,
    pub raw_seq: u32,
}

impl TouchPoll {
    pub fn new(now_ms: u64) -> (r: Self)
        ensures
            r == (TouchPoll {
                last_read_ms: now_ms,
                i2c_errors: 0,
                consec_errors: 0,
                int_was_low: false,
                last_activity_ms: now_ms,
                last_raw: None,
                raw_seq: 0,
            }),
    {
        TouchPoll {
            last_read_ms: now_ms,
            i2c_errors: 0,
            consec_errors: 0,
            int_was_low: false,
            last_activity_ms: now_ms,
            last_raw: None,
            raw_seq: 0,
        }
    }

    /// A press of the power key is activity.
    pub fn note_key(&mut self, key: PowerKey, now_ms: u64)
        ensures
            *final(self) == (if key is NoPress {
                *old(self)
            } else {
                TouchPoll { last_activity_ms: now_ms, ..*old(self) }
            }),
    {
        if key != PowerKey::NoPress {
            self.last_activity_ms = now_ms;
        }
    }

    /// Whether to read the controller: on a timer while a finger is down, else on its
    /// interrupt line.
    pub fn wants_read(&mut self, int_low: bool, finger_down: bool, now_ms: u64) -> (r: bool)
        requires
            old(self).last_read_ms <= now_ms,
        ensures
            ({
                let gap = now_ms - old(self).last_read_ms;
                let falling = int_low && !old(self).int_was_low;
                r == (if finger_down {
                    gap >= 10
                } else {
                    (falling && gap >= 2) || (int_low && gap >= 20)
                })
            }),
            *final(self) == (TouchPoll { int_was_low: int_low, ..*old(self) }),
    {
        let falling = int_low && !self.int_was_low;
        self.int_was_low = int_low;
        let gap: u64 = now_ms - self.last_read_ms;
        if finger_down {
            gap >= 10
        } else {
            (falling && gap >= 2) || (int_low && gap >= 20)
        }
    }

    /// Take the outcome of a read: `Err` when the bus failed.
    pub fn read_done(&mut self, outcome: Result<Option<TouchPoint>, ()>, now_ms: u64) -> (r: Option<TouchPoint>)
        requires
            old(self).i2c_errors < u32::MAX,
            old(self).consec_errors < u32::MAX,
        ensures
            r == (match outcome {
                Ok(t) => t,
                Err(_) => None,
            }),
            *final(self) == (match outcome {
                Err(_) => TouchPoll {
                    last_read_ms: now_ms,
                    i2c_errors: (old(self).i2c_errors + 1) as u32,
                    consec_errors: (old(self).consec_errors + 1) as u32,
                    ..*old(self)
                },
                Ok(None) => TouchPoll { last_read_ms: now_ms, consec_errors: 0, ..*old(self) },
                Ok(Some(t)) => TouchPoll {
                    last_read_ms: now_ms,
                    consec_errors: 0,
                    last_activity_ms: now_ms,
                    last_raw: Some(t),
                    raw_seq: (if old(self).raw_seq == u32::MAX { 0 } else { old(self).raw_seq + 1 }) as u32,
                    ..*old(self)
                },
            }),
    {
        self.last_read_ms = now_ms;
        match outcome {
            Err(_) => {
                self.i2c_errors = self.i2c_errors + 1;
                self.consec_errors = self.consec_errors + 1;
                None
            },
            Ok(t) => {
                self.consec_errors = 0;
                if let Some(p) = t {
                    self.last_activity_ms = now_ms;
                    self.last_raw = Some(p);
                    self.raw_seq = self.raw_seq.wrapping_add(1);
                }
                t
            },
        }
    }

    /// Too many errors in a row: the controller is to be set up again, and counting restarts.
    pub fn needs_reinit(&mut self) -> (r: bool)
        ensures
            r == (old(self).consec_errors >= 5),
            *final(self) == (if old(self).consec_errors >= 5 {
                TouchPoll { consec_errors: 0, ..*old(self) }
            } else {
                *old(self)
            }),
    {
        if self.consec_errors >= TOUCH_REINIT_ERRORS {
            self.consec_errors = 0;
            true
        } else {
            false
        }
    }
}

/// How to bring the panel up to date.
#[derive(Clone, Copy, Debug, PartialEq, Eq, Structural)]
pub enum FlushPlan {
    /// Nothing changed.
    Skip,
    /// Only the dirty runs.
    Partial,
    /// The whole frame.
    Full,
}

/// Bytes of the first `n` runs.
pub open spec fn span_bytes(s: Seq<Span>, n: int) -> int
    decreases n,
{
    if n <= 0 { 0 } else { span_bytes(s, n - 1) + (s[n - 1].x1 - s[n - 1].x0 + 1) * 2 }
}

/// Partial flushes pay off while less than three quarters of the frame is dirty.
pub open spec fn flush_plan_of(d: dmi::Damage, frame_bytes: int) -> FlushPlan {
    if d == dmi::clean() {
        FlushPlan::Skip
    } else if !d.overflow && span_bytes(d.spans, d.spans.len() as int) < frame_bytes * 3 / 4 {
        FlushPlan::Partial
    } else {
        FlushPlan::Full
    }
}

/// Decide how to flush.
pub fn flush_plan(index: &dmi::DmiIndex, frame_bytes: usize) -> (r: FlushPlan)
    requires
        index.wf(),
        frame_bytes <= 0x1000_0000,
    ensures
        r == flush_plan_of(index.damage(), frame_bytes as int),
{
    if index.is_empty() {
        return FlushPlan::Skip;
    }
    let spans = index.spans();
    proof {
        index.damage_is_ok();
    }
    let mut bytes: usize = 0;
    let mut i: usize = 0;
    while i < spans.len()
        invariant
            i <= spans@.len() <= 512,
            spans@ == index.damage().spans,
            dmi::damage_ok(index.damage()),
            bytes == span_bytes(spans@, i as int),
            bytes <= i * 131_072,
        decreases spans@.len() - i,
    {
        let s = spans[i];
        assert(index.damage().spans[i as int].x0 <= index.damage().spans[i as int].x1);
        bytes = bytes + (s.x1 as usize - s.x0 as usize + 1) * 2;
        i = i + 1;
    }
    if !index.overflowed() && bytes < frame_bytes * 3 / 4 {
        FlushPlan::Partial
    } else {
        FlushPlan::Full
    }
}

} // verus!
