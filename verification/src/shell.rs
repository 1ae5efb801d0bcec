//! The run loop as a state machine: one value holds the scene, the panel, the wheel's
//! scroll and the time of the last interaction; each method decides one step of a frame and
//! says what the loop has to perform.
use vstd::prelude::*;

use crate::app;
use crate::app::{FrameDraw, KeyAction, Panel, Power, Route, Scene, WakeSteps};
use crate::drivers::axp2101::PowerKey;
use crate::input::gestures::SwipeDir;
use crate::motion;
use crate::sheet;

verus! {

#[derive(Clone, Copy, Debug, PartialEq, Eq, Structural)]
pub struct Shell {
    pub scene: Scene,
    pub panel: Panel,
    /// Minute shown by the resting status line; 255 when none is.
    pub status_minute: u8,
    /// Wheel scroll in 256ths of a pixel.
    pub s_q8: i32,
    /// Last interaction out of the lock scene.
    pub interacted_ms: u64,
}

/// What a frame begins with.
#[derive(Clone, Copy, Debug, PartialEq, Eq, Structural)]
pub enum Opening {
    /// Settle down to the lock scene; the wheel's rectangle cache is stale first.
    Relock { invalidate: bool },
    /// The finger takes the wheel.
    Takeover,
    Draw(FrameDraw),
}

/// The session that follows a gesture.
#[derive(Clone, Copy, Debug, PartialEq, Eq, Structural)]
pub enum Session {
    /// None: the next frame follows.
    Rest,
    /// A finger-driven sheet.
    Sheet { dir: SwipeDir, dist: u16, start_y: u16 },
    /// The finger scrolls the wheel.
    WheelDrag,
    /// The wheel glides.
    WheelFlick(i32),
    /// The wheel settles on a row.
    WheelSettle(usize),
    /// The sheet settles open by itself.
    Unlock,
}

/// A session and what precedes it.
#[derive(Clone, Copy, Debug, PartialEq, Eq, Structural)]
pub struct Dispatch {
    pub wake: Option<WakeSteps>,
    pub abort_flourish: bool,
    /// The canvas holds app content that the wheel's rectangle cache does not know.
    pub invalidate: bool,
    pub session: Session,
}

/// Waking, where the panel is not fully awake.
pub open spec fn woken(p: Panel) -> (Panel, Option<WakeSteps>) {
    if p.power is Awake && p.brightness == 0xFF {
        (p, None)
    } else {
        (app::awake(p), Some(app::wake_steps(p)))
    }
}

/// Opening of a frame; `early_press` is the row of a press that is down before drawing.
pub open spec fn opened(
    s: Shell,
    now_ms: int,
    preempted: bool,
    early_press: Option<u16>,
    entrance: bool,
    minute: u8,
) -> (Shell, Opening) {
    if !(s.scene is Locked) && now_ms - s.interacted_ms >= 60_000 {
        (Shell { scene: Scene::Locked, ..s }, Opening::Relock { invalidate: s.scene is App })
    } else if s.scene is Wheel && s.panel.power is Awake && early_press is Some && early_press->0 >= 55 {
        (Shell { interacted_ms: now_ms as u64, ..s }, Opening::Takeover)
    } else {
        let d = app::drawn(s.scene, s.panel.power, preempted, entrance, s.status_minute, minute);
        let shows = match d {
            FrameDraw::WheelRest { status } => status,
            FrameDraw::AppRest { status, .. } => status,
            _ => false,
        };
        (Shell { status_minute: if shows { minute } else { s.status_minute }, ..s }, Opening::Draw(d))
    }
}

/// A gesture's session, with the shell after deciding it.
pub open spec fn dispatched(s: Shell, r: Route, now_ms: int, rows: int) -> (Shell, Dispatch) {
    let idle = Dispatch { wake: None, abort_flourish: false, invalidate: false, session: Session::Rest };
    match r {
        Route::Ignored => (s, idle),
        Route::Sheet { dir, dist, start_y } => (
            Shell { panel: woken(s.panel).0, s_q8: if dir is Up { 0i32 } else { s.s_q8 }, ..s },
            Dispatch {
                wake: woken(s.panel).1,
                abort_flourish: true,
                invalidate: s.scene is App,
                session: Session::Sheet { dir, dist, start_y },
            },
        ),
        Route::WheelDrag => (
            Shell { interacted_ms: now_ms as u64, ..s },
            Dispatch { session: Session::WheelDrag, ..idle },
        ),
        Route::WheelFlick(v) => (
            Shell { interacted_ms: now_ms as u64, ..s },
            Dispatch { session: Session::WheelFlick(v), ..idle },
        ),
        Route::WheelTap(y) => {
            let row = motion::tapped(y as int, s.s_q8 as int, rows);
            (
                Shell { interacted_ms: now_ms as u64, ..s },
                Dispatch {
                    session: if row != motion::focused(s.s_q8 as int, rows) {
                        Session::WheelSettle(row as usize)
                    } else {
                        Session::Rest
                    },
                    ..idle
                },
            )
        },
        Route::UnlockFlick { dist, vel_q8 } => {
            let unlocks = sheet::flick_opens(dist as int, vel_q8 as int);
            (
                Shell { panel: woken(s.panel).0, s_q8: if unlocks { 0i32 } else { s.s_q8 }, ..s },
                Dispatch {
                    wake: woken(s.panel).1,
                    abort_flourish: true,
                    invalidate: false,
                    session: if unlocks { Session::Unlock } else { Session::Rest },
                },
            )
        },
    }
}

impl Shell {
    /// Locked, awake, on the wheel's first row.
    pub fn new(now_ms: u64) -> (s: Self)
        ensures
            s == (Shell {
                scene: Scene::Locked,
                panel: Panel { power: Power::Awake, brightness: 0xFF, aod_minute: 255 },
                status_minute: 255,
                s_q8: 0,
                interacted_ms: now_ms,
            }),
    {
        Shell { scene: Scene::Locked, panel: Panel::new(), status_minute: 255, s_q8: 0, interacted_ms: now_ms }
    }

    /// Touch is polled once before drawing, so that a gesture takes the frame's place.
    pub fn polls_early(&self) -> (r: bool)
        ensures
            r == (self.scene is Wheel && self.panel.power is Awake),
    {
        self.scene == Scene::Wheel && self.panel.power == Power::Awake
    }

    /// Begin a frame.
    pub fn open_frame(
        &mut self,
        now_ms: u64,
        preempted: bool,
        early_press: Option<u16>,
        entrance: bool,
        minute: u8,
    ) -> (r: Opening)
        requires
            old(self).interacted_ms <= now_ms,
        ensures
            (*final(self), r) == opened(*old(self), now_ms as int, preempted, early_press, entrance, minute),
    {
        if app::auto_relocks(self.scene, now_ms - self.interacted_ms) {
            let invalidate = matches!(self.scene, Scene::App(_));
            self.scene = Scene::Locked;
            return Opening::Relock { invalidate };
        }
        if app::takes_over(self.scene, self.panel.power, early_press) {
            self.interacted_ms = now_ms;
            return Opening::Takeover;
        }
        let d = app::frame_draw(self.scene, self.panel.power, preempted, entrance, self.status_minute, minute);
        let shows = match d {
            FrameDraw::WheelRest { status } => status,
            FrameDraw::AppRest { idx: _, status } => status,
            _ => false,
        };
        if shows {
            self.status_minute = minute;
        }
        Opening::Draw(d)
    }

    /// Wake the panel where it is not fully awake.
    pub fn wake_if_idle(&mut self) -> (r: Option<WakeSteps>)
        ensures
            r == woken(old(self).panel).1,
            *final(self) == (Shell { panel: woken(old(self).panel).0, ..*old(self) }),
    {
        if self.panel.is_awake() {
            None
        } else {
            Some(self.panel.wake())
        }
    }

    /// A power-key event: what to wake, and what to do.
    pub fn key(&mut self, key: PowerKey, rows: i32) -> (r: (Option<WakeSteps>, KeyAction))
        requires
            motion::rows_ok(rows as int),
        ensures
            r.1 == app::key_does(key, old(self).scene, old(self).s_q8 as int, rows as int),
            r.0 == (if key is ShortPress { woken(old(self).panel).1 } else { None }),
            *final(self) == (if key is ShortPress {
                Shell { panel: woken(old(self).panel).0, ..*old(self) }
            } else {
                *old(self)
            }),
    {
        let wake = match key {
            PowerKey::ShortPress => self.wake_if_idle(),
            _ => None,
        };
        (wake, app::key_action(key, self.scene, self.s_q8, rows))
    }

    /// The wait for the next frame is over: a gesture has a destination, a finger is on the
    /// wheel, or the frame's time is up.
    pub fn frame_over(&self, r: Route, finger_down: bool, time_up: bool) -> (done: bool)
        ensures
            done == (!(r is Ignored) || (self.scene is Wheel && finger_down) || time_up),
    {
        !matches!(r, Route::Ignored) || (self.scene == Scene::Wheel && finger_down) || time_up
    }

    /// A touch less than 100 ms ago inside an app counts as interaction.
    pub fn note_touch(&mut self, last_touch_ms: u64, now_ms: u64)
        requires
            last_touch_ms <= now_ms,
        ensures
            *final(self) == (if old(self).scene is App && now_ms - last_touch_ms < 100 {
                Shell { interacted_ms: now_ms, ..*old(self) }
            } else {
                *old(self)
            }),
    {
        if matches!(self.scene, Scene::App(_)) && now_ms - last_touch_ms < 100 {
            self.interacted_ms = now_ms;
        }
    }

    /// Decide the session that a gesture starts.
    pub fn dispatch(&mut self, r: Route, now_ms: u64, rows: i32) -> (d: Dispatch)
        requires
            motion::rows_ok(rows as int),
        ensures
            (*final(self), d) == dispatched(*old(self), r, now_ms as int, rows as int),
    {
        let idle = Dispatch { wake: None, abort_flourish: false, invalidate: false, session: Session::Rest };
        match r {
            Route::Ignored => idle,
            Route::Sheet { dir, dist, start_y } => {
                let wake = self.wake_if_idle();
                if dir == SwipeDir::Up {
                    self.s_q8 = 0;
                }
                Dispatch {
                    wake,
                    abort_flourish: true,
                    invalidate: matches!(self.scene, Scene::App(_)),
                    session: Session::Sheet { dir, dist, start_y },
                }
            },
            Route::WheelDrag => {
                self.interacted_ms = now_ms;
                Dispatch { session: Session::WheelDrag, ..idle }
            },
            Route::WheelFlick(v) => {
                self.interacted_ms = now_ms;
                Dispatch { session: Session::WheelFlick(v), ..idle }
            },
            Route::WheelTap(y) => {
                self.interacted_ms = now_ms;
                let row: usize = motion::tap_row(y as i32, self.s_q8, rows);
                if row != motion::focused_row(self.s_q8, rows) {
                    Dispatch { session: Session::WheelSettle(row), ..idle }
                } else {
                    idle
                }
            },
            Route::UnlockFlick { dist, vel_q8 } => {
                let wake = self.wake_if_idle();
                let unlocks = sheet::flick_unlocks(dist, vel_q8);
                if unlocks {
                    self.s_q8 = 0;
                }
                Dispatch {
                    wake,
                    abort_flourish: true,
                    invalidate: false,
                    session: if unlocks { Session::Unlock } else { Session::Rest },
                }
            },
        }
    }

    /// The sheet came to rest: locked at full height, on the wheel otherwise.
    pub fn sheet_rested(&mut self, b: u16, now_ms: u64)
        ensures
            *final(self) == (if b == 466 {
                Shell { scene: Scene::Locked, ..*old(self) }
            } else {
                Shell { scene: Scene::Wheel, interacted_ms: now_ms, ..*old(self) }
            }),
    {
        if b == crate::board::LCD_HEIGHT {
            self.scene = Scene::Locked;
        } else {
            self.scene = Scene::Wheel;
            self.interacted_ms = now_ms;
        }
    }

    /// An open or close morph ended in a scene.
    pub fn morph_ended(&mut self, scene: Scene, now_ms: u64)
        ensures
            *final(self) == (Shell { scene, interacted_ms: now_ms, ..*old(self) }),
    {
        self.scene = scene;
        self.interacted_ms = now_ms;
    }
}

/// Every unlock starts the wheel at its first row; a relock keeps its place.
pub proof fn lemma_unlock_is_fresh(s: Shell, r: Route, now_ms: int, rows: int)
    ensures
        dispatched(s, r, now_ms, rows).1.session is Unlock ==> dispatched(s, r, now_ms, rows).0.s_q8 == 0,
        dispatched(s, r, now_ms, rows).1.session matches Session::Sheet { dir, .. } ==> dispatched(
            s,
            r,
            now_ms,
            rows,
        ).0.s_q8 == (if dir is Up { 0i32 } else { s.s_q8 }),
{
}

/// A sheet session always starts on an awake panel, with the steps that wake it.
pub proof fn lemma_sheet_starts_awake(s: Shell, r: Route, now_ms: int, rows: int)
    requires
        r is Sheet || r is UnlockFlick,
    ensures
        ({
            let p = dispatched(s, r, now_ms, rows).0.panel;
            p.power is Awake && p.brightness == 0xFF
        }),
        dispatched(s, r, now_ms, rows).1.wake is None <==> s.panel.power is Awake && s.panel.brightness == 0xFF,
{
}

/// A frame that is neither a relock nor a takeover never changes the scene, and an unlocked
/// scene lasts less than a minute without interaction.
pub proof fn lemma_frame_keeps_scene(
    s: Shell,
    now_ms: int,
    preempted: bool,
    press: Option<u16>,
    entrance: bool,
    minute: u8,
)
    ensures
        ({
            let (t, o) = opened(s, now_ms, preempted, press, entrance, minute);
            &&& o is Relock <==> !(s.scene is Locked) && now_ms - s.interacted_ms >= 60_000
            &&& t.scene == (if o is Relock { Scene::Locked } else { s.scene })
            &&& t.panel == s.panel
            &&& t.s_q8 == s.s_q8
        }),
{
}

} // verus!
