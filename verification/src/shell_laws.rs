//! Laws of the run loop: the idle ladder, keys, gestures and the flush plan, seen as a whole.
use vstd::prelude::*;

use crate::app;
use crate::app::{FrameDraw, KeyAction, Panel, PanelAction, Power, Route, Scene, WakeSteps};
use crate::display::dmi;
use crate::display::dmi::Span;
use crate::drivers::axp2101::PowerKey;
use crate::input::gestures::{GestureEvent, SwipeDir};
use crate::morph;
use crate::motion;
use crate::shell;
use crate::shell::{Session, Shell};

verus! {

/// The ladder by the clock: awake for half a minute, dim for good unless locked, the time
/// alone after two minutes, dark after ten.
pub proof fn lemma_ladder_times(idle: int, scene: Scene)
    ensures
        app::rung(idle, scene) is Awake <==> idle < 30_000,
        app::rung(idle, scene) is Dim <==> idle >= 30_000 && (idle < 120_000 || !(scene is Locked)),
        app::rung(idle, scene) is Aod <==> scene is Locked && 120_000 <= idle < 600_000,
        app::rung(idle, scene) is Sleep <==> scene is Locked && idle >= 600_000,
{
}

/// A frame takes the panel to its rung and tells it what changed, and nothing where nothing
/// did: an awake panel is kept, the dark one is told once.
pub proof fn lemma_panel_is_told(p: Panel, want: Power, minute: u8)
    ensures
        ({
            let (q, act) = app::ladder_step(p, want, minute);
            let (r, again) = app::ladder_step(q, want, minute);
            &&& q.power == want
            &&& act is Keep <==> want is Awake && p.power is Awake && p.brightness == 0xFF
            &&& act is Wake <==> want is Awake && !(act is Keep)
            &&& act is Dim <==> want is Dim
            &&& act is Aod <==> want is Aod
            &&& act is Sleep <==> want is Sleep
            &&& want is Awake ==> q.brightness == 0xFF && again is Keep && r == q
            &&& act matches PanelAction::Wake(w) ==> {
                &&& w.sleep_out <==> p.power is Sleep
                &&& w.repaint <==> p.power is Sleep || p.power is Aod
                &&& w.brightness <==> p.brightness != 0xFF
            }
            &&& act matches PanelAction::Sleep { enter } ==> (enter <==> !(p.power is Sleep))
            &&& again matches PanelAction::Sleep { enter } ==> !enter
        }),
{
}

/// Dimming goes down by eight a frame to the idle level and stays there; each change, and only
/// a change, is written.
pub proof fn lemma_dimming(p: Panel, minute: u8)
    ensures
        ({
            let (q, act) = app::ladder_step(p, Power::Dim, minute);
            let written = act->Dim_brightness;
            &&& p.brightness >= 64 ==> q.brightness == p.brightness - 8
            &&& 56 < p.brightness < 64 ==> q.brightness == 56
            &&& p.brightness <= 56 ==> q.brightness == p.brightness
            &&& written is Some <==> q.brightness != p.brightness
            &&& written is Some ==> written->0 == q.brightness
            &&& act->suppress <==> !(p.power is Dim)
        }),
{
}

/// The always-on frame is drawn when it is entered and when the minute changes.
pub proof fn lemma_always_on_frames(p: Panel, minute: u8)
    requires
        minute < 60,
    ensures
        ({
            let (q, act) = app::ladder_step(p, Power::Aod, minute);
            &&& act->Aod_enter <==> !(p.power is Aod)
            &&& act->draw <==> !(p.power is Aod) || p.aod_minute != minute
            &&& q.aod_minute == minute
            &&& !(p.power is Aod) ==> q.brightness == 0x18
            &&& p.power is Aod ==> q.brightness == p.brightness
        }),
{
}

/// The power key: a short press lights the flourish on a locked watch, opens the app in focus
/// on the wheel and closes the open one; a long press only counts.
pub proof fn lemma_key(scene: Scene, s_q8: int, rows: int, idx: usize)
    requires
        motion::rows_ok(rows),
    ensures
        app::key_does(PowerKey::NoPress, scene, s_q8, rows) is Nothing,
        app::key_does(PowerKey::LongPress, scene, s_q8, rows) is Noted,
        app::key_does(PowerKey::ShortPress, Scene::Locked, s_q8, rows) is Flourish,
        app::key_does(PowerKey::ShortPress, Scene::Wheel, s_q8, rows) == KeyAction::Open(
            motion::focused(s_q8, rows) as usize,
        ),
        app::key_does(PowerKey::ShortPress, Scene::App(idx), s_q8, rows) == KeyAction::Close(idx),
{
}

/// Where gestures go, by what they are: the sheet opens by a drag up on the lock scene and
/// closes by a drag down from the top edge elsewhere, and carries the finger's place; other
/// drags and taps are the wheel's; an app's own screen takes none of them.
pub proof fn lemma_routes(ev: GestureEvent, scene: Scene)
    ensures
        ev matches GestureEvent::DragStart { dir, x, y, dist } ==> {
            let opens = dir is Up && scene is Locked;
            let closes = dir is Down && !(scene is Locked) && y < 55;
            &&& opens || closes ==> app::routed(ev, scene) == (Route::Sheet { dir, dist, start_y: y })
            &&& !opens && !closes && scene is Wheel ==> app::routed(ev, scene) is WheelDrag
            &&& !opens && !closes && !(scene is Wheel) ==> app::routed(ev, scene) is Ignored
        },
        ev matches GestureEvent::DragEnd { dir, dist, vel_q8 } ==> {
            &&& scene is Wheel && dir is Up ==> app::routed(ev, scene) == Route::WheelFlick(vel_q8)
            &&& scene is Wheel && dir is Down && vel_q8 > i32::MIN ==> (app::routed(ev, scene) matches Route::WheelFlick(
                v,
            ) && v == -vel_q8)
            &&& scene is Locked && dir is Up ==> app::routed(ev, scene) == (Route::UnlockFlick { dist, vel_q8 })
            &&& scene is Locked && dir is Down ==> app::routed(ev, scene) is Ignored
            &&& scene is App ==> app::routed(ev, scene) is Ignored
        },
        ev matches GestureEvent::Tap { x, y } ==> (if scene is Wheel {
            app::routed(ev, scene) == Route::WheelTap(y)
        } else {
            app::routed(ev, scene) is Ignored
        }),
{
}

/// A frame draws its own scene: the lock scene while it is lit, the wheel and the apps only
/// awake, and the status line exactly when its minute is not the one shown.
pub proof fn lemma_frame_draws(scene: Scene, power: Power, preempted: bool, entrance: bool, shown: u8, minute: u8)
    ensures
        ({
            let d = app::drawn(scene, power, preempted, entrance, shown, minute);
            &&& d is Lock <==> scene is Locked && (power is Awake || power is Dim)
            &&& d is WheelEntrance <==> scene is Wheel && power is Awake && !preempted && entrance
            &&& d is WheelRest <==> scene is Wheel && power is Awake && !preempted && !entrance
            &&& d is AppRest <==> scene is App && power is Awake
            &&& d matches FrameDraw::WheelRest { status } ==> (status <==> shown != minute)
            &&& d matches FrameDraw::AppRest { idx, status } ==> scene == Scene::App(idx) && (status <==> shown
                != minute)
        }),
{
}

/// After a resting frame the status line shows the minute, so the next one leaves it alone.
pub proof fn lemma_status_once(
    s: Shell,
    now_ms: int,
    later_ms: int,
    press: Option<u16>,
    minute: u8,
)
    requires
        s.panel.power is Awake,
        s.scene is Wheel || s.scene is App,
        shell::opened(s, now_ms, false, None, false, minute).1 is Draw,
        later_ms - s.interacted_ms < 60_000,
    ensures
        ({
            let (t, o) = shell::opened(s, now_ms, false, None, false, minute);
            let (u, n) = shell::opened(t, later_ms, false, None, false, minute);
            &&& t.status_minute == minute
            &&& u == t
            &&& n matches shell::Opening::Draw(FrameDraw::WheelRest { status }) ==> !status
            &&& n matches shell::Opening::Draw(FrameDraw::AppRest { idx, status }) ==> !status
        }),
{
}

/// What a gesture on the wheel starts: a drag scrolls, a flick glides with its velocity, a tap
/// settles on the row it hit, and does nothing on the row in focus.
pub proof fn lemma_wheel_sessions(s: Shell, now_ms: int, rows: int, v: i32, y: u16)
    requires
        motion::rows_ok(rows),
        0 <= now_ms <= u64::MAX,
    ensures
        ({
            let drag = shell::dispatched(s, Route::WheelDrag, now_ms, rows);
            let flick = shell::dispatched(s, Route::WheelFlick(v), now_ms, rows);
            let tap = shell::dispatched(s, Route::WheelTap(y), now_ms, rows);
            let row = motion::tapped(y as int, s.s_q8 as int, rows);
            let at = motion::focused(s.s_q8 as int, rows);
            &&& drag.1.session is WheelDrag && drag.0 == (Shell { interacted_ms: now_ms as u64, ..s })
            &&& flick.1.session == Session::WheelFlick(v) && flick.0 == drag.0
            &&& tap.0 == drag.0
            &&& row == at ==> tap.1.session is Rest
            &&& row != at ==> tap.1.session == Session::WheelSettle(row as usize)
            &&& drag.1.wake is None && flick.1.wake is None && tap.1.wake is None
            &&& shell::dispatched(s, Route::Ignored, now_ms, rows).0 == s
            &&& shell::dispatched(s, Route::Ignored, now_ms, rows).1.session is Rest
        }),
{
}

/// A swipe up on the lock scene unlocks when it covered half the panel or was quick.
pub proof fn lemma_flick_unlocks(s: Shell, now_ms: int, rows: int, dist: u16, vel_q8: i32)
    ensures
        ({
            let d = shell::dispatched(s, Route::UnlockFlick { dist, vel_q8 }, now_ms, rows);
            &&& dist > 233 || vel_q8 > 128 ==> d.1.session is Unlock
            &&& dist <= 233 && vel_q8 <= 128 ==> d.1.session is Rest && d.0.s_q8 == s.s_q8
            &&& d.1.abort_flourish
            &&& d.0.scene == s.scene
        }),
{
}

/// The bytes of the dirty runs: two for each pixel, run by run.
pub proof fn lemma_span_bytes(s: Seq<Span>, t: Span)
    requires
        t.x0 <= t.x1,
    ensures
        app::span_bytes(s.push(t), s.len() as int + 1) == app::span_bytes(s, s.len() as int) + 2 * (t.x1 - t.x0 + 1),
        app::span_bytes(s, 0) == 0,
{
    lemma_prefix(s, t, s.len() as int);
}

proof fn lemma_prefix(s: Seq<Span>, t: Span, n: int)
    requires
        0 <= n <= s.len(),
    ensures
        app::span_bytes(s.push(t), n) == app::span_bytes(s, n),
    decreases n,
{
    if n > 0 {
        lemma_prefix(s, t, n - 1);
    }
}

/// The flush: nothing for a clean frame, the runs while they are under three quarters of the
/// frame and all known, else the whole of it.
pub proof fn lemma_flush(d: dmi::Damage, frame_bytes: int)
    requires
        frame_bytes >= 0,
    ensures
        ({
            let plan = app::flush_plan_of(d, frame_bytes);
            let bytes = app::span_bytes(d.spans, d.spans.len() as int);
            &&& plan is Skip <==> d.spans.len() == 0 && !d.overflow
            &&& plan is Partial ==> !d.overflow && 4 * bytes < 3 * frame_bytes
            &&& plan is Full ==> d.overflow || 4 * bytes + 4 > 3 * frame_bytes
        }),
{
    if d.spans.len() == 0 && !d.overflow {
        assert(d.spans =~= dmi::clean().spans);
        assert(d == dmi::clean());
    }
}

/// The title of the splash comes in over 120 ms after the flight and goes with the icon.
pub proof fn lemma_title_comes_in(s: int, t: int)
    requires
        0 <= s <= t <= 740,
    ensures
        0 <= morph::frame_at(s).title <= 256,
        t < 740 ==> morph::frame_at(s).title <= morph::frame_at(t).title,
        s <= 260 ==> morph::frame_at(s).title == 0,
        380 <= t < 740 ==> morph::frame_at(t).title == 256,
        t < 740 ==> morph::frame_at(t).content == 0 && morph::frame_at(t).icon == 256,
{
    morph::lemma_smooth(0, 0);
}

/// Waking leaves the panel awake at full brightness, whatever it was; it is told only what it
/// needs, and a second waking tells it nothing.
pub proof fn lemma_waking(p: Panel)
    ensures
        ({
            let (q, told) = shell::woken(p);
            &&& q.power is Awake && q.brightness == 0xFF
            &&& shell::woken(q) == (q, None::<WakeSteps>)
            &&& told is None <==> p == q && p.power is Awake && p.brightness == 0xFF
            &&& told matches Some(w) ==> {
                &&& w.sleep_out <==> p.power is Sleep
                &&& w.repaint <==> p.power is Sleep || p.power is Aod
                &&& w.brightness <==> p.brightness != 0xFF
            }
        }),
{
}

/// What a gesture does beside its session: the sheet and the unlock flick wake the panel and
/// end a flourish, and only a sheet over an app drops what the wheel remembers; the gestures of
/// the wheel do none of it and count as touching the watch.
pub proof fn lemma_gesture_effects(s: Shell, dir: SwipeDir, dist: u16, start_y: u16, vel_q8: i32, y: u16, now_ms: u64, rows: int)
    ensures
        ({
            let a = shell::dispatched(s, Route::Sheet { dir, dist, start_y }, now_ms as int, rows);
            let b = shell::dispatched(s, Route::UnlockFlick { dist, vel_q8 }, now_ms as int, rows);
            let c = shell::dispatched(s, Route::WheelDrag, now_ms as int, rows);
            let d = shell::dispatched(s, Route::WheelTap(y), now_ms as int, rows);
            &&& a.1.abort_flourish && b.1.abort_flourish && !c.1.abort_flourish && !d.1.abort_flourish
            &&& a.1.invalidate <==> s.scene is App
            &&& !b.1.invalidate && !c.1.invalidate && !d.1.invalidate
            &&& a.0.panel.power is Awake && a.0.panel.brightness == 0xFF && b.0.panel == a.0.panel
            &&& c.0.panel == s.panel && d.0.panel == s.panel && c.1.wake is None && d.1.wake is None
            &&& a.1.session == Session::Sheet { dir, dist, start_y }
            &&& dir is Up ==> a.0.s_q8 == 0
            &&& dir is Down ==> a.0.s_q8 == s.s_q8
            &&& c.0.interacted_ms == now_ms && d.0.interacted_ms == now_ms
            &&& a.0.interacted_ms == s.interacted_ms && b.0.interacted_ms == s.interacted_ms
            &&& a.0.scene == s.scene && b.0.scene == s.scene && c.0.scene == s.scene && d.0.scene == s.scene
        }),
{
}

} // verus!
