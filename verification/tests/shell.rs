//! Power ladder, routing, touch polling, the frame shell and the app morph.
use openpocket::app;
use openpocket::app::{
    AfterDirect, FlushPlan, FrameDraw, KeyAction, Panel, PanelAction, Power, Route, Scene, TouchPoll, WakeSteps,
};
use openpocket::display::dmi::DmiIndex;
use openpocket::drivers::axp2101::PowerKey;
use openpocket::drivers::cst9217::TouchPoint;
use openpocket::input::gestures::{GestureEvent, SwipeDir};
use openpocket::morph;
use openpocket::morph::{AppMorph, MorphEnd, MorphMix};
use openpocket::motion::Direct;
use openpocket::shell::{Dispatch, Opening, Session, Shell};

const ROWS: i32 = 8;

#[test]
fn ladder_descends_with_idling() {
    assert_eq!(app::desired_power(29_999, Scene::Locked), Power::Awake);
    assert_eq!(app::desired_power(30_000, Scene::Locked), Power::Dim);
    assert_eq!(app::desired_power(120_000, Scene::Locked), Power::Aod);
    assert_eq!(app::desired_power(600_000, Scene::Locked), Power::Sleep);
    assert_eq!(app::desired_power(600_000, Scene::Wheel), Power::Dim);
    assert_eq!(app::desired_power(600_000, Scene::App(2)), Power::Dim);
}

#[test]
fn panel_dims_in_steps_down_to_the_idle_level() {
    let mut p = Panel::new();
    assert_eq!(p.ladder(0, Scene::Locked, 5), PanelAction::Keep);
    assert_eq!(p.ladder(30_000, Scene::Locked, 5), PanelAction::Dim { suppress: true, brightness: Some(0xF7) });
    assert_eq!(p.ladder(30_050, Scene::Locked, 5), PanelAction::Dim { suppress: false, brightness: Some(0xEF) });
    for _ in 0..40 {
        p.ladder(31_000, Scene::Locked, 5);
    }
    assert_eq!(p.brightness, 0x38);
    assert_eq!(p.ladder(31_000, Scene::Locked, 5), PanelAction::Dim { suppress: false, brightness: None });
    assert_eq!(
        p.ladder(0, Scene::Locked, 5),
        PanelAction::Wake(WakeSteps { sleep_out: false, repaint: false, brightness: true })
    );
    assert!(p.is_awake());
}

#[test]
fn always_on_frame_is_drawn_once_a_minute() {
    let mut p = Panel::new();
    assert_eq!(p.ladder(120_000, Scene::Locked, 5), PanelAction::Aod { enter: true, draw: true });
    assert_eq!(p.brightness, 0x18);
    assert_eq!(p.ladder(130_000, Scene::Locked, 5), PanelAction::Aod { enter: false, draw: false });
    assert_eq!(p.ladder(180_000, Scene::Locked, 6), PanelAction::Aod { enter: false, draw: true });
    assert_eq!(p.ladder(600_000, Scene::Locked, 6), PanelAction::Sleep { enter: true });
    assert_eq!(p.ladder(700_000, Scene::Locked, 6), PanelAction::Sleep { enter: false });
    assert_eq!(p.wake(), WakeSteps { sleep_out: true, repaint: true, brightness: true });
    assert!(p.is_awake());
}

#[test]
fn frame_cadence() {
    assert_eq!(app::frame_us(Power::Sleep, Scene::Locked, true, false), 500_000);
    assert_eq!(app::frame_us(Power::Aod, Scene::Locked, true, true), 500_000);
    assert_eq!(app::frame_us(Power::Awake, Scene::Locked, true, false), 25_000);
    assert_eq!(app::frame_us(Power::Awake, Scene::Wheel, true, true), 25_000);
    assert_eq!(app::frame_us(Power::Awake, Scene::Wheel, true, false), 50_000);
    assert_eq!(app::frame_us(Power::Dim, Scene::App(0), false, false), 50_000);
}

#[test]
fn what_a_frame_draws() {
    assert_eq!(app::frame_draw(Scene::Locked, Power::Dim, true, false, 0, 0), FrameDraw::Lock);
    assert_eq!(app::frame_draw(Scene::Locked, Power::Aod, false, false, 0, 0), FrameDraw::Nothing);
    assert_eq!(app::frame_draw(Scene::Wheel, Power::Awake, true, true, 0, 0), FrameDraw::Nothing);
    assert_eq!(app::frame_draw(Scene::Wheel, Power::Awake, false, true, 0, 0), FrameDraw::WheelEntrance);
    assert_eq!(
        app::frame_draw(Scene::Wheel, Power::Awake, false, false, 3, 4),
        FrameDraw::WheelRest { status: true }
    );
    assert_eq!(
        app::frame_draw(Scene::App(2), Power::Awake, true, true, 4, 4),
        FrameDraw::AppRest { idx: 2, status: false }
    );
    assert_eq!(app::frame_draw(Scene::App(2), Power::Dim, false, false, 3, 4), FrameDraw::Nothing);
}

#[test]
fn power_key() {
    assert_eq!(app::key_action(PowerKey::NoPress, Scene::Locked, 0, ROWS), KeyAction::Nothing);
    assert_eq!(app::key_action(PowerKey::LongPress, Scene::Wheel, 0, ROWS), KeyAction::Noted);
    assert_eq!(app::key_action(PowerKey::ShortPress, Scene::Locked, 0, ROWS), KeyAction::Flourish);
    assert_eq!(app::key_action(PowerKey::ShortPress, Scene::Wheel, 3 * 17_408, ROWS), KeyAction::Open(3));
    assert_eq!(app::key_action(PowerKey::ShortPress, Scene::App(5), 0, ROWS), KeyAction::Close(5));
}

#[test]
fn gesture_routes() {
    let up = GestureEvent::DragStart { dir: SwipeDir::Up, x: 1, y: 400, dist: 12 };
    let down = GestureEvent::DragStart { dir: SwipeDir::Down, x: 1, y: 54, dist: 12 };
    let low = GestureEvent::DragStart { dir: SwipeDir::Down, x: 1, y: 55, dist: 12 };
    let sheet = Route::Sheet { dir: SwipeDir::Up, dist: 12, start_y: 400 };
    assert_eq!(app::route(up, Scene::Locked), sheet);
    assert_eq!(app::route(up, Scene::Wheel), Route::WheelDrag);
    assert_eq!(app::route(up, Scene::App(0)), Route::Ignored);
    assert_eq!(app::route(down, Scene::Locked), Route::Ignored);
    assert_eq!(app::route(down, Scene::App(0)), Route::Sheet { dir: SwipeDir::Down, dist: 12, start_y: 54 });
    assert_eq!(app::route(low, Scene::App(0)), Route::Ignored);
    assert_eq!(app::route(low, Scene::Wheel), Route::WheelDrag);
    let flick = GestureEvent::DragEnd { dir: SwipeDir::Down, dist: 90, vel_q8: 200 };
    assert_eq!(app::route(flick, Scene::Wheel), Route::WheelFlick(-200));
    assert_eq!(app::route(flick, Scene::Locked), Route::Ignored);
    let flick = GestureEvent::DragEnd { dir: SwipeDir::Up, dist: 90, vel_q8: 200 };
    assert_eq!(app::route(flick, Scene::Locked), Route::UnlockFlick { dist: 90, vel_q8: 200 });
    assert_eq!(app::route(GestureEvent::Tap { x: 3, y: 4 }, Scene::Wheel), Route::WheelTap(4));
    assert_eq!(app::route(GestureEvent::Tap { x: 3, y: 4 }, Scene::Locked), Route::Ignored);
    assert_eq!(app::route(GestureEvent::Nothing, Scene::Wheel), Route::Ignored);
}

#[test]
fn tap_that_catches_a_moving_wheel_only_stops_it() {
    assert_eq!(app::after_direct(Direct::Tap { y: 301 }, 0, 0, ROWS), AfterDirect::Settle(1));
    assert_eq!(app::after_direct(Direct::Tap { y: 301 }, 9, 0, ROWS), AfterDirect::Coast(0));
    assert_eq!(app::after_direct(Direct::Rest, 9, 0, ROWS), AfterDirect::Coast(0));
    assert_eq!(
        app::after_direct(Direct::Fling { raw: 100, held_ms: 0 }, 500, 0, ROWS),
        AfterDirect::Coast(900)
    );
}

#[test]
fn touch_is_read_on_the_interrupt_or_on_a_timer() {
    let mut t = TouchPoll::new(100);
    assert!(!t.wants_read(false, false, 200));
    assert!(t.wants_read(true, false, 200));
    // no new edge: the line has to stay low
    let p = TouchPoint { x: 1, y: 2, fingers: 1, pressed: true };
    assert_eq!(t.read_done(Ok(Some(p)), 200), Some(p));
    assert!(!t.wants_read(true, false, 219));
    assert!(t.wants_read(true, false, 220));
    assert!(!t.wants_read(false, true, 209));
    assert!(t.wants_read(false, true, 210));
    assert_eq!((t.last_raw, t.raw_seq, t.last_activity_ms), (Some(p), 1, 200));
    assert_eq!(t.read_done(Ok(None), 230), None);
    assert_eq!((t.last_raw, t.raw_seq, t.last_activity_ms), (Some(p), 1, 200));
}

#[test]
fn failing_touch_controller_is_set_up_again() {
    let mut t = TouchPoll::new(0);
    for i in 0..4 {
        assert_eq!(t.read_done(Err(()), i), None);
        assert!(!t.needs_reinit());
    }
    t.read_done(Err(()), 10);
    assert!(t.needs_reinit());
    assert!(!t.needs_reinit());
    assert_eq!((t.i2c_errors, t.consec_errors), (5, 0));
    t.read_done(Err(()), 20);
    t.read_done(Ok(None), 30);
    assert_eq!((t.i2c_errors, t.consec_errors), (6, 0));
}

#[test]
fn flush_is_partial_while_it_pays() {
    let mut d = DmiIndex::new();
    assert_eq!(app::flush_plan(&d, 800), FlushPlan::Skip);
    d.add_span(3, 0, 298);
    // 598 bytes, then 600
    assert_eq!(app::flush_plan(&d, 800), FlushPlan::Partial);
    d.clear();
    d.add_span(3, 0, 299);
    assert_eq!(app::flush_plan(&d, 800), FlushPlan::Full);
}

#[test]
fn unlocked_scene_locks_itself() {
    let mut s = Shell::new(1000);
    assert_eq!(s.scene, Scene::Locked);
    assert_eq!(s.open_frame(90_000, false, None, false, 7), Opening::Draw(FrameDraw::Lock));
    s.scene = Scene::App(1);
    assert_eq!(
        s.open_frame(60_999, false, None, false, 7),
        Opening::Draw(FrameDraw::AppRest { idx: 1, status: true })
    );
    assert_eq!(s.status_minute, 7);
    assert_eq!(
        s.open_frame(60_999, false, None, false, 7),
        Opening::Draw(FrameDraw::AppRest { idx: 1, status: false })
    );
    assert_eq!(s.open_frame(61_000, false, None, false, 7), Opening::Relock { invalidate: true });
    assert_eq!(s.scene, Scene::Locked);
    s.scene = Scene::Wheel;
    assert_eq!(s.open_frame(61_000, false, None, false, 7), Opening::Relock { invalidate: false });
}

#[test]
fn press_takes_the_wheel_over() {
    let mut s = Shell::new(0);
    assert!(!s.polls_early());
    s.scene = Scene::Wheel;
    assert!(s.polls_early());
    assert_eq!(
        s.open_frame(50, true, Some(54), false, 1),
        Opening::Draw(FrameDraw::Nothing)
    );
    assert_eq!(s.open_frame(60, false, Some(55), false, 1), Opening::Takeover);
    assert_eq!(s.interacted_ms, 60);
}

#[test]
fn short_press_wakes_the_panel_first() {
    let mut s = Shell::new(0);
    assert_eq!(s.key(PowerKey::ShortPress, ROWS), (None, KeyAction::Flourish));
    s.panel.power = Power::Sleep;
    s.panel.brightness = 0x18;
    assert_eq!(s.key(PowerKey::LongPress, ROWS), (None, KeyAction::Noted));
    assert_eq!(s.panel.power, Power::Sleep);
    assert_eq!(
        s.key(PowerKey::ShortPress, ROWS),
        (Some(WakeSteps { sleep_out: true, repaint: true, brightness: true }), KeyAction::Flourish)
    );
    assert!(s.panel.is_awake());
    assert_eq!(s.wake_if_idle(), None);
}

#[test]
fn unlock_starts_the_wheel_at_its_first_row() {
    let mut s = Shell::new(0);
    s.s_q8 = 17_408;
    s.panel.power = Power::Dim;
    let d = s.dispatch(Route::Sheet { dir: SwipeDir::Up, dist: 12, start_y: 400 }, 10, ROWS);
    assert_eq!(
        d,
        Dispatch {
            wake: Some(WakeSteps { sleep_out: false, repaint: false, brightness: false }),
            abort_flourish: true,
            invalidate: false,
            session: Session::Sheet { dir: SwipeDir::Up, dist: 12, start_y: 400 },
        }
    );
    assert_eq!(s.s_q8, 0);
    assert!(s.panel.is_awake());
    s.sheet_rested(0, 900);
    assert_eq!((s.scene, s.interacted_ms), (Scene::Wheel, 900));
    // a relock keeps the wheel's place
    s.s_q8 = 34_816;
    s.morph_ended(Scene::App(2), 950);
    let d = s.dispatch(Route::Sheet { dir: SwipeDir::Down, dist: 12, start_y: 20 }, 1000, ROWS);
    assert!(d.invalidate && d.wake.is_none());
    assert_eq!(s.s_q8, 34_816);
    s.sheet_rested(466, 1200);
    assert_eq!((s.scene, s.interacted_ms), (Scene::Locked, 950));
}

#[test]
fn flick_unlocks_or_leaves_the_lock_scene() {
    let mut s = Shell::new(0);
    s.s_q8 = 500;
    let d = s.dispatch(Route::UnlockFlick { dist: 90, vel_q8: 100 }, 10, ROWS);
    assert_eq!((d.session, s.s_q8), (Session::Rest, 500));
    assert!(d.abort_flourish);
    let d = s.dispatch(Route::UnlockFlick { dist: 90, vel_q8: 129 }, 10, ROWS);
    assert_eq!((d.session, s.s_q8), (Session::Unlock, 0));
}

#[test]
fn wheel_sessions() {
    let mut s = Shell::new(0);
    s.scene = Scene::Wheel;
    assert_eq!(s.dispatch(Route::WheelDrag, 10, ROWS).session, Session::WheelDrag);
    assert_eq!(s.dispatch(Route::WheelFlick(-90), 20, ROWS).session, Session::WheelFlick(-90));
    assert_eq!(s.dispatch(Route::WheelTap(301), 30, ROWS).session, Session::WheelSettle(1));
    assert_eq!(s.interacted_ms, 30);
    assert_eq!(s.dispatch(Route::WheelTap(233), 40, ROWS).session, Session::Rest);
    assert_eq!(s.dispatch(Route::Ignored, 50, ROWS).session, Session::Rest);
    assert_eq!(s.interacted_ms, 40);
}

#[test]
fn waiting_for_the_next_frame() {
    let mut s = Shell::new(0);
    assert!(!s.frame_over(Route::Ignored, true, false));
    assert!(s.frame_over(Route::Ignored, false, true));
    assert!(s.frame_over(Route::WheelDrag, false, false));
    s.scene = Scene::Wheel;
    assert!(s.frame_over(Route::Ignored, true, false));
    s.note_touch(95, 100);
    assert_eq!(s.interacted_ms, 0);
    s.scene = Scene::App(0);
    s.note_touch(0, 100);
    assert_eq!(s.interacted_ms, 0);
    s.note_touch(1, 100);
    assert_eq!(s.interacted_ms, 100);
}

#[test]
fn morph_timeline() {
    assert_eq!(morph::smooth(-5), 0);
    assert_eq!(morph::smooth(128), 128);
    assert_eq!(morph::smooth(64), 40);
    assert_eq!(morph::smooth(999), 256);
    let mut m = AppMorph::begin(true, true);
    assert_eq!((m.t, m.t_end), (0, 1020));
    // 25 * 256 / 260 is 24
    assert_eq!(m.step(), MorphMix { flight: 6, icon: 256, title: 0, content: 0 });
    assert_eq!(m.check(false), None);
    m.t = 275;
    // 40 * 256 / 120 is 85
    assert_eq!(m.step(), MorphMix { flight: 256, icon: 256, title: 85, content: 0 });
    m.t = 855;
    // 140 of 280
    assert_eq!(m.step(), MorphMix { flight: 256, icon: 128, title: 128, content: 128 });
    m.t = 1000;
    assert_eq!(m.step(), MorphMix { flight: 256, icon: 0, title: 0, content: 256 });
    assert_eq!(m.check(false), Some(MorphEnd::Opened));
}

#[test]
fn morph_reverses_without_a_jump() {
    let mut m = AppMorph::begin(true, false);
    assert_eq!(m.t_end, 740);
    m.step();
    m.step();
    assert_eq!(m.check(true), None);
    assert_eq!((m.t, m.opening), (50, false));
    m.step();
    assert_eq!(m.check(false), None);
    assert_eq!(m.step(), MorphMix { flight: 0, icon: 256, title: 0, content: 0 });
    assert_eq!(m.check(false), Some(MorphEnd::Closed));
}

#[test]
fn morph_runs_to_its_end() {
    let mut m = AppMorph::begin(false, true);
    let mut frames = 0;
    let mut content = 256;
    loop {
        let f = m.step();
        assert!(f.content <= content);
        content = f.content;
        frames += 1;
        if m.check(false) == Some(MorphEnd::Closed) {
            break;
        }
    }
    // 1020 / 34
    assert_eq!(frames, 30);
}

#[test]
fn power_key_is_activity() {
    let mut t = TouchPoll::new(100);
    t.note_key(PowerKey::NoPress, 500);
    assert_eq!(t.last_activity_ms, 100);
    t.note_key(PowerKey::LongPress, 600);
    assert_eq!((t.last_activity_ms, t.last_read_ms), (600, 100));
    t.note_key(PowerKey::ShortPress, 700);
    assert_eq!(t.last_activity_ms, 700);
}
