//! Gesture recognition, wheel physics and the lock sheet.
use openpocket::drivers::cst9217::TouchPoint;
use openpocket::input::gestures;
use openpocket::input::gestures::{GestureEvent, Phase, SwipeDir, SwipeTracker};
use openpocket::motion;
use openpocket::motion::{Coast, CoastEvent, CoastFrame, Direct, DirectSession};
use openpocket::sheet;
use openpocket::sheet::SheetDrag;

const ROWS: i32 = 8;

fn press(x: u16, y: u16) -> Option<TouchPoint> {
    Some(TouchPoint { x, y, fingers: 1, pressed: true })
}

fn lift(x: u16, y: u16) -> Option<TouchPoint> {
    Some(TouchPoint { x, y, fingers: 0, pressed: false })
}

#[test]
fn startup_is_silent() {
    let mut t = SwipeTracker::new(466);
    assert_eq!(t.feed(press(200, 400), 799), GestureEvent::Nothing);
    assert!(!t.finger_down());
    assert_eq!(t.feed(press(200, 400), 800), GestureEvent::Nothing);
    assert!(t.finger_down());
    assert_eq!(t.press_origin_y(), Some(400));
}

#[test]
fn tap_is_reported_at_touch_down() {
    let mut t = SwipeTracker::new(466);
    t.feed(press(200, 230), 1000);
    t.feed(press(206, 236), 1020);
    assert_eq!(t.feed(lift(206, 236), 1040), GestureEvent::Tap { x: 200, y: 230 });
    assert_eq!(t.last_tap_ms, 1040);
}

#[test]
fn press_too_short_is_no_tap() {
    let mut t = SwipeTracker::new(466);
    t.feed(press(200, 230), 1000);
    assert_eq!(t.feed(lift(200, 230), 1039), GestureEvent::Nothing);
    assert!(!t.finger_down());
}

#[test]
fn second_tap_waits_for_the_refractory_window() {
    let mut t = SwipeTracker::new(466);
    t.feed(press(200, 230), 1000);
    assert_eq!(t.feed(lift(200, 230), 1050), GestureEvent::Tap { x: 200, y: 230 });
    t.feed(press(100, 230), 1200);
    assert_eq!(t.feed(lift(100, 230), 1399), GestureEvent::Nothing);
    assert_eq!(t.last_tap_ms, 1050);
    t.feed(press(100, 230), 1410);
    assert_eq!(t.feed(lift(100, 230), 1460), GestureEvent::Tap { x: 100, y: 230 });
}

#[test]
fn drag_from_the_bottom_zone() {
    let mut t = SwipeTracker::new(466);
    t.feed(press(200, 291), 1000);
    assert_eq!(
        t.feed(press(205, 271), 1020),
        GestureEvent::DragStart { dir: SwipeDir::Up, x: 200, y: 291, dist: 20 }
    );
    assert_eq!(t.feed(press(205, 241), 1040), GestureEvent::DragMove { dir: SwipeDir::Up, dist: 50 });
    // running backwards past touch-down is no travel
    assert_eq!(t.feed(press(205, 300), 1060), GestureEvent::DragMove { dir: SwipeDir::Up, dist: 0 });
    t.feed(press(205, 250), 1080);
    // 30 px in 20 ms
    assert_eq!(
        t.feed(lift(205, 220), 1100),
        GestureEvent::DragEnd { dir: SwipeDir::Up, dist: 71, vel_q8: 384 }
    );
}

#[test]
fn drag_from_the_top_zone() {
    let mut t = SwipeTracker::new(466);
    t.feed(press(200, 173), 1000);
    assert_eq!(
        t.feed(press(200, 193), 1010),
        GestureEvent::DragStart { dir: SwipeDir::Down, x: 200, y: 173, dist: 20 }
    );
    // a lift at the last sample keeps the velocity of the last segment
    assert_eq!(
        t.feed(lift(200, 193), 1090),
        GestureEvent::DragEnd { dir: SwipeDir::Down, dist: 20, vel_q8: 512 }
    );
}

#[test]
fn touch_outside_the_zones_or_across_is_swallowed() {
    let mut t = SwipeTracker::new(466);
    t.feed(press(200, 290), 1000);
    assert_eq!(t.feed(press(200, 260), 1020), GestureEvent::Nothing);
    assert!(matches!(t.phase, Phase::Rejected(_)));
    assert_eq!(t.feed(press(200, 100), 1040), GestureEvent::Nothing);
    assert_eq!(t.feed(lift(200, 100), 1060), GestureEvent::Nothing);
    assert!(!t.finger_down());
    t.feed(press(100, 400), 1100);
    assert_eq!(t.feed(press(141, 380), 1120), GestureEvent::Nothing);
    assert!(matches!(t.phase, Phase::Rejected(_)));
}

#[test]
fn whole_swipe_between_two_reports() {
    let mut t = SwipeTracker::new(466);
    t.feed(press(200, 400), 1000);
    // 200 px in 100 ms
    assert_eq!(
        t.feed(lift(210, 200), 1100),
        GestureEvent::DragEnd { dir: SwipeDir::Up, dist: 200, vel_q8: 512 }
    );
    t.feed(press(200, 230), 2000);
    assert_eq!(t.feed(lift(300, 230), 2100), GestureEvent::Nothing);
}

#[test]
fn silent_finger_lifts_after_the_timeout() {
    let mut t = SwipeTracker::new(466);
    t.feed(press(200, 230), 1000);
    assert_eq!(t.feed(None, 2500), GestureEvent::Nothing);
    assert!(t.finger_down());
    assert_eq!(t.feed(None, 2501), GestureEvent::Tap { x: 200, y: 230 });
    assert!(!t.finger_down());
}

#[test]
fn cancelled_touch_gives_no_event() {
    let mut t = SwipeTracker::new(466);
    t.feed(press(200, 230), 1000);
    t.cancel();
    assert_eq!(t.press_origin_y(), Some(230));
    assert_eq!(t.feed(lift(200, 230), 1100), GestureEvent::Nothing);
    assert_eq!(t.press_origin_y(), None);
    t.cancel();
    assert_eq!(t.phase, Phase::Idle);
}

#[test]
fn clock_wraps() {
    assert_eq!(gestures::elapsed(5, u32::MAX), 6);
    assert_eq!(gestures::speed(30, 20), 384);
    assert_eq!(gestures::speed(-30, 20), -384);
    assert_eq!(gestures::speed(30, 0), 7680);
    // a time step that ran backwards by one
    assert_eq!(gestures::speed(30, u32::MAX), -7680);
}

#[test]
fn flick_power() {
    assert_eq!(motion::wheel_power(0), 0);
    assert_eq!(motion::wheel_power(100), 108);
    assert_eq!(motion::wheel_power(600), 900);
    assert_eq!(motion::wheel_power(-600), -900);
    assert_eq!(motion::wheel_power(1200), 1400);
    assert_eq!(motion::wheel_power(-2_000_000_000), -1400);
}

#[test]
fn rubber_band() {
    let max = motion::wheel_s_max(ROWS);
    assert_eq!(max, 7 * 17_408);
    assert_eq!(motion::wheel_rubber(5000, max), 5000);
    assert_eq!(motion::wheel_rubber(-25_600, max), -9858);
    assert_eq!(motion::wheel_rubber(max + 25_600, max), max + 9858);
    assert!(motion::wheel_rubber(i32::MIN + 1, max) > -32_768);
    let mut last = 0;
    for px in 0..400 {
        let now = motion::wheel_rubber(max + px * 256, max);
        assert!(now >= last);
        last = now;
    }
}

#[test]
fn releases_end_on_rows() {
    assert_eq!(motion::nearest_rest(8_703, ROWS), 0);
    assert_eq!(motion::nearest_rest(8_704, ROWS), 17_408);
    assert_eq!(motion::nearest_rest(1_000_000, ROWS), 7 * 17_408);
    // too slow to fling
    assert_eq!(motion::aim_row(0, 76, ROWS), 0);
    // a definite flick advances a row although it projects onto the same one
    assert_eq!(motion::aim_row(0, 77, ROWS), 17_408);
    assert_eq!(motion::aim_row(3 * 17_408, -77, ROWS), 2 * 17_408);
    assert_eq!(motion::aim_row(7 * 17_408, 77, ROWS), 7 * 17_408);
    // 400 * 112 is 2.57 rows
    assert_eq!(motion::aim_row(0, 400, ROWS), 3 * 17_408);
    assert_eq!(motion::aim_row(0, 1400, ROWS), 7 * 17_408);
    assert_eq!(motion::row_offset(3, ROWS), 3 * 17_408);
}

#[test]
fn taps_select_rows() {
    for row in 0..8usize {
        let s = motion::row_offset(row, ROWS);
        assert_eq!(motion::focused_row(s, ROWS), row);
        assert_eq!(motion::tap_row(199, s, ROWS), row);
        assert_eq!(motion::tap_row(266, s, ROWS), row);
    }
    assert_eq!(motion::tap_row(267, 0, ROWS), 1);
    assert_eq!(motion::tap_row(198, 17_408, ROWS), 0);
    assert_eq!(motion::tap_row(0, 0, ROWS), 0);
    assert_eq!(motion::tap_row(465, 7 * 17_408, ROWS), 7);
}

#[test]
fn settling_closes_in() {
    assert_eq!(motion::settle_step(0, 256), 256);
    assert_eq!(motion::settle_step(0, 3200), 1000);
    assert_eq!(motion::settle_step(3200, 0), 2200);
    let mut s = 0;
    for _ in 0..40 {
        s = motion::settle_step(s, 5 * 17_408);
    }
    assert_eq!(s, 5 * 17_408);
}

#[test]
fn jitter_threshold_subtracts_itself() {
    let mut d = DirectSession::new(200, 17_408, 1000);
    d.report(194, true, 1010);
    assert!(!d.gate_open);
    assert_eq!(d.pursue(17_408, ROWS), None);
    d.report(193, true, 1020);
    assert!(d.gate_open);
    assert_eq!(d.target, 17_408 + 256);
    assert_eq!(d.pursue(17_408, ROWS), Some((17_408 + 256, false)));
    d.report(93, true, 1030);
    assert_eq!(d.target, 17_408 + 101 * 256);
    // three quarters of the way, too fast for details
    assert_eq!(d.pursue(17_408, ROWS), Some((17_408 + 101 * 192, true)));
}

#[test]
fn short_close_press_is_a_tap() {
    let mut d = DirectSession::new(200, 0, 1000);
    d.report(190, true, 1050);
    assert_eq!(d.release(349, 1349), Direct::Tap { y: 190 });
    assert_eq!(d.release(350, 1350), Direct::Rest);
}

#[test]
fn held_release_rests_and_quick_release_flings() {
    let mut d = DirectSession::new(200, 0, 1000);
    d.report(180, true, 1010);
    d.report(160, true, 1020);
    d.report(140, true, 1030);
    // 20 px in 10 ms, steady; the whole press gives 512 * 3 / 2
    assert_eq!(d.release(30, 1030), Direct::Fling { raw: 768, held_ms: 30 });
    // past the press window the last segments decide
    assert_eq!(d.release(181, 1030), Direct::Fling { raw: 512, held_ms: 181 });
    // a pause before lift-off ends the motion
    assert_eq!(d.release(400, 1081), Direct::Rest);
}

#[test]
fn accelerating_release_gains() {
    let mut d = DirectSession::new(300, 0, 1000);
    d.report(290, true, 1010);
    d.report(280, true, 1020);
    d.report(240, true, 1030);
    // 256 and 1024: the later one and half the gain
    assert_eq!(d.release(300, 1030), Direct::Fling { raw: 1408, held_ms: 300 });
}

#[test]
fn momentum_chains() {
    // nothing is left after the hold
    assert_eq!(motion::chain_velocity(500, 100, 400), motion::wheel_power(100));
    assert_eq!(motion::chain_velocity(500, 100, 0), motion::wheel_power(600));
    assert_eq!(motion::chain_velocity(500, 100, 200), motion::wheel_power(350));
    // opposite or slow flicks start fresh
    assert_eq!(motion::chain_velocity(-500, 100, 0), motion::wheel_power(100));
    assert_eq!(motion::chain_velocity(500, 76, 0), motion::wheel_power(76));
}

#[test]
fn fling_never_reverses_whatever_its_frames_take() {
    for (s0, v0) in [(0, 1400), (7 * 17_408, -1400), (7 * 17_408, -300), (2 * 17_408, 500)] {
        for times in [[10, 10, 50], [50, 50, 50], [25, 25, 25], [10, 10, 10], [13, 37, 11]] {
            let mut c = Coast::launch(s0, v0, ROWS);
            let mut frames = 0u64;
            while c.landed_at.is_none() {
                let before = c.s_q8;
                c.frame(false, frames, ROWS);
                if v0 > 0 {
                    assert!(before < c.s_q8 && c.s_q8 <= c.target);
                } else {
                    assert!(before > c.s_q8 && c.s_q8 >= c.target);
                }
                c.paced(times[(frames % 3) as usize]);
                frames += 1;
                assert!(frames < 200);
            }
            assert_eq!(c.s_q8, c.target);
        }
    }
}

#[test]
fn glide_decelerates_onto_its_row() {
    let mut c = Coast::launch(0, 400, ROWS);
    assert_eq!(c.target, 3 * 17_408);
    assert_eq!(c.v_q8, 466);
    assert_eq!(c.frame(false, 0, ROWS), CoastFrame::Draw { fast: false });
    assert_eq!((c.s_q8, c.v_q8), (466 * 25, 466 * 199 / 256));
    let mut last = c.s_q8;
    let mut frames = 0;
    while c.landed_at.is_none() {
        c.frame(false, 25 * frames, ROWS);
        assert!(last <= c.s_q8 && c.s_q8 <= c.target);
        last = c.s_q8;
        frames += 1;
        assert!(frames < 100);
    }
    assert_eq!(c.s_q8, 3 * 17_408);
    let t0 = c.landed_at.unwrap();
    assert_eq!(c.frame(false, t0 + 149, ROWS), CoastFrame::Wait);
    assert_eq!(c.frame(false, t0 + 150, ROWS), CoastFrame::Done);
    assert_eq!(c.frame(true, t0 + 150, ROWS), CoastFrame::HandOff(0));
}

#[test]
fn glide_springs_back_from_an_overscroll() {
    let mut c = Coast::launch(-2000, 0, ROWS);
    assert_eq!(c.target, 0);
    c.frame(false, 0, ROWS);
    assert_eq!(c.s_q8, -1000);
    c.frame(false, 25, ROWS);
    assert_eq!(c.s_q8, -500);
    c.frame(false, 50, ROWS);
    assert_eq!(c.s_q8, 0);
    assert_eq!(c.frame(false, 75, ROWS), CoastFrame::Land);
}

#[test]
fn gestures_during_a_glide() {
    let mut c = Coast::launch(0, 400, ROWS);
    // a tap stops at the nearest row
    assert_eq!(c.event(GestureEvent::Tap { x: 233, y: 233 }, ROWS), CoastEvent::Glide);
    assert_eq!((c.v_q8, c.target), (0, 0));
    assert_eq!(c.frame(false, 10, ROWS), CoastFrame::Land);
    // on the resting wheel it selects
    assert_eq!(c.event(GestureEvent::Tap { x: 233, y: 233 + 68 }, ROWS), CoastEvent::Select(1));
    assert_eq!(c.event(GestureEvent::Tap { x: 233, y: 233 }, ROWS), CoastEvent::Stop);
    // a flick relaunches it
    let flick = GestureEvent::DragEnd { dir: SwipeDir::Up, dist: 80, vel_q8: 300 };
    assert_eq!(c.event(flick, ROWS), CoastEvent::Glide);
    assert_eq!(c.landed_at, None);
    // power(300) is 375: 375 * 112 is 2.41 rows
    assert_eq!(c.target, 2 * 17_408);
    // the next one compounds: power(310 + 300) is 920
    assert_eq!(c.v_q8, 310);
    c.event(flick, ROWS);
    assert_eq!(c.target, 6 * 17_408);
    assert_eq!(c.event(GestureEvent::Nothing, ROWS), CoastEvent::Glide);
}

#[test]
fn glide_keeps_pace_with_the_frame() {
    let mut c = Coast::launch(0, 0, ROWS);
    c.paced(3);
    assert_eq!(c.dt_ms, 10);
    c.paced(33);
    assert_eq!(c.dt_ms, 33);
    c.paced(1000);
    assert_eq!(c.dt_ms, 50);
}

#[test]
fn sheet_covers_the_panel_within_the_reachable_travel() {
    let mut d = SheetDrag::begin(SwipeDir::Up, 0, 400);
    assert_eq!((d.avail, d.target), (400, 466));
    d.travelled(200);
    assert_eq!(d.target, 233);
    assert!(!d.auto_commits());
    d.travelled(341);
    // 341 * 466 / 400 rounds to 397
    assert_eq!(d.target, 69);
    assert!(!d.auto_commits());
    d.travelled(342);
    assert_eq!(d.target, 68);
    assert!(d.auto_commits());
    d.travelled(9000);
    assert_eq!(d.target, 0);
    let p = SheetDrag::begin(SwipeDir::Down, 10, 60);
    assert_eq!((p.avail, p.target), (406, 11));
    assert!(!p.auto_commits());
    assert_eq!(SheetDrag::begin(SwipeDir::Up, 0, 0).avail, 1);
}

#[test]
fn sheet_pursues_the_finger() {
    let d = SheetDrag::begin(SwipeDir::Up, 200, 400);
    assert_eq!(d.pursue(466), Some(466 - 155));
    assert_eq!(d.pursue(235), Some(233));
    assert_eq!(d.pursue(233), None);
    assert_eq!(d.pursue(133), Some(133 + 66));
}

#[test]
fn released_sheet_comes_to_rest() {
    let mut d = SheetDrag::begin(SwipeDir::Up, 200, 400);
    assert_eq!(d.rest(128), 466);
    assert_eq!(d.rest(129), 0);
    d.travelled(201);
    assert_eq!(d.rest(0), 0);
    let mut p = SheetDrag::begin(SwipeDir::Down, 233, 0);
    assert_eq!(p.rest(0), 0);
    assert_eq!(p.rest(129), 466);
    p.travelled(234);
    assert_eq!(p.rest(0), 466);
    assert!(!sheet::flick_unlocks(233, 128));
    assert!(sheet::flick_unlocks(234, 0));
    assert!(sheet::flick_unlocks(0, 129));
    assert_eq!(sheet::settle_next(466, 0), 233);
    assert_eq!(sheet::settle_next(8, 0), 0);
    assert_eq!(sheet::settle_next(0, 466), 233);
}

#[test]
fn ring_fades_over_a_third_of_the_travel() {
    assert_eq!(sheet::ring_level_idx(466), 16);
    assert_eq!(sheet::ring_level_idx(311), 0);
    assert_eq!(sheet::ring_level_idx(0), 0);
    // 77 of 155
    assert_eq!(sheet::ring_level_idx(388), 8);
}
