//! The lock scene: bezel ring, flourish, time and date.
use openpocket::display::watch_fb::{RectAcc, WatchFb};
use openpocket::font::Glyph;
use openpocket::scenes::arc;
use openpocket::scenes::lock;
use openpocket::scenes::lock::{BezelPhase, BezelSchedules, Clock, LockAssets};
use openpocket::scenes::ring;
use openpocket::time::WallTime;

const FB: usize = 466 * 466 * 2;
const EMPTY: [Option<Glyph>; 128] = [None; 128];
const CURVES: BezelSchedules<'static> =
    BezelSchedules { initial: &[132_000, 396_000], undraw: &[200_000, 0], redraw: &[396_000], total: 396_000 };

fn at(hour: u8, minute: u8) -> WallTime {
    WallTime { year: 2026, month: 7, day: 7, hour, minute, second: 0 }
}

/// Blocks of a coverage that differs from character to character.
fn blocks(width: u8, height: u8, advance: u8) -> [Option<Glyph>; 128] {
    let mut f = EMPTY;
    for c in 33..128usize {
        let level = (c % 15 + 1) as u8;
        let data: &'static [u8] = vec![level * 17; (width as usize + 1) / 2 * height as usize].leak();
        f[c] = Some(Glyph { width, height, advance, ymin: 0, data });
    }
    f
}

fn px(fb: &[u8], x: usize, y: usize) -> (u8, u8) {
    (fb[(y * 466 + x) * 2], fb[(y * 466 + x) * 2 + 1])
}

fn covered(fb: &WatchFb, x: u16, y: u16) -> bool {
    fb.dmi.overflowed() || fb.dmi.spans().iter().any(|s| s.y == y && s.x0 <= x && x <= s.x1)
}

fn full_ring(c: &Clock) -> Vec<u8> {
    let mut fb = vec![0u8; FB];
    let mut acc = RectAcc::empty();
    arc::blit_full_ring(&c.ring, &mut fb, 256, &mut acc);
    fb
}

#[test]
fn time_and_date_lines() {
    assert_eq!(lock::time_str(9, 5), b"09:05".to_vec());
    assert_eq!(lock::time_str(23, 59), b"23:59".to_vec());
    assert_eq!(lock::month_str(0), "January");
    assert_eq!(lock::month_str(9), "September");
    assert_eq!(lock::month_str(200), "December");
    let mut t = at(0, 0);
    assert_eq!(lock::format_date(&t), b"July 7th 2026".to_vec());
    for (day, text) in [(1, "1st"), (2, "2nd"), (3, "3rd"), (11, "11th"), (12, "12th"), (13, "13th"), (21, "21st"), (30, "30th")] {
        t.day = day;
        assert_eq!(lock::format_date(&t), format!("July {} 2026", text).into_bytes());
    }
}

#[test]
fn ring_profile_and_colours() {
    assert_eq!(ring::ring_alpha_profile(64), 255);
    assert_eq!(ring::ring_alpha_profile(78), 127);
    assert_eq!(ring::ring_alpha_profile(92), 0);
    assert_eq!(ring::bezel_color_bytes(16_384), (0xC6, 0x9E));
    assert_eq!(ring::bezel_color_bytes(0), (0, 0));
    assert_eq!(arc::end_profile(-1), (0, 0));
    assert_eq!(arc::end_profile(200), (128, 4));
    assert_eq!(arc::end_profile(400), (256, 5));
}

#[test]
fn angles_are_linear_in_each_octant() {
    assert_eq!(ring::angle256(0, 0), 0);
    assert_eq!(ring::angle256(10, 0), 0);
    assert_eq!(ring::angle256(10, 5), 16);
    assert_eq!(ring::angle256(10, 10), 32);
    assert_eq!(ring::angle256(5, 10), 48);
    assert_eq!(ring::angle256(0, 10), 64);
    assert_eq!(ring::angle256(-5, 10), 80);
    assert_eq!(ring::angle256(-10, 5), 112);
    assert_eq!(ring::angle256(-10, -5), 144);
    assert_eq!(ring::angle256(-5, -10), 176);
    assert_eq!(ring::angle256(5, -10), 208);
    assert_eq!(ring::angle256(10, -5), 240);
}

#[test]
fn ring_tables() {
    let t = ring::precompute_bezel_ring();
    assert_eq!(t.anim.len(), 396_000);
    // the sweep starts at the top
    assert_eq!(t.anim[5] as usize / 2 % 466, 233);
    assert!(t.full.windows(2).all(|w| w[0] < w[1]));
    assert_eq!(t.runs.iter().map(|r| r.1 as usize).sum::<usize>(), t.full.len());
    assert_eq!(t.alpha[233 * 466 + 456], 255);
    assert_eq!(t.alpha[233 * 466 + 233], 0);
    assert_eq!(t.lut[255], ring::bezel_color_bytes(16_384));
    assert_eq!(t.band_d.len(), t.band_ang.len());
    assert_eq!(t.saber_rgb[72], (10, 40, 140));
    assert_eq!(t.saber_rgb[255], (190, 255, 255));
}

#[test]
fn ring_sweeps_heals_and_rests() {
    let a = LockAssets { time: &EMPTY, text: &EMPTY, sched: CURVES };
    let mut buf = vec![0u8; FB];
    let mut fb = WatchFb::new(&mut buf, 466, 466);
    let mut c = Clock::new();
    let rest = full_ring(&c);
    c.render(&mut fb, &a, 5000, &at(10, 0));
    assert_eq!((c.phase, c.drawn_centers), (BezelPhase::Initial, 132_000));
    assert!(c.is_animating());
    c.render(&mut fb, &a, 5000, &at(10, 0));
    assert_eq!((c.phase, c.drawn_centers), (BezelPhase::Heal, 396_000));
    for _ in 0..9 {
        c.render(&mut fb, &a, 5000, &at(10, 0));
        assert_eq!(c.phase, BezelPhase::Heal);
    }
    c.render(&mut fb, &a, 5000, &at(10, 0));
    assert_eq!(c.phase, BezelPhase::Static);
    assert!(!c.is_animating());
    assert!(fb.bytes() == &rest[..]);
    fb.clear_damage();
    c.render(&mut fb, &a, 5000, &at(10, 0));
    assert!(fb.is_clean());
    // a new minute parts, undraws, redraws and heals the ring
    let mut phases = vec![];
    for _ in 0..23 {
        c.render(&mut fb, &a, 5000, &at(10, 1));
        phases.push(c.phase);
    }
    assert!(phases[..9].iter().all(|p| *p == BezelPhase::Unheal));
    assert_eq!(phases[9..12], [BezelPhase::Undraw, BezelPhase::Undraw, BezelPhase::Redraw]);
    assert!(phases[12..22].iter().all(|p| *p == BezelPhase::Heal));
    assert_eq!(phases[22], BezelPhase::Static);
    assert!(fb.bytes() == &rest[..]);
}

#[test]
fn suppressed_minute_change_leaves_the_ring_alone() {
    let a = LockAssets { time: &EMPTY, text: &EMPTY, sched: CURVES };
    let mut buf = vec![0u8; FB];
    let mut fb = WatchFb::new(&mut buf, 466, 466);
    let mut c = Clock::new();
    c.repaint_full(&mut fb, &a, &at(10, 0));
    c.set_minute_anim(false);
    c.last_minute = 0;
    c.render(&mut fb, &a, 5000, &at(10, 1));
    assert_eq!((c.phase, c.last_minute), (BezelPhase::Static, 1));
}

#[test]
fn undrawn_ring_is_black() {
    let t = ring::precompute_bezel_ring();
    let mut fb = vec![0u8; FB];
    let mut acc = RectAcc::empty();
    arc::apply_bezel_target(&t, &mut fb, 0, 300_000, &mut acc);
    assert!(fb.iter().any(|b| *b != 0));
    arc::apply_bezel_target(&t, &mut fb, 300_000, 0, &mut acc);
    assert!(fb.iter().all(|b| *b == 0));
    assert!(acc.x0 >= 4 && acc.y0 >= 4 && acc.x1 <= 462 && acc.y1 <= 462);
}

#[test]
fn ring_rows() {
    let c = Clock::new();
    let rest = full_ring(&c);
    let mut fb = vec![0u8; FB];
    let mut acc = RectAcc::empty();
    c.draw_ring_rows(&mut fb, 0, 100, 16_384, &mut acc);
    assert!(fb[..100 * 932] == rest[..100 * 932]);
    assert!(fb[100 * 932..].iter().all(|b| *b == 0));
    assert_eq!((acc.x0, acc.y0, acc.x1, acc.y1), (4, 0, 462, 99));
}

#[test]
fn ring_rows_add_up() {
    let c = Clock::new();
    let mut fb = vec![0x55u8; FB];
    let mut n = |lo: i32, hi: i32, level: i32| {
        let mut acc = RectAcc::empty();
        let n = c.draw_ring_rows(&mut fb, lo, hi, level, &mut acc);
        assert_eq!(n == 0, acc.is_empty());
        n
    };
    assert_eq!(n(0, 70, 16_384) + n(70, 300, 16_384), n(0, 300, 16_384));
    assert_eq!(n(0, 466, 16_384), c.bezel_full_len as usize);
    assert_eq!(n(100, 100, 16_384), 0);
    n(0, 466, -64);
    let rest = full_ring(&c);
    for i in 0..FB {
        if fb[i] != 0x55 {
            assert_eq!(fb[i], 0);
        } else {
            assert!(rest[i] == 0 || rest[i / 2 * 2] != 0 || rest[i / 2 * 2 + 1] != 0);
        }
    }
    assert_eq!(fb.iter().filter(|b| **b == 0).count(), c.bezel_full_len as usize * 2);
}

#[test]
fn started_and_cancelled_flourish_leaves_the_repainted_scene() {
    let (time, text) = (blocks(20, 30, 24), blocks(8, 10, 9));
    let a = LockAssets { time: &time, text: &text, sched: CURVES };
    let mut buf = vec![0u8; FB];
    let mut fb = WatchFb::new(&mut buf, 466, 466);
    let mut c = Clock::new();
    c.repaint_full(&mut fb, &a, &at(12, 34));
    let before = fb.bytes().to_vec();
    c.start_flourish();
    assert!(c.flourish_active());
    let mut acc = RectAcc::empty();
    c.cancel_flourish(fb.buf_mut(), &mut acc);
    assert!(!c.flourish_active());
    assert!(fb.bytes() == &before[..]);
    assert_eq!(px(fb.bytes(), 233, 4), (0, 0));
}

#[test]
fn flourish_ends_in_the_resting_ring() {
    let a = LockAssets { time: &EMPTY, text: &EMPTY, sched: CURVES };
    let mut buf = vec![0u8; FB];
    let mut fb = WatchFb::new(&mut buf, 466, 466);
    let mut c = Clock::new();
    c.start_flourish();
    assert!(!c.flourish_active());
    c.repaint_full(&mut fb, &a, &at(10, 0));
    c.last_minute = 0;
    let rest = full_ring(&c);
    assert!(fb.bytes() == &rest[..]);
    c.start_flourish();
    for _ in 0..54 {
        assert!(c.flourish_active() && c.is_animating());
        c.render(&mut fb, &a, 5000, &at(10, 0));
    }
    assert!(fb.bytes() != &rest[..]);
    c.render(&mut fb, &a, 5000, &at(10, 0));
    assert!(!c.flourish_active());
    assert!(fb.bytes() == &rest[..]);
}

#[test]
fn cancelled_flourish_restores_the_ring() {
    let a = LockAssets { time: &EMPTY, text: &EMPTY, sched: CURVES };
    let mut buf = vec![0u8; FB];
    let mut fb = WatchFb::new(&mut buf, 466, 466);
    let mut c = Clock::new();
    c.repaint_full(&mut fb, &a, &at(10, 0));
    let rest = full_ring(&c);
    c.start_flourish();
    for _ in 0..25 {
        c.render(&mut fb, &a, 5000, &at(10, 0));
    }
    assert!(fb.bytes() != &rest[..]);
    let mut acc = RectAcc::empty();
    c.cancel_flourish(fb.buf_mut(), &mut acc);
    assert!(fb.bytes() == &rest[..]);
    assert_eq!((acc.x0, acc.y0, acc.x1, acc.y1), (-1, -1, 467, 467));
    let mut none = RectAcc::empty();
    c.cancel_flourish(fb.buf_mut(), &mut none);
    assert!(none.is_empty());
}

#[test]
fn text_fades_in_and_is_cached() {
    let (time, text) = (blocks(20, 30, 24), blocks(8, 10, 9));
    let a = LockAssets { time: &time, text: &text, sched: CURVES };
    let mut buf = vec![0u8; FB];
    let mut fb = WatchFb::new(&mut buf, 466, 466);
    let mut c = Clock::new();
    c.repaint_full(&mut fb, &a, &at(12, 34));
    assert_eq!(c.last_text, (12, 34, 16_384, 2026, 7, 7));
    fb.clear_damage();
    c.last_minute = 34;
    c.render(&mut fb, &a, 2400, &at(12, 34));
    assert!(fb.is_clean());
    c.render(&mut fb, &a, 1200, &at(12, 34));
    assert_eq!(c.last_text.2, 8192);
    assert!(!fb.is_clean());
    // 5 characters of 24, centred, on baseline 238
    assert_ne!(px(fb.bytes(), 173, 208), (0, 0));
    assert_eq!(px(fb.bytes(), 193, 208), (0, 0));
    assert_eq!(px(fb.bytes(), 173, 207), (0, 0));
    assert_eq!(c.canvas_text_bbox(), (171, 206, 291, 305));
}

#[test]
fn text_at_full_coverage() {
    let mut time = EMPTY;
    time[48] = Some(Glyph { width: 2, height: 1, advance: 3, ymin: 0, data: &[0xF0] });
    let a = LockAssets { time: &time, text: &EMPTY, sched: CURVES };
    let mut buf = vec![0u8; FB];
    let mut fb = WatchFb::new(&mut buf, 466, 466);
    let mut c = Clock::new();
    c.draw_aod(&mut fb, &a, &at(0, 2));
    // three noughts: the first at 233 - 9 / 2, moved by the drift of minute 2
    assert_eq!(px(fb.bytes(), 229 - 4, 237 + 6), (0xEF, 0x7D));
    assert_eq!(px(fb.bytes(), 230 - 4, 237 + 6), (0, 0));
    assert_eq!(fb.bytes().iter().filter(|b| **b != 0).count(), 6);
    assert_eq!(c.last_text, (255, 255, -1, 0, 0, 0));
}

#[test]
fn every_changed_pixel_is_marked() {
    let (time, text) = (blocks(20, 30, 24), blocks(8, 10, 9));
    let a = LockAssets { time: &time, text: &text, sched: CURVES };
    let mut buf = vec![0u8; FB];
    let mut fb = WatchFb::new(&mut buf, 466, 466);
    let mut c = Clock::new();
    let mut changed = 0;
    for (ms, now) in [(100, at(10, 0)), (600, at(10, 0)), (1200, at(10, 1)), (3000, at(11, 2)), (3000, at(11, 2))] {
        let before = fb.bytes().to_vec();
        fb.clear_damage();
        c.render(&mut fb, &a, ms, &now);
        for y in 0..466u16 {
            for x in 0..466u16 {
                if px(&before, x as usize, y as usize) != px(fb.bytes(), x as usize, y as usize) {
                    changed += 1;
                    assert!(covered(&fb, x, y));
                }
            }
        }
    }
    assert!(changed > 1000);
}

#[test]
fn sheet_text_moves_and_is_cut() {
    let (time, text) = (blocks(20, 30, 24), blocks(8, 10, 9));
    let a = LockAssets { time: &time, text: &text, sched: CURVES };
    let mut c = Clock::new();
    let mut fb = vec![0u8; FB];
    // the time's rows 158..188, cut at 170
    let b = c.draw_sheet_text(&mut fb, &a, &at(12, 34), -50, 170);
    assert_eq!((b.0, b.1, b.2, b.3), (171, 156, 291, 169));
    assert_ne!(px(&fb, 173, 169), (0, 0));
    assert!(fb[170 * 932..].iter().all(|v| *v == 0));
    assert_eq!(c.date_line(&at(12, 34)), b"July 7th 2026".to_vec());
}

#[test]
fn rectangles_near_the_ring() {
    assert!(lock::rect_touches_ring(i32::MIN, i32::MIN, i32::MAX, i32::MAX));
    assert!(!lock::rect_touches_ring(i32::MAX, i32::MAX, i32::MIN, i32::MIN));
    assert!(!lock::rect_touches_ring(200, 200, 300, 300));
    assert!(lock::rect_touches_ring(17, 233, 40, 233));
    assert!(!lock::rect_touches_ring(18, 233, 40, 233));
    let mut fb = vec![7u8; FB];
    lock::clear_rect(&mut fb, 10, 20, 12, 21);
    assert_eq!(fb.iter().filter(|b| **b == 0).count(), 12);
    assert_eq!(px(&fb, 10, 20), (0, 0));
    assert_eq!(px(&fb, 12, 21), (0, 0));
    assert_eq!(px(&fb, 13, 21), (7, 7));
}
