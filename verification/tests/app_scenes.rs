//! App screens: time, gallery, activity, settings, photos, and the shapes they draw.
use openpocket::display::watch_fb::WatchFb;
use openpocket::font::Glyph;
use openpocket::scenes::activity;
use openpocket::scenes::apps;
use openpocket::scenes::apps::{AppAssets, State};
use openpocket::scenes::gallery;
use openpocket::scenes::settings;
use openpocket::scenes::time_app;
use openpocket::scenes::vector;
use openpocket::scenes::wheel::{WheelApp, WheelAssets, WheelFx};
use openpocket::time::WallTime;

const FB: usize = 466 * 466 * 2;
const SOLID: &[u8] = &[255; 128 * 128];
const PAGE_A: &[u8] = &[0x11; FB];
const PAGE_B: &[u8] = &[0x22; FB];
const PAGES: &[&[u8]] = &[PAGE_A, PAGE_B];
const WHITE: (i32, i32, i32) = (255, 255, 255);

fn at(hour: u8, minute: u8, second: u8) -> WallTime {
    WallTime { year: 2026, month: 7, day: 21, hour, minute, second }
}

fn blocks(width: u8, height: u8, advance: u8) -> [Option<Glyph>; 128] {
    let mut f = [None; 128];
    for c in 33..128usize {
        let level = (c % 15 + 1) as u8;
        let data: &'static [u8] = vec![level * 17; (width as usize + 1) / 2 * height as usize].leak();
        f[c] = Some(Glyph { width, height, advance, ymin: 0, data });
    }
    f
}

fn list() -> Vec<WheelApp> {
    ["Time", "Gallery", "Music", "Compass", "Activity", "Settings", "Torch", "Photos"]
        .iter()
        .map(|n| WheelApp { name: n, icon_s: SOLID, icon_l: SOLID, icon_x: SOLID })
        .collect()
}

fn assets<'a>(
    apps: &'a [WheelApp],
    text: &'a [Option<Glyph>; 128],
    time: &'a [Option<Glyph>; 128],
) -> AppAssets<'a> {
    AppAssets {
        wheel: WheelAssets {
            apps,
            icon_s_px: 40,
            icon_l_px: 64,
            icon_x_px: 128,
            glow_ring: SOLID,
            glow_ring_px: 100,
            text,
            labelf: text,
        },
        time,
        photos_disc: SOLID,
        photos_disc_px: 100,
        aperture: SOLID,
        aperture_px: 40,
        fw: "1.0",
        gallery: PAGES,
    }
}

fn px(fb: &[u8], x: usize, y: usize) -> (u8, u8) {
    (fb[(y * 466 + x) * 2], fb[(y * 466 + x) * 2 + 1])
}

fn changes_are_covered(before: &[u8], fb: &WatchFb) -> usize {
    let mut n = 0;
    for y in 0..466u16 {
        for x in 0..466u16 {
            if px(before, x as usize, y as usize) != px(fb.bytes(), x as usize, y as usize) {
                assert!(
                    fb.dmi.overflowed() || fb.dmi.spans().iter().any(|s| s.y == y && s.x0 <= x && x <= s.x1)
                );
                n += 1;
            }
        }
    }
    n
}

#[test]
fn diamond_angles() {
    for (dx, dy, a) in [(0, -10, 0), (10, -10, 128), (10, 0, 256), (0, 10, 512), (-10, 0, 768), (-10, -10, 896), (0, 0, 256)] {
        assert_eq!(vector::pseudo_angle(dx, dy), a);
    }
    assert_eq!(vector::pseudo_dir(0), (0, -256));
    assert_eq!(vector::pseudo_dir(256), (256, 0));
    assert_eq!(vector::pseudo_dir(512 + 1024), (0, 256));
    // the diagonal has the length of the axes
    let (x, y) = vector::pseudo_dir(128);
    assert_eq!((x, y), (181, -181));
}

#[test]
fn disc_has_a_soft_edge() {
    let mut fb = vec![0u8; FB];
    vector::disc(&mut fb, 100, 100, 5, WHITE, 255);
    assert_eq!(px(&fb, 100, 100), (0xFF, 0xFF));
    assert_eq!(px(&fb, 104, 100), (0xFF, 0xFF));
    assert_eq!(px(&fb, 105, 100), (0x7B, 0xEF));
    assert_eq!(px(&fb, 106, 100), (0, 0));
}

#[test]
fn arcs_sweep_clockwise_from_the_top() {
    let mut fb = vec![0u8; FB];
    vector::draw_ring_arc(&mut fb, 233, 233, 60, 70, 512, WHITE, 255);
    assert_eq!(px(&fb, 298, 233), (0xFF, 0xFF));
    assert_eq!(px(&fb, 168, 233), (0, 0));
    assert_eq!(px(&fb, 233, 168), (0xFF, 0xFF));
    vector::draw_ring_arc(&mut fb, 233, 233, 60, 70, 1024, WHITE, 255);
    assert_eq!(px(&fb, 168, 233), (0xFF, 0xFF));
    vector::clear_annulus(&mut fb, 58, 72);
    assert!(fb.iter().all(|b| *b == 0));
}

#[test]
fn shapes_never_stack() {
    let tint = (90, 160, 255);
    let mut fb = vec![0u8; FB];
    vector::cap_dot(&mut fb, 100, 100, 8, tint, 120);
    vector::soft_dot(&mut fb, 150, 100, 9, tint, 210);
    vector::draw_ring_arc(&mut fb, 233, 233, 60, 70, 700, tint, 200);
    assert!(px(&fb, 100, 100) != (0, 0) && px(&fb, 150, 100) != (0, 0));
    let once = fb.clone();
    vector::cap_dot(&mut fb, 100, 100, 8, tint, 120);
    vector::soft_dot(&mut fb, 150, 100, 9, tint, 210);
    vector::draw_ring_arc(&mut fb, 233, 233, 60, 70, 700, tint, 200);
    assert!(fb == once);
}

#[test]
fn arc_is_repaired_inside_a_rectangle() {
    let mut fb = vec![0u8; FB];
    vector::draw_ring_arc(&mut fb, 233, 233, 224, 228, 600, WHITE, 230);
    let whole = fb.clone();
    let rect = (430, 200, 465, 260);
    for y in 200..=260usize {
        for x in 430..=465usize {
            fb[(y * 466 + x) * 2] = 0;
            fb[(y * 466 + x) * 2 + 1] = 0;
        }
    }
    assert!(fb != whole);
    vector::arc_in_rect(&mut fb, 224, 228, 600, WHITE, 230, rect);
    assert!(fb == whole);
}

#[test]
fn slider() {
    assert_eq!(apps::slider_level_from_x(-1000), 20);
    assert_eq!(apps::slider_level_from_x(143), 20);
    assert_eq!(apps::slider_level_from_x(233), 137);
    assert_eq!(apps::slider_level_from_x(323), 255);
    assert_eq!(apps::slider_level_from_x(9000), 255);
    assert!(!apps::slider_zone(134) && apps::slider_zone(135) && apps::slider_zone(213) && !apps::slider_zone(214));
}

#[test]
fn app_properties() {
    assert_eq!(apps::accent(1), (255, 165, 80));
    assert_eq!(apps::accent(8), (255, 165, 80));
    assert_eq!(apps::accent(2), (70, 220, 200));
    assert_eq!(apps::accent(3), (170, 120, 255));
    assert_eq!(apps::accent(5), (200, 215, 255));
    assert_eq!(apps::accent(6), (255, 240, 220));
    assert_eq!(apps::accent(99), (90, 160, 255));
    let content: Vec<usize> = (0..10).filter(|i| apps::has_content(*i)).collect();
    assert_eq!(content, vec![0, 1, 4, 5, 7]);
    assert!(!apps::shows_status(0) && apps::shows_status(1));
}

#[test]
fn weekdays() {
    assert_eq!(time_app::weekday(2026, 7, 21), 2);
    assert_eq!(time_app::weekday(2000, 1, 1), 6);
    assert_eq!(time_app::weekday(2024, 2, 29), 4);
    assert_eq!(time_app::weekday(1999, 12, 31), 5);
    let (t, d) = time_app::time_strings(&at(9, 5, 0));
    assert_eq!(t, b"09:05".to_vec());
    assert_eq!(d, b"TUE 21 JUL".to_vec());
    let mut first = at(0, 0, 0);
    first.day = 1;
    assert_eq!(time_app::time_strings(&first).1, b"WED 1 JUL".to_vec());
}

#[test]
fn seconds_arc_runs_and_restarts() {
    let (apps_list, text, time) = (list(), blocks(6, 10, 8), blocks(20, 30, 24));
    let a = assets(&apps_list, &text, &time);
    let mut buf = vec![0u8; FB];
    let mut fb = WatchFb::new(&mut buf, 466, 466);
    let mut st = State::new();
    apps::tick(&mut fb, &a, 0, &at(9, 5, 30), 0, 1000, &mut st);
    assert_eq!((st.t_anchor, st.t_sec, st.t_last_a), (Some(1000), 30, 512));
    st.t_min = 5;
    let before = fb.bytes().to_vec();
    fb.clear_damage();
    // 30.5 s
    apps::tick(&mut fb, &a, 0, &at(9, 5, 30), 0, 1500, &mut st);
    assert_eq!(st.t_last_a, 520);
    assert!(changes_are_covered(&before, &fb) > 0);
    apps::tick(&mut fb, &a, 0, &at(9, 5, 59), 0, 30_000, &mut st);
    apps::tick(&mut fb, &a, 0, &at(9, 5, 59), 0, 40_000, &mut st);
    // held at the end of the second
    assert_eq!(st.t_last_a, 59_999 * 1024 / 60_000);
    // a new minute clears the rim, and the digits follow
    apps::tick(&mut fb, &a, 0, &at(9, 6, 0), 0, 41_000, &mut st);
    assert_eq!((st.t_last_a, st.t_min), (0, 6));
    apps::tick(&mut fb, &a, 0, &at(9, 6, 0), 0, 41_100, &mut st);
    assert_eq!(st.t_last_a, 4);
}

#[test]
fn reveal_of_the_time_app_restarts_its_arc() {
    let (apps_list, text, time) = (list(), blocks(6, 10, 8), blocks(20, 30, 24));
    let a = assets(&apps_list, &text, &time);
    let mut buf = vec![0u8; FB];
    let mut fb = WatchFb::new(&mut buf, 466, 466);
    let mut fx = WheelFx::new();
    let mut st = State::new();
    st.t_anchor = Some(3);
    apps::draw_reveal(&mut fb, &mut fx, &a, &at(9, 5, 0), None, 0, 0, 0, &mut st);
    assert_eq!(st.t_anchor, Some(3));
    assert!(fb.bytes().iter().all(|b| *b == 0));
    apps::draw_reveal(&mut fb, &mut fx, &a, &at(9, 5, 0), None, 0, 256, 0, &mut st);
    assert_eq!((st.t_anchor, st.t_min), (None, 5));
    // the large digits, 5 characters of 24 centred on baseline 244
    assert_ne!(px(fb.bytes(), 173, 214), (0, 0));
    assert_eq!(px(fb.bytes(), 173, 213), (0, 0));
}

#[test]
fn revealed_content_is_covered() {
    let (apps_list, text, time) = (list(), blocks(6, 10, 8), blocks(20, 30, 24));
    let a = assets(&apps_list, &text, &time);
    for idx in [0, 4, 5, 7] {
        let mut buf = vec![0u8; FB];
        let mut fb = WatchFb::new(&mut buf, 466, 466);
        let mut fx = WheelFx::new();
        let mut st = State::new();
        fb.clear_damage();
        let before = fb.bytes().to_vec();
        apps::draw_reveal(&mut fb, &mut fx, &a, &at(9, 5, 0), Some(50), idx, 256, 100, &mut st);
        assert!(changes_are_covered(&before, &fb) > 100);
    }
}

#[test]
fn splash_title_fades() {
    let (apps_list, text, time) = (list(), blocks(6, 10, 8), blocks(20, 30, 24));
    let a = assets(&apps_list, &text, &time);
    let mut buf = vec![0u8; FB];
    let mut fb = WatchFb::new(&mut buf, 466, 466);
    let mut fx = WheelFx::new();
    fb.clear_damage();
    let before = fb.bytes().to_vec();
    apps::draw_splash_title(&mut fb, &mut fx, &a, 2, 256);
    assert!(changes_are_covered(&before, &fb) > 0);
    let mut dark = vec![0u8; FB];
    let mut none = WatchFb::new(&mut dark, 466, 466);
    apps::draw_splash_title(&mut none, &mut fx, &a, 2, 0);
    assert!(none.bytes().iter().all(|b| *b == 0));
}

#[test]
fn photos_breathe_and_activity_shines() {
    let (apps_list, text, time) = (list(), blocks(6, 10, 8), blocks(20, 30, 24));
    let a = assets(&apps_list, &text, &time);
    for idx in [4, 7] {
        let mut buf = vec![0u8; FB];
        let mut fb = WatchFb::new(&mut buf, 466, 466);
        let mut fx = WheelFx::new();
        let mut st = State::new();
        apps::draw_reveal(&mut fb, &mut fx, &a, &at(9, 5, 0), None, idx, 256, 0, &mut st);
        fb.clear_damage();
        let before = fb.bytes().to_vec();
        apps::tick(&mut fb, &a, idx, &at(9, 5, 0), 700, 5, &mut st);
        assert!(changes_are_covered(&before, &fb) > 0);
    }
}

#[test]
fn rings() {
    let r = activity::act_ring(0);
    assert_eq!((r.rc, r.closure, r.tint), (120, 82, (70, 150, 255)));
    assert_eq!(activity::act_ring(1).rc, 92);
    assert_eq!(activity::act_ring(2).closure, 91);
    let mut fb = vec![0u8; FB];
    activity::ring_with_caps(&mut fb, 120, 512, WHITE, 255);
    // the cap at the top reaches to the left of the arc's start
    assert_ne!(px(&fb, 229, 113), (0, 0));
    assert_eq!(px(&fb, 353, 233), (0xFF, 0xFF));
    assert_eq!(px(&fb, 113, 233), (0, 0));
}

#[test]
fn settings_screen() {
    let (apps_list, text, time) = (list(), blocks(6, 10, 8), blocks(20, 30, 24));
    let a = assets(&apps_list, &text, &time);
    let mut buf = vec![0u8; FB];
    let mut fb = WatchFb::new(&mut buf, 466, 466);
    let mut st = State::new();
    fb.clear_damage();
    settings::settings_tap(&mut fb, &a, &mut st, 264, None, 0);
    assert!(!st.set_about && fb.is_clean());
    let before = fb.bytes().to_vec();
    settings::settings_tap(&mut fb, &a, &mut st, 265, Some(50), 5000);
    assert!(st.set_about);
    assert!(changes_are_covered(&before, &fb) > 0);
    settings::settings_tap(&mut fb, &a, &mut st, 0, None, 0);
    assert!(!st.set_about);
    let before = fb.bytes().to_vec();
    fb.clear_damage();
    settings::settings_set_level(&mut fb, &a, &mut st, 137);
    assert_eq!(st.set_level, 137);
    changes_are_covered(&before, &fb);
    // the knob stands at 143 + 117 * 180 / 235
    assert_ne!(px(fb.bytes(), 232, 195), (0, 0));
}

#[test]
fn gallery_strip() {
    let (apps_list, text, time) = (list(), blocks(6, 10, 8), blocks(20, 30, 24));
    let a = assets(&apps_list, &text, &time);
    let mut buf = vec![0u8; FB];
    let mut fb = WatchFb::new(&mut buf, 466, 466);
    gallery::draw_gallery_frame(&mut fb, &a, 466, &at(9, 5, 0), None);
    assert_eq!(px(fb.bytes(), 0, 200), (0x22, 0x22));
    assert_eq!(px(fb.bytes(), 465, 200), (0x22, 0x22));
    // the second of two dots is lit
    assert_eq!(px(fb.bytes(), 244, 424), (0xFD, 0x09));
    gallery::draw_gallery_frame(&mut fb, &a, 200, &at(9, 5, 0), None);
    assert_eq!(px(fb.bytes(), 265, 200), (0x11, 0x11));
    assert_eq!(px(fb.bytes(), 266, 200), (0x22, 0x22));
    assert_eq!(px(fb.bytes(), 222, 424), (0xFD, 0x09));
    gallery::draw_gallery_frame(&mut fb, &a, -10, &at(9, 5, 0), None);
    assert_eq!(px(fb.bytes(), 9, 200), (0, 0));
    assert_eq!(px(fb.bytes(), 10, 200), (0x11, 0x11));
}

#[test]
fn gallery_loads_out_of_black() {
    let (apps_list, text, time) = (list(), blocks(6, 10, 8), blocks(20, 30, 24));
    let a = assets(&apps_list, &text, &time);
    let mut buf = vec![0u8; FB];
    let mut fb = WatchFb::new(&mut buf, 466, 466);
    let mut fx = WheelFx::new();
    gallery::draw_gallery_load(&mut fb, &mut fx, &a, &at(9, 5, 0), None, 0, 256, 0);
    assert_eq!(px(fb.bytes(), 20, 233), (0, 0));
    // the page takes the canvas over where nothing is known of it
    fx.invalidate();
    gallery::draw_gallery_load(&mut fb, &mut fx, &a, &at(9, 5, 0), None, 0, 0, 256);
    assert_eq!(px(fb.bytes(), 20, 233), (0x11, 0x11));
}

#[test]
fn resting_gallery_keeps_its_status_and_caption() {
    let (apps_list, text, time) = (list(), blocks(6, 10, 8), blocks(20, 30, 24));
    let a = assets(&apps_list, &text, &time);
    let mut buf = vec![0u8; FB];
    let mut fb = WatchFb::new(&mut buf, 466, 466);
    gallery::draw_gallery_frame(&mut fb, &a, 466, &at(9, 5, 0), None);
    fb.clear_damage();
    let mut shown = 5;
    gallery::gallery_tick(&mut fb, &a, &at(9, 5, 0), None, 1, Some(100), &mut shown);
    assert!(fb.is_clean());
    let before = fb.bytes().to_vec();
    gallery::gallery_tick(&mut fb, &a, &at(9, 6, 0), None, 1, None, &mut shown);
    assert_eq!(shown, 6);
    assert!(changes_are_covered(&before, &fb) > 0);
    fb.clear_damage();
    let before = fb.bytes().to_vec();
    gallery::gallery_tick(&mut fb, &a, &at(9, 6, 0), None, 1, Some(600), &mut shown);
    assert!(changes_are_covered(&before, &fb) > 0);
    // only the last page has a caption
    fb.clear_damage();
    gallery::gallery_tick(&mut fb, &a, &at(9, 6, 0), None, 0, Some(600), &mut shown);
    assert!(fb.is_clean());
}
