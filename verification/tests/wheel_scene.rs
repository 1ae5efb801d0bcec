//! Sprites, text and the app wheel.
use openpocket::display::watch_fb::WatchFb;
use openpocket::font;
use openpocket::font::Glyph;
use openpocket::scenes::sprite;
use openpocket::scenes::wheel;
use openpocket::scenes::wheel::{RowLayout, WheelApp, WheelAssets, WheelFx};
use openpocket::time::WallTime;

const FB: usize = 466 * 466 * 2;
const EMPTY: [Option<Glyph>; 128] = [None; 128];
const TINT: (u8, u8) = (0xC6, 0xBF);
const SOLID: &[u8] = &[255; 128 * 128];

fn at(hour: u8, minute: u8) -> WallTime {
    WallTime { year: 2026, month: 7, day: 7, hour, minute, second: 0 }
}

fn blocks(width: u8, height: u8, advance: u8) -> [Option<Glyph>; 128] {
    let mut f = EMPTY;
    for c in 33..128usize {
        let level = (c % 15 + 1) as u8;
        let data: &'static [u8] = vec![level * 17; (width as usize + 1) / 2 * height as usize].leak();
        f[c] = Some(Glyph { width, height, advance, ymin: 0, data });
    }
    f
}

fn apps() -> Vec<WheelApp> {
    ["Alpha", "Beta", "Gamma", "Delta", "Epsilon"]
        .iter()
        .map(|n| WheelApp { name: n, icon_s: SOLID, icon_l: SOLID, icon_x: SOLID })
        .collect()
}

fn assets<'a>(apps: &'a [WheelApp], text: &'a [Option<Glyph>; 128]) -> WheelAssets<'a> {
    WheelAssets {
        apps,
        icon_s_px: 40,
        icon_l_px: 64,
        icon_x_px: 128,
        glow_ring: SOLID,
        glow_ring_px: 100,
        text,
        labelf: text,
    }
}

fn px(fb: &[u8], x: usize, y: usize) -> (u8, u8) {
    (fb[(y * 466 + x) * 2], fb[(y * 466 + x) * 2 + 1])
}

fn covered(fb: &WatchFb, x: u16, y: u16) -> bool {
    fb.dmi.overflowed() || fb.dmi.spans().iter().any(|s| s.y == y && s.x0 <= x && x <= s.x1)
}

fn changes_are_covered(before: &[u8], fb: &WatchFb) -> usize {
    let mut n = 0;
    for y in 0..466u16 {
        for x in 0..466u16 {
            if px(before, x as usize, y as usize) != px(fb.bytes(), x as usize, y as usize) {
                assert!(covered(fb, x, y), "({}, {})", x, y);
                n += 1;
            }
        }
    }
    n
}

#[test]
fn icon_is_tinted_where_it_covers() {
    let mut fb = vec![0u8; FB];
    sprite::blit_icon(&mut fb, &[255, 8, 7, 0], 2, 11, 11, 256);
    assert_eq!(px(&fb, 10, 10), TINT);
    // 8 of 255: one step of green
    assert_eq!(px(&fb, 11, 10), (0, 0x20));
    assert_eq!(px(&fb, 10, 11), (0, 0));
    assert_eq!(px(&fb, 11, 11), (0, 0));
    // clipped at the corner of the panel
    sprite::blit_icon(&mut fb, &[255; 16], 4, 0, 465, 256);
    assert_eq!(px(&fb, 0, 465), TINT);
    assert_eq!(px(&fb, 1, 463), TINT);
    assert_eq!(px(&fb, 2, 465), (0, 0));
}

#[test]
fn intensity_sprite_lightens() {
    let mut lut = [(0u8, 0u8); 256];
    lut[100] = (0x08, 0x41);
    lut[50] = (0xF8, 0x00);
    let mut fb = vec![0u8; FB];
    sprite::blit_lut_sprite(&mut fb, &[100, 5, 5, 5], 2, &lut, 11, 11, 256);
    assert_eq!(px(&fb, 10, 10), (0x08, 0x41));
    assert_eq!(px(&fb, 11, 10), (0, 0));
    // half alpha looks up 50: red rises, green and blue stay
    sprite::blit_lut_sprite(&mut fb, &[100, 5, 5, 5], 2, &lut, 11, 11, 128);
    assert_eq!(px(&fb, 10, 10), (0xF8, 0x41));
}

#[test]
fn scaled_icon() {
    let mut fb = vec![0u8; FB];
    sprite::blit_icon_scaled(&mut fb, &[255], 1, 4, 12, 12, 256, false);
    for (x, y) in [(10, 10), (13, 13)] {
        assert_eq!(px(&fb, x, y), TINT);
    }
    assert_eq!(px(&fb, 9, 10), (0, 0));
    assert_eq!(px(&fb, 14, 10), (0, 0));
    let mut a = vec![0u8; FB];
    let mut b = vec![0u8; FB];
    // two texels over four pixels: 255, 127, 0, 0 and nearest 255, 0, 0, 0
    sprite::blit_icon_scaled(&mut a, &[255, 0, 255, 0], 2, 4, 12, 12, 256, false);
    sprite::blit_icon_scaled(&mut b, &[255, 0, 255, 0], 2, 4, 12, 12, 256, true);
    assert_eq!(px(&a, 10, 10), TINT);
    assert_eq!(px(&a, 11, 10), (0x5B, 0x4F));
    assert_eq!(px(&a, 12, 10), (0, 0));
    assert_eq!(px(&b, 10, 10), TINT);
    assert_eq!(px(&b, 11, 10), (0, 0));
}

#[test]
fn text_lines() {
    let mut f = EMPTY;
    f[65] = Some(Glyph { width: 3, height: 2, advance: 5, ymin: 1, data: &[0xF0, 0xF0, 0, 0] });
    assert_eq!(font::text_width("AxA", &f), 10);
    let mut fb = vec![0u8; FB];
    sprite::draw_text_at(&mut fb, "AxA", 20, 30, 256, &f);
    // top row 30 - (2 + 1); columns 0 and 2 of each glyph
    for x in [20, 22, 25, 27] {
        assert_eq!(px(&fb, x, 27), TINT);
    }
    assert_eq!(px(&fb, 21, 27), (0, 0));
    assert_eq!(px(&fb, 20, 28), (0, 0));
    let mut half = vec![0u8; FB];
    let block = blocks(8, 8, 10);
    sprite::draw_text_scaled(&mut half, "~", 20, 30, 256, &block, 128, true);
    assert_ne!(px(&half, 20, 26), (0, 0));
    assert_ne!(px(&half, 23, 29), (0, 0));
    assert_eq!(px(&half, 24, 29), (0, 0));
    assert_eq!(px(&half, 20, 25), (0, 0));
}

#[test]
fn pill_is_rounded() {
    let mut fb = vec![0u8; FB];
    sprite::fill_pill(&mut fb, 10, 10, 30, 20);
    assert_eq!(px(&fb, 10, 15), (0x18, 0xC3));
    assert_eq!(px(&fb, 30, 15), (0x18, 0xC3));
    assert_eq!(px(&fb, 31, 15), (0, 0));
    assert_eq!(px(&fb, 14, 10), (0, 0));
    assert_eq!(px(&fb, 15, 10), (0x18, 0xC3));
    assert_eq!(px(&fb, 25, 20), (0x18, 0xC3));
    assert_eq!(px(&fb, 26, 20), (0, 0));
}

#[test]
fn rows_fade_away_from_the_centre() {
    assert_eq!(wheel::row_alpha(233), (256, 256));
    assert_eq!(wheel::row_alpha(233 + 68), (185, 128));
    assert_eq!(wheel::row_alpha(233 - 136), (115, 0));
    assert_eq!(wheel::row_alpha(233 + 170), (57, 0));
    assert_eq!(wheel::row_alpha(233 + 204), (0, 0));
}

#[test]
fn icons_hug_the_circle() {
    assert_eq!(wheel::icon_center_x(233, 64), 45);
    for y in 33..=433 {
        let x = wheel::icon_center_x(y, 64);
        let (dx, dy) = (233 - (x - 32 - 10), (y - 233i32).abs() + 32);
        assert!(dy > 232 || dx * dx + dy * dy <= 233 * 233);
    }
}

#[test]
fn status_line() {
    assert_eq!(wheel::status_str(&at(9, 5), None), b"09:05".to_vec());
    assert_eq!(wheel::status_str(&at(9, 5), Some(7)), b"09:05 | 7%".to_vec());
    assert_eq!(wheel::status_str(&at(23, 59), Some(42)), b"23:59 | 42%".to_vec());
    assert_eq!(wheel::status_str(&at(23, 59), Some(255)), b"23:59 | 100%".to_vec());
    // spaces have no glyph here
    let f = blocks(6, 10, 8);
    assert_eq!(wheel::status_metrics(&at(9, 5), Some(7), &f), (233 - 32, 40, 64));
    let mut fb = vec![0u8; FB];
    wheel::draw_status(&mut fb, &at(9, 5), Some(7), &f);
    assert_ne!(px(&fb, 201, 42), (0, 0));
    assert_ne!(px(&fb, 201, 51), (0, 0));
    assert_eq!(px(&fb, 201, 52), (0, 0));
    let mut tail = vec![0u8; FB];
    wheel::draw_status_tail(&mut tail, &at(9, 5), Some(7), 200, &f);
    assert_eq!(px(&tail, 201, 42), (0, 0));
    assert_eq!(px(&tail, 241, 42), px(&fb, 241, 42));
}

#[test]
fn saber_gradient() {
    let azure = wheel::azure_lut();
    assert_eq!(azure[0], (0, 0));
    assert_eq!(azure[72], (0x09, 0x31));
    assert_eq!(azure[255], (0xBF, 0xFF));
    assert_eq!(wheel::saber_lut(256)[72], (0x38, 0x93));
    assert_eq!(wheel::saber_lut(0), azure);
}

#[test]
fn row_layouts() {
    assert_eq!(
        wheel::layout_row(0, 0, None, None, 40, 64),
        Some(RowLayout { y: 233, alpha: 256, focus: 256, large: 256, cx: 45, shown: 256 })
    );
    // the entrance: each row starts two frames after the one above it
    assert_eq!(wheel::layout_row(0, 0, None, Some(0), 40, 64), None);
    assert_eq!(wheel::layout_row(1, 0, None, Some(2), 40, 64), None);
    let r = wheel::layout_row(0, 0, None, Some(5), 40, 64).unwrap();
    assert_eq!((r.y, r.alpha, r.shown, r.cx), (236, 224, 224, wheel::icon_center_x(236, 64)));
    // the sheet's edge scrubs the reveal
    assert_eq!(wheel::layout_row(0, 0, Some(0), None, 40, 64), None);
    assert_eq!(wheel::layout_row(0, 0, Some(256), None, 40, 64).unwrap().shown, 256);
    // out of sight
    assert_eq!(wheel::layout_row(4, 0, None, None, 40, 64), None);
}

#[test]
fn rectangles_are_tracked() {
    let mut fx = WheelFx::new();
    assert!(!fx.intro_active());
    assert!(fx.take_seed());
    assert!(!fx.take_seed());
    fx.invalidate();
    assert!(fx.take_seed());
    fx.begin_intro();
    assert!(fx.intro_active());
    fx.seed_silent();
    assert!(!fx.intro_active() && !fx.take_seed());
}

#[test]
fn scrolled_frame_equals_a_fresh_one_and_is_covered() {
    let (list, text) = (apps(), blocks(6, 10, 8));
    let a = assets(&list, &text);
    let mut buf = vec![0u8; FB];
    let mut fb = WatchFb::new(&mut buf, 466, 466);
    let mut fx = WheelFx::new();
    wheel::draw_scroll(&mut fb, &a, &at(9, 5), Some(7), 0, &mut fx, false, None, None);
    let mut changed = 0;
    for (s, fast) in [(900, false), (5000, true), (17_408, false), (40_000, true), (34_816, false)] {
        let before = fb.bytes().to_vec();
        fb.clear_damage();
        wheel::draw_scroll(&mut fb, &a, &at(9, 6), Some(8), s, &mut fx, fast, None, None);
        changed += changes_are_covered(&before, &fb);
        let mut other = vec![0u8; FB];
        let mut fresh = WatchFb::new(&mut other, 466, 466);
        wheel::draw_scroll(&mut fresh, &a, &at(9, 6), Some(8), s, &mut WheelFx::new(), fast, None, None);
        assert!(fb.bytes() == fresh.bytes());
    }
    assert!(changed > 1000);
}

#[test]
fn entrance_runs_its_frames() {
    let (list, text) = (apps(), blocks(6, 10, 8));
    let a = assets(&list, &text);
    let mut buf = vec![0u8; FB];
    let mut fb = WatchFb::new(&mut buf, 466, 466);
    let mut fx = WheelFx::new();
    fx.begin_intro();
    let mut frames = 0;
    while fx.intro_active() {
        wheel::draw_scroll(&mut fb, &a, &at(9, 5), None, 0, &mut fx, false, None, None);
        frames += 1;
    }
    assert_eq!(frames, 29);
    wheel::draw_scroll(&mut fb, &a, &at(9, 5), None, 0, &mut fx, false, None, None);
    assert_eq!(px(fb.bytes(), 45, 233), TINT);
}

#[test]
fn resting_wheel_ticks() {
    let (list, text) = (apps(), blocks(6, 10, 8));
    let a = assets(&list, &text);
    let mut buf = vec![0u8; FB];
    let mut fb = WatchFb::new(&mut buf, 466, 466);
    let mut fx = WheelFx::new();
    wheel::draw_scroll(&mut fb, &a, &at(9, 5), Some(7), 0, &mut fx, false, None, None);
    let before = fb.bytes().to_vec();
    fb.clear_damage();
    // half a period: the violet end
    wheel::tick_ring(&mut fb, &a, 2048, 0);
    assert!(changes_are_covered(&before, &fb) > 0);
    assert_eq!(px(fb.bytes(), 45, 233), TINT);
    assert_eq!(px(fb.bytes(), 45, 184), wheel::saber_lut(255)[255]);
    let before = fb.bytes().to_vec();
    fb.clear_damage();
    wheel::tick_status(&mut fb, &at(9, 6), Some(100), &text);
    assert!(changes_are_covered(&before, &fb) > 0);
}

#[test]
fn morph_flies_the_icon_to_the_splash() {
    let (list, text) = (apps(), blocks(6, 10, 8));
    let a = assets(&list, &text);
    let mut buf = vec![0u8; FB];
    let mut fb = WatchFb::new(&mut buf, 466, 466);
    let mut fx = WheelFx::new();
    wheel::draw_scroll(&mut fb, &a, &at(9, 5), Some(7), 0, &mut fx, false, None, None);
    for f in [40, 120, 256] {
        let before = fb.bytes().to_vec();
        fb.clear_damage();
        wheel::draw_open_morph(&mut fb, &a, &at(9, 5), Some(7), 0, &mut fx, 0, f, 256, false);
        changes_are_covered(&before, &fb);
    }
    // only the splash logo is left: 128 pixels centred on (233, 210)
    assert_eq!(px(fb.bytes(), 233 - 64, 210 - 64), TINT);
    assert_eq!(px(fb.bytes(), 233 + 63, 210 + 63), TINT);
    assert_eq!(fb.bytes().chunks(2).filter(|p| p[0] != 0 || p[1] != 0).count(), 128 * 128);
}

/// A canvas with every byte its own.
fn noise() -> Vec<u8> {
    (0..FB).map(|i| (i as u32).wrapping_mul(2_654_435_761).to_le_bytes()[3]).collect()
}

fn ramp(n: usize) -> Vec<u8> {
    (0..n * n).map(|i| (i * 7 % 256) as u8).collect()
}

#[test]
fn intensity_sprite_never_stacks_or_darkens() {
    let lut = [(0x5A, 0xC3); 256];
    for (cx, cy) in [(100, 100), (-3, 460), (466, 0), (2_000, -5), (i32::MAX, i32::MIN)] {
        let mut fb = noise();
        sprite::blit_lut_sprite(&mut fb, &ramp(31), 31, &lut, cx, cy, 256);
        let once = fb.clone();
        sprite::blit_lut_sprite(&mut fb, &ramp(31), 31, &lut, cx, cy, 256);
        assert!(fb == once);
        let old = noise();
        for i in (0..FB).step_by(2) {
            let w = |b: &[u8]| (b[i] as u16) * 256 + b[i + 1] as u16;
            let (o, n) = (w(&old), w(&once));
            assert!(n >> 11 >= o >> 11 && n >> 5 & 63 >= o >> 5 & 63 && n & 31 >= o & 31);
            let (x, y) = ((i / 2 % 466) as i64, (i / 2 / 466) as i64);
            let (ox, oy) = (cx as i64 - 15, cy as i64 - 15);
            if !(ox <= x && x < ox + 31 && oy <= y && y < oy + 31) {
                assert_eq!(n, o);
            }
        }
    }
    let mut fb = noise();
    sprite::blit_lut_sprite(&mut fb, &[], 0, &lut, 5, 5, 256);
    sprite::blit_lut_sprite(&mut fb, &[], -9, &lut, 5, 5, 256);
    assert!(fb == noise());
}

#[test]
fn icon_at_its_own_size_is_the_plain_icon() {
    for n in [1i32, 2, 17, 64] {
        for fast in [false, true] {
            for (cx, cy, alpha) in [(200, 200, 256), (3, 460, 100), (-1, 470, 0)] {
                let (mut a, mut b) = (noise(), noise());
                sprite::blit_icon(&mut a, &ramp(n as usize), n, cx, cy, alpha);
                sprite::blit_icon_scaled(&mut b, &ramp(n as usize), n, n, cx, cy, alpha, fast);
                assert!(a == b);
            }
        }
    }
    let mut fb = noise();
    sprite::blit_icon_scaled(&mut fb, &[], 0, -4, 5, 5, 256, true);
    assert!(fb == noise());
}

#[test]
fn text_at_full_scale_is_the_plain_text() {
    let mut font = blocks(7, 11, 9);
    font[32] = Some(Glyph { width: 0, height: 0, advance: 5, ymin: 0, data: &[] });
    for fast in [false, true] {
        for (x, y) in [(30, 100), (-20, 5), (450, 466), (4096, -4096)] {
            let (mut a, mut b) = (noise(), noise());
            sprite::draw_text_at(&mut a, "a b\u{e9}\tz", x, y, 200, &font);
            sprite::draw_text_scaled(&mut b, "a b\u{e9}\tz", x, y, 200, &font, 256, fast);
            assert!(a == b);
        }
    }
    for scale in 1..=256 {
        let mut fb = noise();
        sprite::draw_text_scaled(&mut fb, "   ", 30, 100, 256, &font, scale, true);
        assert!(fb == noise());
    }
}

#[test]
fn widths_add_up() {
    let font = blocks(7, 11, 9);
    assert_eq!(font::text_width("", &font), 0);
    assert_eq!(font::text_width("ab", &font) + font::text_width("cde", &font), font::text_width("abcde", &font));
    assert_eq!(font::text_width("a\u{e9} b", &font), 18);
}

#[test]
fn seed_frame_forgets_the_old_canvas() {
    let (apps, text) = (apps(), blocks(6, 10, 8));
    let a = assets(&apps, &text);
    for reveal in [None, Some(120), Some(i32::MAX), Some(i32::MIN)] {
        let (mut b1, mut b2) = (vec![0u8; FB], vec![0u8; FB]);
        let (mut w1, mut w2) = (WatchFb::new(&mut b1, 466, 466), WatchFb::new(&mut b2, 466, 466));
        w1.buf_mut().copy_from_slice(&noise());
        let (mut f1, mut f2) = (WheelFx::new(), WheelFx::new());
        f1.push(10, 10, 300, 300);
        f1.invalidate();
        f2.invalidate();
        w1.clear_damage();
        w2.clear_damage();
        wheel::draw_scroll(&mut w1, &a, &at(9, 5), Some(50), 20_000, &mut f1, false, reveal, Some(1));
        wheel::draw_scroll(&mut w2, &a, &at(9, 5), Some(50), 20_000, &mut f2, false, reveal, Some(1));
        assert!(w1.bytes() == w2.bytes());
        for (x, y) in [(0, 0), (465, 465), (233, 233), (0, 465)] {
            assert!(covered(&w1, x, y) && covered(&w2, x, y));
        }
        assert!(!f1.take_seed());
    }
}
