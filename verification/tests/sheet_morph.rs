//! The unlock morph: digits fly from the lock face to the status line.
use openpocket::display::watch_fb::WatchFb;
use openpocket::font::Glyph;
use openpocket::scenes::lock::{BezelSchedules, Clock, LockAssets};
use openpocket::scenes::wheel::{WheelApp, WheelAssets, WheelFx};
use openpocket::sheet;
use openpocket::time::WallTime;

const FB: usize = 466 * 466 * 2;
const SOLID: &[u8] = &[255; 128 * 128];
const NOW: WallTime = WallTime { year: 2026, month: 7, day: 7, hour: 9, minute: 5, second: 0 };
const CURVES: BezelSchedules<'static> =
    BezelSchedules { initial: &[396_000], undraw: &[0], redraw: &[396_000], total: 396_000 };

fn blocks(width: u8, height: u8, advance: u8) -> [Option<Glyph>; 128] {
    let mut f = [None; 128];
    for c in 33..128usize {
        let data: &'static [u8] = vec![0xFF; (width as usize + 1) / 2 * height as usize].leak();
        f[c] = Some(Glyph { width, height, advance, ymin: 0, data });
    }
    f
}

fn px(fb: &[u8], x: usize, y: usize) -> (u8, u8) {
    (fb[(y * 466 + x) * 2], fb[(y * 466 + x) * 2 + 1])
}

#[test]
fn digits_fly_to_the_status_line() {
    let (time, text) = (blocks(20, 30, 24), blocks(6, 10, 8));
    let list = [WheelApp { name: "Time", icon_s: SOLID, icon_l: SOLID, icon_x: SOLID }];
    let wheel = WheelAssets {
        apps: &list,
        icon_s_px: 40,
        icon_l_px: 64,
        icon_x_px: 128,
        glow_ring: SOLID,
        glow_ring_px: 100,
        text: &text,
        labelf: &text,
    };
    let lock = LockAssets { time: &time, text: &text, sched: CURVES };
    let mut buf = vec![0u8; FB];
    let mut fb = WatchFb::new(&mut buf, 466, 466);
    let mut clock = Clock::new();
    clock.repaint_full(&mut fb, &lock, &NOW);
    let mut fx = WheelFx::new();
    sheet::begin_unlock_morph(&clock, &mut fx);
    let mut level = 16;
    for (b, expected) in [(466, 16), (400, 9), (250, 0), (100, 0), (0, 0)] {
        let before = fb.bytes().to_vec();
        fb.clear_damage();
        level = sheet::compose_morph(&mut fb, &mut fx, &clock, &wheel, &lock, b, &NOW, Some(7), 0, level);
        assert_eq!(level, expected);
        for y in 0..466u16 {
            for x in 0..466u16 {
                if px(&before, x as usize, y as usize) != px(fb.bytes(), x as usize, y as usize) {
                    assert!(fb.dmi.overflowed() || fb.dmi.spans().iter().any(|s| s.y == y && s.x0 <= x && x <= s.x1));
                }
            }
        }
        if b == 466 {
            // where the lock face has its digits
            assert_ne!(px(fb.bytes(), 173, 208), (0, 0));
            assert_eq!(px(fb.bytes(), 173, 207), (0, 0));
        }
    }
    // 40 of 120 pixels: a third of the size, on the status line's baseline at its left edge
    assert_ne!(px(fb.bytes(), 201, 43), (0, 0));
    assert_ne!(px(fb.bytes(), 201, 51), (0, 0));
    assert_eq!(px(fb.bytes(), 201, 52), (0, 0));
    assert_eq!(px(fb.bytes(), 200, 51), (0, 0));
    // the ring is gone
    assert_eq!(px(fb.bytes(), 456, 233), (0, 0));
}
