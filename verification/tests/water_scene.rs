//! The water app: particles, their grid, tilt and the frames.
use openpocket::display::watch_fb::WatchFb;
use openpocket::scenes::pool::{Drops, Force};
use openpocket::scenes::water::Water;
use openpocket::scenes::water_hash;
use openpocket::scenes::water_paint::WaterAssets;

const FB: usize = 466 * 466 * 2;
const STILL: Force = Force { gx: 0, gy: 0, sx: 0, sy: 0, breathe: 0, spray: false, jmag: 0 };
const BODY: [(u8, u8); 256] = [(0x12, 0x34); 256];
const LINE: [(u8, u8); 256] = [(0x07, 0xE0); 256];
const FLAT: [u8; 256] = [128; 256];

fn xorshift(s: u32) -> u32 {
    let a = s ^ (s << 13);
    let b = a ^ (a >> 17);
    b ^ (b << 5)
}

fn push_table() -> [i16; 257] {
    let mut t = [0i16; 257];
    for d in 1..257 {
        t[d] = 257 - d as i16;
    }
    t
}

/// Particles on a lattice too wide for them to feel each other.
fn lattice() -> Drops {
    let mut d = Drops::new();
    let mut i = 0;
    for y in -12..=12i32 {
        for x in -12..=12i32 {
            if x * x + y * y <= 150 && i < 448 {
                d.px[i] = ((233 + x * 16) * 64) as i16;
                d.py[i] = ((233 + y * 16) * 64) as i16;
                i += 1;
            }
        }
    }
    assert_eq!(i, 448);
    d
}

fn px(fb: &[u8], x: usize, y: usize) -> (u8, u8) {
    (fb[(y * 466 + x) * 2], fb[(y * 466 + x) * 2 + 1])
}

#[test]
fn grid_cells() {
    assert_eq!(water_hash::grid(-5), 0);
    assert_eq!(water_hash::grid(15 * 64 + 63), 0);
    assert_eq!(water_hash::grid(16 * 64), 1);
    assert_eq!(water_hash::grid(i16::MAX), 29);
    assert_eq!(water_hash::cell_of(33 * 64, 16 * 64), 32);
}

#[test]
fn particles_are_spawned_below_the_centre() {
    let mut d = Drops::new();
    let mut s = 7u32;
    d.seed(&mut s);
    let mut r = 7u32;
    for i in 0..448i32 {
        r = xorshift(r);
        let (x, y) = (121 + (i % 32) * 7 + (r % 4) as i32, 273 + (i / 32) * 7);
        let (dx, dy) = (x - 233, y - 233);
        let at = if dx * dx + dy * dy > 218 * 218 { (233 + dx / 2, 233 + dy / 2) } else { (x, y) };
        assert_eq!(d.pixel(i as usize), at);
        assert_eq!((d.vx[i as usize], d.vy[i as usize], d.nbr[i as usize]), (0, 0, 8));
    }
    assert_eq!(s, r);
}

#[test]
fn lone_particles_move_and_slow_down() {
    let mut d = lattice();
    let before = lattice();
    for i in 0..448 {
        d.vx[i] = 100;
    }
    let mut s = 1u32;
    d.step(Force { gy: 64, ..STILL }, &push_table(), &mut s);
    for i in 0..448 {
        assert_eq!((d.px[i] - before.px[i], d.py[i] - before.py[i]), (100, 64));
        // 254 of 256, towards zero
        assert_eq!((d.vx[i], d.vy[i]), (99, 63));
        assert!(d.surf[i] && d.nbr[i] == 0);
    }
    // nothing random without spray
    assert_eq!(s, 1);
}

#[test]
fn neighbours_part() {
    let mut d = lattice();
    // particle 1 eight pixels to the right of particle 0
    d.px[1] = d.px[0] + 8 * 64;
    d.py[1] = d.py[0];
    let mut s = 1u32;
    d.step(STILL, &push_table(), &mut s);
    assert_eq!((d.nbr[0], d.nbr[1]), (1, 1));
    // half of 193 * -8 / 128, rounded down, then damped
    assert_eq!(d.vx[0], -6);
    // the second sees the first already moving
    assert!(d.vx[1] > 0);
}

#[test]
fn wall_throws_back_a_tenth() {
    let mut d = lattice();
    d.px[0] = (455 * 64) as i16;
    d.py[0] = (233 * 64) as i16;
    d.vx[0] = 1024;
    d.vy[0] = 0;
    let mut s = 1u32;
    d.step(STILL, &push_table(), &mut s);
    assert_eq!(d.pixel(0), (455, 233));
    // 1016 after damping, less 1119
    assert_eq!(d.vx[0], -103);
}

#[test]
fn wall_touches_one_particle_only() {
    let mut d = lattice();
    d.px[7] = -1024;
    d.py[7] = 31_024;
    d.vx[7] = -1024;
    d.vy[7] = 1024;
    let before = lattice();
    d.wall(7);
    let (x, y) = d.pixel(7);
    assert!((x - 233) * (x - 233) + (y - 233) * (y - 233) <= 222 * 222);
    assert!(d.vx[7].abs() <= 1024 && d.vy[7].abs() <= 1024);
    for i in 0..448 {
        if i != 7 {
            assert_eq!((d.px[i], d.py[i], d.vx[i], d.vy[i]), (before.px[i], before.py[i], before.vx[i], before.vy[i]));
        }
    }
    let (px, py, vx, vy) = (d.px[7], d.py[7], d.vx[7], d.vy[7]);
    d.wall(7);
    assert_eq!((d.px[7], d.py[7], d.vx[7], d.vy[7]), (px, py, vx, vy));
}

#[test]
fn water_marks_nothing_in_the_status_band() {
    let push = push_table();
    let a = WaterAssets { push: &push, lut: &BODY, spark: &LINE, line: &LINE, noise_a: &FLAT, noise_b: &FLAT };
    let mut buf = vec![0u8; FB];
    let mut fb = WatchFb::new(&mut buf, 466, 466);
    let mut w = Water::new();
    w.reveal_frame(&mut fb, &a, 256, 0);
    // upside down, so that the water climbs
    for n in 1..60u32 {
        fb.clear_damage();
        w.tick(&mut fb, &a, Some((0, 8192, 0)), n * 25);
        w.tick(&mut fb, &a, Some((0, -8192, 0)), n * 25);
        assert!(fb.dmi.overflowed() || fb.dmi.spans().iter().all(|s| s.y >= 70));
    }
}

#[test]
fn wall_pulls_the_pixel_in() {
    // each starts beyond the wall; the pixel on its ray's rim may still lie beyond it
    for (from, to) in [((157, 158), (156, 157)), ((-200, -100), (-198, -99)), ((223, 0), (222, 0)), ((0, -224), (0, -222))] {
        let mut d = lattice();
        d.px[0] = ((233 + from.0) * 64) as i16;
        d.py[0] = ((233 + from.1) * 64) as i16;
        d.vx[0] = 0;
        d.vy[0] = 0;
        let mut s = 1u32;
        d.step(STILL, &push_table(), &mut s);
        assert_eq!(d.pixel(0), (233 + to.0, 233 + to.1));
    }
    // one pixel further in nothing is touched
    let mut d = lattice();
    d.px[0] = ((233 + 156) * 64 + 5) as i16;
    d.py[0] = ((233 + 157) * 64 + 6) as i16;
    d.vx[0] = 0;
    d.vy[0] = 0;
    let mut s = 1u32;
    d.step(STILL, &push_table(), &mut s);
    assert_eq!((d.px[0], d.py[0]), ((389 * 64 + 5) as i16, (390 * 64 + 6) as i16));
}

#[test]
fn wall_and_speed_limits_hold() {
    let mut d = Drops::new();
    let mut s = 99u32;
    d.seed(&mut s);
    let push = push_table();
    for n in 0..120i32 {
        let (gx, gy) = [(0, 512), (512, 0), (0, -512), (-512, 512)][(n / 30) as usize];
        d.step(Force { gx, gy, spray: n % 30 == 0, jmag: 9000, ..STILL }, &push, &mut s);
        for i in 0..448 {
            let (x, y) = d.pixel(i);
            let (dx, dy) = (x - 233, y - 233);
            assert!(dx * dx + dy * dy <= 222 * 222);
            assert!(d.vx[i].abs() <= 1024 && d.vy[i].abs() <= 1024);
        }
    }
}

#[test]
fn faint_water_is_only_its_body() {
    let push = push_table();
    let a = WaterAssets { push: &push, lut: &BODY, spark: &LINE, line: &LINE, noise_a: &FLAT, noise_b: &FLAT };
    let mut buf = vec![0u8; FB];
    let mut fb = WatchFb::new(&mut buf, 466, 466);
    let mut w = Water::new();
    w.reveal_frame(&mut fb, &a, 100, 0);
    let x = 121 + (xorshift(0x2545_F491 ^ 0x9E37_79B9) % 4) as usize;
    assert_eq!(px(fb.bytes(), x, 273), (0x12, 0x34));
    assert_eq!(px(fb.bytes(), x - 2, 271), (0x12, 0x34));
    assert_eq!(px(fb.bytes(), x - 3, 271), (0, 0));
    assert_eq!(px(fb.bytes(), x, 270), (0, 0));
    assert!(fb.bytes().chunks(2).all(|p| p == [0, 0] || p == [0x12, 0x34]));
    // the surface line comes with the full water
    w.reveal_frame(&mut fb, &a, 256, 0);
    assert!(fb.bytes().chunks(2).any(|p| p != [0, 0] && p != [0x12, 0x34]));
}

#[test]
fn status_band_is_untouched() {
    let push = push_table();
    let a = WaterAssets { push: &push, lut: &BODY, spark: &LINE, line: &LINE, noise_a: &FLAT, noise_b: &FLAT };
    let mut buf = vec![0u8; FB];
    let mut fb = WatchFb::new(&mut buf, 466, 466);
    for b in fb.buf_mut()[..70 * 932].iter_mut() {
        *b = 0x5A;
    }
    let mut w = Water::new();
    // upside down: the water gathers at the top
    for n in 0..60 {
        let imu = if n == 0 { (0, 0, 8192) } else { (0, -8000, 0) };
        w.tick(&mut fb, &a, Some(imu), n * 33);
    }
    assert!(fb.bytes()[..70 * 932].iter().all(|b| *b == 0x5A));
    assert!(fb.bytes()[70 * 932..80 * 932].iter().any(|b| *b != 0));
}

#[test]
fn silent_sensor_lets_the_water_fall() {
    let push = push_table();
    let a = WaterAssets { push: &push, lut: &BODY, spark: &LINE, line: &LINE, noise_a: &FLAT, noise_b: &FLAT };
    let mut buf = vec![0u8; FB];
    let mut fb = WatchFb::new(&mut buf, 466, 466);
    let mut w = Water::new();
    for n in 0..60 {
        w.tick(&mut fb, &a, None, n * 33);
    }
    let top = fb.bytes().chunks(932).position(|r| r.iter().any(|b| *b != 0)).unwrap();
    assert!(top > 200);
    assert!(fb.bytes()[440 * 932..].iter().any(|b| *b != 0));
    // a new start spawns the block again
    w.open();
    w.reveal_frame(&mut fb, &a, 100, 0);
    assert!(fb.bytes()[273 * 932..274 * 932].iter().any(|b| *b != 0));
    assert!(fb.bytes()[..271 * 932].iter().all(|b| *b == 0));
}
