//! The water app: a liquid that follows the tilt of the watch. Gravity comes from the
//! accelerometer; a flick throws the surface up.
use vstd::prelude::*;

use crate::display::watch_fb::WatchFb;
use crate::imath;
use crate::scenes::pool;
use crate::scenes::pool::{Drops, Force, Pool};
use crate::scenes::water_paint;
use crate::scenes::water_paint::{WaterAssets, WaterFrame};

verus! {

/// Readings missed in a row before the water falls to the bottom of the screen.
pub const DEAD_LIMIT: u16 = 40;
/// Jerk that counts as a flick.
pub const JERK_TH: i32 = 2600;
/// Gravity below which the surface breathes.
pub const BREATHE_G_TH: i32 = 40;

/// A raw reading.
pub type Accel = (i16, i16, i16);

/// What is known of the sensor: its rest bias, the last reading, the readings missed in a
/// row, whether there ever was one, and whether the bias is still to be taken.
#[derive(Clone, Copy)]
pub struct Tilt {
    pub bias_x: i32,
    pub bias_y: i32,
    pub last: Accel,
    pub dead: u16,
    pub ever_live: bool,
    pub need_calib: bool,
}

/// The bias is small.
pub open spec fn tilt_ok(t: Tilt) -> bool {
    -820 <= t.bias_x <= 820 && -820 <= t.bias_y <= 820
}

/// The bias taken from a reading: the sensor's zero offset, at most a tenth of gravity.
pub open spec fn calibrated(t: Tilt, acc: Accel) -> Tilt {
    Tilt {
        bias_x: imath::sclamp(acc.0 as int, -820, 820) as i32,
        bias_y: imath::sclamp(acc.1 as int, -820, 820) as i32,
        last: acc,
        ever_live: true,
        need_calib: false,
        ..t
    }
}

/// The sensor's state when a frame looks at a reading, before the forces are taken.
pub open spec fn noticed(t: Tilt, imu: Option<Accel>, fresh: bool) -> Tilt {
    let dead = match imu {
        Some(_) => 0u16,
        None => if t.dead == u16::MAX { u16::MAX } else { (t.dead + 1) as u16 },
    };
    let t1 = Tilt { dead: if fresh { 0 } else { dead }, need_calib: t.need_calib || fresh, ..t };
    match imu {
        Some(acc) => if t1.need_calib { calibrated(t1, acc) } else { t1 },
        None => t1,
    }
}

/// Gravity along one axis, in 64ths of a pixel per frame squared.
pub open spec fn gravity(raw: int, bias: int) -> int {
    imath::sclamp(imath::tdiv(raw - bias, 64), -512, 512)
}

/// Breathing of the surface in a frame, fading out as gravity grows.
pub open spec fn breathing(phase: u32, gmag: int) -> int {
    let p = (phase % 512) as int;
    let tri = if p < 256 { p } else { 511 - p };
    if gmag < 40 { imath::tdiv((tri - 128) * 48 / 256 * (40 - gmag), 40) } else { 0 }
}

/// The forces of a frame from the noticed sensor state and the reading `acc`.
pub open spec fn forces(t: Tilt, acc: Accel, live: bool, phase: u32) -> Force {
    let dead = t.dead > 40;
    let felt = (live || t.ever_live) && !dead;
    let gx = if felt { gravity(acc.0 as int, t.bias_x as int) } else { 0 };
    let gy = if felt { gravity(acc.1 as int, t.bias_y as int) } else { 128 };
    let jx = acc.0 - t.last.0;
    let jy = acc.1 - t.last.1;
    let jmag = imath::sabs(jx) + imath::sabs(jy);
    let spray = t.ever_live && !dead && jmag > 2600;
    Force {
        gx: gx as i32,
        gy: gy as i32,
        sx: (if spray { pool::held(imath::tdiv(jx, 64)) } else { 0 }) as i32,
        sy: (if spray { pool::held(imath::tdiv(jy, 64)) } else { 0 }) as i32,
        breathe: breathing(phase, imath::sabs(gx) + imath::sabs(gy)) as i32,
        spray,
        jmag: jmag as i32,
    }
}

/// The first reading never throws spray: its jerk is zero, whatever the tilt.
pub proof fn lemma_first_reading_is_calm(t: Tilt, acc: Accel, fresh: bool, phase: u32)
    requires
        t.need_calib || fresh,
    ensures
        ({
            let n = noticed(t, Some(acc), fresh);
            let f = forces(n, acc, true, phase);
            f.jmag == 0 && !f.spray && f.sx == 0 && f.sy == 0 && !n.need_calib && tilt_ok(n)
        }),
{
}

/// A sensor that stays silent lets the water fall to the bottom of the screen, without spray.
pub proof fn lemma_silent_sensor(t: Tilt, phase: u32)
    requires
        t.dead > 40 || !t.ever_live,
    ensures
        ({
            let f = forces(t, t.last, false, phase);
            f.gx == 0 && f.gy == 128 && !f.spray
        }),
{
}

/// A missed reading is not a jerk: the last one stands in for it.
pub proof fn lemma_missed_reading(t: Tilt, phase: u32)
    ensures
        forces(t, t.last, false, phase).jmag == 0,
{
}

pub struct Water {
    drops: Drops,
    tilt: Tilt,
    rng: u32,
    phase: u32,
    bbox: (i16, i16, i16, i16),
    seeded: bool,
}

/// Everything that a frame depends on.
pub struct WaterState {
    pub pool: Pool,
    pub tilt: Tilt,
    pub rng: u32,
    pub phase: u32,
    pub bbox: (i16, i16, i16, i16),
    pub seeded: bool,
}

/// Well-formed: the particles within their limits and, once spawned, within the wall; the
/// bias small.
pub open spec fn state_ok(s: WaterState) -> bool {
    &&& pool::pool_ok(s.pool)
    &&& s.seeded ==> pool::contained(s.pool)
    &&& tilt_ok(s.tilt)
}

/// A freshly opened app: the pool spawned, the bias to be taken.
pub open spec fn opened(s: WaterState) -> WaterState {
    let (p, r) = pool::seeded(s.pool, s.rng ^ 0x9E37_79B9, 448);
    WaterState {
        pool: p,
        rng: r,
        tilt: Tilt { dead: 0, need_calib: true, ..s.tilt },
        bbox: (0, 0, (-1) as i16, (-1) as i16),
        seeded: true,
        ..s
    }
}

/// The state once a frame began: opened if it was not.
pub open spec fn ready(s: WaterState) -> WaterState {
    if s.seeded { s } else { opened(s) }
}

/// The state after the physics of a frame.
pub open spec fn ticked(s: WaterState, a: WaterAssets, imu: Option<Accel>) -> WaterState {
    let r = ready(s);
    let t = noticed(s.tilt, imu, !s.seeded);
    let acc = match imu {
        Some(x) => x,
        None => s.tilt.last,
    };
    let phase = (if s.phase == u32::MAX { 0 } else { s.phase + 1 }) as u32;
    let f = forces(t, acc, imu is Some, phase);
    let (p, g) = pool::stepped(r.pool, f, a.push@, r.rng);
    WaterState { pool: p, rng: g, tilt: Tilt { last: acc, ..t }, phase, ..r }
}

/// The frame that shows a state.
pub open spec fn shown(s: WaterState, f: WaterFrame, w: int, h: int, a: WaterAssets, ms: int, alpha: int) -> WaterFrame {
    water_paint::rendered((WaterFrame { bbox: s.bbox, ..f }), w, h, s.pool, a, ms, alpha)
}

fn axis_gravity(raw: i16, bias: i32) -> (r: i32)
    requires
        -820 <= bias <= 820,
    ensures
        r == gravity(raw as int, bias as int),
        -512 <= r <= 512,
{
    imath::iclamp((raw as i32 - bias) / 64, -512, 512)
}

fn breathing_at(phase: u32, gmag: i32) -> (r: i32)
    requires
        0 <= gmag <= 2000,
    ensures
        r == breathing(phase, gmag as int),
        -100 <= r <= 100,
{
    let p: i32 = (phase % 512) as i32;
    let tri: i32 = if p < 256 { p } else { 511 - p };
    if gmag < BREATHE_G_TH {
        let b: i32 = imath::asr((tri - 128) * 48, 8);
        let k: i32 = BREATHE_G_TH - gmag;
        proof {
            assert(-24 * 40 <= b * k <= 24 * 40) by (nonlinear_arith)
                requires
                    -24 <= b <= 24,
                    0 <= k <= 40,
            ;
        }
        b * k / BREATHE_G_TH
    } else {
        0
    }
}

fn notice(t: Tilt, imu: Option<Accel>, fresh: bool) -> (r: Tilt)
    requires
        tilt_ok(t),
    ensures
        r == noticed(t, imu, fresh),
        tilt_ok(r),
{
    let mut n = t;
    if imu.is_some() {
        n.dead = 0;
    } else {
        n.dead = n.dead.saturating_add(1);
    }
    if fresh {
        n.dead = 0;
        n.need_calib = true;
    }
    if n.need_calib {
        if let Some(acc) = imu {
            n.bias_x = imath::iclamp(acc.0 as i32, -820, 820);
            n.bias_y = imath::iclamp(acc.1 as i32, -820, 820);
            n.last = acc;
            n.ever_live = true;
            n.need_calib = false;
        }
    }
    n
}

fn forces_at(t: &Tilt, acc: Accel, live: bool, phase: u32) -> (f: Force)
    requires
        tilt_ok(*t),
    ensures
        f == forces(*t, acc, live, phase),
        pool::force_ok(f),
{
    let dead = t.dead > DEAD_LIMIT;
    let felt = (live || t.ever_live) && !dead;
    let (gx, gy): (i32, i32) = if felt {
        (axis_gravity(acc.0, t.bias_x), axis_gravity(acc.1, t.bias_y))
    } else {
        (0, 128)
    };
    let jx: i32 = acc.0 as i32 - t.last.0 as i32;
    let jy: i32 = acc.1 as i32 - t.last.1 as i32;
    let jmag: i32 = imath::iabs(jx) + imath::iabs(jy);
    let spray = t.ever_live && !dead && jmag > JERK_TH;
    let (sx, sy): (i32, i32) = if spray {
        (imath::iclamp(jx / 64, -1024, 1024), imath::iclamp(jy / 64, -1024, 1024))
    } else {
        (0, 0)
    };
    let breathe: i32 = breathing_at(phase, imath::iabs(gx) + imath::iabs(gy));
    Force { gx, gy, sx, sy, breathe, spray, jmag }
}

impl Water {
    pub closed spec fn state(&self) -> WaterState {
        WaterState {
            pool: pool::pool(self.drops),
            tilt: self.tilt,
            rng: self.rng,
            phase: self.phase,
            bbox: self.bbox,
            seeded: self.seeded,
        }
    }

    pub open spec fn wf(&self) -> bool {
        state_ok(self.state())
    }

    /// Not yet opened.
    pub fn new() -> (w: Self)
        ensures
            w.wf(),
            !w.state().seeded,
            w.state().pool == pool::origin(),
            w.state().rng == 0x2545_F491,
            w.state().phase == 0,
            w.state().bbox == (0i16, 0i16, (-1) as i16, (-1) as i16),
            w.state().tilt == (Tilt {
                bias_x: 0,
                bias_y: 0,
                last: (0, 0, 0),
                dead: 0,
                ever_live: false,
                need_calib: false,
            }),
    {
        Water {
            drops: Drops::new(),
            tilt: Tilt { bias_x: 0, bias_y: 0, last: (0, 0, 0), dead: 0, ever_live: false, need_calib: false },
            rng: 0x2545_F491,
            phase: 0,
            bbox: (0, 0, -1, -1),
            seeded: false,
        }
    }

    /// Spawn the pool; the bias is taken from the first reading.
    pub fn open(&mut self)
        requires
            old(self).wf(),
        ensures
            final(self).wf(),
            final(self).state() == opened(old(self).state()),
    {
        self.rng = self.rng ^ 0x9E37_79B9;
        self.drops.seed(&mut self.rng);
        self.seeded = true;
        self.tilt.need_calib = true;
        self.tilt.dead = 0;
        self.bbox = (0, 0, -1, -1);
    }

    /// A frame of the fade-in: the spawned pool at opacity `q_q8`, without physics.
    pub fn reveal_frame(&mut self, wfb: &mut WatchFb, assets: &WaterAssets, q_q8: i32, elapsed_ms: u32)
        requires
            old(self).wf(),
            old(wfb).wf(),
        ensures
            final(self).wf(),
            final(wfb).wf(),
            final(wfb).w() == old(wfb).w(),
            final(wfb).h() == old(wfb).h(),
            ({
                let s = ready(old(self).state());
                let f = shown(
                    s,
                    WaterFrame { fb: old(wfb).canvas(), damage: old(wfb).damage(), bbox: s.bbox },
                    old(wfb).w(),
                    old(wfb).h(),
                    *assets,
                    elapsed_ms as int,
                    imath::sclamp(q_q8 as int, 0, 256),
                );
                &&& final(wfb).canvas() == f.fb
                &&& final(wfb).damage() == f.damage
                &&& final(self).state() == (WaterState { bbox: f.bbox, ..s })
            }),
    {
        if !self.seeded {
            self.open();
        }
        water_paint::render(wfb, &self.drops, assets, &mut self.bbox, elapsed_ms, imath::iclamp(q_q8, 0, 256));
    }

    /// One frame; `imu` is `None` when the sensor could not be read.
    pub fn tick(&mut self, wfb: &mut WatchFb, assets: &WaterAssets, imu: Option<(i16, i16, i16)>, elapsed_ms: u32)
        requires
            old(self).wf(),
            old(wfb).wf(),
        ensures
            final(self).wf(),
            final(wfb).wf(),
            final(wfb).w() == old(wfb).w(),
            final(wfb).h() == old(wfb).h(),
            ({
                let s = ticked(old(self).state(), *assets, imu);
                let f = shown(
                    s,
                    WaterFrame { fb: old(wfb).canvas(), damage: old(wfb).damage(), bbox: s.bbox },
                    old(wfb).w(),
                    old(wfb).h(),
                    *assets,
                    elapsed_ms as int,
                    256,
                );
                &&& final(wfb).canvas() == f.fb
                &&& final(wfb).damage() == f.damage
                &&& final(self).state() == (WaterState { bbox: f.bbox, ..s })
            }),
    {
        let acc = match imu {
            Some(a) => a,
            None => self.tilt.last,
        };
        let t = notice(self.tilt, imu, !self.seeded);
        if !self.seeded {
            self.open();
        }
        self.phase = self.phase.wrapping_add(1);
        let f = forces_at(&t, acc, imu.is_some(), self.phase);
        self.tilt = t;
        self.tilt.last = acc;
        self.drops.step(f, assets.push, &mut self.rng);
        water_paint::render(wfb, &self.drops, assets, &mut self.bbox, elapsed_ms, 256);
    }
}

} // verus!
