//! The unlock sheet: one variable, its height `b`, is the whole state between the lock
//! scene (466) and the wheel (0). A drag maps to it, a release settles it to one end, and
//! one morph composer draws every height in between.
use vstd::prelude::*;

use crate::display::dmi;
use crate::display::watch_fb;
use crate::display::watch_fb::{RectAcc, WatchFb};
use crate::font;
use crate::font::Glyph;
use crate::imath;
use crate::input::gestures::SwipeDir;
use crate::raster;
use crate::scenes::arc;
use crate::scenes::lock;
use crate::scenes::picture;
use crate::scenes::picture::Picture;
use crate::scenes::lock::{Clock, LockAssets};
use crate::scenes::sprite;
use crate::scenes::wheel;
use crate::scenes::wheel::{WheelAssets, WheelFx};
use crate::time::WallTime;

verus! {

/// Height of the closed sheet.
pub const SHEET_H: u16 = 466;
/// Release velocity that completes the transition from anywhere.
pub const COMPLETE_VEL_Q8: i32 = 128;
/// A settling sheet this close snaps.
pub const SETTLE_SNAP_PX: i32 = 8;
/// The ring fades over this much of the travel.
pub const RING_FADE_RANGE: i32 = 155;
pub const RING_LEVELS: i32 = 16;

/// Finger travel from touch-down to the panel edge, at least one pixel.
pub open spec fn reach(dir: SwipeDir, start_y: int) -> int {
    match dir {
        SwipeDir::Up => imath::smax(start_y, 1),
        SwipeDir::Down => imath::smax(466 - start_y, 1),
    }
}

/// Sheet travel for a finger travel of `dist`: the reachable travel maps onto the whole
/// sheet, rounded to the nearest pixel.
pub open spec fn sheet_travel(dist: int, avail: int) -> int {
    imath::smin((dist * 466 + avail / 2) / avail, 466)
}

/// Sheet height for a finger travel of `dist`.
pub open spec fn sheet_target(dir: SwipeDir, dist: int, avail: int) -> int {
    match dir {
        SwipeDir::Up => 466 - sheet_travel(dist, avail),
        SwipeDir::Down => sheet_travel(dist, avail),
    }
}

/// No travel leaves the sheet alone, all the reachable travel moves it all the way, and
/// more travel never moves it less.
pub proof fn lemma_sheet_travel(a: int, b: int, avail: int)
    requires
        avail >= 1,
        0 <= a <= b,
    ensures
        0 <= sheet_travel(a, avail) <= sheet_travel(b, avail) <= 466,
        sheet_travel(0, avail) == 0,
        b >= avail ==> sheet_travel(b, avail) == 466,
{
    let (x, y) = (a * 466 + avail / 2, b * 466 + avail / 2);
    assert(0 <= x / avail && x / avail <= y / avail) by (nonlinear_arith)
        requires 0 <= x <= y, avail >= 1;
    assert((0 * 466 + avail / 2) / avail == 0) by (nonlinear_arith)
        requires avail >= 1;
    if b >= avail {
        assert(y / avail >= 466) by (nonlinear_arith)
            requires y >= avail * 466, avail >= 1;
    }
}

/// Where a released sheet goes: past half of the panel, or with a quick flick, the
/// transition completes; otherwise it retracts.
pub open spec fn rest_height(dir: SwipeDir, target: int, vel: int) -> int {
    match dir {
        SwipeDir::Up => if target < 233 || vel > 128 { 0 } else { 466 },
        SwipeDir::Down => if target > 233 || vel > 128 { 466 } else { 0 },
    }
}

/// A finger dragging the sheet.
#[derive(Clone, Copy, Debug, PartialEq, Eq, Structural)]
pub struct SheetDrag {
    pub dir: SwipeDir,
    pub avail: i32,
    pub target: u16,
}

pub open spec fn drag_ok(d: SheetDrag) -> bool {
    1 <= d.avail <= 65_535 && d.target <= 466
}

fn travel_at(dist: u16, avail: i32) -> (r: u16)
    requires
        1 <= avail <= 65_535,
    ensures
        r == sheet_travel(dist as int, avail as int),
        r <= 466,
{
    proof {
        lemma_sheet_travel(dist as int, dist as int, avail as int);
    }
    imath::imin((dist as i32 * 466 + avail / 2) / avail, 466) as u16
}

impl SheetDrag {
    /// A drag that armed on row `start_y` with `start_dist` already covered.
    pub fn begin(dir: SwipeDir, start_dist: u16, start_y: u16) -> (d: Self)
        ensures
            drag_ok(d),
            d.dir == dir,
            d.avail == reach(dir, start_y as int),
            d.target == sheet_target(dir, start_dist as int, d.avail as int),
    {
        let avail: i32 = match dir {
            SwipeDir::Up => imath::imax(start_y as i32, 1),
            SwipeDir::Down => imath::imax(466 - start_y as i32, 1),
        };
        let mut d = SheetDrag { dir, avail, target: 0 };
        d.travelled(start_dist);
        d
    }

    /// The finger has travelled `dist`.
    pub fn travelled(&mut self, dist: u16)
        requires
            drag_ok(*old(self)),
        ensures
            drag_ok(*final(self)),
            *final(self) == (SheetDrag {
                target: sheet_target(old(self).dir, dist as int, old(self).avail as int) as u16,
                ..*old(self)
            }),
    {
        let t: u16 = travel_at(dist, self.avail);
        self.target = match self.dir {
            SwipeDir::Up => SHEET_H - t,
            SwipeDir::Down => t,
        };
    }

    /// An unlock that has covered 85 % completes by itself.
    pub fn auto_commits(&self) -> (r: bool)
        ensures
            r == (self.dir is Up && self.target < 69),
    {
        self.dir == SwipeDir::Up && self.target < 69
    }

    /// Height of the next frame, `None` when the sheet is where the finger wants it.
    pub fn pursue(&self, b: u16) -> (r: Option<u16>)
        requires
            drag_ok(*self),
            b <= 466,
        ensures
            ({
                let diff = self.target - b;
                &&& r is None <==> diff == 0
                &&& r is Some ==> r->0 == (if imath::sabs(diff) <= 2 {
                    self.target as int
                } else {
                    b + imath::tdiv(diff * 2, 3)
                })
                &&& r is Some ==> r->0 <= 466 && imath::sabs(self.target - r->0) < imath::sabs(diff)
            }),
    {
        let diff: i32 = self.target as i32 - b as i32;
        if diff == 0 {
            return None;
        }
        Some(
            if imath::iabs(diff) <= 2 {
                self.target
            } else {
                (b as i32 + diff * 2 / 3) as u16
            },
        )
    }

    /// Where the sheet comes to rest after a release with velocity `vel_q8` along the swipe.
    pub fn rest(&self, vel_q8: i32) -> (r: u16)
        ensures
            r == rest_height(self.dir, self.target as int, vel_q8 as int),
            r == 0 || r == 466,
    {
        let complete: bool = vel_q8 > COMPLETE_VEL_Q8 || match self.dir {
            SwipeDir::Up => self.target < 233,
            SwipeDir::Down => self.target > 233,
        };
        match self.dir {
            SwipeDir::Up => if complete { 0 } else { SHEET_H },
            SwipeDir::Down => if complete { SHEET_H } else { 0 },
        }
    }
}

/// A swipe seen only at its ends unlocks when it covered more than half the panel or was
/// quick.
pub open spec fn flick_opens(dist: int, vel_q8: int) -> bool {
    dist > 233 || vel_q8 > 128
}

pub fn flick_unlocks(dist: u16, vel_q8: i32) -> (r: bool)
    ensures
        r == flick_opens(dist as int, vel_q8 as int),
{
    dist > 233 || vel_q8 > COMPLETE_VEL_Q8
}

/// Height of the next settling frame: half of what is left, the last eight pixels at once.
pub open spec fn settled(b: int, target: int) -> int {
    let diff = target - b;
    if imath::sabs(diff) <= 8 { target } else { b + imath::tdiv(diff, 2) }
}

/// One settling frame. Every frame is closer to the end, so the settle comes to rest.
pub fn settle_next(b: u16, target: u16) -> (r: u16)
    requires
        b <= 466,
        target <= 466,
    ensures
        r == settled(b as int, target as int),
        r <= 466,
        b != target ==> imath::sabs(target - r) < imath::sabs(target - b),
{
    let diff: i32 = target as i32 - b as i32;
    if imath::iabs(diff) <= SETTLE_SNAP_PX {
        target
    } else {
        let step: i32 = diff / 2;
        (b as i32 + if step == 0 { imath::isgn(diff) } else { step }) as u16
    }
}

/// Ring brightness step for a sheet height: full at rest, out after a third of the travel.
pub open spec fn ring_level(b: int) -> int {
    (imath::sclamp(b - 311, 0, 155) * 16 + 77) / 155
}

/// The ring is at its brightest on the closed sheet and dark once a third has been travelled.
pub proof fn lemma_ring_level(b: int)
    ensures
        0 <= ring_level(b) <= 16,
        b >= 466 ==> ring_level(b) == 16,
        b <= 311 ==> ring_level(b) == 0,
{
}

pub fn ring_level_idx(b: u16) -> (r: i32)
    ensures
        r == ring_level(b as int),
        0 <= r <= 16,
{
    let f: i32 = imath::iclamp(b as i32 - 311, 0, RING_FADE_RANGE);
    (f * RING_LEVELS + RING_FADE_RANGE / 2) / RING_FADE_RANGE
}

/// Progress of the morph at sheet height `b`, of 256.
pub open spec fn progress(b: int) -> int {
    (466 - b) * 256 / 466
}

/// `a` moved towards `b` by `p` 256ths.
pub open spec fn lerp(a: int, b: int, p: int) -> int {
    a + (b - a) * p / 256
}

fn lerp_at(a: i32, b: i32, p: i32) -> (r: i32)
    requires
        -100_000 <= a <= 100_000,
        -100_000 <= b <= 100_000,
        0 <= p <= 256,
    ensures
        r == lerp(a as int, b as int, p as int),
        a <= b ==> a <= r <= b,
        b <= a ==> b <= r <= a,
{
    let d: i32 = b - a;
    proof {
        assert(d >= 0 ==> 0 <= d * p <= d * 256) by (nonlinear_arith)
            requires 0 <= p <= 256;
        assert(d < 0 ==> d * 256 <= d * p <= 0) by (nonlinear_arith)
            requires 0 <= p <= 256;
    }
    a + imath::asr(d * p, 8)
}

/// Geometry of the flying digits at progress `p`.
pub struct Digits {
    pub scale: int,
    pub x: int,
    pub base: int,
    pub alpha: int,
    pub width: int,
    pub height: int,
}

/// Height of the large zero, 80 without one.
pub open spec fn zero_height(time: Seq<Option<Glyph>>) -> int {
    match font::glyph_of(time, 48) {
        Some(g) => g.height as int,
        None => 80,
    }
}

/// The digits fly from the centre of the lock face to the head of the status line, scaled
/// down to its width where they are wider than it.
pub open spec fn digits_at(time: Seq<Option<Glyph>>, text: Seq<Option<Glyph>>, now: WallTime, batt: Option<u8>, p: int) -> Digits {
    let st = wheel::status_codes(now.hour, now.minute, batt);
    let big = imath::smax(font::width_of(time, lock::time_codes(now.hour, now.minute)), 1);
    let head = font::pen(text, st, 5);
    let left = 233 - font::width_of(text, st) / 2;
    let ratio = imath::smin(head * 256 / big, 256);
    let scale = lerp(256, ratio, p);
    Digits {
        scale,
        x: lerp(233 - big / 2, left, p),
        base: lerp(238, 52, p),
        alpha: lerp(256, 200, p),
        width: big * scale / 256,
        height: zero_height(time) * scale / 256,
    }
}

/// At the ends the digits stand where the lock face and the status line have theirs: at the
/// face's size first, and last at that of the status line's head, short of its width by
/// rounding only. Digits no wider than the head keep their size.
pub proof fn lemma_digits_hand_off(time: Seq<Option<Glyph>>, text: Seq<Option<Glyph>>, now: WallTime, batt: Option<u8>)
    ensures
        ({
            let d = digits_at(time, text, now, batt, 0);
            let big = imath::smax(font::width_of(time, lock::time_codes(now.hour, now.minute)), 1);
            d.scale == 256 && d.x == 233 - big / 2 && d.base == 238 && d.alpha == 256
        }),
        ({
            let d = digits_at(time, text, now, batt, 256);
            let st = wheel::status_codes(now.hour, now.minute, batt);
            let big = imath::smax(font::width_of(time, lock::time_codes(now.hour, now.minute)), 1);
            let head = font::pen(text, st, 5);
            &&& d.x == 233 - font::width_of(text, st) / 2
            &&& d.base == 52
            &&& d.alpha == 200
            &&& d.scale == imath::smin(head * 256 / big, 256)
            &&& head <= big ==> head - big / 256 - 1 <= d.width <= head
            &&& head >= big ==> d.scale == 256 && d.width == big
            &&& d.height == zero_height(time) * d.scale / 256
        }),
{
    let st = wheel::status_codes(now.hour, now.minute, batt);
    let big = imath::smax(font::width_of(time, lock::time_codes(now.hour, now.minute)), 1);
    let head = font::pen(text, st, 5);
    font::lemma_pen(text, st, 5);
    let q = head * 256 / big;
    assert(q * big <= head * 256 < q * big + big) by (nonlinear_arith)
        requires q == head * 256 / big, big >= 1;
    assert(head <= big ==> q <= 256) by (nonlinear_arith)
        requires q * big <= head * 256, big >= 1;
    assert(head >= big ==> q >= 256) by (nonlinear_arith)
        requires head * 256 < q * big + big, big >= 1;
    let d = digits_at(time, text, now, batt, 256);
    assert(d.scale == imath::smin(q, 256));
    assert(big * d.scale == d.scale * big) by (nonlinear_arith);
}

/// The text of a morph frame: the flying digits, the date fading out over the first half
/// and the battery fading in over the last quarter.
pub open spec fn morph_text(
    f: Picture,
    w: int,
    h: int,
    time: Seq<Option<Glyph>>,
    text: Seq<Option<Glyph>>,
    now: WallTime,
    batt: Option<u8>,
    p: int,
) -> Picture {
    let d = digits_at(time, text, now, batt, p);
    let st = wheel::status_codes(now.hour, now.minute, batt);
    let date = lock::date_codes(now);
    let dw = font::width_of(text, date);
    let da = imath::smax(256 - 2 * p, 0);
    let ta = imath::sclamp((p - 192) * 4, 0, 256);
    let left = 233 - font::width_of(text, st) / 2;
    let head = font::pen(text, st, 5);
    let fb1 = sprite::scaled_text_on(
        f.fb,
        time,
        lock::time_codes(now.hour, now.minute),
        d.x,
        d.base,
        d.alpha,
        d.scale,
        false,
    );
    let fb2 = if da > 0 { sprite::text_on(fb1, text, date, 233 - dw / 2, 303, da) } else { fb1 };
    let fb3 = if ta > 0 { wheel::status_tail_on(fb2, text, st, ta * 200 / 256) } else { fb2 };
    let f1 = picture::noted(
        (Picture { fb: fb3, ..f }),
        w,
        h,
        d.x - 2,
        d.base - d.height - 4,
        d.x + d.width + 2,
        d.base + 8,
    );
    let f2 = if da > 0 {
        picture::noted(f1, w, h, 233 - dw / 2 - 2, 271, 233 + dw / 2 + 2, 313)
    } else {
        f1
    };
    if ta > 0 {
        picture::noted(f2, w, h, left + head - 2, 26, left + font::width_of(text, st) + 4, 66)
    } else {
        f2
    }
}

/// Draw the text of a morph frame.
pub fn draw_morph_text(
    wfb: &mut WatchFb,
    fx: &mut WheelFx,
    time: &[Option<Glyph>; 128],
    text: &[Option<Glyph>; 128],
    now: &WallTime,
    batt: Option<u8>,
    p: i32,
)
    requires
        old(wfb).wf(),
        old(fx).wf(),
        font::font_ok(time@),
        font::font_ok(text@),
        0 <= p <= 256,
    ensures
        final(wfb).wf(),
        final(fx).wf(),
        final(fx).is_seeded() == old(fx).is_seeded(),
        final(fx).intro_frame() == old(fx).intro_frame(),
        final(wfb).w() == old(wfb).w(),
        final(wfb).h() == old(wfb).h(),
        (Picture { fb: final(wfb).canvas(), rects: final(fx).content(), damage: final(wfb).damage() })
            == morph_text(
            (Picture { fb: old(wfb).canvas(), rects: old(fx).content(), damage: old(wfb).damage() }),
            old(wfb).w(),
            old(wfb).h(),
            time@,
            text@,
            *now,
            batt,
            p as int,
        ),
{
    let t_str = lock::time_str(now.hour, now.minute);
    let big: i32 = imath::imax(font::codes_width(t_str.as_slice(), time), 1);
    let zero_h: i32 = match font::get_glyph(time, 48) {
        Some(g) => g.height as i32,
        None => 80,
    };
    let (left, head, full) = wheel::status_metrics(now, batt, text);
    proof {
        assert(0 <= head * 256 / big as int <= head * 256) by (nonlinear_arith)
            requires 0 <= head, big >= 1;
    }
    let ratio: i32 = imath::imin(head * 256 / big, 256);
    let scale: i32 = lerp_at(256, ratio, p);
    let x: i32 = lerp_at(233 - big / 2, left, p);
    let base: i32 = lerp_at(238, wheel::STATUS_BASE_Y, p);
    let alpha: i32 = lerp_at(256, wheel::STATUS_ALPHA, p);
    let da: i32 = imath::imax(256 - 2 * p, 0);
    let date = lock::format_date(now);
    let dw: i32 = font::codes_width(date.as_slice(), text);
    let ta: i32 = imath::iclamp((p - 192) * 4, 0, 256);
    proof {
        assert(255 * 5 * scale <= 255 * 5 * 256) by (nonlinear_arith)
            requires 0 <= scale <= 256;
        assert(0 <= big * scale <= 2000 * 256) by (nonlinear_arith)
            requires 0 <= big <= 2000, 0 <= scale <= 256;
        assert(0 <= zero_h * scale <= 255 * 256) by (nonlinear_arith)
            requires 0 <= zero_h <= 255, 0 <= scale <= 256;
    }
    let fb = wfb.buf_mut();
    sprite::draw_codes_scaled(fb, t_str.as_slice(), x, base, alpha, time, scale, false);
    if da > 0 {
        sprite::draw_codes_at(fb, date.as_slice(), 233 - dw / 2, 303, da, text);
    }
    if ta > 0 {
        wheel::draw_status_tail(fb, now, batt, imath::asr(ta * wheel::STATUS_ALPHA, 8), text);
    }
    let tw: i32 = imath::asr(big * scale, 8);
    let th: i32 = imath::asr(zero_h * scale, 8);
    picture::note(wfb, fx, x - 2, base - th - 4, x + tw + 2, base + 8);
    if da > 0 {
        picture::note(wfb, fx, 233 - dw / 2 - 2, 271, 233 + dw / 2 + 2, 313);
    }
    if ta > 0 {
        picture::note(wfb, fx, left + head - 2, 26, left + full + 4, 66);
    }
}

/// Hand the canvas to the wheel without clearing it; the resting lock text is queued for
/// its targeted erase.
pub fn begin_unlock_morph(clock: &Clock, fx: &mut WheelFx)
    requires
        old(fx).wf(),
    ensures
        final(fx).wf(),
        final(fx).is_seeded(),
        final(fx).intro_frame() is None,
        ({
            let b = clock.last_text_bbox;
            final(fx).content() == wheel::pushed(
                Seq::<wheel::Rect>::empty(),
                b.0 as int,
                b.1 as int,
                b.2 as int,
                b.3 as int,
            )
        }),
{
    let (x0, y0, x1, y1) = clock.canvas_text_bbox();
    fx.seed_silent();
    fx.push(x0, y0, x1, y1);
}

/// The ring of a morph frame: repainted at the level of the sheet height while it is or was
/// visible.
pub open spec fn morph_ring(f: Picture, w: int, h: int, runs: Seq<crate::scenes::ring::Run>, lvl: int, prev: int) -> Picture {
    let n = arc::rows_pixels(runs, runs.len() as int, 0, 466);
    if lvl > 0 || prev > 0 {
        Picture {
            fb: arc::rows_on(f.fb, runs, runs.len() as int, 0, 466, arc::level_q8(lvl * 16_384 / 16)),
            damage: if n > 0 { watch_fb::marked(f.damage, w, h, 3, 0, 463, 462) } else { f.damage },
            ..f
        }
    } else {
        f
    }
}

/// The wheel rows of a morph frame, revealed under the sheet.
pub open spec fn morph_rows(
    canvas: Seq<u8>,
    damage: dmi::Damage,
    w: int,
    h: int,
    a: WheelAssets,
    fx_rects: Seq<wheel::Rect>,
    seeded: bool,
    status: Seq<u8>,
    s_q8: int,
    p: i32,
) -> Picture {
    let f = wheel::scroll_frame(
        (wheel::Frame {
            fb: wheel::frame_start(canvas, fx_rects, seeded),
            rects: Seq::<wheel::Rect>::empty(),
        }),
        a,
        status,
        s_q8,
        None,
        false,
        Some(p),
        None,
    );
    Picture {
        fb: f.fb,
        rects: f.rects,
        damage: wheel::frame_damage(damage, w, h, fx_rects, seeded, f.rects),
    }
}

/// One frame of the unlock or relock morph at sheet height `b`; returns the ring level drawn.
pub fn compose_morph(
    wfb: &mut WatchFb,
    fx: &mut WheelFx,
    clock: &Clock,
    wheel_assets: &WheelAssets,
    lock_assets: &LockAssets,
    b: u16,
    now: &WallTime,
    batt: Option<u8>,
    s_q8: i32,
    lvl_prev: i32,
) -> (lvl: i32)
    requires
        old(wfb).wf(),
        old(fx).wf(),
        lock::clock_ok(*clock),
        wheel::assets_ok(*wheel_assets),
        lock::lock_assets_ok(*lock_assets),
        old(wfb).canvas().len() >= 434_312,
        b <= 466,
    ensures
        final(wfb).wf(),
        final(fx).wf(),
        final(fx).is_seeded(),
        final(fx).intro_frame() is None,
        final(wfb).w() == old(wfb).w(),
        final(wfb).h() == old(wfb).h(),
        lvl == ring_level(b as int),
        ({
            let p = progress(b as int);
            let f0 = morph_rows(
                old(wfb).canvas(),
                old(wfb).damage(),
                old(wfb).w(),
                old(wfb).h(),
                *wheel_assets,
                old(fx).content(),
                old(fx).is_seeded(),
                wheel::status_codes(now.hour, now.minute, batt),
                s_q8 as int,
                p as i32,
            );
            let f1 = morph_ring(f0, old(wfb).w(), old(wfb).h(), clock.ring.runs@, lvl as int, lvl_prev as int);
            (Picture { fb: final(wfb).canvas(), rects: final(fx).content(), damage: final(wfb).damage() })
                == morph_text(
                f1,
                old(wfb).w(),
                old(wfb).h(),
                lock_assets.time@,
                lock_assets.text@,
                *now,
                batt,
                p,
            )
        }),
{
    let p: i32 = (466 - b as i32) * 256 / 466;
    wheel::draw_scroll(wfb, wheel_assets, now, batt, s_q8, fx, false, Some(p), None);
    proof {
        lemma_scroll_len(
            (wheel::Frame {
                fb: wheel::frame_start(old(wfb).canvas(), old(fx).content(), old(fx).is_seeded()),
                rects: Seq::<wheel::Rect>::empty(),
            }),
            *wheel_assets,
            wheel::status_codes(now.hour, now.minute, batt),
            s_q8 as int,
            Some(p),
        );
        lemma_start_len(old(wfb).canvas(), old(fx).content(), old(fx).is_seeded());
    }
    let lvl: i32 = ring_level_idx(b);
    if lvl > 0 || lvl_prev > 0 {
        let mut acc = RectAcc::empty();
        let fb = wfb.buf_mut();
        let _n: usize = clock.draw_ring_rows(fb, 0, 466, lvl * lock::Q / RING_LEVELS, &mut acc);
        if !acc.is_empty() {
            wfb.mark_rect(acc.x0 - 1, acc.y0, acc.x1 + 1, acc.y1);
        }
    }
    draw_morph_text(wfb, fx, lock_assets.time, lock_assets.text, now, batt, p);
    lvl
}

proof fn lemma_start_len(fb: Seq<u8>, r: Seq<wheel::Rect>, seeded: bool)
    ensures
        wheel::frame_start(fb, r, seeded).len() == fb.len(),
{
    if seeded {
        lemma_cleared_len(fb, r, r.len() as int);
    }
}

proof fn lemma_cleared_len(fb: Seq<u8>, r: Seq<wheel::Rect>, n: int)
    ensures
        wheel::cleared(fb, r, n).len() == fb.len(),
    decreases n,
{
    broadcast use raster::lemma_shade_len;

    if n > 0 {
        lemma_cleared_len(fb, r, n - 1);
    }
}

proof fn lemma_text_len(fb: Seq<u8>, font: Seq<Option<Glyph>>, s: Seq<u8>, n: int, left: int, base: int, alpha: int)
    ensures
        sprite::line_on(fb, font, s, n, left, base, alpha).len() == fb.len(),
    decreases n,
{
    broadcast use raster::lemma_shade_len;

    if n > 0 {
        lemma_text_len(fb, font, s, n - 1, left, base, alpha);
    }
}

proof fn lemma_scaled_len(
    fb: Seq<u8>,
    font: Seq<Option<Glyph>>,
    s: Seq<u8>,
    n: int,
    left: int,
    base: int,
    alpha: int,
    scale: int,
    fast: bool,
)
    ensures
        sprite::scaled_line_on(fb, font, s, n, left, base, alpha, scale, fast).len() == fb.len(),
    decreases n,
{
    broadcast use raster::lemma_shade_len;

    if n > 0 {
        lemma_scaled_len(fb, font, s, n - 1, left, base, alpha, scale, fast);
    }
}

proof fn lemma_glow_len(f: wheel::Frame, a: WheelAssets, r: Seq<Option<wheel::RowLayout>>, lut: Seq<(u8, u8)>, n: int)
    ensures
        wheel::glow_rows(f, a, r, lut, n).fb.len() == f.fb.len(),
    decreases n,
{
    broadcast use raster::lemma_shade_len;

    if n > 0 {
        lemma_glow_len(f, a, r, lut, n - 1);
    }
}

proof fn lemma_row_len(f: wheel::Frame, a: WheelAssets, app: wheel::WheelApp, l: wheel::RowLayout, fast: bool, held: bool)
    ensures
        wheel::row_on(f, a, app, l, fast, held).fb.len() == f.fb.len(),
{
    broadcast use raster::lemma_shade_len;

    let name = font::codes_of(app.name@);
    let x = wheel::label_left(a, name, l);
    let tw = wheel::label_width(a, name, l.large as int);
    let fb1 = wheel::row_icon_on(f.fb, a, app, l, fast);
    let f1 = wheel::Frame { fb: fb1, rects: f.rects };
    let fb2 = if held { wheel::pill_on(f1, l, x, tw).fb } else { fb1 };
    let n = name.len() as int;
    lemma_text_len(fb2, a.text@, name, n, x, l.y + 11, l.alpha as int);
    lemma_text_len(fb2, a.labelf@, name, n, x, l.y + 11, l.alpha as int);
    lemma_scaled_len(
        fb2,
        a.labelf@,
        name,
        n,
        x,
        l.y + 11,
        l.alpha as int,
        wheel::label_scale(l.large as int),
        fast,
    );
}

proof fn lemma_labels_len(f: wheel::Frame, a: WheelAssets, r: Seq<Option<wheel::RowLayout>>, fast: bool, pill: Option<usize>, n: int)
    ensures
        wheel::label_rows(f, a, r, fast, pill, n).fb.len() == f.fb.len(),
    decreases n,
{
    if n > 0 {
        lemma_labels_len(f, a, r, fast, pill, n - 1);
        let prev = wheel::label_rows(f, a, r, fast, pill, n - 1);
        if let Some(l) = r[n - 1] {
            lemma_row_len(prev, a, a.apps@[n - 1], l, fast, pill == Some((n - 1) as usize));
        }
    }
}

/// A scroll frame keeps the length of the canvas.
proof fn lemma_scroll_len(f: wheel::Frame, a: WheelAssets, status: Seq<u8>, s_q8: int, reveal: Option<i32>)
    requires
        reveal is Some,
    ensures
        wheel::scroll_frame(f, a, status, s_q8, None, false, reveal, None).fb.len() == f.fb.len(),
{
    let r = wheel::wheel_rows(a, s_q8, reveal, None);
    let n = r.len() as int;
    lemma_glow_len(f, a, r, wheel::saber_table(0), n);
    lemma_labels_len(wheel::glow_rows(f, a, r, wheel::saber_table(0), n), a, r, false, None, n);
}

} // verus!
