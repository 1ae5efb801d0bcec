//! Laws of the unlock sheet: it follows the finger, settles to an end, and its morph carries
//! the time from the lock face to the status line.
use vstd::prelude::*;

use crate::font;
use crate::font::Glyph;
use crate::font_laws;
use crate::imath;
use crate::input::gestures::SwipeDir;
use crate::raster;
use crate::scenes::arc;
use crate::scenes::lock;
use crate::scenes::picture::Picture;
use crate::scenes::ring;
use crate::scenes::sprite;
use crate::scenes::wheel;
use crate::scenes::wheel_laws;
use crate::sheet;
use crate::time::WallTime;

verus! {

/// The sheet follows the finger in proportion, to the nearest pixel: the way from touch-down
/// to the edge of the panel is the whole sheet, up and down mirror each other.
pub proof fn lemma_sheet_follows_finger(start_y: int, dist: int)
    requires
        0 <= start_y <= 466,
        0 <= dist,
    ensures
        ({
            let (up, down) = (sheet::reach(SwipeDir::Up, start_y), sheet::reach(SwipeDir::Down, start_y));
            let (u, d) = (
                sheet::sheet_target(SwipeDir::Up, dist, up),
                sheet::sheet_target(SwipeDir::Down, dist, down),
            );
            &&& 1 <= start_y <= 465 ==> up == start_y && down == 466 - start_y
            &&& 0 <= u <= 466 && 0 <= d <= 466
            &&& dist == 0 ==> u == 466 && d == 0
            &&& dist >= up ==> u == 0
            &&& dist >= down ==> d == 466
            &&& dist <= up ==> 2 * imath::sabs((466 - u) * up - dist * 466) <= up
            &&& dist <= down ==> 2 * imath::sabs(d * down - dist * 466) <= down
        }),
        forall|avail: int|
            #![trigger sheet::sheet_travel(dist, avail)]
            sheet::sheet_target(SwipeDir::Up, dist, avail) + sheet::sheet_target(SwipeDir::Down, dist, avail) == 466,
{
    let (up, down) = (sheet::reach(SwipeDir::Up, start_y), sheet::reach(SwipeDir::Down, start_y));
    sheet::lemma_sheet_travel(0, dist, up);
    sheet::lemma_sheet_travel(0, dist, down);
    lemma_rounded(dist, up);
    lemma_rounded(dist, down);
}

proof fn lemma_rounded(dist: int, avail: int)
    requires
        avail >= 1,
        0 <= dist <= avail || dist > avail,
    ensures
        0 <= dist <= avail ==> 2 * imath::sabs(sheet::sheet_travel(dist, avail) * avail - dist * 466) <= avail,
{
    if 0 <= dist <= avail {
        let n = dist * 466 + avail / 2;
        let q = n / avail;
        assert(q * avail <= n && n < q * avail + avail) by (nonlinear_arith)
            requires
                q == n / avail,
                avail >= 1,
        ;
        if q > 466 {
            assert(467 * avail <= q * avail) by (nonlinear_arith)
                requires
                    q >= 467,
                    avail >= 1,
            ;
            assert(n <= 466 * avail + avail / 2);
        }
    }
}

/// A release completes past the middle or when quick, and retracts otherwise; up and down
/// mirror each other.
pub proof fn lemma_release_rests(target: int, vel: int)
    requires
        0 <= target <= 466,
    ensures
        vel > 128 ==> sheet::rest_height(SwipeDir::Up, target, vel) == 0 && sheet::rest_height(
            SwipeDir::Down,
            target,
            vel,
        ) == 466,
        vel <= 128 && target < 233 ==> sheet::rest_height(SwipeDir::Up, target, vel) == 0 && sheet::rest_height(
            SwipeDir::Down,
            target,
            vel,
        ) == 0,
        vel <= 128 && target > 233 ==> sheet::rest_height(SwipeDir::Up, target, vel) == 466 && sheet::rest_height(
            SwipeDir::Down,
            target,
            vel,
        ) == 466,
        sheet::rest_height(SwipeDir::Up, target, vel) + sheet::rest_height(SwipeDir::Down, 466 - target, vel) == 466,
{
}

/// A settling sheet halves the way that is left, without passing its end.
pub proof fn lemma_settling(b: int, target: int)
    requires
        0 <= b <= 466,
        0 <= target <= 466,
    ensures
        ({
            let r = sheet::settled(b, target);
            &&& b <= target ==> b <= r <= target && (target - r) * 2 <= target - b + 1
            &&& target <= b ==> target <= r <= b && (r - target) * 2 <= b - target + 1
            &&& imath::sabs(target - b) <= 8 ==> r == target
            &&& target - b > 8 ==> r > b && (r - b) * 2 <= target - b
            &&& b - target > 8 ==> r < b && (b - r) * 2 <= b - target
        }),
{
}

/// The ring dims as the sheet rises, in 16 even steps, and never back.
pub proof fn lemma_ring_dims(a: int, b: int)
    requires
        a <= b,
    ensures
        sheet::ring_level(a) <= sheet::ring_level(b),
        311 <= b <= 466 ==> imath::sabs(sheet::ring_level(b) * 155 - (b - 311) * 16) <= 78,
{
}

/// The morph goes with the sheet: nothing on the closed one, all of it on the open one.
pub proof fn lemma_progress(a: int, b: int)
    requires
        0 <= a <= b <= 466,
    ensures
        0 <= sheet::progress(b) <= sheet::progress(a) <= 256,
        sheet::progress(466) == 0,
        sheet::progress(0) == 256,
        sheet::progress(b) * 466 <= (466 - b) * 256 < (sheet::progress(b) + 1) * 466,
{
}

proof fn lemma_lerp(a: int, b: int, p: int, q: int)
    requires
        0 <= p <= q <= 256,
    ensures
        a <= b ==> a <= sheet::lerp(a, b, p) <= sheet::lerp(a, b, q) <= b,
        b <= a ==> b <= sheet::lerp(a, b, q) <= sheet::lerp(a, b, p) <= a,
{
    let d = b - a;
    assert(d >= 0 ==> 0 <= d * p <= d * q && d * q <= d * 256) by (nonlinear_arith)
        requires
            0 <= p <= q <= 256,
    ;
    assert(d <= 0 ==> d * 256 <= d * q && d * q <= d * p && d * p <= 0) by (nonlinear_arith)
        requires
            0 <= p <= q <= 256,
    ;
}

/// The digits fly one way: up, towards the status line, dimmer and no larger with every step.
pub proof fn lemma_digits_fly(
    time: Seq<Option<Glyph>>,
    text: Seq<Option<Glyph>>,
    now: WallTime,
    batt: Option<u8>,
    p: int,
    q: int,
)
    requires
        0 <= p <= q <= 256,
    ensures
        ({
            let (d, e) = (
                sheet::digits_at(time, text, now, batt, p),
                sheet::digits_at(time, text, now, batt, q),
            );
            let (from, to) = (
                sheet::digits_at(time, text, now, batt, 0),
                sheet::digits_at(time, text, now, batt, 256),
            );
            &&& 52 <= e.base <= d.base <= 238
            &&& 200 <= e.alpha <= d.alpha <= 256
            &&& 0 <= e.scale <= d.scale <= 256
            &&& from.x <= to.x ==> from.x <= d.x <= e.x <= to.x
            &&& from.x >= to.x ==> from.x >= d.x >= e.x >= to.x
        }),
{
    let st = wheel::status_codes(now.hour, now.minute, batt);
    let big = imath::smax(font::width_of(time, lock::time_codes(now.hour, now.minute)), 1);
    let head = font::pen(text, st, 5);
    let left = 233 - font::width_of(text, st) / 2;
    font::lemma_pen(text, st, 5);
    assert(0 <= head * 256 / big) by (nonlinear_arith)
        requires
            0 <= head,
            big >= 1,
    ;
    let ratio = imath::smin(head * 256 / big, 256);
    lemma_lerp(238, 52, p, q);
    lemma_lerp(256, 200, p, q);
    lemma_lerp(256, ratio, p, q);
    lemma_lerp(233 - big / 2, left, p, q);
    lemma_lerp(233 - big / 2, left, 0, p);
    lemma_lerp(233 - big / 2, left, q, 256);
}

/// The flying digits do not cover the pixel.
pub open spec fn digits_clear(
    time: Seq<Option<Glyph>>,
    text: Seq<Option<Glyph>>,
    now: WallTime,
    batt: Option<u8>,
    p: int,
    x: int,
    y: int,
) -> bool {
    let d = sheet::digits_at(time, text, now, batt, p);
    wheel_laws::scaled_clear(time, lock::time_codes(now.hour, now.minute), d.x, d.base, d.scale, false, x, y)
}

/// The tail of the status line behind its time.
pub open spec fn tail(now: WallTime, batt: Option<u8>) -> Seq<u8> {
    wheel::status_codes(now.hour, now.minute, batt).skip(5)
}

/// Where the tail starts.
pub open spec fn tail_left(text: Seq<Option<Glyph>>, now: WallTime, batt: Option<u8>) -> int {
    let st = wheel::status_codes(now.hour, now.minute, batt);
    233 - font::width_of(text, st) / 2 + font::pen(text, st, 5)
}

/// The text of a morph frame: the time in flight, the date until half way, fading, and the
/// battery from three quarters on, coming in; each shows where the others do not cover.
pub proof fn lemma_morph_text_shows(
    f: Picture,
    w: int,
    h: int,
    time: Seq<Option<Glyph>>,
    text: Seq<Option<Glyph>>,
    now: WallTime,
    batt: Option<u8>,
    p: int,
    k: int,
    x: int,
    y: int,
)
    requires
        0 <= p <= 256,
        raster::has_px(f.fb.len() as int, x, y),
    ensures
        ({
            let d = sheet::digits_at(time, text, now, batt, p);
            let (t, date) = (lock::time_codes(now.hour, now.minute), lock::date_codes(now));
            let dl = 233 - font::width_of(text, date) / 2;
            let tl = tail_left(text, now, batt);
            let o = raster::px_at(f.fb, x, y);
            let q = raster::px_at(sheet::morph_text(f, w, h, time, text, now, batt, p).fb, x, y);
            let no_digits = digits_clear(time, text, now, batt, p, x, y);
            let no_date = font_laws::clear_from(text, date, dl, 303, 0, x, y);
            let no_tail = font_laws::clear_from(text, tail(now, batt), tl, 52, 0, x, y);
            let c = wheel_laws::scaled_coverage(time, t, d.x, d.base, d.scale, false, k, x, y);
            let e = font_laws::coverage(text, date, dl, 303, k, x, y);
            let g = font_laws::coverage(text, tail(now, batt), tl, 52, k, x, y);
            &&& wheel_laws::scaled_only(time, t, d.x, d.base, d.scale, false, k, x, y) && no_date && no_tail ==> q
                == sprite::tinted(o, c * d.alpha / 256)
            &&& no_digits && no_tail && wheel_laws::only(text, date, dl, 303, k, x, y) ==> q == (if p < 128 {
                sprite::tinted(o, e * 17 * (256 - 2 * p) / 256)
            } else {
                o
            })
            &&& no_digits && no_date && wheel_laws::only(text, tail(now, batt), tl, 52, k, x, y) ==> q == (if p > 192 {
                sprite::tinted(o, g * 17 * ((p - 192) * 4 * 200 / 256) / 256)
            } else {
                o
            })
            &&& no_digits && no_date && no_tail ==> q == o
        }),
{
    let d = sheet::digits_at(time, text, now, batt, p);
    let st = wheel::status_codes(now.hour, now.minute, batt);
    let (t, date) = (lock::time_codes(now.hour, now.minute), lock::date_codes(now));
    let dl = 233 - font::width_of(text, date) / 2;
    let tl = tail_left(text, now, batt);
    let da = imath::smax(256 - 2 * p, 0);
    let ta = imath::sclamp((p - 192) * 4, 0, 256);
    let n = t.len() as int;
    wheel_laws::lemma_scaled_text(f.fb, time, t, d.x, d.base, d.alpha, d.scale, false, k, x, y);
    let fb1 = sprite::scaled_text_on(f.fb, time, t, d.x, d.base, d.alpha, d.scale, false);
    wheel_laws::lemma_text_shows(fb1, text, date, dl, 303, da, k, x, y);
    wheel_laws::lemma_text_len(fb1, text, date, date.len() as int, dl, 303, da);
    let fb2 = if da > 0 { sprite::text_on(fb1, text, date, dl, 303, da) } else { fb1 };
    wheel_laws::lemma_text_shows(fb2, text, tail(now, batt), tl, 52, ta * 200 / 256, k, x, y);
}

/// The battery stands where the whole status line has it: the pen behind the time is that of
/// the tail's start, and its characters are those of the line.
pub proof fn lemma_tail_is_in_place(text: Seq<Option<Glyph>>, now: WallTime, batt: Option<u8>, i: int)
    requires
        0 <= i,
        5 + i <= wheel::status_codes(now.hour, now.minute, batt).len(),
    ensures
        ({
            let st = wheel::status_codes(now.hour, now.minute, batt);
            tail_left(text, now, batt) + font::pen(text, tail(now, batt), i) == 233 - font::width_of(text, st) / 2
                + font::pen(text, st, 5 + i)
        }),
    decreases i,
{
    if i > 0 {
        lemma_tail_is_in_place(text, now, batt, i - 1);
        let st = wheel::status_codes(now.hour, now.minute, batt);
        assert(tail(now, batt)[i - 1] == st[5 + i - 1]);
    }
}

/// The ring under a moving sheet shows the level it has now, whatever it showed before; dark
/// and staying dark, it is left alone.
pub proof fn lemma_ring_is_current(f: Picture, w: int, h: int, runs: Seq<ring::Run>, lvl: int, p: int, q: int)
    requires
        0 <= lvl <= 16,
        lvl > 0 || (p > 0 && q > 0),
    ensures
        ({
            let (a, b) = (sheet::morph_ring(f, w, h, runs, lvl, p), sheet::morph_ring(f, w, h, runs, lvl, q));
            &&& a == b
            &&& a.rects == f.rects
            &&& a.fb == arc::rows_on(f.fb, runs, runs.len() as int, 0, 466, 16 * lvl)
            &&& sheet::morph_ring(f, w, h, runs, 0, 0) == f
        }),
{
}

} // verus!
