//! The time app: large digits and date, and an arc around the rim that sweeps once a minute.
use vstd::prelude::*;

use crate::display::dmi;
use crate::display::watch_fb;
use crate::display::watch_fb::WatchFb;
use crate::font;
use crate::imath;
use crate::raster;
use crate::scenes::apps;
use crate::scenes::apps::{AppAssets, State, ARC_R_IN, ARC_R_OUT, AZURE, DATE_BASE_Y, TIME_BASE_Y};
use crate::scenes::lock;
use crate::scenes::sprite;
use crate::scenes::vector;
use crate::scenes::vector::Area;
use crate::time;
use crate::time::WallTime;

verus! {

/// Month term of the day-of-week congruence.
pub open spec fn month_key(m: int) -> int {
    let k = imath::sclamp(m, 1, 12);
    if k == 1 || k == 5 {
        0
    } else if k == 2 || k == 6 {
        3
    } else if k == 3 || k == 11 {
        2
    } else if k == 4 || k == 7 {
        5
    } else if k == 8 {
        1
    } else if k == 9 || k == 12 {
        4
    } else {
        6
    }
}

/// Day of the week by the congruence; 0 is Sunday.
pub open spec fn weekday_by_key(y: int, m: int, d: int) -> int {
    let k = if m < 3 { y - 1 } else { y };
    (year_key(k) + month_key(m) + d) % 7
}

fn month_key_at(m: u8) -> (r: i32)
    ensures
        r == month_key(m as int),
        0 <= r <= 6,
{
    if m <= 1 || m == 5 {
        0
    } else if m == 2 || m == 6 {
        3
    } else if m == 3 || m == 11 {
        2
    } else if m == 4 || m == 7 {
        5
    } else if m == 8 {
        1
    } else if m == 9 || m >= 12 {
        4
    } else {
        6
    }
}

/// A year with its leap days.
pub open spec fn year_key(k: int) -> int {
    k + imath::tdiv(k, 4) - imath::tdiv(k, 100) + imath::tdiv(k, 400)
}

fn year_key_at(k: i32) -> (r: i32)
    requires
        -1 <= k <= 65_535,
    ensures
        r == year_key(k as int),
        -1 <= r <= 100_000,
{
    if k < 0 {
        -1
    } else {
        let n: u32 = k as u32;
        (n + n / 4 - n / 100 + n / 400) as i32
    }
}

/// Day of the week of a date, 0 = Sunday.
pub fn weekday(y: u16, m: u8, d: u8) -> (r: usize)
    ensures
        r == weekday_by_key(y as int, m as int, d as int),
        r <= 6,
{
    let k: i32 = if m < 3 { y as i32 - 1 } else { y as i32 };
    let s: i32 = year_key_at(k) + month_key_at(m) + d as i32;
    // the least sum is -1
    let n: u32 = (s + 7) as u32;
    (n % 7) as usize
}

/// The congruence names the weekday of every date of the calendar.
pub proof fn lemma_weekday(y: int, m: int, d: int)
    requires
        y >= 1,
        time::valid_date(y, m, d),
    ensures
        weekday_by_key(y, m, d) == time::weekday_of(time::civil_days(y, m, d)),
{
    time::lemma_months(y);
    time::lemma_year_len(y);
    let k = if m < 3 { y - 1 } else { y };
    assert(imath::tdiv(k, 4) == k / 4 && imath::tdiv(k, 100) == k / 100 && imath::tdiv(k, 400) == k / 400);
    let a = k + time::leaps(k) + month_key(m) + d;
    let b = time::civil_days(y, m, d) + 6;
    assert(time::year_start(2000) == 730_119);
    // the day count and the sum of the terms differ by a multiple of seven
    let q = (b - a) / 7;
    assert(b == a + 7 * q);
}

/// Three letters of a weekday.
pub open spec fn weekday_codes(w: int) -> Seq<u8> {
    if w == 0 {
        seq![83u8, 85, 78]
    } else if w == 1 {
        seq![77u8, 79, 78]
    } else if w == 2 {
        seq![84u8, 85, 69]
    } else if w == 3 {
        seq![87u8, 69, 68]
    } else if w == 4 {
        seq![84u8, 72, 85]
    } else if w == 5 {
        seq![70u8, 82, 73]
    } else {
        seq![83u8, 65, 84]
    }
}

/// Three letters of a month; months outside 1..=12 read as the nearest.
pub open spec fn month_codes(m: int) -> Seq<u8> {
    let k = imath::sclamp(m, 1, 12);
    if k == 1 {
        seq![74u8, 65, 78]
    } else if k == 2 {
        seq![70u8, 69, 66]
    } else if k == 3 {
        seq![77u8, 65, 82]
    } else if k == 4 {
        seq![65u8, 80, 82]
    } else if k == 5 {
        seq![77u8, 65, 89]
    } else if k == 6 {
        seq![74u8, 85, 78]
    } else if k == 7 {
        seq![74u8, 85, 76]
    } else if k == 8 {
        seq![65u8, 85, 71]
    } else if k == 9 {
        seq![83u8, 69, 80]
    } else if k == 10 {
        seq![79u8, 67, 84]
    } else if k == 11 {
        seq![78u8, 79, 86]
    } else {
        seq![68u8, 69, 67]
    }
}

fn weekday_letters(w: usize) -> (r: (u8, u8, u8))
    ensures
        seq![r.0, r.1, r.2] == weekday_codes(w as int),
{
    if w == 0 {
        (83, 85, 78)
    } else if w == 1 {
        (77, 79, 78)
    } else if w == 2 {
        (84, 85, 69)
    } else if w == 3 {
        (87, 69, 68)
    } else if w == 4 {
        (84, 72, 85)
    } else if w == 5 {
        (70, 82, 73)
    } else {
        (83, 65, 84)
    }
}

fn month_letters(m: u8) -> (r: (u8, u8, u8))
    ensures
        seq![r.0, r.1, r.2] == month_codes(m as int),
{
    if m <= 1 {
        (74, 65, 78)
    } else if m == 2 {
        (70, 69, 66)
    } else if m == 3 {
        (77, 65, 82)
    } else if m == 4 {
        (65, 80, 82)
    } else if m == 5 {
        (77, 65, 89)
    } else if m == 6 {
        (74, 85, 78)
    } else if m == 7 {
        (74, 85, 76)
    } else if m == 8 {
        (65, 85, 71)
    } else if m == 9 {
        (83, 69, 80)
    } else if m == 10 {
        (79, 67, 84)
    } else if m == 11 {
        (78, 79, 86)
    } else {
        (68, 69, 67)
    }
}

/// The date as "TUE 21 JUL".
pub open spec fn short_date(now: WallTime) -> Seq<u8> {
    let w = weekday_codes(weekday_by_key(now.year as int, now.month as int, now.day as int));
    let units = seq![(48 + now.day % 10) as u8];
    let day = if now.day >= 10 { seq![(48 + now.day / 10) as u8] + units } else { units };
    w + seq![32u8] + day + seq![32u8] + month_codes(now.month as int)
}

/// The time as "HH:MM" and the short date.
pub fn time_strings(now: &WallTime) -> (r: (Vec<u8>, Vec<u8>))
    ensures
        r.0@ == lock::time_codes(now.hour, now.minute),
        r.1@ == short_date(*now),
        r.0@.len() == 5,
        r.1@.len() <= 10,
{
    let (a, b, c) = weekday_letters(weekday(now.year, now.month, now.day));
    let mut d: Vec<u8> = Vec::new();
    d.push(a);
    d.push(b);
    d.push(c);
    d.push(32);
    if now.day >= 10 {
        d.push(48 + now.day / 10);
    }
    d.push(48 + now.day % 10);
    d.push(32);
    let (e, f, g) = month_letters(now.month);
    d.push(e);
    d.push(f);
    d.push(g);
    proof {
        let w = weekday_codes(weekday_by_key(now.year as int, now.month as int, now.day as int));
        let m = month_codes(now.month as int);
        assert(w == seq![a, b, c]);
        assert(m == seq![e, f, g]);
        assert(d@ =~= short_date(*now));
    }
    (lock::time_str(now.hour, now.minute), d)
}

/// The digits and date on their baselines, `rise` pixels low, at opacity `q` of 256.
pub open spec fn digits_on(fb: Seq<u8>, a: AppAssets, now: WallTime, rise: int, q: int) -> Seq<u8> {
    let t = lock::time_codes(now.hour, now.minute);
    let d = short_date(now);
    sprite::text_on(
        sprite::text_on(fb, a.time@, t, 233 - font::width_of(a.time@, t) / 2, 244 + rise, q),
        a.wheel.text@,
        d,
        233 - font::width_of(a.wheel.text@, d) / 2,
        298 + rise,
        150 * q / 256,
    )
}

/// Draw the digits and the date; gives the width of the digits.
pub(crate) fn draw_digits(fb: &mut [u8], assets: &AppAssets, now: &WallTime, rise: i32, q: i32) -> (tw: i32)
    requires
        apps::assets_ok(*assets),
        0 <= rise <= 466,
        0 <= q <= 256,
    ensures
        final(fb)@ == digits_on(old(fb)@, *assets, *now, rise as int, q as int),
        tw == font::width_of(assets.time@, lock::time_codes(now.hour, now.minute)),
        0 <= tw <= 1275,
{
    let (t, d) = time_strings(now);
    let tw: i32 = font::codes_width(t.as_slice(), assets.time);
    let dw: i32 = font::codes_width(d.as_slice(), assets.wheel.text);
    sprite::draw_codes_at(fb, t.as_slice(), 233 - tw / 2, TIME_BASE_Y + rise, q, assets.time);
    sprite::draw_codes_at(
        fb,
        d.as_slice(),
        233 - dw / 2,
        DATE_BASE_Y + rise,
        imath::asr(150 * q, 8),
        assets.wheel.text,
    );
    tw
}

/// Angle of the arc `ms` milliseconds into the minute, at least a visible stub.
pub open spec fn arc_angle(ms: int) -> int {
    imath::smax(imath::sclamp(ms * 1024 / 60_000, 0, 1023), 4)
}

/// Centre of the arc's tip.
pub open spec fn tip_at(a: int) -> (int, int) {
    (233 + 226 * vector::direction(a).0 / 256, 233 + 226 * vector::direction(a).1 / 256)
}

/// What the tip's glow can touch.
pub open spec fn tip_area(a: int) -> Area {
    let (x, y) = tip_at(a);
    ((x - 22) as i32, (y - 22) as i32, (x + 22) as i32, (y + 22) as i32)
}

fn tip(a: i32) -> (r: (i32, i32))
    requires
        0 <= a,
    ensures
        r.0 == tip_at(a as int).0,
        r.1 == tip_at(a as int).1,
        -100_000 <= r.0 <= 100_000,
        -100_000 <= r.1 <= 100_000,
{
    let (vx, vy) = vector::pseudo_dir(a);
    (233 + imath::asr(226 * vx, 8), 233 + imath::asr(226 * vy, 8))
}

/// Canvas, damage and state of the time app.
pub struct Face {
    pub fb: Seq<u8>,
    pub damage: dmi::Damage,
    pub st: State,
}

/// The first frame: the status band and the rim are wiped and the whole arc is drawn.
pub open spec fn arc_seeded(f: Face, w: int, h: int, second: u8, now_ms: u64) -> Face {
    let a = imath::smax(second * 1024 / 60, 4);
    let (tx, ty) = tip_at(a);
    let fb1 = raster::shade(f.fb, 123, 26, 344, 67, raster::black());
    let fb2 = vector::annulus_cleared(fb1, 222, 230);
    let fb3 = vector::ring_arc_on(fb2, 233, 233, 224, 228, a, AZURE, 230);
    Face {
        fb: vector::soft_on(fb3, tx, ty, 9, AZURE, 210),
        damage: watch_fb::marked(f.damage, w, h, 0, 0, 465, 465),
        st: State { t_sec: second, t_anchor: Some(now_ms), t_last_a: a as i32, t_tip: tip_area(a), ..f.st },
    }
}

/// A new second restarts the sub-second sweep.
pub open spec fn second_noted(st: State, second: u8, now_ms: u64) -> State {
    if st.t_sec != second { State { t_sec: second, t_anchor: Some(now_ms), ..st } } else { st }
}

/// A new minute redraws the digits and the date.
pub open spec fn minute_shown(f: Face, a: AppAssets, w: int, h: int, now: WallTime) -> Face {
    if f.st.t_min != now.minute {
        Face {
            fb: digits_on(raster::shade(f.fb, 63, 150, 404, 311, raster::black()), a, now, 0, 256),
            damage: watch_fb::marked(f.damage, w, h, 63, 150, 403, 310),
            st: State { t_min: now.minute, ..f.st },
        }
    } else {
        f
    }
}

/// The arc moves on to angle `a`: the old tip is wiped and the arc below it repaired, then
/// the new tip is drawn. A smaller angle wipes the rim: the next minute begins.
pub open spec fn arc_moved(f: Face, w: int, h: int, a: int) -> Face {
    if a == f.st.t_last_a {
        f
    } else if a < f.st.t_last_a {
        Face {
            fb: vector::annulus_cleared(f.fb, 222, 230),
            damage: watch_fb::marked(f.damage, w, h, 0, 0, 465, 465),
            st: State { t_last_a: 0, t_tip: (211, (-15) as i32, 255, 29), ..f.st },
        }
    } else {
        let o = f.st.t_tip;
        let n = tip_area(a);
        let (tx, ty) = tip_at(a);
        let fb1 = raster::shade(f.fb, o.0 as int, o.1 as int, o.2 + 1, o.3 + 1, raster::black());
        let fb2 = vector::arc_in_rect_on(fb1, 224, 228, a, AZURE, 230, o);
        let fb3 = vector::arc_in_rect_on(fb2, 224, 228, a, AZURE, 230, n);
        Face {
            fb: vector::soft_on(fb3, tx, ty, 9, AZURE, 210),
            damage: watch_fb::marked(
                f.damage,
                w,
                h,
                imath::smin(o.0 as int, n.0 as int),
                imath::smin(o.1 as int, n.1 as int),
                imath::smax(o.2 as int, n.2 as int),
                imath::smax(o.3 as int, n.3 as int),
            ),
            st: State { t_last_a: a as i32, t_tip: n, ..f.st },
        }
    }
}

/// One tick of the resting time app.
pub open spec fn time_ticked(f: Face, a: AppAssets, w: int, h: int, now: WallTime, now_ms: u64) -> Face {
    if f.st.t_anchor is None {
        arc_seeded(f, w, h, now.second, now_ms)
    } else {
        let f1 = Face { st: second_noted(f.st, now.second, now_ms), ..f };
        let f2 = minute_shown(f1, a, w, h, now);
        let ms = f2.st.t_sec * 1000 + imath::smin(now_ms - f2.st.t_anchor->0, 999);
        arc_moved(f2, w, h, arc_angle(ms))
    }
}

/// The tip's rectangle is near the panel.
pub open spec fn state_ok(st: State, now_ms: u64) -> bool {
    &&& st.t_tip.2 < i32::MAX
    &&& st.t_tip.3 < i32::MAX
    &&& st.t_anchor is Some ==> st.t_anchor->0 <= now_ms
}

fn move_arc(wfb: &mut WatchFb, st: &mut State, a: i32)
    requires
        old(wfb).wf(),
        4 <= a < 1024,
        old(st).t_tip.2 < i32::MAX,
        old(st).t_tip.3 < i32::MAX,
    ensures
        final(wfb).wf(),
        final(wfb).w() == old(wfb).w(),
        final(wfb).h() == old(wfb).h(),
        (Face { fb: final(wfb).canvas(), damage: final(wfb).damage(), st: *final(st) }) == arc_moved(
            (Face { fb: old(wfb).canvas(), damage: old(wfb).damage(), st: *old(st) }),
            old(wfb).w(),
            old(wfb).h(),
            a as int,
        ),
        final(st).t_tip.2 < i32::MAX,
        final(st).t_tip.3 < i32::MAX,
{
    if a == st.t_last_a {
        return;
    }
    let fb = wfb.buf_mut();
    if a < st.t_last_a {
        vector::clear_annulus(fb, ARC_R_IN - 2, ARC_R_OUT + 2);
        wfb.mark_rect(0, 0, 465, 465);
        st.t_last_a = 0;
        st.t_tip = (211, -15, 255, 29);
        return;
    }
    let o = st.t_tip;
    raster::fill_rect_black(fb, o.0, o.1, o.2, o.3);
    vector::arc_in_rect(fb, ARC_R_IN, ARC_R_OUT, a, AZURE, 230, o);
    let (tx, ty) = tip(a);
    let n: Area = (tx - 22, ty - 22, tx + 22, ty + 22);
    vector::arc_in_rect(fb, ARC_R_IN, ARC_R_OUT, a, AZURE, 230, n);
    vector::soft_dot(fb, tx, ty, 9, AZURE, 210);
    st.t_last_a = a;
    st.t_tip = n;
    wfb.mark_rect(
        imath::imin(o.0, n.0),
        imath::imin(o.1, n.1),
        imath::imax(o.2, n.2),
        imath::imax(o.3, n.3),
    );
}

/// One tick of the resting time app at `now_ms` on the running clock.
pub fn time_tick(wfb: &mut WatchFb, assets: &AppAssets, now: &WallTime, now_ms: u64, st: &mut State)
    requires
        old(wfb).wf(),
        apps::assets_ok(*assets),
        state_ok(*old(st), now_ms),
    ensures
        final(wfb).wf(),
        final(wfb).w() == old(wfb).w(),
        final(wfb).h() == old(wfb).h(),
        state_ok(*final(st), now_ms),
        (Face { fb: final(wfb).canvas(), damage: final(wfb).damage(), st: *final(st) }) == time_ticked(
            (Face { fb: old(wfb).canvas(), damage: old(wfb).damage(), st: *old(st) }),
            *assets,
            old(wfb).w(),
            old(wfb).h(),
            *now,
            now_ms,
        ),
{
    match st.t_anchor {
        None => {
            let a: i32 = imath::imax(now.second as i32 * 1024 / 60, 4);
            let (tx, ty) = tip(a);
            let fb = wfb.buf_mut();
            raster::fill_rect_black(fb, 123, 26, 343, 66);
            vector::clear_annulus(fb, ARC_R_IN - 2, ARC_R_OUT + 2);
            vector::draw_ring_arc(fb, 233, 233, ARC_R_IN, ARC_R_OUT, a, AZURE, 230);
            vector::soft_dot(fb, tx, ty, 9, AZURE, 210);
            st.t_sec = now.second;
            st.t_anchor = Some(now_ms);
            st.t_last_a = a;
            st.t_tip = (tx - 22, ty - 22, tx + 22, ty + 22);
            wfb.mark_rect(0, 0, 465, 465);
        },
        Some(since) => {
            let mut anchor: u64 = since;
            if st.t_sec != now.second {
                st.t_sec = now.second;
                st.t_anchor = Some(now_ms);
                anchor = now_ms;
            }
            if st.t_min != now.minute {
                st.t_min = now.minute;
                let fb = wfb.buf_mut();
                raster::fill_rect_black(fb, 63, 150, 403, 310);
                let _tw: i32 = draw_digits(fb, assets, now, 0, 256);
                wfb.mark_rect(63, 150, 403, 310);
            }
            let past: u64 = now_ms - anchor;
            let sub: i32 = if past < 999 { past as i32 } else { 999 };
            let ms: i32 = st.t_sec as i32 * 1000 + sub;
            let a: i32 = imath::imax(imath::iclamp(ms * 1024 / 60_000, 0, 1023), 4);
            move_arc(wfb, st, a);
        },
    }
}

/// The arc never goes back while the minute runs, and a whole minute is a whole turn.
pub proof fn lemma_arc_angle(a: int, b: int)
    requires
        0 <= a <= b,
    ensures
        4 <= arc_angle(a) <= arc_angle(b) <= 1023,
        b >= 59_999 ==> arc_angle(b) == 1023,
{
}

} // verus!
