//! Civil time: the proleptic Gregorian calendar counted in days and seconds from
//! 2000-01-01 00:00 local, and the RTC-anchored wall clock.
use vstd::prelude::*;

use crate::drivers::pcf85063::RtcTime;

verus! {

/// Seconds added to the build timestamp when the RTC is seeded: link, flash and boot
/// latency.
pub const FLASH_FUDGE_SECS: u32 = 40;
/// Interval after which the RTC is read again.
pub const RESYNC_SECS: u64 = 3_600;

/// Broken-down local wall time.
#[derive(Clone, Copy, Debug, PartialEq, Eq, Structural)]
pub struct WallTime {
    pub year: u16,
    /// 1..=12
    pub month: u8,
    pub day: u8,
    pub hour: u8,
    pub minute: u8,
    pub second: u8,
}

/// Gregorian leap year.
pub open spec fn is_leap(y: int) -> bool {
    y % 4 == 0 && (y % 100 != 0 || y % 400 == 0)
}

/// Length of a month.
pub open spec fn month_len(y: int, m: int) -> int {
    if m == 2 {
        if is_leap(y) { 29 } else { 28 }
    } else if m == 4 || m == 6 || m == 9 || m == 11 {
        30
    } else {
        31
    }
}

/// Days of the year before its month `m`.
pub open spec fn days_before_month(y: int, m: int) -> int
    decreases m,
{
    if m <= 1 { 0 } else { days_before_month(y, m - 1) + month_len(y, m - 1) }
}

/// Leap years among the years 1..=y.
pub open spec fn leaps(y: int) -> int {
    y / 4 - y / 100 + y / 400
}

/// Days between 0001-01-01 and the first day of year `y`.
pub open spec fn year_start(y: int) -> int {
    365 * (y - 1) + leaps(y - 1)
}

/// Days between 2000-01-01 and the given date.
pub open spec fn civil_days(y: int, m: int, d: int) -> int {
    year_start(y) - year_start(2000) + days_before_month(y, m) + d - 1
}

/// A date of the calendar.
pub open spec fn valid_date(y: int, m: int, d: int) -> bool {
    1 <= m <= 12 && 1 <= d <= month_len(y, m)
}

/// Consecutive years start 365 or 366 days apart.
pub proof fn lemma_year_len(y: int)
    ensures
        year_start(y + 1) == year_start(y) + (if is_leap(y) { 366int } else { 365 }),
{
}

proof fn lemma_year_start_monotonic(a: int, b: int)
    requires
        a <= b,
    ensures
        year_start(b) >= year_start(a) + 365 * (b - a),
    decreases b - a,
{
    if a < b {
        lemma_year_start_monotonic(a, b - 1);
        lemma_year_len(b - 1);
    }
}

/// Cumulative month lengths.
pub proof fn lemma_months(y: int)
    ensures
        days_before_month(y, 1) == 0,
        days_before_month(y, 2) == 31,
        days_before_month(y, 3) == (if is_leap(y) { 60int } else { 59 }),
        days_before_month(y, 4) == days_before_month(y, 3) + 31,
        days_before_month(y, 5) == days_before_month(y, 3) + 61,
        days_before_month(y, 6) == days_before_month(y, 3) + 92,
        days_before_month(y, 7) == days_before_month(y, 3) + 122,
        days_before_month(y, 8) == days_before_month(y, 3) + 153,
        days_before_month(y, 9) == days_before_month(y, 3) + 184,
        days_before_month(y, 10) == days_before_month(y, 3) + 214,
        days_before_month(y, 11) == days_before_month(y, 3) + 245,
        days_before_month(y, 12) == days_before_month(y, 3) + 275,
{
    reveal_with_fuel(days_before_month, 13);
}

/// The date on a given day is unique.
pub proof fn lemma_civil_days_injective(y1: int, m1: int, d1: int, y2: int, m2: int, d2: int)
    requires
        valid_date(y1, m1, d1),
        valid_date(y2, m2, d2),
        civil_days(y1, m1, d1) == civil_days(y2, m2, d2),
    ensures
        y1 == y2,
        m1 == m2,
        d1 == d2,
{
    lemma_months(y1);
    lemma_months(y2);
    lemma_year_len(y1);
    lemma_year_len(y2);
    if y1 < y2 {
        lemma_year_start_monotonic(y1 + 1, y2);
    }
    if y2 < y1 {
        lemma_year_start_monotonic(y2 + 1, y1);
    }
}

/// The day count by 400-year eras with years starting in March.
pub open spec fn era_days(y: int, m: int, d: int) -> int {
    let z = if m <= 2 { y - 1 } else { y };
    let era = z / 400;
    let yoe = z % 400;
    let mp = (m + 9) % 12;
    era * 146_097 + yoe * 365 + yoe / 4 - yoe / 100 + (153 * mp + 2) / 5 + d - 1 - 719_468 - 10_957
}

/// For months of the calendar the era count is the calendar's day count.
pub proof fn lemma_era_days(y: int, m: int, d: int)
    requires
        1 <= m <= 12,
    ensures
        era_days(y, m, d) == civil_days(y, m, d),
{
    lemma_months(y);
    let z = if m <= 2 { y - 1 } else { y };
    let era = z / 400;
    let yoe = z % 400;
    assert(z == era * 400 + yoe);
    assert(z / 4 == era * 100 + yoe / 4);
    assert(z / 100 == era * 4 + yoe / 100);
    assert(leaps(z) == era * 97 + yoe / 4 - yoe / 100);
    assert(year_start(2000) == 730_119);
    assert(y - 1 == z || y == z);
    lemma_year_len(y);
}

/// Days since 2000-01-01 for a civil date.
pub fn days_from_civil(y: i32, m: u32, d: u32) -> (r: i64)
    ensures
        r == era_days(y as int, m as int, d as int),
        1 <= m <= 12 ==> r == civil_days(y as int, m as int, d as int),
{
    proof {
        if 1 <= m <= 12 {
            lemma_era_days(y as int, m as int, d as int);
        }
    }
    let z: i64 = if m <= 2 { y as i64 - 1 } else { y as i64 };
    let era: i64 = (if z >= 0 { z } else { z - 399 }) / 400;
    let yoe: i64 = z - era * 400;
    assert(era == z as int / 400);
    assert(yoe == z as int % 400);
    let mp: i64 = (m as i64 + 9) % 12;
    let doy: i64 = (153 * mp + 2) / 5 + d as i64 - 1;
    let doe: i64 = yoe * 365 + yoe / 4 - yoe / 100 + doy;
    era * 146_097 + doe - 719_468 - 10_957
}

/// Year of the era that holds day `doe` of the era.
pub open spec fn year_of_era(doe: int) -> int {
    (doe - doe / 1_460 + doe / 36_524 - doe / 146_096) / 365
}

proof fn lemma_year_of_era(doe: int)
    requires
        0 <= doe <= 146_096,
    ensures
        0 <= year_of_era(doe) <= 399,
        0 <= doe - (365 * year_of_era(doe) + year_of_era(doe) / 4 - year_of_era(doe) / 100) <= 365,
        doe - (365 * year_of_era(doe) + year_of_era(doe) / 4 - year_of_era(doe) / 100) == 365 ==> is_leap(
            year_of_era(doe) + 1,
        ),
{
    let yoe = year_of_era(doe);
    let a = doe / 1_460;
    let b = doe / 36_524;
    let c = doe / 146_096;
    assert(0 <= b <= 4);
    assert(c == 0 || doe == 146_096);
    if b == 0 {
    } else if b == 1 {
    } else if b == 2 {
    } else if b == 3 {
    } else {
        assert(doe == 146_096);
    }
}

/// Days in the month that starts `mp` months after March.
pub open spec fn march_month_len(mp: int) -> int {
    if mp == 11 {
        29
    } else if mp == 1 || mp == 3 || mp == 6 || mp == 8 {
        30
    } else {
        31
    }
}

proof fn lemma_month_of_year(doy: int)
    requires
        0 <= doy <= 365,
    ensures
        0 <= (5 * doy + 2) / 153 <= 11,
        1 <= doy - (153 * ((5 * doy + 2) / 153) + 2) / 5 + 1 <= march_month_len((5 * doy + 2) / 153),
        doy - (153 * ((5 * doy + 2) / 153) + 2) / 5 + 1 == 29 && (5 * doy + 2) / 153 == 11 ==> doy == 365,
{
    let mp = (5 * doy + 2) / 153;
    assert(153 * mp <= 5 * doy + 2 < 153 * mp + 153);
    assert(mp == 0 || mp == 1 || mp == 2 || mp == 3 || mp == 4 || mp == 5 || mp == 6 || mp == 7 || mp == 8
        || mp == 9 || mp == 10 || mp == 11);
}

proof fn lemma_leap_shift(a: int, era: int)
    requires
        is_leap(a),
    ensures
        is_leap(a + 400 * era),
{
    assert((a + 400 * era) % 4 == a % 4);
    assert((a + 400 * era) % 100 == a % 100);
    assert((a + 400 * era) % 400 == a % 400);
}

proof fn lemma_march_date(yoe: int, era: int, doy: int, mp: int, y: int, m: int, d: int)
    requires
        0 <= yoe <= 399,
        0 <= doy <= 365,
        doy == 365 ==> is_leap(yoe + 1),
        mp == (5 * doy + 2) / 153,
        d == doy - (153 * mp + 2) / 5 + 1,
        m == (if mp < 10 { mp + 3 } else { mp - 9 }),
        y == yoe + era * 400 + (if m <= 2 { 1int } else { 0 }),
    ensures
        valid_date(y, m, d),
        era_days(y, m, d) == era * 146_097 + yoe * 365 + yoe / 4 - yoe / 100 + doy - 719_468 - 10_957,
{
    lemma_month_of_year(doy);
    if m == 2 && d == 29 {
        lemma_leap_shift(yoe + 1, era);
    }
    assert(valid_date(y, m, d));
    assert(era_days(y, m, d) == era * 146_097 + yoe * 365 + yoe / 4 - yoe / 100 + doy - 719_468 - 10_957) by {
        let z = yoe + era * 400;
        assert(z / 400 == era);
        assert(z % 400 == yoe);
        assert((m + 9) % 12 == mp);
    }
}

/// The civil date `days_2000` days after 2000-01-01.
pub fn civil_from_days(days_2000: u32) -> (r: (u16, u8, u8))
    requires
        days_2000 < 23_206_047,
    ensures
        valid_date(r.0 as int, r.1 as int, r.2 as int),
        civil_days(r.0 as int, r.1 as int, r.2 as int) == days_2000,
        era_days(r.0 as int, r.1 as int, r.2 as int) == days_2000,
        r.0 >= 2000,
{
    let z: i64 = days_2000 as i64 + 10_957 + 719_468;
    let era: i64 = z / 146_097;
    let doe: i64 = z - era * 146_097;
    proof {
        lemma_year_of_era(doe as int);
    }
    let yoe: i64 = (doe - doe / 1_460 + doe / 36_524 - doe / 146_096) / 365;
    let y: i64 = yoe + era * 400;
    let doy: i64 = doe - (365 * yoe + yoe / 4 - yoe / 100);
    proof {
        lemma_month_of_year(doy as int);
    }
    let mp: i64 = (5 * doy + 2) / 153;
    let d: u8 = (doy - (153 * mp + 2) / 5 + 1) as u8;
    let m: u8 = (if mp < 10 { mp + 3 } else { mp - 9 }) as u8;
    let y2: i64 = if m <= 2 { y + 1 } else { y };
    proof {
        lemma_march_date(yoe as int, era as int, doy as int, mp as int, y2 as int, m as int, d as int);
        lemma_era_days(y2 as int, m as int, d as int);
        lemma_date_range(y2 as int, m as int, d as int);
    }
    (y2 as u16, m, d)
}

proof fn lemma_date_range(y: int, m: int, d: int)
    requires
        valid_date(y, m, d),
        0 <= civil_days(y, m, d) < 23_206_047,
    ensures
        2000 <= y <= 65535,
{
    lemma_months(y);
    lemma_year_len(y);
    if y < 2000 {
        lemma_year_start_monotonic(y + 1, 2000);
    }
    if y > 65535 {
        assert(year_start(65536) - year_start(2000) == 23_206_047);
        lemma_year_start_monotonic(65536, y);
    }
}

/// Going to the date and back gives the day again.
pub proof fn lemma_days_round_trip(days: int, y: int, m: int, d: int)
    requires
        valid_date(y, m, d),
        civil_days(y, m, d) == days,
    ensures
        era_days(y, m, d) == days,
        forall|y2: int, m2: int, d2: int|
            valid_date(y2, m2, d2) && #[trigger] civil_days(y2, m2, d2) == days ==> y2 == y && m2 == m && d2
                == d,
{
    lemma_era_days(y, m, d);
    assert forall|y2: int, m2: int, d2: int|
        valid_date(y2, m2, d2) && #[trigger] civil_days(y2, m2, d2) == days implies y2 == y && m2 == m && d2
        == d by {
        lemma_civil_days_injective(y, m, d, y2, m2, d2);
    }
}

/// `w` is the local time `secs` seconds after 2000-01-01 00:00.
pub open spec fn is_time_at(w: WallTime, secs: int) -> bool {
    &&& valid_date(w.year as int, w.month as int, w.day as int)
    &&& w.hour < 24
    &&& w.minute < 60
    &&& w.second < 60
    &&& civil_days(w.year as int, w.month as int, w.day as int) * 86_400 + w.hour * 3_600 + w.minute * 60 + w.second
        == secs
}

/// There is one local time for each second.
pub proof fn lemma_time_unique(a: WallTime, b: WallTime, secs: int)
    requires
        is_time_at(a, secs),
        is_time_at(b, secs),
    ensures
        a == b,
{
    lemma_civil_days_injective(
        a.year as int,
        a.month as int,
        a.day as int,
        b.year as int,
        b.month as int,
        b.day as int,
    );
}

/// Broken-down local time of a second count.
pub fn secs_to_civil(secs: u32) -> (w: WallTime)
    ensures
        is_time_at(w, secs as int),
        w.year >= 2000,
{
    let days: u32 = secs / 86_400;
    let rem: u32 = secs % 86_400;
    let (year, month, day) = civil_from_days(days);
    WallTime {
        year,
        month,
        day,
        hour: (rem / 3_600) as u8,
        minute: ((rem / 60) % 60) as u8,
        second: (rem % 60) as u8,
    }
}

/// Weekday of the day `days` after 2000-01-01, a Saturday; 0 is Sunday.
pub open spec fn weekday_of(days: int) -> int {
    (days + 6) % 7
}

pub fn weekday_from_days(days: u32) -> (r: u8)
    requires
        days <= u32::MAX - 6,
    ensures
        r == weekday_of(days as int),
        r <= 6,
{
    ((days + 6) % 7) as u8
}

/// Seconds from 2000-01-01 00:00 to an RTC reading.
pub open spec fn rtc_secs(t: RtcTime) -> int {
    era_days(t.year as int, t.month as int, t.day as int) * 86_400 + t.hour * 3_600 + t.minute * 60 + t.second
}

/// The reading is not before 2000 and its second count fits 32 bits.
pub open spec fn rtc_countable(t: RtcTime) -> bool {
    0 <= era_days(t.year as int, t.month as int, t.day as int) && rtc_secs(t) <= u32::MAX
}

/// Every date and time of 2000..=2099 is countable.
pub proof fn lemma_rtc_countable(t: RtcTime)
    requires
        2000 <= t.year <= 2099,
        valid_date(t.year as int, t.month as int, t.day as int),
        t.hour < 24,
        t.minute < 60,
        t.second < 60,
    ensures
        rtc_countable(t),
{
    lemma_era_days(t.year as int, t.month as int, t.day as int);
    lemma_months(t.year as int);
    lemma_year_start_monotonic(2000, t.year as int);
    lemma_year_len(t.year as int);
    lemma_year_start_monotonic(t.year + 1, 2100);
}

/// Whether a reading can be counted in seconds since 2000.
pub fn rtc_is_countable(t: &RtcTime) -> (r: bool)
    ensures
        r == rtc_countable(*t),
{
    let days: i64 = days_from_civil(t.year as i32, t.month as u32, t.day as u32);
    proof {
        lemma_era_bounds(t.year as int, t.month as int, t.day as int);
    }
    days >= 0 && days * 86_400 + t.hour as i64 * 3_600 + t.minute as i64 * 60 + t.second as i64 <= 0xffff_ffff
}

proof fn lemma_era_bounds(y: int, m: int, d: int)
    requires
        0 <= y <= 65535,
        0 <= m <= 255,
        0 <= d <= 255,
    ensures
        -1_000_000 <= era_days(y, m, d) <= 100_000_000,
{
    let z = if m <= 2 { y - 1 } else { y };
    assert(-1 <= z / 400 <= 164);
    assert(0 <= z % 400 < 400);
}

/// Seconds since 2000-01-01 00:00 of an RTC reading.
pub fn rtc_to_secs(t: &RtcTime) -> (r: u32)
    requires
        rtc_countable(*t),
    ensures
        r == rtc_secs(*t),
{
    let days: i64 = days_from_civil(t.year as i32, t.month as u32, t.day as u32);
    days as u32 * 86_400 + t.hour as u32 * 3_600 + t.minute as u32 * 60 + t.second as u32
}

/// A time written to the RTC and read back counts the same seconds.
pub proof fn lemma_seed_round_trip(w: WallTime, t: RtcTime, secs: int)
    requires
        is_time_at(w, secs),
        t.year == w.year,
        t.month == w.month,
        t.day == w.day,
        t.hour == w.hour,
        t.minute == w.minute,
        t.second == w.second,
    ensures
        rtc_secs(t) == secs,
{
    lemma_era_days(w.year as int, w.month as int, w.day as int);
}

/// Wall clock: a second count and the monotonic second at which it held.
pub struct WallClock {
    pub base_secs: u32,
    pub anchor_secs: u64,
}

/// What to write to an RTC that cannot be trusted.
pub struct Seed {
    pub time: RtcTime,
    /// 0 is Sunday.
    pub weekday: u8,
}

/// The RTC is not trusted when it cannot be read, lost its integrity or reads earlier than
/// the build.
pub open spec fn needs_seed(reading: Option<(RtcTime, bool)>, build_secs: int) -> bool {
    match reading {
        Some((t, vl)) => vl || rtc_secs(t) < build_secs,
        None => true,
    }
}

impl WallClock {
    /// Start from an RTC reading (`None` when the read failed; the flag tells that the
    /// integrity was lost), or from the build time, which is then to be written to the RTC.
    pub fn init(reading: Option<(RtcTime, bool)>, build_secs: u32, now_secs: u64) -> (r: (Self, Option<Seed>))
        requires
            build_secs <= u32::MAX - FLASH_FUDGE_SECS,
            reading is Some ==> rtc_countable((reading->0).0),
        ensures
            r.0.anchor_secs == now_secs,
            needs_seed(reading, build_secs as int) <==> r.1 is Some,
            r.0.base_secs == (if needs_seed(reading, build_secs as int) {
                build_secs + FLASH_FUDGE_SECS
            } else {
                rtc_secs((reading->0).0)
            }),
            r.1 is Some ==> {
                &&& rtc_secs(r.1->0.time) == build_secs + FLASH_FUDGE_SECS
                &&& r.1->0.time.year >= 2000
                &&& valid_date(r.1->0.time.year as int, r.1->0.time.month as int, r.1->0.time.day as int)
                &&& r.1->0.time.hour < 24
                &&& r.1->0.time.minute < 60
                &&& r.1->0.time.second < 60
                &&& r.1->0.weekday == weekday_of((build_secs + FLASH_FUDGE_SECS) / 86_400)
            },
    {
        let (rtc, vl): (u32, bool) = match reading {
            Some((t, vl)) => (rtc_to_secs(&t), vl),
            None => (0, true),
        };
        if vl || rtc < build_secs {
            let target: u32 = build_secs + FLASH_FUDGE_SECS;
            let w = secs_to_civil(target);
            let time = RtcTime {
                year: w.year,
                month: w.month,
                day: w.day,
                hour: w.hour,
                minute: w.minute,
                second: w.second,
            };
            proof {
                lemma_seed_round_trip(w, time, target as int);
            }
            let weekday: u8 = weekday_from_days(target / 86_400);
            (WallClock { base_secs: target, anchor_secs: now_secs }, Some(Seed { time, weekday }))
        } else {
            (WallClock { base_secs: rtc, anchor_secs: now_secs }, None)
        }
    }

    /// The clock can tell the time at monotonic second `now_secs`.
    pub open spec fn tells(&self, now_secs: int) -> bool {
        self.anchor_secs <= now_secs && self.base_secs + (now_secs - self.anchor_secs) <= u32::MAX
    }

    /// Local time: the base plus what has elapsed since the anchor.
    pub fn now(&self, now_secs: u64) -> (w: WallTime)
        requires
            self.tells(now_secs as int),
        ensures
            is_time_at(w, self.base_secs + (now_secs - self.anchor_secs)),
            w.year >= 2000,
    {
        secs_to_civil(self.base_secs + (now_secs - self.anchor_secs) as u32)
    }

    /// The RTC should be read again.
    pub fn resync_due(&self, now_secs: u64) -> (r: bool)
        requires
            self.anchor_secs <= now_secs,
        ensures
            r == (now_secs - self.anchor_secs >= RESYNC_SECS),
    {
        now_secs - self.anchor_secs >= RESYNC_SECS
    }

    /// Anchor the clock again once an hour, on a reading that kept its integrity.
    pub fn maybe_resync(&mut self, now_secs: u64, reading: Option<(RtcTime, bool)>)
        requires
            old(self).anchor_secs <= now_secs,
            reading is Some ==> rtc_countable((reading->0).0),
        ensures
            ({
                let due = now_secs - old(self).anchor_secs >= RESYNC_SECS && reading is Some && !(reading->0).1;
                &&& due ==> final(self).base_secs == rtc_secs((reading->0).0) && final(self).anchor_secs == now_secs
                &&& !due ==> *final(self) == *old(self)
            }),
    {
        if now_secs - self.anchor_secs < RESYNC_SECS {
            return;
        }
        if let Some((t, vl)) = reading {
            if !vl {
                self.base_secs = rtc_to_secs(&t);
                self.anchor_secs = now_secs;
            }
        }
    }
}

/// At start the clock is believed only where it answered, kept its supply and is not behind the
/// build: a good reading is taken as it stands, and a later build can only distrust more.
pub proof fn lemma_seeding(t: RtcTime, vl: bool, build: int, later: int)
    requires
        build <= later,
    ensures
        needs_seed(None, build),
        needs_seed(Some((t, true)), build),
        needs_seed(Some((t, vl)), build) ==> needs_seed(Some((t, vl)), later),
        !vl ==> (needs_seed(Some((t, vl)), build) <==> rtc_secs(t) < build),
{
}

} // verus!
