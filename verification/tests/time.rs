//! The calendar and the wall clock.
use openpocket::drivers::pcf85063::RtcTime;
use openpocket::time;
use openpocket::time::{WallClock, WallTime};

#[test]
fn days_count_from_the_year_2000() {
    assert_eq!(time::days_from_civil(2000, 1, 1), 0);
    assert_eq!(time::days_from_civil(2000, 3, 1), 60);
    assert_eq!(time::days_from_civil(2026, 11, 16), 9_816);
    assert_eq!(time::days_from_civil(1999, 12, 31), -1);
    assert_eq!(time::days_from_civil(1970, 1, 1), -10_957);
}

#[test]
fn dates_and_days_are_inverse() {
    for days in (0..36_525u32).step_by(7) {
        let (y, m, d) = time::civil_from_days(days);
        assert_eq!(time::days_from_civil(y as i32, m as u32, d as u32), days as i64);
    }
    assert_eq!(time::civil_from_days(0), (2000, 1, 1));
    assert_eq!(time::civil_from_days(59), (2000, 2, 29));
    assert_eq!(time::civil_from_days(60), (2000, 3, 1));
    assert_eq!(time::civil_from_days(366), (2001, 1, 1));
}

#[test]
fn seconds_to_civil_time() {
    assert_eq!(
        time::secs_to_civil(9_816 * 86_400 + 3_661),
        WallTime { year: 2026, month: 11, day: 16, hour: 1, minute: 1, second: 1 }
    );
    assert_eq!(
        time::secs_to_civil(u32::MAX),
        WallTime { year: 2136, month: 2, day: 7, hour: 6, minute: 28, second: 15 }
    );
}

#[test]
fn weekdays_start_on_a_saturday() {
    assert_eq!(time::weekday_from_days(0), 6);
    assert_eq!(time::weekday_from_days(1), 0);
    assert_eq!(time::weekday_from_days(9_816), 1);
}

fn reading(year: u16) -> RtcTime {
    RtcTime { year, month: 1, day: 1, hour: 0, minute: 0, second: 5 }
}

#[test]
fn readings_before_2000_do_not_count() {
    assert!(time::rtc_is_countable(&reading(2000)));
    assert!(!time::rtc_is_countable(&reading(1999)));
    assert!(!time::rtc_is_countable(&reading(2200)));
    assert_eq!(time::rtc_to_secs(&reading(2001)), 366 * 86_400 + 5);
}

#[test]
fn good_reading_is_kept() {
    let (w, seed) = WallClock::init(Some((reading(2030), false)), 1000, 77);
    assert!(seed.is_none());
    assert_eq!(w.now(77).year, 2030);
    assert_eq!(w.now(77 + 60).minute, 1);
}

#[test]
fn lost_or_lagging_clock_is_seeded() {
    let build = 9_816 * 86_400;
    for r in [None, Some((reading(2030), true)), Some((reading(2001), false))] {
        let (w, seed) = WallClock::init(r, build, 0);
        let seed = seed.unwrap();
        assert_eq!(seed.weekday, 1);
        assert_eq!(time::rtc_to_secs(&seed.time), build + time::FLASH_FUDGE_SECS);
        assert_eq!(w.base_secs, build + 40);
        assert_eq!(w.now(0).second, 40);
    }
}

#[test]
fn resync_once_an_hour_on_a_sound_reading() {
    let (mut w, _) = WallClock::init(Some((reading(2030), false)), 0, 0);
    let base = w.base_secs;
    assert!(!w.resync_due(3_599));
    w.maybe_resync(3_599, Some((reading(2031), false)));
    assert_eq!(w.base_secs, base);
    assert!(w.resync_due(3_600));
    w.maybe_resync(3_600, Some((reading(2031), true)));
    w.maybe_resync(3_600, None);
    assert_eq!((w.base_secs, w.anchor_secs), (base, 0));
    w.maybe_resync(3_600, Some((reading(2031), false)));
    assert_eq!(w.anchor_secs, 3_600);
    assert_eq!(w.now(3_600).year, 2031);
}
