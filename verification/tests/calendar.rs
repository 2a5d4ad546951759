use usbmon_collector::calendar::{epoch_days_to_ymd, iso8601, iso8601_of_reading, now_iso8601};

#[test]
fn epoch_is_the_first_of_january_1970() {
    assert_eq!(epoch_days_to_ymd(0), (1970, 1, 1));
}

#[test]
fn leap_days_are_in_the_calendar() {
    assert_eq!(epoch_days_to_ymd(19_782), (2024, 2, 29));
    assert_eq!(epoch_days_to_ymd(19_783), (2024, 3, 1));
    assert_eq!(epoch_days_to_ymd(11_016), (2000, 2, 29));
    assert_eq!(epoch_days_to_ymd(11_017), (2000, 3, 1));
}

#[test]
fn centuries_are_mostly_not_leap() {
    assert_eq!(epoch_days_to_ymd(47_540), (2100, 2, 28));
    assert_eq!(epoch_days_to_ymd(47_541), (2100, 3, 1));
}

#[test]
fn years_turn_over() {
    assert_eq!(epoch_days_to_ymd(10_956), (1999, 12, 31));
    assert_eq!(epoch_days_to_ymd(10_957), (2000, 1, 1));
    assert_eq!(epoch_days_to_ymd(2_932_896), (9999, 12, 31));
}

#[test]
fn every_day_follows_the_one_before() {
    let mut before = epoch_days_to_ymd(0);
    for z in 1..200_000u64 {
        let (y, m, d) = epoch_days_to_ymd(z);
        let leap = before.0 % 4 == 0 && (before.0 % 100 != 0 || before.0 % 400 == 0);
        let last = match before.1 {
            2 => if leap { 29 } else { 28 },
            4 | 6 | 9 | 11 => 30,
            _ => 31,
        };
        let expected = if before.2 < last {
            (before.0, before.1, before.2 + 1)
        } else if before.1 < 12 {
            (before.0, before.1 + 1, 1)
        } else {
            (before.0 + 1, 1, 1)
        };
        assert_eq!((y, m, d), expected);
        before = (y, m, d);
    }
}

#[test]
fn timestamps_are_iso8601() {
    assert_eq!(iso8601(0), "1970-01-01T00:00:00Z");
    assert_eq!(iso8601(1_748_779_200), "2025-06-01T12:00:00Z");
    assert_eq!(iso8601(1_709_251_199), "2024-02-29T23:59:59Z");
    assert_eq!(iso8601(946_684_799), "1999-12-31T23:59:59Z");
}

#[test]
fn timestamps_of_far_years_grow() {
    assert_eq!(iso8601(u64::MAX), "584554051223-11-09T07:00:15Z");
}

#[test]
fn neighbouring_seconds_have_different_timestamps() {
    for secs in 1_748_779_000..1_748_779_400u64 {
        assert_ne!(iso8601(secs), iso8601(secs + 1));
        assert!(iso8601(secs) < iso8601(secs + 1));
    }
}

#[test]
fn a_clock_before_the_epoch_shows_the_epoch() {
    assert_eq!(iso8601_of_reading(None), "1970-01-01T00:00:00Z");
    assert_eq!(iso8601_of_reading(Some(1_748_779_200)), "2025-06-01T12:00:00Z");
}

#[test]
fn now_is_between_two_readings_of_the_clock() {
    let secs = || {
        std::time::SystemTime::now()
            .duration_since(std::time::UNIX_EPOCH)
            .map(|d| d.as_secs())
            .unwrap_or(0)
    };
    let before = secs();
    let now = now_iso8601();
    let after = secs();
    assert!(iso8601(before) <= now && now <= iso8601(after));
}

#[test]
fn timestamps_sort_by_time_up_to_the_year_9999() {
    let moments = [
        0u64, 1, 59, 60, 3_599, 3_600, 86_399, 86_400, 2_678_399, 2_678_400, 31_535_999, 31_536_000,
        946_684_799, 946_684_800, 1_709_251_199, 1_748_779_200, 253_402_300_798, 253_402_300_799,
    ];
    for a in moments {
        for b in moments {
            assert_eq!(iso8601(a) < iso8601(b), a < b, "{} {}", a, b);
        }
    }
    assert_eq!(iso8601(253_402_300_799), "9999-12-31T23:59:59Z");
    assert!(iso8601(253_402_300_800) < iso8601(253_402_300_799));
}
