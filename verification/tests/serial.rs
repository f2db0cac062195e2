use chrono::{DateTime, NaiveDate, Utc};
use toggl2sheets::double::Double;
use toggl2sheets::serial::{from_serial_number, is_serial_in_range, to_serial_number};
use toggl2sheets::timestamp::{Timestamp, MAX_SECS, MIN_SECS};

fn timestamp(t: DateTime<Utc>) -> Timestamp {
    Timestamp::new(t.timestamp(), t.timestamp_subsec_nanos()).unwrap()
}

fn double(x: f64) -> Double {
    Double::from_bits(x.to_bits()).unwrap()
}

fn serial(t: Timestamp) -> f64 {
    f64::from_bits(to_serial_number(t).to_bits())
}

#[test]
fn test_serial_number_conversion() {
    let to_utc = |y, m, d, h, min, s| {
        timestamp(
            NaiveDate::from_ymd_opt(y, m, d)
                .unwrap()
                .and_hms_opt(h, min, s)
                .unwrap()
                .and_utc(),
        )
    };

    // 1899-12-30 is 0.0
    assert!(
        (serial(to_utc(1899, 12, 30, 0, 0, 0)) - 0.0).abs() < 1e-6,
        "1899-12-30 should be 0.0"
    );

    // 1900-01-01 is 2.0
    assert!(
        (serial(to_utc(1900, 1, 1, 0, 0, 0)) - 2.0).abs() < 1e-6,
        "1900-01-01 should be 2.0"
    );

    // 1900-01-01 12:00:00 is 2.5
    assert!(
        (serial(to_utc(1900, 1, 1, 12, 0, 0)) - 2.5).abs() < 1e-6,
        "1900-01-01 noon should be 2.5"
    );

    // Unix Epoch: 1970-01-01 is 25569.0
    assert!(
        (serial(to_utc(1970, 1, 1, 0, 0, 0)) - 25569.0).abs() < 1e-6,
        "1970-01-01 should be 25569.0"
    );
}

#[test]
fn whole_days_have_whole_serial_numbers() {
    for days in [0i64, 1, 2, -1, 25_569, 45_000, -700_000] {
        let t = Timestamp::new(-2_209_161_600 + days * 86_400, 0).unwrap();
        assert_eq!(serial(t), days as f64);
    }
}

#[test]
fn serial_numbers_are_quotients_of_milliseconds() {
    for (secs, nanos) in [
        (0, 0),
        (1_740_838_402, 0),
        (1_740_838_402, 123_456_789),
        (-5_000_000_000, 1),
        (-2_209_161_601, 999_500_000),
        (MIN_SECS, 0),
        (MAX_SECS, 999_999_999),
    ] {
        let t = Timestamp::new(secs, nanos).unwrap();
        let nanos = (secs + 2_209_161_600) as i128 * 1_000_000_000 + nanos as i128;
        assert_eq!(serial(t), (nanos / 1_000_000) as f64 / 86_400_000.0);
    }
}

#[test]
fn serial_numbers_are_in_the_order_of_time() {
    let mut last = f64::MIN;
    for secs in (MIN_SECS..MAX_SECS).step_by(86_413_000_000) {
        let x = serial(Timestamp::new(secs, 0).unwrap());
        assert!(last < x);
        last = x;
    }
}

#[test]
fn serial_numbers_are_read() {
    assert_eq!(from_serial_number(double(25569.0)), Timestamp::new(0, 0).unwrap());
    assert_eq!(from_serial_number(double(25569.5)), Timestamp::new(43_200, 0).unwrap());
    assert_eq!(from_serial_number(double(-0.25)), Timestamp::new(-2_209_183_200, 0).unwrap());
    assert_eq!(from_serial_number(double(0.0)), Timestamp::new(-2_209_161_600, 0).unwrap());
}

#[test]
fn the_range_of_serial_numbers_is_that_of_dates() {
    let latest = (MAX_SECS + 2_209_161_600 + 1) as f64 / 86_400.0;
    let earliest = (MIN_SECS + 2_209_161_600) as f64 / 86_400.0;
    assert!(is_serial_in_range(double(25569.0)));
    assert!(is_serial_in_range(double(latest - 0.5)));
    assert!(!is_serial_in_range(double(latest)));
    assert!(is_serial_in_range(double(earliest)));
    assert!(!is_serial_in_range(double(earliest - 0.5)));
    assert!(!is_serial_in_range(double(1.0e300)));
    assert!(!is_serial_in_range(double(-1.0e300)));
}

#[test]
fn reading_back_loses_a_millisecond_at_most() {
    for secs in 1_740_838_400..1_740_839_400 {
        let t = Timestamp::new(secs, 0).unwrap();
        let back = from_serial_number(to_serial_number(t));
        assert!(back == t || back == Timestamp::new(secs - 1, 999_000_000).unwrap());
    }
    // This one does lose it.
    let t = Timestamp::new(1_740_838_402, 0).unwrap();
    assert_eq!(
        from_serial_number(to_serial_number(t)),
        Timestamp::new(1_740_838_401, 999_000_000).unwrap()
    );
}

#[test]
fn reading_back_is_at_most_a_millisecond_off_in_every_year() {
    let millis = |t: Timestamp| (t.secs() + 2_209_161_600) * 1000 + t.nanos() as i64 / 1_000_000;
    for secs in (MIN_SECS + 1..MAX_SECS).step_by(86_413_000_123) {
        let t = Timestamp::new(secs, 7_000_000).unwrap();
        let back = from_serial_number(to_serial_number(t));
        assert!((millis(back) - millis(t)).abs() <= 1);
    }
}

#[test]
fn milliseconds_are_told_apart_up_to_two_to_the_26_days() {
    // The last milliseconds of that range, and any others in it.
    for secs in [5_795_996_687_999, 1_740_838_402, -2_209_161_601] {
        for millis in 0..999 {
            let t = Timestamp::new(secs, millis * 1_000_000).unwrap();
            let next = Timestamp::new(secs, (millis + 1) * 1_000_000).unwrap();
            assert!(serial(t) < serial(next));
        }
    }
    let end = Timestamp::new(5_795_996_688_000, 0).unwrap();
    assert_eq!(serial(end), 67_108_864.0);
    assert_eq!(from_serial_number(to_serial_number(end)), end);
    // Two milliseconds beyond it, they are not, and a time can be read back as a later one.
    let t = Timestamp::new(5_795_996_688_000, 2_000_000).unwrap();
    let next = Timestamp::new(5_795_996_688_000, 3_000_000).unwrap();
    assert_eq!(serial(t), serial(next));
    assert_eq!(from_serial_number(to_serial_number(t)), next);
}

#[test]
fn equal_distances_from_the_epoch_have_opposite_serial_numbers() {
    for nanos in [0i128, 1, 999_999, 1_000_000, 86_400_000_000_001, 3_950_000_002_123_456_789] {
        let at = |nanos: i128| {
            let nanos = nanos - 2_209_161_600_000_000_000;
            let secs = nanos.div_euclid(1_000_000_000) as i64;
            Timestamp::new(secs, nanos.rem_euclid(1_000_000_000) as u32).unwrap()
        };
        assert_eq!(serial(at(-nanos)), -serial(at(nanos)));
    }
    assert_eq!(serial(Timestamp::new(-2_209_161_600 - 43_200, 0).unwrap()), -0.5);
}

#[test]
fn no_millisecond_is_lost_by_rounding() {
    let millis = |t: Timestamp| (t.secs() + 2_209_161_600) * 1000 + t.nanos() as i64 / 1_000_000;
    let rounded = |t: Timestamp| (serial(t) * 86_400_000.0).round() as i64;
    // The first second of the year 1, the last of the year 9999, and others.
    for secs in [-62_135_596_800, -2_209_161_601, 1_740_838_402, 253_402_300_799, 2_896_893_763_199] {
        for step in 0..1000 {
            let t = Timestamp::new(secs, step * 1_000_000).unwrap();
            assert_eq!(rounded(t), millis(t));
        }
    }
    // Beyond two to the power of 25 days, a half is rounded up now and then.
    let lost = (0..1000).filter(|step| {
        let t = Timestamp::new(3_000_000_000_000, step * 1_000_000).unwrap();
        rounded(t) != millis(t)
    });
    assert!(lost.count() > 0);
}
