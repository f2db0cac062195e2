use chrono::{DateTime, Duration, NaiveDate, NaiveDateTime, Utc};
use toggl2sheets::timestamp::{Timestamp, MAX_SECS, MIN_SECS};

fn timestamp(secs: i64, nanos: u32) -> Timestamp {
    Timestamp::new(secs, nanos).unwrap()
}

fn date_time(t: Timestamp) -> DateTime<Utc> {
    DateTime::from_timestamp(t.secs(), t.nanos()).unwrap()
}

fn samples() -> Vec<Timestamp> {
    vec![
        timestamp(0, 0),
        timestamp(0, 999_999_999),
        timestamp(-1, 1),
        timestamp(-2_209_161_600, 0),
        timestamp(-2_209_161_601, 999_999_999),
        timestamp(-2_209_161_541, 1_999_999_999),
        timestamp(1_740_838_402, 123_456_789),
        timestamp(1_483_228_799, 1_500_000_000),
        timestamp(1_483_228_800, 400_000_000),
        timestamp(1_483_228_799, 400_000_000),
        timestamp(1_483_225_259, 1_250_000_000),
        timestamp(MIN_SECS, 0),
        timestamp(MAX_SECS, 1_999_999_999),
    ]
}

#[test]
fn a_timestamp_is_whatever_a_date_time_can_be() {
    assert_eq!(DateTime::<Utc>::MIN_UTC.timestamp(), MIN_SECS);
    assert_eq!(DateTime::<Utc>::MAX_UTC.timestamp(), MAX_SECS);
    for secs in [MIN_SECS - 1, MIN_SECS, -61, -60, -1, 0, 58, 59, 60, MAX_SECS, MAX_SECS + 1] {
        for nanos in [0, 999_999_999, 1_000_000_000, 1_999_999_999, 2_000_000_000] {
            assert_eq!(
                Timestamp::new(secs, nanos).is_some(),
                DateTime::from_timestamp(secs, nanos).is_some(),
                "{} {}",
                secs,
                nanos
            );
        }
    }
}

#[test]
fn timestamps_are_ordered_as_date_times_are() {
    for a in samples() {
        for b in samples() {
            assert_eq!(a.before(&b), date_time(a) < date_time(b));
        }
    }
}

#[test]
fn rfc_3339_texts_are_read() {
    let read = |text| Timestamp::from_rfc3339(text);
    assert_eq!(read("1970-01-01T00:00:00+00:00"), Some(timestamp(0, 0)));
    assert_eq!(read("1996-12-19T16:39:57-08:00"), Some(timestamp(851_042_397, 0)));
    assert_eq!(read("2024-02-29T12:00:00.25Z"), Some(timestamp(1_709_208_000, 250_000_000)));
    assert_eq!(read("2016-12-31T23:59:60Z"), Some(timestamp(1_483_228_799, 1_000_000_000)));
    assert_eq!(read("1970-01-01 00:00:00 UTC"), None);
    assert_eq!(read("2023-02-29T12:00:00Z"), None);
    assert_eq!(read("invalid-date"), None);
    assert_eq!(read(""), None);
}

#[test]
fn formatted_texts_are_read() {
    let read = |text| Timestamp::from_formatted(text, "%Y-%m-%d %H:%M:%S");
    assert_eq!(read("1899-12-30 00:00:00"), Some(timestamp(-2_209_161_600, 0)));
    assert_eq!(read("1970-01-02 00:00:01"), Some(timestamp(86_401, 0)));
    assert_eq!(read("1970-01-02 00:00:01 UTC"), None);
    assert_eq!(
        Timestamp::from_formatted("1970-01-02 00:00:01 UTC", "%Y-%m-%d %H:%M:%S UTC"),
        Some(timestamp(86_401, 0))
    );
    assert_eq!(
        NaiveDateTime::parse_from_str("1899-12-30 00:00:00", "%Y-%m-%d %H:%M:%S")
            .unwrap()
            .and_utc()
            .timestamp(),
        toggl2sheets::serial::EPOCH_SECS
    );
}

#[test]
fn rfc_3339_texts_are_written() {
    assert_eq!(timestamp(0, 0).to_rfc3339(), "1970-01-01T00:00:00+00:00");
    assert_eq!(timestamp(851_042_397, 500_000_000).to_rfc3339(), "1996-12-20T00:39:57.500+00:00");
    for t in samples() {
        assert_eq!(t.to_rfc3339(), date_time(t).to_rfc3339());
    }
}

/// The contract of the elapsed milliseconds, written out.
fn elapsed_millis(t: Timestamp, earlier: Timestamp) -> i64 {
    let (day, earlier_day) = (t.secs().rem_euclid(86_400), earlier.secs().rem_euclid(86_400));
    let counted = if day > earlier_day && earlier.nanos() >= 1_000_000_000 {
        1
    } else if day < earlier_day && t.nanos() >= 1_000_000_000 {
        -1
    } else {
        0
    };
    let secs = (t.secs() - earlier.secs() + counted) as i128;
    let nanos = secs * 1_000_000_000 + t.nanos() as i128 - earlier.nanos() as i128;
    (nanos / 1_000_000) as i64
}

#[test]
fn milliseconds_between_timestamps_are_counted() {
    let epoch = timestamp(-2_209_161_600, 0);
    assert_eq!(timestamp(0, 0).millis_since(&epoch), 25_569 * 86_400_000);
    assert_eq!(timestamp(0, 1_999_999).millis_since(&timestamp(0, 0)), 1);
    assert_eq!(timestamp(-1, 998_000_001).millis_since(&timestamp(0, 0)), -1);
    for a in samples() {
        for b in samples() {
            assert_eq!(a.millis_since(&b), elapsed_millis(a, b));
            assert_eq!(
                a.millis_since(&b),
                date_time(a).signed_duration_since(date_time(b)).num_milliseconds()
            );
        }
    }
}

#[test]
fn milliseconds_are_added() {
    assert_eq!(timestamp(10, 5).plus_millis(1_001), timestamp(11, 1_000_005));
    assert_eq!(timestamp(10, 5).plus_millis(-1), timestamp(9, 999_000_005));
    for t in samples() {
        for millis in [0, 1, -1, 999, -999, 86_400_000, -86_400_001] {
            if t.nanos() < 1_000_000_000 && t.secs() > MIN_SECS && t.secs() < MAX_SECS {
                let later = date_time(t) + Duration::milliseconds(millis);
                assert_eq!(date_time(t.plus_millis(millis)), later);
                let nanos = t.secs() as i128 * 1_000_000_000
                    + t.nanos() as i128
                    + millis as i128 * 1_000_000;
                assert_eq!(later.timestamp() as i128, nanos.div_euclid(1_000_000_000));
                assert_eq!(later.timestamp_subsec_nanos() as i128, nanos.rem_euclid(1_000_000_000));
            }
        }
    }
}

#[test]
fn weeks_are_subtracted() {
    assert_eq!(timestamp(604_800, 7).minus_weeks(1), timestamp(0, 7));
    let leap = NaiveDate::from_ymd_opt(2016, 12, 31)
        .unwrap()
        .and_hms_milli_opt(23, 59, 59, 1_500)
        .unwrap()
        .and_utc();
    let t = timestamp(leap.timestamp(), leap.timestamp_subsec_nanos());
    assert_eq!(t.minus_weeks(1), timestamp(1_483_228_800 - 604_800, 500_000_000));
    for t in samples() {
        for weeks in [1, 2, 52] {
            if t.secs() > MIN_SECS {
                assert_eq!(date_time(t.minus_weeks(weeks)), date_time(t) - Duration::weeks(weeks));
            }
        }
    }
}
