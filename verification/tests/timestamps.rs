use chrono::{DateTime, Utc};
use tycho_token_cache::timestamp::{Timestamp, MAX_SECS, MIN_SECS};

#[test]
fn range_is_the_one_of_chrono() {
    assert_eq!(MIN_SECS, DateTime::<Utc>::MIN_UTC.timestamp());
    assert_eq!(MAX_SECS, DateTime::<Utc>::MAX_UTC.timestamp());
    for (secs, nanos) in [
        (MIN_SECS - 1, 0),
        (MIN_SECS, 0),
        (MAX_SECS, 999_999_999),
        (MAX_SECS, 1_000_000_000),
        (MAX_SECS, 1_999_999_999),
        (MAX_SECS + 1, 0),
        (i64::MIN, 0),
        (i64::MAX, 0),
        (0, 999_999_999),
        (0, 1_000_000_000),
        (59, 1_000_000_000),
        (-1, 1_999_999_999),
        (-1, 2_000_000_000),
        (-60, 1_500_000_000),
        (-61, 1_500_000_000),
        (58, 1_500_000_000),
        (59, u32::MAX),
    ] {
        let ours = Timestamp::from_timestamp(secs, nanos);
        let theirs = DateTime::from_timestamp(secs, nanos);
        assert_eq!(ours.is_some(), theirs.is_some(), "{secs} {nanos}");
        if let (Some(ours), Some(theirs)) = (ours, theirs) {
            assert_eq!(ours.timestamp_micros(), theirs.timestamp_micros(), "{secs} {nanos}");
            assert_eq!(ours.timestamp(), theirs.timestamp());
            assert_eq!(ours.timestamp_subsec_nanos(), theirs.timestamp_subsec_nanos());
        }
    }
}

#[test]
fn micros_are_exact_and_rounded_down() {
    let micros = |secs: i64, nanos: u32| {
        Timestamp::from_timestamp(secs, nanos).unwrap().timestamp_micros()
    };
    assert_eq!(micros(0, 0), 0);
    assert_eq!(micros(1_700_000_000, 123_456_789), 1_700_000_000_123_456);
    assert_eq!(micros(-1, 0), -1_000_000);
    assert_eq!(micros(-1, 999_999_999), -1);
    assert_eq!(micros(59, 1_500_000_000), 60_500_000);
    assert_eq!(micros(MIN_SECS, 0), MIN_SECS * 1_000_000);
    assert_eq!(micros(MAX_SECS, 999_999_999), MAX_SECS * 1_000_000 + 999_999);
}

#[test]
fn later_of_two_times() {
    let at = |secs: i64, nanos: u32| Timestamp::from_timestamp(secs, nanos).unwrap();
    assert_eq!(at(1, 5).max(at(1, 6)), at(1, 6));
    assert_eq!(at(2, 0).max(at(1, 999_999_999)), at(2, 0));
    assert_eq!(at(-2, 7).max(at(-3, 8)), at(-2, 7));
    assert_eq!(Timestamp::epoch(), at(0, 0));
}
