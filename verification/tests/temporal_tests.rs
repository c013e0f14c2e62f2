use temporal_db::{TemporalValue, TimePeriod, Timestamp};

#[test]
fn test_timestamp_creation() {
    let ts = Timestamp::now();
    assert!(ts.as_nanos() > 0);

    let ts2 = Timestamp::from_secs(1000);
    assert_eq!(ts2.as_secs(), 1000);
    assert_eq!(ts2.as_millis(), 1_000_000);
}

#[test]
fn test_time_period() {
    let start = Timestamp::from_secs(1000);
    let end = Timestamp::from_secs(2000);
    let period = TimePeriod::range(start, Some(end));

    assert!(period.contains(Timestamp::from_secs(1500)));
    assert!(!period.contains(Timestamp::from_secs(500)));
    assert!(!period.contains(Timestamp::from_secs(2500)));

    let forever = TimePeriod::forever(start);
    assert!(forever.contains(Timestamp::from_secs(10000)));
}

#[test]
fn test_temporal_value() {
    let ts = Timestamp::from_secs(1000);
    let tv = TemporalValue::at_instant("test", ts);

    assert_eq!(tv.value(), &"test");
    assert!(tv.is_valid_at(ts));
    assert!(!tv.is_valid_at(Timestamp::from_secs(2000)));
}

#[test]
fn test_timestamp_conversions() {
    let ts = Timestamp::from_millis(1500);
    assert_eq!(ts.as_nanos(), 1_500_000_000);
    assert_eq!(ts.as_micros(), 1_500_000);
    assert_eq!(ts.as_secs(), 1);

    let neg = Timestamp::from_secs(-3);
    assert_eq!(neg.as_secs(), -3);
    assert_eq!(neg.as_millis(), -3000);

    let shifted = ts.add_nanos(500).sub_nanos(500);
    assert_eq!(shifted.as_nanos(), ts.as_nanos());
}
