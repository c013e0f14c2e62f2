use temporal_db::timeline::Timeline;
use temporal_db::{Event, EventPayload, Timestamp};

fn create_test_event(ts: Timestamp, entity_id: &str) -> Event {
    let data = serde_json::to_vec(&serde_json::Value::String("test".to_string())).unwrap();
    let payload = EventPayload::new(data, "json".to_string());
    Event::new("test.event".to_string(), ts, entity_id.to_string(), payload)
}

#[test]
fn test_timeline_creation() {
    let timeline = Timeline::new("entity:1".to_string());
    assert_eq!(timeline.entity_id(), "entity:1");
    assert!(timeline.is_empty());
}

#[test]
fn test_timeline_append() {
    let mut timeline = Timeline::new("entity:1".to_string());
    let ts1 = Timestamp::from_secs(1000);
    let ts2 = Timestamp::from_secs(2000);

    timeline.append(create_test_event(ts1, "entity:1"));
    timeline.append(create_test_event(ts2, "entity:1"));

    assert_eq!(timeline.len(), 2);
    assert_eq!(timeline.version(), 2);
}

#[test]
fn test_timeline_range_query() {
    let mut timeline = Timeline::new("entity:1".to_string());
    let ts1 = Timestamp::from_secs(1000);
    let ts2 = Timestamp::from_secs(2000);
    let ts3 = Timestamp::from_secs(3000);

    timeline.append(create_test_event(ts1, "entity:1"));
    timeline.append(create_test_event(ts2, "entity:1"));
    timeline.append(create_test_event(ts3, "entity:1"));

    let events = timeline.events_in_range(Timestamp::from_secs(1500), Timestamp::from_secs(2500));
    assert_eq!(events.len(), 1);
}

#[test]
fn test_timeline_latest_before() {
    let mut timeline = Timeline::new("entity:1".to_string());
    let ts1 = Timestamp::from_secs(1000);
    let ts2 = Timestamp::from_secs(2000);

    timeline.append(create_test_event(ts1, "entity:1"));
    timeline.append(create_test_event(ts2, "entity:1"));

    let latest = timeline.latest_before(Timestamp::from_secs(1500));
    assert!(latest.is_some());
    assert_eq!(latest.unwrap().timestamp(), ts1);
}

#[test]
fn test_timeline_latest_before_monotonic() {
    let mut timeline = Timeline::new("entity:1".to_string());
    for secs in [1000i64, 2000, 3000] {
        timeline.append(create_test_event(Timestamp::from_secs(secs), "entity:1"));
    }
    let mut last_seen = i64::MIN;
    for probe in [500i64, 1000, 1500, 2500, 3500] {
        if let Some(e) = timeline.latest_before(Timestamp::from_secs(probe)) {
            assert!(e.timestamp().as_nanos() >= last_seen);
            last_seen = e.timestamp().as_nanos();
        }
    }
}

#[test]
fn test_timeline_earliest_after_and_bounds() {
    let mut timeline = Timeline::new("entity:1".to_string());
    timeline.append(create_test_event(Timestamp::from_secs(2000), "entity:1"));
    timeline.append(create_test_event(Timestamp::from_secs(1000), "entity:1"));

    assert_eq!(timeline.first_timestamp(), Some(Timestamp::from_secs(1000)));
    assert_eq!(timeline.last_timestamp(), Some(Timestamp::from_secs(2000)));
    let earliest = timeline.earliest_after(Timestamp::from_secs(1500)).unwrap();
    assert_eq!(earliest.timestamp(), Timestamp::from_secs(2000));
    assert!(timeline.earliest_after(Timestamp::from_secs(2500)).is_none());
}

#[test]
fn test_timeline_merge_deduplicates() {
    let mut a = Timeline::new("entity:1".to_string());
    let mut b = Timeline::new("entity:1".to_string());
    let shared = create_test_event(Timestamp::from_secs(1000), "entity:1");
    a.append(shared.clone());
    b.append(shared.clone());
    b.append(create_test_event(Timestamp::from_secs(2000), "entity:1"));

    a.merge(&b);
    assert_eq!(a.len(), 2);

    let mut other_entity = Timeline::new("entity:2".to_string());
    other_entity.append(create_test_event(Timestamp::from_secs(3000), "entity:2"));
    a.merge(&other_entity);
    assert_eq!(a.len(), 2);
}
