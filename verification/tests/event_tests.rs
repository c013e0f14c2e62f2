use temporal_db::{Event, EventId, EventPayload, Timestamp};

fn json_payload(text: &str) -> EventPayload {
    let data = serde_json::to_vec(&serde_json::Value::String(text.to_string())).unwrap();
    EventPayload::new(data, "json".to_string())
}

#[test]
fn test_event_creation() {
    let ts = Timestamp::now();
    let payload = json_payload("value");
    let event = Event::new("test.event".to_string(), ts, "entity:1".to_string(), payload);

    assert_eq!(event.event_type(), "test.event");
    assert_eq!(event.entity_id(), "entity:1");
}

#[test]
fn test_event_builder() {
    let ts = Timestamp::now();
    let payload = json_payload("value");
    let event = Event::builder("test.event".to_string(), ts, "entity:1".to_string(), payload)
        .actor("user:123".to_string())
        .tag("important".to_string())
        .build();

    assert_eq!(event.metadata.actor, Some("user:123".to_string()));
    assert!(event.metadata.tags.contains(&"important".to_string()));
}

#[test]
fn test_event_ids_are_fresh() {
    let a = EventId::new();
    let b = EventId::new();
    assert_ne!(a.id, b.id);
    assert_eq!(EventId::from_uuid(7).id, 7);
}
