use temporal_db::event_codec::{decode_event, encode_event};
use temporal_db::{Event, EventId, EventPayload, Timestamp};

#[test]
fn test_event_codec_round_trip() {
    let payload = EventPayload::new(vec![1, 2, 3, 255], "bincode".to_string());
    let event = Event::builder(
        "user.created".to_string(),
        Timestamp::from_secs(1234),
        "user:42".to_string(),
        payload,
    )
    .correlation_id("corr-1".to_string())
    .causation_id(EventId::from_uuid(99))
    .actor("tester".to_string())
    .tag("a".to_string())
    .tag("b".to_string())
    .build();

    let bytes = encode_event(&event).unwrap();
    let back = decode_event(&bytes).unwrap();
    assert_eq!(back.metadata.id, event.metadata.id);
    assert_eq!(back.event_type(), "user.created");
    assert_eq!(back.timestamp(), Timestamp::from_secs(1234));
    assert_eq!(back.entity_id(), "user:42");
    assert_eq!(back.metadata.correlation_id, Some("corr-1".to_string()));
    assert_eq!(back.metadata.causation_id, Some(EventId::from_uuid(99)));
    assert_eq!(back.metadata.actor, Some("tester".to_string()));
    assert_eq!(back.metadata.tags, vec!["a".to_string(), "b".to_string()]);
    assert_eq!(back.payload.data, vec![1, 2, 3, 255]);
    assert_eq!(back.payload.format, "bincode");
}

#[test]
fn test_event_codec_rejects_trailing_bytes() {
    let payload = EventPayload::new(vec![], "json".to_string());
    let event = Event::new(
        "t".to_string(),
        Timestamp::from_secs(1),
        "e".to_string(),
        payload,
    );
    let mut bytes = encode_event(&event).unwrap();
    bytes.push(0);
    assert!(decode_event(&bytes).is_err());
}
