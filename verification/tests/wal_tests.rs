use temporal_db::wal::{replay_bytes, FileWAL, InMemoryWAL, WriteAheadLog};
use temporal_db::{Error, Event, EventPayload, Timestamp};

fn small_event(secs: i64, entity_id: &str, text: &str) -> Event {
    let data = serde_json::to_vec(&serde_json::Value::String(text.to_string())).unwrap();
    let payload = EventPayload::new(data, "json".to_string());
    Event::new(
        "test.event".to_string(),
        Timestamp::from_secs(secs),
        entity_id.to_string(),
        payload,
    )
}

#[test]
fn test_wal_round_trip() {
    // Appended in order, replayed identically after flush.
    let mut wal = FileWAL::new();
    let events: Vec<Event> = (0..10).map(|i| small_event(1000 + i, "entity:1", "v")).collect();
    for e in &events {
        wal.append(e).unwrap();
    }
    wal.flush().unwrap();

    let replayed = wal.replay().unwrap();
    assert_eq!(replayed.len(), events.len());
    for (a, b) in replayed.iter().zip(events.iter()) {
        assert_eq!(a.metadata.id, b.metadata.id);
        assert_eq!(a.timestamp(), b.timestamp());
        assert_eq!(a.entity_id(), b.entity_id());
        assert_eq!(a.payload.data, b.payload.data);
    }
}

#[test]
fn test_wal_torn_tail_is_elided() {
    // Truncating the last record mid-payload yields all prior records and
    // no error.
    let mut wal = FileWAL::new();
    wal.append(&small_event(1, "entity:1", "a")).unwrap();
    wal.append(&small_event(2, "entity:1", "b")).unwrap();
    let keep = wal.bytes().len();
    wal.append(&small_event(3, "entity:1", "c")).unwrap();

    let full = wal.bytes().clone();
    for cut in [keep + 3, keep + 8, keep + 12, full.len() - 1] {
        let torn = full[..cut].to_vec();
        let (events, consumed) = replay_bytes(&torn).unwrap();
        assert_eq!(events.len(), 2, "cut at {} should keep two records", cut);
        assert_eq!(consumed, keep);
    }
}

#[test]
fn test_wal_interior_corruption_is_fatal() {
    // Corrupting a non-tail record's checksum byte makes replay fail with
    // a storage error.
    let mut wal = FileWAL::new();
    wal.append(&small_event(1, "entity:1", "a")).unwrap();
    wal.append(&small_event(2, "entity:1", "b")).unwrap();
    wal.append(&small_event(3, "entity:1", "c")).unwrap();

    let mut bytes = wal.bytes().clone();
    bytes[0] ^= 0xFF;
    let err = replay_bytes(&bytes).unwrap_err();
    assert!(matches!(err, Error::Storage(_)));
}

#[test]
fn test_wal_clear_empties_the_log() {
    let mut wal = FileWAL::new();
    wal.append(&small_event(1, "entity:1", "a")).unwrap();
    wal.clear().unwrap();
    assert_eq!(wal.replay().unwrap().len(), 0);
    assert_eq!(wal.bytes().len(), 0);
}

#[test]
fn test_wal_from_bytes_cuts_torn_tail() {
    let mut wal = FileWAL::new();
    wal.append(&small_event(1, "entity:1", "a")).unwrap();
    let keep = wal.bytes().len();
    wal.append(&small_event(2, "entity:1", "b")).unwrap();
    let mut bytes = wal.bytes().clone();
    bytes.truncate(keep + 5);

    let recovered = FileWAL::from_bytes(bytes).unwrap();
    assert_eq!(recovered.replay().unwrap().len(), 1);
    assert_eq!(recovered.bytes().len(), keep);
}

#[test]
fn test_in_memory_wal() {
    let mut wal = InMemoryWAL::new();
    let e = small_event(5, "entity:9", "x");
    wal.append(&e).unwrap();
    wal.flush().unwrap();
    let replayed = wal.replay().unwrap();
    assert_eq!(replayed.len(), 1);
    assert_eq!(replayed[0].entity_id(), "entity:9");
    wal.clear().unwrap();
    assert_eq!(wal.replay().unwrap().len(), 0);
}
