use temporal_db::segment_file::{FLAG_COMPRESSED, MAX_EVENTS_PER_SEGMENT};
use temporal_db::segment_journal::{SegmentManager, SegmentedJournal};
use temporal_db::wal::{InMemoryWAL, WriteAheadLog};
use temporal_db::{Event, EventPayload, Timestamp};

fn json_event(secs: i64, entity_id: &str, text: &str) -> Event {
    let data = serde_json::to_vec(&serde_json::Value::String(text.to_string())).unwrap();
    let payload = EventPayload::new(data, "json".to_string());
    Event::new(
        "test.event".to_string(),
        Timestamp::from_secs(secs),
        entity_id.to_string(),
        payload,
    )
}

fn tiny_event(nanos: i64) -> Event {
    let payload = EventPayload::new(Vec::new(), "json".to_string());
    Event::new("e".to_string(), Timestamp::from_nanos(nanos), "x".to_string(), payload)
}

#[test]
fn test_segmented_journal_basic() {
    let wal = InMemoryWAL::new();
    let mut journal = SegmentedJournal::new(wal).unwrap();

    let event1 = json_event(1000, "entity:1", "test1");
    let event2 = json_event(1001, "entity:1", "test2");

    journal.append(event1.clone()).unwrap();
    journal.append(event2.clone()).unwrap();
    journal.flush().unwrap();

    let events = journal
        .get_events("entity:1", Timestamp::from_secs(1000), Timestamp::from_secs(2000))
        .unwrap();
    assert_eq!(events.len(), 2);

    let segments = journal.segments();
    assert!(!segments.is_empty(), "At least one segment should be created");
    let segment = &segments[0];
    assert_eq!(segment.event_count, 2);
    assert_ne!(
        segment.flags & FLAG_COMPRESSED,
        0,
        "Segment should be compressed after finalize"
    );
    assert_ne!(segment.checksum, 0, "Checksum should be calculated");
}

#[test]
fn test_segmented_journal_with_compression() {
    let wal = InMemoryWAL::new();
    let mut journal = SegmentedJournal::new(wal).unwrap();

    for i in 0..100 {
        let text = "repetitive data".repeat(20);
        let event = json_event(1000 + i as i64, &format!("entity:{}", i % 10), &text);
        journal.append(event).unwrap();
    }
    journal.flush().unwrap();

    let segments = journal.segments();
    assert!(!segments.is_empty(), "At least one segment should be created");
    for segment in segments.iter() {
        assert_ne!(
            segment.flags & FLAG_COMPRESSED,
            0,
            "Segment should be compressed after finalize (flags={})",
            segment.flags
        );
        assert_ne!(segment.checksum, 0, "Checksum should be set");
    }

    let all_events = journal.read_all_events().unwrap();
    assert_eq!(all_events.len(), 100);
}

#[test]
fn test_journal_queries_and_wal_round_trip() {
    let wal = InMemoryWAL::new();
    let mut journal = SegmentedJournal::new(wal).unwrap();
    journal.append(json_event(1000, "user:1", "a")).unwrap();
    journal.append(json_event(2000, "user:1", "b")).unwrap();
    journal.append(json_event(1500, "user:2", "c")).unwrap();

    let all = journal.get_entity_events("user:1").unwrap();
    assert_eq!(all.len(), 2);
    assert!(all[0].timestamp() <= all[1].timestamp());

    let by_type = journal
        .get_events_by_type("test.event", Timestamp::from_secs(0), Timestamp::from_secs(3000))
        .unwrap();
    assert_eq!(by_type.len(), 3);

    let latest = journal
        .get_latest_event("user:1", Timestamp::from_secs(1700))
        .unwrap()
        .unwrap();
    assert_eq!(latest.timestamp(), Timestamp::from_secs(1000));

    let replayed = journal.wal().replay().unwrap();
    assert_eq!(replayed.len(), 3);
    assert_eq!(replayed[0].entity_id(), "user:1");
    assert_eq!(replayed[2].entity_id(), "user:2");
}

#[test]
fn test_three_thousand_events_span_blocks() {
    // Three thousand appends with a flush threshold of a thousand: the
    // sealed segment holds them all, across at least three compressed
    // blocks, and a fresh reader hands them back in order.
    let mut manager = SegmentManager::new().unwrap();
    for i in 0..3000i64 {
        manager.append_event(tiny_event(1_000_000_000 + i)).unwrap();
    }
    manager.flush().unwrap();

    let segments = manager.segments();
    assert_eq!(segments.len(), 1);
    assert_eq!(segments[0].event_count, 3000);

    let image = &manager.segment_images()[0];
    let mut blocks = 0usize;
    let mut at = 64usize;
    while at + 4 <= image.len() {
        let len = u32::from_le_bytes([image[at], image[at + 1], image[at + 2], image[at + 3]])
            as usize;
        blocks += 1;
        at += 4 + len;
    }
    assert!(blocks >= 3, "expected at least three compressed blocks, found {}", blocks);

    let events = manager.read_all_events().unwrap();
    assert_eq!(events.len(), 3000);
    for w in events.windows(2) {
        assert!(w[0].timestamp() <= w[1].timestamp());
    }
}

#[test]
fn test_rotation_after_a_million_and_one_appends() {
    // A fresh journal, 1,000,001 appends: the catalog holds at least two
    // segments and the first holds exactly a million events.
    let mut manager = SegmentManager::new().unwrap();
    for i in 0..(MAX_EVENTS_PER_SEGMENT as i64 + 1) {
        manager.append_event(tiny_event(i)).unwrap();
    }
    manager.flush().unwrap();

    let segments = manager.segments();
    assert!(segments.len() >= 2);
    assert_eq!(segments[0].event_count, MAX_EVENTS_PER_SEGMENT);
}

#[test]
fn test_recovery_from_images_and_wal() {
    // Build a journal, seal its segments, and keep the WAL; then rebuild
    // a fresh journal from the images and the log. Indexed history and
    // catalog come back; an event present both in a segment and in the
    // log is applied once.
    let wal = InMemoryWAL::new();
    let mut journal = SegmentedJournal::new(wal).unwrap();
    let e1 = json_event(1000, "user:1", "a");
    let e2 = json_event(2000, "user:1", "b");
    let e3 = json_event(1500, "user:2", "c");
    journal.append(e1.clone()).unwrap();
    journal.append(e2.clone()).unwrap();
    journal.append(e3.clone()).unwrap();
    journal.flush().unwrap();

    let images: Vec<Vec<u8>> = journal.segment_images().clone();
    // The WAL still holds everything: recovery must not double-apply.
    let mut wal_copy = InMemoryWAL::new();
    for e in [&e1, &e2, &e3] {
        wal_copy.append(e).unwrap();
    }
    // And one event reached only the WAL, never a sealed segment.
    let e4 = json_event(3000, "user:1", "d");
    wal_copy.append(&e4).unwrap();

    let recovered = SegmentedJournal::recover(images, wal_copy).unwrap();
    assert_eq!(recovered.segments().len(), 1);
    let user1 = recovered.get_entity_events("user:1").unwrap();
    assert_eq!(user1.len(), 3);
    assert_eq!(user1[2].timestamp(), Timestamp::from_secs(3000));
    let user2 = recovered.get_entity_events("user:2").unwrap();
    assert_eq!(user2.len(), 1);
    let all = recovered.read_all_events().unwrap();
    assert_eq!(all.len(), 3);
    assert_eq!(recovered.wal().replay().unwrap().len(), 4);
}

#[test]
fn test_recovery_refuses_misnumbered_segments() {
    let mut manager = SegmentManager::new().unwrap();
    manager.append_event(tiny_event(1)).unwrap();
    manager.flush().unwrap();
    let image = manager.segment_images()[0].clone();
    // The same image twice claims identifier 1 twice: numbering breaks.
    assert!(SegmentManager::recover(vec![image.clone(), image]).is_err());
}

#[test]
fn test_recovery_refuses_corrupted_image() {
    let mut manager = SegmentManager::new().unwrap();
    manager.append_event(tiny_event(1)).unwrap();
    manager.flush().unwrap();
    let mut image = manager.segment_images()[0].clone();
    let last = image.len() - 1;
    image[last] ^= 0xFF;
    assert!(SegmentManager::recover(vec![image]).is_err());
}
