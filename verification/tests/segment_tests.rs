use temporal_db::segment_file::{
    SegmentHeader, SegmentReader, SegmentWriter, FLAG_COMPRESSED, HEADER_SIZE,
};
use temporal_db::{Event, EventPayload, Timestamp};

fn json_event(ts: Timestamp, entity_id: &str, text: &str) -> Event {
    let data = serde_json::to_vec(&serde_json::Value::String(text.to_string())).unwrap();
    let payload = EventPayload::new(data, "json".to_string());
    Event::new("test.event".to_string(), ts, entity_id.to_string(), payload)
}

#[test]
fn test_segment_header_serialization() {
    let ts1 = Timestamp::from_secs(1000);
    let ts2 = Timestamp::from_secs(2000);
    let header = SegmentHeader::new(1, ts1, ts2);

    let serialized = header.serialize();
    assert_eq!(serialized.len(), HEADER_SIZE);

    let deserialized = SegmentHeader::deserialize(&serialized).unwrap();
    assert_eq!(deserialized.segment_id, 1);
    assert_eq!(deserialized.start_time, ts1);
    assert_eq!(deserialized.end_time, ts2);
    assert_eq!(deserialized, header);
}

#[test]
fn test_segment_write_read() {
    let ts1 = Timestamp::from_secs(1000);
    let ts2 = Timestamp::from_secs(2000);

    let mut writer = SegmentWriter::create(1, ts1, ts2).unwrap();

    let event1 = json_event(ts1, "entity:1", "test1");
    let event2 = json_event(Timestamp::from_secs(1500), "entity:1", "test2");

    writer.append(event1.clone()).unwrap();
    writer.append(event2.clone()).unwrap();
    let (_, bytes) = writer.finalize().unwrap();

    let mut reader = SegmentReader::open(bytes).unwrap();
    let header = reader.header();
    assert_eq!(header.segment_id, 1);
    assert_eq!(header.event_count, 2);
    assert_ne!(header.flags & FLAG_COMPRESSED, 0, "Segment should be compressed");
    assert_ne!(header.checksum, 0, "Checksum should be calculated");

    let events = reader.read_events().unwrap();
    assert_eq!(events.len(), 2);
    assert_eq!(events[0].event_type(), event1.event_type());
    assert_eq!(events[0].entity_id(), event1.entity_id());
    assert_eq!(events[1].event_type(), event2.event_type());
    assert_eq!(events[1].entity_id(), event2.entity_id());
}

#[test]
fn test_segment_compression() {
    let ts1 = Timestamp::from_secs(1000);
    let ts2 = Timestamp::from_secs(2000);

    let mut writer = SegmentWriter::create(2, ts1, ts2).unwrap();

    for i in 0..100 {
        let text = "This is a repetitive string that should compress well".repeat(10);
        let event = json_event(
            Timestamp::from_secs(1000 + i as i64),
            &format!("entity:{}", i),
            &text,
        );
        writer.append(event).unwrap();
    }
    let (_, bytes) = writer.finalize().unwrap();

    let mut reader = SegmentReader::open(bytes).unwrap();
    let header = reader.header();
    assert_eq!(header.event_count, 100);
    assert_ne!(header.flags & FLAG_COMPRESSED, 0);
    assert_ne!(header.checksum, 0);

    let events = reader.read_events().unwrap();
    assert_eq!(events.len(), 100);
}

#[test]
fn test_compression_ratio() {
    let ts1 = Timestamp::from_secs(1000);
    let ts2 = Timestamp::from_secs(2000);

    let mut writer = SegmentWriter::create(3, ts1, ts2).unwrap();

    let repetitive_data = "A".repeat(1000);
    for i in 0..50 {
        let event = json_event(
            Timestamp::from_secs(1000 + i as i64),
            &format!("entity:{}", i),
            &repetitive_data,
        );
        writer.append(event).unwrap();
    }
    let (header, bytes) = writer.finalize().unwrap();

    let file_size = bytes.len() as u64;
    println!("File size: {} bytes", file_size);
    println!("Compressed size in header: {} bytes", header.compressed_size);
    println!("Event count: {}", header.event_count);
    println!(
        "Compression ratio: {:.2}x",
        (header.compressed_size as f64) / (file_size - HEADER_SIZE as u64) as f64
    );

    assert_ne!(header.flags & FLAG_COMPRESSED, 0);
    assert!(file_size < 50 * 1000, "Repetitive payloads should compress well");

    let mut reader = SegmentReader::open(bytes).unwrap();
    let events = reader.read_events().unwrap();
    assert_eq!(events.len(), 50);
}

#[test]
fn test_checksum_verification() {
    let ts1 = Timestamp::from_secs(1000);
    let ts2 = Timestamp::from_secs(2000);

    let mut writer = SegmentWriter::create(4, ts1, ts2).unwrap();
    writer.append(json_event(ts1, "entity:1", "test")).unwrap();
    let (_, bytes) = writer.finalize().unwrap();

    let mut reader = SegmentReader::open(bytes.clone()).unwrap();
    let events = reader.read_events().unwrap();
    assert_eq!(events.len(), 1);

    let mut corrupted = bytes;
    corrupted[HEADER_SIZE + 10] ^= 0xFF;
    let mut reader = SegmentReader::open(corrupted).unwrap();
    let result = reader.read_events();
    assert!(result.is_err(), "Reading corrupted segment should fail");
}

#[test]
fn test_bit_flips_are_detected() {
    let ts1 = Timestamp::from_secs(1000);
    let ts2 = Timestamp::from_secs(2000);
    let mut writer = SegmentWriter::create(9, ts1, ts2).unwrap();
    for i in 0..5 {
        writer
            .append(json_event(Timestamp::from_secs(1000 + i), "entity:1", "payload"))
            .unwrap();
    }
    let (_, bytes) = writer.finalize().unwrap();

    // Flip one bit at a time across the data blocks; every flip must be
    // caught by framing, decompression or the checksum.
    for pos in HEADER_SIZE..bytes.len() {
        for bit in [0u8, 3, 7] {
            let mut corrupted = bytes.clone();
            corrupted[pos] ^= 1 << bit;
            let mut reader = SegmentReader::open(corrupted).unwrap();
            assert!(
                reader.read_events().is_err(),
                "flip at byte {} bit {} went unnoticed",
                pos,
                bit
            );
        }
    }
}

#[test]
fn test_multiple_compressed_blocks() {
    let ts1 = Timestamp::from_nanos(i64::MIN + 1);
    let ts2 = Timestamp::from_nanos(i64::MAX);

    let mut writer = SegmentWriter::create(5, ts1, ts2).unwrap();

    for batch in 0..3 {
        for i in 0..1000 {
            let timestamp = Timestamp::from_nanos(1000_000_000_000 + (batch * 1000 + i) as i64);
            let event = json_event(
                timestamp,
                &format!("entity:{}", batch * 1000 + i),
                &format!("batch-{}-event-{}", batch, i),
            );
            writer.append(event).unwrap();
        }
    }
    let (_, bytes) = writer.finalize().unwrap();

    let mut reader = SegmentReader::open(bytes).unwrap();
    let header = reader.header();
    assert_eq!(header.event_count, 3000);
    assert_ne!(header.flags & FLAG_COMPRESSED, 0);

    let events = reader.read_events().unwrap();
    assert_eq!(events.len(), 3000);
}

#[test]
fn test_append_outside_bounds_is_temporal() {
    // A segment bounded to [1000s, 2000s) refuses an event at 2500s and
    // keeps no trace of it.
    let ts1 = Timestamp::from_secs(1000);
    let ts2 = Timestamp::from_secs(2000);
    let mut writer = SegmentWriter::create(6, ts1, ts2).unwrap();

    let err = writer
        .append(json_event(Timestamp::from_secs(2500), "entity:1", "late"))
        .unwrap_err();
    assert!(matches!(err, temporal_db::Error::Temporal(_)));
    assert_eq!(writer.header().event_count, 0);

    let (header, bytes) = writer.finalize().unwrap();
    assert_eq!(header.event_count, 0);
    let mut reader = SegmentReader::open(bytes).unwrap();
    assert_eq!(reader.read_events().unwrap().len(), 0);
}

#[test]
fn test_fifty_events_compress_markedly() {
    // Fifty events of a 500-byte repeating string: the sealed file opens
    // with the right magic, carries the compressed flag, counts 50 events,
    // has a checksum, and is markedly smaller than the raw payloads.
    let ts1 = Timestamp::from_secs(900);
    let ts2 = Timestamp::from_secs(1100);
    let mut writer = SegmentWriter::create(7, ts1, ts2).unwrap();
    let text: String = "ab".repeat(250);
    for i in 0..50 {
        writer
            .append(json_event(Timestamp::from_secs(1000 + i), "entity:1", &text))
            .unwrap();
    }
    let (header, bytes) = writer.finalize().unwrap();
    assert_eq!(&bytes[0..5], b"TEMP0");
    assert_ne!(header.flags & FLAG_COMPRESSED, 0);
    assert_eq!(header.event_count, 50);
    assert_ne!(header.checksum, 0);
    assert!(bytes.len() < 50 * 500, "file should be markedly smaller than the raw payloads");
}
