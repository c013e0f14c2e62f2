use temporal_db::index::TemporalIndex;
use temporal_db::materialized_view::InMemoryMaterializedView;
use temporal_db::query::{optimize_query, parse_query, QueryType, TemporalQuery, TimeRange};
use temporal_db::segment::Segment;
use temporal_db::{Event, EventPayload, Timestamp};

fn raw_event(secs: i64, entity_id: &str, data: Vec<u8>) -> Event {
    let payload = EventPayload::new(data, "json".to_string());
    Event::new(
        "value.changed".to_string(),
        Timestamp::from_secs(secs),
        entity_id.to_string(),
        payload,
    )
}

#[test]
fn test_materialized_view_latest_payload() {
    let mut view = InMemoryMaterializedView::new();
    assert!(view.get_current_raw("user:1").unwrap().is_none());
    view.apply_event(&raw_event(1, "user:1", vec![1])).unwrap();
    view.apply_event(&raw_event(2, "user:1", vec![2])).unwrap();
    view.apply_event(&raw_event(3, "user:2", vec![3])).unwrap();
    assert_eq!(view.get_current_raw("user:1").unwrap().unwrap(), vec![2]);
    assert_eq!(view.get_current_raw("user:2").unwrap().unwrap(), vec![3]);
}

#[test]
fn test_temporal_index_range() {
    let mut index = TemporalIndex::new();
    index.add_event(&raw_event(1000, "a", vec![]), 0);
    index.add_event(&raw_event(3000, "a", vec![]), 1);
    index.add_event(&raw_event(2000, "a", vec![]), 2);

    let hits = index.find_in_range(Timestamp::from_secs(1500), Timestamp::from_secs(3500));
    assert_eq!(hits, vec![2, 1]);
}

#[test]
fn test_segment_container_bounds() {
    let mut seg = Segment::new(1, Timestamp::from_secs(0), Timestamp::from_secs(10));
    seg.add_event(raw_event(5, "a", vec![])).unwrap();
    assert!(seg.add_event(raw_event(50, "a", vec![])).is_err());
    assert_eq!(seg.header.event_count, 1);
    assert_eq!(seg.events.len(), 1);
}

#[test]
fn test_query_surface_is_deferred() {
    assert!(parse_query("SELECT * FROM events").is_err());
    let q = TemporalQuery {
        query_type: QueryType::Select,
        entity_id: Some("user:1".to_string()),
        time_range: Some(TimeRange::AsOf(1000)),
    };
    let o = optimize_query(&q).unwrap();
    assert_eq!(o.entity_id, Some("user:1".to_string()));
    assert!(temporal_db::query::execute_query(&q).is_err());
}
