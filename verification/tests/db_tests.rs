use temporal_db::db::TemporalDB;
use temporal_db::Timestamp;

fn enc(text: &str) -> Vec<u8> {
    serde_json::to_vec(&serde_json::Value::String(text.to_string())).unwrap()
}

fn dec(bytes: &[u8]) -> String {
    serde_json::from_slice::<String>(bytes).unwrap()
}

#[test]
fn test_insert_and_query() {
    let mut db = TemporalDB::in_memory().unwrap();
    let ts1 = Timestamp::from_secs(1000);

    db.insert("user:1", enc("active"), ts1).unwrap();

    let value = db.query_as_of("user:1", ts1).unwrap();
    assert_eq!(dec(&value.unwrap()), "active");

    let value = db.query_as_of("user:1", Timestamp::from_secs(500)).unwrap();
    assert!(value.is_none());

    let value = db.query_as_of("user:1", Timestamp::from_secs(2000)).unwrap();
    assert_eq!(dec(&value.unwrap()), "active");
}

#[test]
fn test_multiple_values() {
    let mut db = TemporalDB::in_memory().unwrap();
    let ts1 = Timestamp::from_secs(1000);
    let ts2 = Timestamp::from_secs(2000);

    db.insert("user:1", enc("active"), ts1).unwrap();
    db.insert("user:1", enc("inactive"), ts2).unwrap();

    let value = db.query_as_of("user:1", ts1).unwrap();
    assert_eq!(dec(&value.unwrap()), "active");

    let value = db.query_as_of("user:1", ts2).unwrap();
    assert_eq!(dec(&value.unwrap()), "inactive");

    let value = db.query_as_of("user:1", Timestamp::from_secs(1500)).unwrap();
    assert_eq!(dec(&value.unwrap()), "active");
}

#[test]
fn test_range_query() {
    let mut db = TemporalDB::in_memory().unwrap();
    let ts1 = Timestamp::from_secs(1000);
    let ts2 = Timestamp::from_secs(2000);
    let ts3 = Timestamp::from_secs(3000);

    db.insert("user:1", enc("v1"), ts1).unwrap();
    db.insert("user:1", enc("v2"), ts2).unwrap();
    db.insert("user:1", enc("v3"), ts3).unwrap();

    let values = db
        .query_range("user:1", Timestamp::from_secs(1500), Timestamp::from_secs(2500))
        .unwrap();

    assert_eq!(values.len(), 1);
    assert_eq!(dec(&values[0]), "v2");
}

#[test]
fn test_get_current_tracks_latest_insert() {
    let mut db = TemporalDB::in_memory().unwrap();
    assert!(db.get_current("user:1").unwrap().is_none());
    db.insert("user:1", enc("a"), Timestamp::from_secs(1)).unwrap();
    db.insert("user:1", enc("b"), Timestamp::from_secs(2)).unwrap();
    db.insert("user:2", enc("c"), Timestamp::from_secs(3)).unwrap();
    assert_eq!(dec(&db.get_current("user:1").unwrap().unwrap()), "b");
    assert_eq!(dec(&db.get_current("user:2").unwrap().unwrap()), "c");
    assert_eq!(db.get_entity_events("user:1").unwrap().len(), 2);
    db.flush().unwrap();
}
