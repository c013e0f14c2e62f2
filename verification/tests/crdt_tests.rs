use temporal_db::crdt::{resolve_conflict, GCounter, GSet, LWWRegister, CRDT};
use temporal_db::Timestamp;

#[test]
fn test_lww_register() {
    let mut reg = LWWRegister::new("a".to_string(), Timestamp::from_secs(1));
    reg.set("b".to_string(), Timestamp::from_secs(2));
    assert_eq!(reg.value(), "b");
    reg.set("stale".to_string(), Timestamp::from_secs(1));
    assert_eq!(reg.value(), "b");

    let newer = LWWRegister::new("c".to_string(), Timestamp::from_secs(3));
    let mut local = reg;
    resolve_conflict(&mut local, &newer).unwrap();
    assert_eq!(local.value(), "c");
    assert_eq!(local.timestamp(), Timestamp::from_secs(3));
    assert!(local.equals(&newer));
}

#[test]
fn test_gset() {
    let mut a: GSet<u64> = GSet::new();
    a.add(1);
    a.add(2);
    a.add(1);
    assert_eq!(a.elements().len(), 2);
    assert!(a.contains(&1));
    assert!(!a.contains(&3));

    let mut b: GSet<u64> = GSet::new();
    b.add(2);
    b.add(3);
    a.merge(&b);
    assert_eq!(a.elements().len(), 3);
    assert!(a.contains(&3));
    let mut c: GSet<u64> = GSet::new();
    c.add(3);
    c.add(2);
    c.add(1);
    assert!(a.equals(&c));
}

#[test]
fn test_gcounter() {
    let mut a = GCounter::new(0, 3);
    let mut b = GCounter::new(1, 3);
    a.increment(5);
    b.increment(7);
    a.merge(&b);
    assert_eq!(a.value(), 12);
    b.merge(&a);
    assert_eq!(b.value(), 12);
    assert!(a.equals(&b));
}
