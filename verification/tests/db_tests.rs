use my_redis::db::State;

#[test]
fn test_set_get() {
    let mut db = State::new();
    db.set("key1".to_string(), b"value1".to_vec(), None, 0);
    db.set("key2".to_string(), b"value2".to_vec(), Some(1000), 0);

    assert_eq!(db.get(&"key1".to_string(), 0).unwrap(), b"value1".to_vec());
    assert_eq!(db.get(&"key2".to_string(), 0).unwrap(), b"value2".to_vec());
}

#[test]
fn test_expire() {
    let mut db = State::new();
    db.set("key1".to_string(), b"value1".to_vec(), Some(100), 0);
    db.set("key2".to_string(), b"value2".to_vec(), Some(200), 0);

    assert_eq!(db.get(&"key1".to_string(), 0).unwrap(), b"value1".to_vec());
    assert_eq!(db.get(&"key2".to_string(), 0).unwrap(), b"value2".to_vec());

    assert_eq!(db.get(&"key1".to_string(), 110), None);
    assert_eq!(db.get(&"key2".to_string(), 110).unwrap(), b"value2".to_vec());

    assert_eq!(db.get(&"key2".to_string(), 220), None);
}

#[test]
fn test_purge_expired_keys() {
    let mut db = State::new();
    let first_when: u64 = 1000;
    let second_when: u64 = 2000;
    db.set("key1".to_string(), b"value1".to_vec(), Some(first_when), 0);
    db.set("key2".to_string(), b"value2".to_vec(), Some(second_when), 0);

    assert_eq!(db.purge_expired_keys(0).unwrap(), first_when);

    db.delete(&"key1".to_string());

    assert_eq!(db.purge_expired_keys(0).unwrap(), second_when);
    db.delete(&"key2".to_string());
    assert_eq!(db.purge_expired_keys(0), None);
}

#[test]
fn test_next_expiration() {
    let mut state = State::new();
    assert_eq!(state.next_expiration(), None);

    let now: u64 = 100;
    state.expirations.push((now, "key1".to_string()));
    assert_eq!(state.next_expiration(), Some(now));

    let next_now: u64 = 200;
    state.expirations.push((next_now, "key2".to_string()));
    assert_eq!(state.next_expiration(), Some(now));
}

#[test]
fn test_purge_evicts_due_keys() {
    let mut db = State::new();
    db.set("soon".to_string(), b"a".to_vec(), Some(50), 0);
    db.set("later".to_string(), b"b".to_vec(), Some(500), 0);
    db.set("forever".to_string(), b"c".to_vec(), None, 0);

    let next = db.purge_expired_keys(60);
    assert_eq!(next, Some(500));
    assert_eq!(db.get(&"soon".to_string(), 60), None);
    assert_eq!(db.get(&"later".to_string(), 60).unwrap(), b"b".to_vec());
    assert_eq!(db.get(&"forever".to_string(), 60).unwrap(), b"c".to_vec());

    let next2 = db.purge_expired_keys(1000);
    assert_eq!(next2, None);
    assert_eq!(db.get(&"later".to_string(), 1000), None);
    assert_eq!(db.get(&"forever".to_string(), 1000).unwrap(), b"c".to_vec());
}

#[test]
fn test_index_consistency_through_operations() {
    let mut db = State::new();
    db.set("a".to_string(), b"1".to_vec(), Some(100), 0);
    db.set("b".to_string(), b"2".to_vec(), None, 0);
    db.set("c".to_string(), b"3".to_vec(), Some(300), 0);
    assert_eq!(db.entries.len(), 3);
    assert_eq!(db.expirations.len(), 2);

    // Overwriting with a new deadline replaces the old pair; no orphan
    // survives.
    db.set("a".to_string(), b"1b".to_vec(), Some(150), 0);
    assert_eq!(db.entries.len(), 3);
    assert_eq!(db.expirations.len(), 2);
    assert!(db.expirations.iter().any(|p| p.0 == 150 && p.1 == "a"));
    assert!(!db.expirations.iter().any(|p| p.0 == 100));

    // Overwriting away the deadline removes its pair entirely.
    db.set("c".to_string(), b"3b".to_vec(), None, 0);
    assert_eq!(db.expirations.len(), 1);
    assert!(!db.expirations.iter().any(|p| p.1 == "c"));

    // Deleting removes both sides at once.
    db.delete(&"a".to_string());
    assert_eq!(db.entries.len(), 2);
    assert_eq!(db.expirations.len(), 0);

    // Every remaining pair names a present entry, and every entry with a
    // deadline has exactly one pair.
    for pair in db.expirations.iter() {
        assert!(db.entries.iter().any(|e| e.0 == pair.1));
    }
    for entry in db.entries.iter() {
        if let Some(d) = entry.1.expires_at {
            let count = db.expirations.iter().filter(|p| p.1 == entry.0 && p.0 == d).count();
            assert_eq!(count, 1);
        }
    }
}

#[test]
fn test_earliest_wake_signal() {
    let mut db = State::new();
    // First deadline ever: the reaper must be woken.
    assert!(db.set("a".to_string(), b"1".to_vec(), Some(1000), 0));
    // A later deadline changes nothing for the sleeper.
    assert!(!db.set("b".to_string(), b"2".to_vec(), Some(2000), 0));
    // An earlier deadline than any tracked one wakes it again.
    assert!(db.set("c".to_string(), b"3".to_vec(), Some(500), 0));
    assert_eq!(db.next_expiration(), Some(500));
    // No deadline at all never wakes it.
    assert!(!db.set("d".to_string(), b"4".to_vec(), None, 0));
    // The reaper then evicts the new earliest key at its own deadline.
    assert_eq!(db.purge_expired_keys(500), Some(1000));
    assert_eq!(db.get(&"c".to_string(), 500), None);
}

#[test]
fn test_delete_returns_value() {
    let mut db = State::new();
    db.set("k".to_string(), b"v".to_vec(), Some(100), 0);
    assert_eq!(db.delete(&"k".to_string()).unwrap(), b"v".to_vec());
    assert_eq!(db.delete(&"k".to_string()), None);
    assert_eq!(db.expirations.len(), 0);
}
