use hyperon_kv::codec::encode;
use hyperon_kv::HyperonStore;
use hyperon_kv::LogError;

#[test]
fn test_load_index() {
    let mut store = HyperonStore::open(Vec::new()).unwrap();
    store.insert(b"1", b"1");
    store.insert(b"2", b"2");
    store.insert(&[1u8], b"3");
    store.insert(&[2u8], b"3");

    let v = store.get(b"1").unwrap().unwrap();
    assert_eq!(b"1".to_vec(), v);

    let v = store.get(b"2").unwrap().unwrap();
    assert_eq!(b"2".to_vec(), v);

    let v = store.get(&[1u8]).unwrap().unwrap();
    assert_eq!(b"3".to_vec(), v);

    let v = store.get(&[2u8]).unwrap().unwrap();
    assert_eq!(b"3".to_vec(), v);

    store.update(b"1", b"1.11");
    let v = store.get(b"1").unwrap().unwrap();
    assert_eq!(b"1.11".to_vec(), v);

    store.delete(b"1");
    let v = store.get(b"1").unwrap();
    assert_eq!(None, v);
}

#[test]
fn last_write_wins_and_log_keeps_both() {
    let mut store = HyperonStore::open(Vec::new()).unwrap();
    store.insert(b"k", b"A");
    let len_after_first = store.log_bytes().len();
    store.insert(b"k", b"B");
    assert_eq!(store.get(b"k").unwrap().unwrap(), b"B".to_vec());
    // The first record is still physically in the log.
    let rec_a = encode(b"k", b"A");
    let rec_b = encode(b"k", b"B");
    assert_eq!(len_after_first, rec_a.len());
    assert_eq!(store.log_bytes().len(), rec_a.len() + rec_b.len());
    assert_eq!(&store.log_bytes()[..rec_a.len()], rec_a.as_slice());
    assert_eq!(&store.log_bytes()[rec_a.len()..], rec_b.as_slice());
}

#[test]
fn delete_then_get_keeps_dead_records() {
    let mut store = HyperonStore::open(Vec::new()).unwrap();
    store.insert(b"k", b"v");
    let len_before = store.log_bytes().len();
    store.delete(b"k");
    assert_eq!(store.get(b"k").unwrap(), None);
    // The old record and the tombstone both remain in the log.
    let tombstone = encode(b"k", b"");
    assert_eq!(store.log_bytes().len(), len_before + tombstone.len());
    assert_eq!(&store.log_bytes()[len_before..], tombstone.as_slice());
}

#[test]
fn delete_of_absent_key_appends_tombstone() {
    let mut store = HyperonStore::open(Vec::new()).unwrap();
    store.delete(b"ghost");
    assert_eq!(store.get(b"ghost").unwrap(), None);
    assert_eq!(store.log_bytes().len(), encode(b"ghost", b"").len());
}

#[test]
fn insert_of_empty_value_is_a_tombstone() {
    let mut store = HyperonStore::open(Vec::new()).unwrap();
    store.insert(b"k", b"v");
    store.insert(b"k", b"");
    assert_eq!(store.get(b"k").unwrap(), None);
}

#[test]
fn rebuild_idempotence() {
    let mut store = HyperonStore::open(Vec::new()).unwrap();
    store.insert(b"1", b"1");
    store.insert(b"2", b"2");
    store.insert(b"3", b"3");
    store.update(b"1", b"1.11");
    store.delete(b"2");
    let log = store.log_bytes().clone();
    // Drop the handle and reopen from the same bytes.
    drop(store);
    let reopened = HyperonStore::open(log).unwrap();
    assert_eq!(reopened.get(b"1").unwrap().unwrap(), b"1.11".to_vec());
    assert_eq!(reopened.get(b"2").unwrap(), None);
    assert_eq!(reopened.get(b"3").unwrap().unwrap(), b"3".to_vec());
    assert_eq!(reopened.get(b"never").unwrap(), None);
}

#[test]
fn open_of_empty_log_is_empty_store() {
    let store = HyperonStore::open(Vec::new()).unwrap();
    assert_eq!(store.get(b"anything").unwrap(), None);
    assert_eq!(store.log_bytes().len(), 0);
}

#[test]
fn open_replays_consecutive_records() {
    let mut log = encode(b"a", b"1");
    log.extend_from_slice(&encode(b"b", b"2"));
    log.extend_from_slice(&encode(b"a", b"3"));
    let store = HyperonStore::open(log).unwrap();
    assert_eq!(store.get(b"a").unwrap().unwrap(), b"3".to_vec());
    assert_eq!(store.get(b"b").unwrap().unwrap(), b"2".to_vec());
}

#[test]
fn open_fails_on_truncated_log() {
    let rec = encode(b"key", b"value");
    let log = rec[..rec.len() - 2].to_vec();
    assert!(matches!(
        HyperonStore::open(log),
        Err(LogError::TruncatedRecord)
    ));
}

#[test]
fn open_fails_on_corrupt_record() {
    let mut log = encode(b"a", b"1");
    let flip_at = log.len() - 1;
    log[flip_at] ^= 0xff;
    match HyperonStore::open(log) {
        Err(LogError::DataCorruption { stored, computed }) => assert_ne!(stored, computed),
        other => panic!("expected corruption, got {:?}", other.map(|_| ())),
    }
}

#[test]
fn open_fails_atomically_on_late_corruption() {
    // Two good records, then a corrupt one: open must not come up at all.
    let mut log = encode(b"a", b"1");
    log.extend_from_slice(&encode(b"b", b"2"));
    let mut bad = encode(b"c", b"3");
    bad[12] ^= 0x01;
    log.extend_from_slice(&bad);
    assert!(matches!(
        HyperonStore::open(log),
        Err(LogError::DataCorruption { .. })
    ));
}
