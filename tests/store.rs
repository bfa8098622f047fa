use kvs::{KvStore, KvsError};

fn s(x: &str) -> String {
    x.to_owned()
}

fn count_records(log: &[u8]) -> usize {
    log.iter().filter(|b| **b == b'\n').count()
}

#[test]
fn set_then_get() {
    let mut store = KvStore::new();
    store.set(s("key1"), s("value1")).unwrap();
    assert_eq!(store.get(s("key1")).unwrap(), Some(s("value1")));
    assert_eq!(store.get(s("key2")).unwrap(), None);
}

#[test]
fn set_then_get_unicode_and_escapes() {
    let mut store = KvStore::new();
    store.set(s("clé \"q\"\n"), s("välue\\\t")).unwrap();
    assert_eq!(store.get(s("clé \"q\"\n")).unwrap(), Some(s("välue\\\t")));
}

#[test]
fn remove_then_get_and_remove_again() {
    let mut store = KvStore::new();
    store.set(s("k"), s("v")).unwrap();
    store.remove(s("k")).unwrap();
    assert_eq!(store.get(s("k")).unwrap(), None);
    assert_eq!(store.remove(s("k")), Err(KvsError::KeyNotFound));
}

#[test]
fn remove_absent_key_appends_a_record() {
    let mut store = KvStore::new();
    assert_eq!(store.remove(s("nothing")), Err(KvsError::KeyNotFound));
    assert_eq!(store.log(), b"{\"Remove\":{\"key\":\"nothing\"}}\n");
}

#[test]
fn overwrite_keeps_latest() {
    let mut store = KvStore::new();
    store.set(s("k"), s("v1")).unwrap();
    store.set(s("k"), s("v2")).unwrap();
    assert_eq!(store.get(s("k")).unwrap(), Some(s("v2")));
}

#[test]
fn reopen_gives_same_mapping() {
    let mut store = KvStore::new();
    store.set(s("a"), s("1")).unwrap();
    store.set(s("b"), s("2")).unwrap();
    store.set(s("c"), s("3")).unwrap();
    store.remove(s("c")).unwrap();
    store.set(s("b"), s("20")).unwrap();
    let _ = store.remove(s("zzz"));
    let mut reopened = KvStore::open(store.log().to_vec()).unwrap();
    for k in ["a", "b", "c", "zzz"] {
        assert_eq!(reopened.get(s(k)).unwrap(), store.get(s(k)).unwrap());
    }
    assert_eq!(reopened.get(s("b")).unwrap(), Some(s("20")));
    assert_eq!(reopened.log(), store.log());
}

#[test]
fn open_replays_a_log_with_tombstones() {
    let log = b"{\"Set\":{\"key\":\"a\",\"value\":\"1\"}}\n{\"Set\":{\"key\":\"a\",\"value\":\"2\"}}\n{\"Set\":{\"key\":\"b\",\"value\":\"3\"}}\n{\"Remove\":{\"key\":\"b\"}}\n".to_vec();
    let mut store = KvStore::open(log).unwrap();
    assert_eq!(store.get(s("a")).unwrap(), Some(s("2")));
    assert_eq!(store.get(s("b")).unwrap(), None);
}

#[test]
fn open_empty_log() {
    let mut store = KvStore::open(Vec::new()).unwrap();
    assert_eq!(store.get(s("a")).unwrap(), None);
    assert!(store.log().is_empty());
}

#[test]
fn open_rejects_corrupt_log() {
    assert_eq!(KvStore::open(b"garbage\n".to_vec()).err(), Some(KvsError::Corrupt));
    let truncated = b"{\"Set\":{\"key\":\"a\",\"value\":\"1\"}}\n{\"Set\":{\"key\"".to_vec();
    assert_eq!(KvStore::open(truncated).err(), Some(KvsError::Corrupt));
    let not_text = b"{\"Set\":{\"key\":\"\xff\",\"value\":\"1\"}}\n".to_vec();
    assert_eq!(KvStore::open(not_text).err(), Some(KvsError::Corrupt));
}

#[test]
fn compaction_after_overwrite_keeps_one_record_per_key() {
    let mut store = KvStore::new();
    store.set(s("a"), s("1")).unwrap();
    store.set(s("b"), s("2")).unwrap();
    store.set(s("c"), s("3")).unwrap();
    assert_eq!(count_records(store.log()), 3);
    store.set(s("a"), s("10")).unwrap();
    assert_eq!(count_records(store.log()), 3);
    assert_eq!(store.get(s("a")).unwrap(), Some(s("10")));
    assert_eq!(store.get(s("b")).unwrap(), Some(s("2")));
    assert_eq!(store.get(s("c")).unwrap(), Some(s("3")));
}

#[test]
fn compaction_after_removal_keeps_one_record_per_key() {
    let mut store = KvStore::new();
    store.set(s("a"), s("1")).unwrap();
    store.set(s("b"), s("2")).unwrap();
    store.remove(s("a")).unwrap();
    assert_eq!(count_records(store.log()), 1);
    assert_eq!(store.log(), b"{\"Set\":{\"key\":\"b\",\"value\":\"2\"}}\n");
}

#[test]
fn explicit_compaction_preserves_values() {
    let mut store = KvStore::new();
    store.set(s("x"), s("1")).unwrap();
    store.set(s("y"), s("2")).unwrap();
    let _ = store.remove(s("missing"));
    assert_eq!(count_records(store.log()), 3);
    store.compaction().unwrap();
    assert_eq!(count_records(store.log()), 2);
    assert_eq!(store.get(s("x")).unwrap(), Some(s("1")));
    assert_eq!(store.get(s("y")).unwrap(), Some(s("2")));
}

#[test]
fn scenario_set_set_remove_then_reopen() {
    let mut store = KvStore::new();
    store.set(s("a"), s("1")).unwrap();
    store.set(s("b"), s("2")).unwrap();
    store.remove(s("a")).unwrap();
    assert_eq!(store.get(s("a")).unwrap(), None);
    assert_eq!(store.get(s("b")).unwrap(), Some(s("2")));
    let mut reopened = KvStore::open(store.log().to_vec()).unwrap();
    assert_eq!(reopened.get(s("a")).unwrap(), None);
    assert_eq!(reopened.get(s("b")).unwrap(), Some(s("2")));
}

#[test]
fn empty_key_and_value() {
    let mut store = KvStore::new();
    store.set(s(""), s("")).unwrap();
    assert_eq!(store.get(s("")).unwrap(), Some(s("")));
}
