use kvs::codec::{decode_command, Decoded};
use kvs::error::KvError;
use kvs::store::KvStore;

fn open_fresh() -> KvStore {
    KvStore::open("db".to_string(), None).expect("fresh open")
}

fn get(store: &KvStore, key: &str) -> Option<String> {
    store.get(key.to_string()).expect("get never fails")
}

#[test]
fn get_after_set_returns_the_value() {
    let mut store = open_fresh();
    store.set("k".to_string(), "v".to_string()).unwrap();
    assert_eq!(get(&store, "k"), Some("v".to_string()));
    store.set("k".to_string(), "w".to_string()).unwrap();
    assert_eq!(get(&store, "k"), Some("w".to_string()));
}

#[test]
fn get_after_remove_is_absent() {
    let mut store = open_fresh();
    store.set("k".to_string(), "v".to_string()).unwrap();
    store.remove("k".to_string()).unwrap();
    assert_eq!(get(&store, "k"), None);
}

#[test]
fn get_of_never_set_key_is_absent() {
    let store = open_fresh();
    assert_eq!(get(&store, "nothing"), None);
}

#[test]
fn remove_requires_presence_and_leaves_log_unchanged() {
    let mut store = open_fresh();
    store.set("kept".to_string(), "1".to_string()).unwrap();
    let log_before = store.segment_len();
    let err = store.remove("missing".to_string()).unwrap_err();
    assert!(matches!(err, KvError::KeyNotFound));
    assert_eq!(store.segment_len(), log_before);
    assert_eq!(get(&store, "kept"), Some("1".to_string()));
    // removing a removed key fails the same way
    store.remove("kept".to_string()).unwrap();
    let log_after_remove = store.segment_len();
    let err = store.remove("kept".to_string()).unwrap_err();
    assert!(matches!(err, KvError::KeyNotFound));
    assert_eq!(store.segment_len(), log_after_remove);
}

#[test]
fn round_trip_scenario() {
    let mut store = open_fresh();
    store.set("a".to_string(), "1".to_string()).unwrap();
    store.set("b".to_string(), "2".to_string()).unwrap();
    store.remove("a".to_string()).unwrap();
    let segment = store.segment_bytes().clone();
    let reopened = KvStore::open("db".to_string(), Some(segment)).expect("reopen");
    assert_eq!(get(&reopened, "a"), None);
    assert_eq!(get(&reopened, "b"), Some("2".to_string()));
}

#[test]
fn replay_is_idempotent() {
    let mut store = open_fresh();
    store.set("a".to_string(), "1".to_string()).unwrap();
    store.set("b".to_string(), "2".to_string()).unwrap();
    store.set("a".to_string(), "3".to_string()).unwrap();
    store.remove("b".to_string()).unwrap();
    let segment = store.segment_bytes().clone();

    // replay once
    let mut once = KvStore::open("db".to_string(), Some(segment.clone())).unwrap();
    // replay the same records a second time over the same store
    let mut pos = 8;
    loop {
        match decode_command(&segment, pos) {
            Decoded::Done(cmd, next) => {
                KvStore::load(&mut once, &cmd).unwrap();
                pos = next;
            }
            _ => break,
        }
    }
    assert_eq!(get(&once, "a"), Some("3".to_string()));
    assert_eq!(get(&once, "b"), None);
}

#[test]
fn crash_tolerance_truncated_tail_is_dropped() {
    let mut store = open_fresh();
    store.set("alpha".to_string(), "1".to_string()).unwrap();
    store.set("beta".to_string(), "2".to_string()).unwrap();
    let boundary = store.segment_len();
    store.set("gamma".to_string(), "3".to_string()).unwrap();

    // cut anywhere inside the last record: the two whole records survive
    for cut in boundary..store.segment_len() {
        let mut segment = store.segment_bytes().clone();
        segment.truncate(cut);
        let recovered = KvStore::open("db".to_string(), Some(segment)).expect("reopen");
        assert_eq!(get(&recovered, "alpha"), Some("1".to_string()));
        assert_eq!(get(&recovered, "beta"), Some("2".to_string()));
        assert_eq!(get(&recovered, "gamma"), None);
    }
}

#[test]
fn truncated_to_marker_only_is_an_empty_store() {
    let mut store = open_fresh();
    store.set("a".to_string(), "1".to_string()).unwrap();
    let mut segment = store.segment_bytes().clone();
    segment.truncate(8);
    let recovered = KvStore::open("db".to_string(), Some(segment)).unwrap();
    assert_eq!(get(&recovered, "a"), None);
}

#[test]
fn malformed_interior_record_is_fatal() {
    let mut store = open_fresh();
    store.set("a".to_string(), "1".to_string()).unwrap();
    let mut segment = store.segment_bytes().clone();
    segment.push(200); // an impossible tag
    segment.push(0);
    match KvStore::open("db".to_string(), Some(segment)) {
        Err(KvError::CorruptLog(_)) => {}
        Err(_) => panic!("wrong error kind"),
        Ok(_) => panic!("a malformed record must be fatal"),
    }
}

#[test]
fn foreign_contents_are_rejected_as_engine_mismatch() {
    for foreign in [b"not ours".to_vec(), vec![1, 2, 3]] {
        match KvStore::open("db".to_string(), Some(foreign)) {
            Err(KvError::EngineMismatch) => {}
            Err(_) => panic!("wrong error kind"),
            Ok(_) => panic!("foreign contents must be rejected"),
        }
    }
}

#[test]
fn compaction_preserves_the_index_and_shrinks_the_log() {
    let mut store = open_fresh();
    for round in 0..10 {
        for k in 0..20 {
            store
                .set(format!("key{k}"), format!("value{round}-{k}"))
                .unwrap();
        }
    }
    store.remove("key0".to_string()).unwrap();
    let before_len = store.segment_len();
    let mut expected = Vec::new();
    for k in 1..20 {
        expected.push((format!("key{k}"), get(&store, &format!("key{k}")).unwrap()));
    }

    store.compact();

    assert!(store.segment_len() < before_len);
    assert_eq!(get(&store, "key0"), None);
    for (k, v) in &expected {
        assert_eq!(get(&store, k), Some(v.clone()));
    }

    // the compacted log, replayed from empty, reproduces the same index
    let reopened = KvStore::open("db".to_string(), Some(store.segment_bytes().clone())).unwrap();
    assert_eq!(get(&reopened, "key0"), None);
    for (k, v) in &expected {
        assert_eq!(get(&reopened, k), Some(v.clone()));
    }
}

#[test]
fn compaction_triggers_itself_after_enough_stale_writes() {
    let mut store = open_fresh();
    store.set("stable".to_string(), "kept".to_string()).unwrap();
    for i in 0..1200 {
        store.set("hot".to_string(), format!("v{i}")).unwrap();
    }
    // far more than 1200 records were written; the automatic
    // compaction dropped the stale ones from the segment
    let segment = store.segment_bytes().clone();
    let reopened = KvStore::open("db".to_string(), Some(segment.clone())).unwrap();
    assert_eq!(get(&reopened, "stable"), Some("kept".to_string()));
    assert_eq!(get(&reopened, "hot"), Some("v1199".to_string()));
    let mut records = 0;
    let mut pos = 8;
    while let Decoded::Done(_, next) = decode_command(&segment, pos) {
        records += 1;
        pos = next;
    }
    assert!(records < 1201, "compaction never ran: {records} records");
}

#[test]
fn new_store_is_empty() {
    let store = KvStore::new();
    assert_eq!(get(&store, "anything"), None);
    assert_eq!(store.segment_len(), 8);
}

#[test]
fn segment_prefix_marks_the_backend() {
    let mut store = open_fresh();
    store.set("a".to_string(), "1".to_string()).unwrap();
    assert!(KvStore::is_log_segment_prefix(store.segment_bytes()));
    assert!(!KvStore::is_log_segment_prefix(&b"something else".to_vec()));
    assert!(!KvStore::is_log_segment_prefix(&b"KVSLOG".to_vec()));
}
