use kvs::engine::KvsEngine;
use kvs::error::KvError;
use kvs::sled_engine::SledKvsEngine;
use kvs::store::KvStore;

/// One observable step against both backends: run the same call on
/// each and insist on the same outcome.
enum Op {
    Put(&'static str, &'static str),
    Remove(&'static str),
    Get(&'static str),
}

fn run_parity(path: &str, ops: &[Op]) {
    let mut log_engine = KvStore::open("db".to_string(), None).unwrap();
    let mut alt_engine = SledKvsEngine::open(&path.to_string()).unwrap();
    for op in ops {
        match op {
            Op::Put(k, v) => {
                log_engine.set(k.to_string(), v.to_string()).unwrap();
                KvsEngine::set(&mut alt_engine, k.to_string(), v.to_string()).unwrap();
            }
            Op::Remove(k) => {
                let a = log_engine.remove(k.to_string());
                let b = KvsEngine::remove(&mut alt_engine, k.to_string());
                match (&a, &b) {
                    (Ok(()), Ok(())) => {}
                    (Err(KvError::KeyNotFound), Err(KvError::KeyNotFound)) => {}
                    _ => panic!("remove outcomes diverged for {k}"),
                }
            }
            Op::Get(k) => {
                let a = log_engine.get(k.to_string()).unwrap();
                let b = KvsEngine::get(&mut alt_engine, k.to_string()).unwrap();
                assert_eq!(a, b, "get diverged for {k}");
            }
        }
    }
}

#[test]
fn backend_parity_over_a_mixed_sequence() {
    run_parity(
        "/tmp/kvs_backend_parity_mixed",
        &[
            Op::Put("a", "1"),
            Op::Get("a"),
            Op::Put("b", "2"),
            Op::Get("b"),
            Op::Put("a", "3"),
            Op::Get("a"),
            Op::Remove("b"),
            Op::Get("b"),
            Op::Remove("b"),
            Op::Put("c", "x"),
            Op::Remove("c"),
            Op::Get("c"),
            Op::Get("a"),
        ],
    );
}

#[test]
fn backend_parity_overwrites_and_reinserts() {
    run_parity(
        "/tmp/kvs_backend_parity_overwrite",
        &[
            Op::Put("k", "first"),
            Op::Get("k"),
            Op::Put("k", "second"),
            Op::Get("k"),
            Op::Remove("k"),
            Op::Get("k"),
            Op::Put("k", "third"),
            Op::Get("k"),
        ],
    );
}

#[test]
fn sled_backend_surfaces_io_failures() {
    // a path under a plain file can never become a database directory
    let path = "/dev/null/kvs_backend_impossible".to_string();
    match SledKvsEngine::open(&path) {
        Err(KvError::IoError(_)) => {}
        Err(_) => panic!("wrong error kind"),
        Ok(_) => panic!("opening under a plain file must fail"),
    }
}

#[test]
fn sled_backend_serves_the_capability_set() {
    let path = "/tmp/kvs_backend_sled_alone".to_string();
    let mut engine = SledKvsEngine::open(&path).unwrap();
    KvsEngine::set(&mut engine, "x".to_string(), "9".to_string()).unwrap();
    assert_eq!(
        KvsEngine::get(&mut engine, "x".to_string()).unwrap(),
        Some("9".to_string())
    );
    KvsEngine::remove(&mut engine, "x".to_string()).unwrap();
    assert_eq!(KvsEngine::get(&mut engine, "x".to_string()).unwrap(), None);
    let err = KvsEngine::remove(&mut engine, "x".to_string()).unwrap_err();
    assert!(matches!(err, KvError::KeyNotFound));
}
