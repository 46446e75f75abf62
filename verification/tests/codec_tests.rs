use kvs::codec::{decode_command, decode_result, encode_command, encode_result, Decoded, DecodedRes};
use kvs::command::{KvsCommand, KvsResult};
use kvs::error::KvError;

fn round_trip_command(cmd: KvsCommand) -> KvsCommand {
    let bytes = encode_command(&cmd);
    match decode_command(&bytes, 0) {
        Decoded::Done(out, next) => {
            assert_eq!(next, bytes.len());
            out
        }
        _ => panic!("round trip failed"),
    }
}

#[test]
fn command_round_trip_put() {
    let out = round_trip_command(KvsCommand::Put("key".to_string(), "value".to_string()));
    match out {
        KvsCommand::Put(k, v) => {
            assert_eq!(k, "key");
            assert_eq!(v, "value");
        }
        _ => panic!("wrong variant"),
    }
}

#[test]
fn command_round_trip_remove_and_get() {
    match round_trip_command(KvsCommand::Remove("gone".to_string())) {
        KvsCommand::Remove(k) => assert_eq!(k, "gone"),
        _ => panic!("wrong variant"),
    }
    match round_trip_command(KvsCommand::Get("asked".to_string())) {
        KvsCommand::Get(k) => assert_eq!(k, "asked"),
        _ => panic!("wrong variant"),
    }
}

#[test]
fn command_round_trip_empty_and_unicode() {
    match round_trip_command(KvsCommand::Put(String::new(), String::new())) {
        KvsCommand::Put(k, v) => {
            assert_eq!(k, "");
            assert_eq!(v, "");
        }
        _ => panic!("wrong variant"),
    }
    match round_trip_command(KvsCommand::Put("clé".to_string(), "vàlüé✓".to_string())) {
        KvsCommand::Put(k, v) => {
            assert_eq!(k, "clé");
            assert_eq!(v, "vàlüé✓");
        }
        _ => panic!("wrong variant"),
    }
}

#[test]
fn command_encoding_is_self_delimiting() {
    let mut bytes = encode_command(&KvsCommand::Put("a".to_string(), "1".to_string()));
    let first_len = bytes.len();
    let mut second = encode_command(&KvsCommand::Remove("a".to_string()));
    bytes.append(&mut second);
    match decode_command(&bytes, 0) {
        Decoded::Done(KvsCommand::Put(k, _), next) => {
            assert_eq!(k, "a");
            assert_eq!(next, first_len);
            match decode_command(&bytes, next) {
                Decoded::Done(KvsCommand::Remove(k2), end) => {
                    assert_eq!(k2, "a");
                    assert_eq!(end, bytes.len());
                }
                _ => panic!("second record lost"),
            }
        }
        _ => panic!("first record lost"),
    }
}

#[test]
fn truncated_record_is_incomplete_not_malformed() {
    let bytes = encode_command(&KvsCommand::Put("key".to_string(), "value".to_string()));
    for cut in 0..bytes.len() {
        let mut short = bytes.clone();
        short.truncate(cut);
        assert!(
            matches!(decode_command(&short, 0), Decoded::Incomplete),
            "cut at {cut} should be incomplete"
        );
    }
}

#[test]
fn unknown_tag_is_malformed() {
    let bytes = vec![200u8, 0, 0, 0];
    assert!(matches!(decode_command(&bytes, 0), Decoded::Malformed));
}

#[test]
fn invalid_utf8_field_is_malformed() {
    // tag Remove, length 2, then bytes that are not UTF-8
    let bytes = vec![2u8, 2, 0, 0, 0, 0, 0, 0, 0, 0xff, 0xfe];
    assert!(matches!(decode_command(&bytes, 0), Decoded::Malformed));
}

fn round_trip_result(res: KvsResult) -> KvsResult {
    let bytes = encode_result(&res);
    match decode_result(&bytes, 0) {
        DecodedRes::Done(out, next) => {
            assert_eq!(next, bytes.len());
            out
        }
        _ => panic!("round trip failed"),
    }
}

#[test]
fn result_round_trips() {
    assert!(matches!(round_trip_result(KvsResult::Done), KvsResult::Done));
    assert!(matches!(round_trip_result(KvsResult::Absent), KvsResult::Absent));
    match round_trip_result(KvsResult::Value("9".to_string())) {
        KvsResult::Value(v) => assert_eq!(v, "9"),
        _ => panic!("wrong variant"),
    }
}

#[test]
fn error_results_round_trip_every_variant() {
    assert!(matches!(
        round_trip_result(KvsResult::Error(KvError::KeyNotFound)),
        KvsResult::Error(KvError::KeyNotFound)
    ));
    assert!(matches!(
        round_trip_result(KvsResult::Error(KvError::EngineMismatch)),
        KvsResult::Error(KvError::EngineMismatch)
    ));
    match round_trip_result(KvsResult::Error(KvError::IoError("disk gone".to_string()))) {
        KvsResult::Error(KvError::IoError(m)) => assert_eq!(m, "disk gone"),
        _ => panic!("wrong variant"),
    }
    match round_trip_result(KvsResult::Error(KvError::CorruptLog("bad byte".to_string()))) {
        KvsResult::Error(KvError::CorruptLog(m)) => assert_eq!(m, "bad byte"),
        _ => panic!("wrong variant"),
    }
}

#[test]
fn error_messages_name_the_failure() {
    assert_eq!(KvError::KeyNotFound.message(), "Key not found");
    assert_eq!(KvError::EngineMismatch.message(), "Engine mismatch");
    assert_eq!(KvError::IoError("x".to_string()).message(), "IO error: x");
    assert_eq!(KvError::CorruptLog("y".to_string()).message(), "Corrupt log: y");
}
