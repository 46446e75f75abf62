use kvs::codec::{decode_command, decode_result, encode_command, encode_result, Decoded, DecodedRes};
use kvs::command::{KvsCommand, KvsResult};
use kvs::error::KvError;
use kvs::protocol::exchange;
use kvs::store::KvStore;

/// Serialize a command, decode it as the server would, run it against
/// the engine, and decode the serialized result as the client would.
fn wire_round_trip(store: &mut KvStore, command: KvsCommand) -> KvsResult {
    let request = encode_command(&command);
    let decoded = match decode_command(&request, 0) {
        Decoded::Done(c, next) => {
            assert_eq!(next, request.len());
            c
        }
        _ => panic!("request did not decode"),
    };
    let result = exchange(store, decoded);
    let response = encode_result(&result);
    match decode_result(&response, 0) {
        DecodedRes::Done(r, next) => {
            assert_eq!(next, response.len());
            r
        }
        _ => panic!("response did not decode"),
    }
}

#[test]
fn protocol_scenario() {
    let mut store = KvStore::open("db".to_string(), None).unwrap();

    let r = wire_round_trip(&mut store, KvsCommand::Put("x".to_string(), "9".to_string()));
    assert!(matches!(r, KvsResult::Done));

    let r = wire_round_trip(&mut store, KvsCommand::Get("x".to_string()));
    match r {
        KvsResult::Value(v) => assert_eq!(v, "9"),
        _ => panic!("expected the stored value"),
    }

    let r = wire_round_trip(&mut store, KvsCommand::Remove("y".to_string()));
    assert!(matches!(r, KvsResult::Error(KvError::KeyNotFound)));
}

#[test]
fn get_of_absent_key_travels_as_absent() {
    let mut store = KvStore::open("db".to_string(), None).unwrap();
    let r = wire_round_trip(&mut store, KvsCommand::Get("nothing".to_string()));
    assert!(matches!(r, KvsResult::Absent));
}

#[test]
fn remove_of_live_key_travels_as_done() {
    let mut store = KvStore::open("db".to_string(), None).unwrap();
    wire_round_trip(&mut store, KvsCommand::Put("x".to_string(), "1".to_string()));
    let r = wire_round_trip(&mut store, KvsCommand::Remove("x".to_string()));
    assert!(matches!(r, KvsResult::Done));
    let r = wire_round_trip(&mut store, KvsCommand::Get("x".to_string()));
    assert!(matches!(r, KvsResult::Absent));
}
