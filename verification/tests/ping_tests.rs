use kvs::ping::RedisPing;

#[test]
fn wire_form_carries_the_marker_then_the_message() {
    let ping = RedisPing {
        message: "hello".to_string(),
    };
    assert_eq!(ping.wire_bytes(), b"PING hello".to_vec());
}

#[test]
fn empty_message_serializes_to_the_bare_marker() {
    let ping = RedisPing {
        message: String::new(),
    };
    assert_eq!(ping.wire_bytes(), b"PING ".to_vec());
}

#[test]
fn parsing_drops_the_first_four_bytes() {
    let ping = RedisPing::from_wire("PING hello");
    assert_eq!(ping.message, " hello");
    let ping = RedisPing::from_wire("PING");
    assert_eq!(ping.message, "");
}

#[test]
fn short_input_parses_as_an_empty_message() {
    let ping = RedisPing::from_wire("no");
    assert_eq!(ping.message, "");
}
