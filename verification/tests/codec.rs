use maelstrom_node::{Body, Message, Payload};
use maelstrom_node::{encode_message, parse_canonical};
use maelstrom_node::Error;

fn envelope(payload: Payload, msg_id: Option<usize>, in_reply_to: Option<usize>) -> Message {
    Message {
        src: "a".to_string(),
        dst: "b".to_string(),
        body: Body { msg_id, in_reply_to, payload },
    }
}

fn encode_to_string(m: &Message) -> String {
    encode_message(m).into_iter().collect()
}

fn assert_round_trip(m: &Message) {
    let line = encode_to_string(m);
    let back = parse_canonical(&line).unwrap();
    assert_eq!(back.src, m.src);
    assert_eq!(back.dst, m.dst);
    assert_eq!(back.body.msg_id, m.body.msg_id);
    assert_eq!(back.body.in_reply_to, m.body.in_reply_to);
    match (&back.body.payload, &m.body.payload) {
        (Payload::Echo { echo: x }, Payload::Echo { echo: y }) => assert_eq!(x, y),
        (Payload::EchoOk { echo: x }, Payload::EchoOk { echo: y }) => assert_eq!(x, y),
        (
            Payload::Init { node_id: x, node_ids: xs },
            Payload::Init { node_id: y, node_ids: ys },
        ) => {
            assert_eq!(x, y);
            assert_eq!(xs, ys);
        }
        (Payload::InitOk, Payload::InitOk) => {}
        _ => panic!("payload variant changed across the round trip"),
    }
}

#[test]
fn encode_echo_exactly() {
    let m = envelope(Payload::Echo { echo: "hi".to_string() }, Some(3), None);
    assert_eq!(
        encode_to_string(&m),
        "{\"src\":\"a\",\"dest\":\"b\",\"body\":{\"type\":\"echo\",\"msg_id\":3,\"echo\":\"hi\"}}"
    );
}

#[test]
fn encode_echo_ok_exactly() {
    let m = envelope(Payload::EchoOk { echo: "hi".to_string() }, Some(1), Some(2));
    assert_eq!(
        encode_to_string(&m),
        "{\"src\":\"a\",\"dest\":\"b\",\"body\":{\"type\":\"echo_ok\",\"in_reply_to\":2,\"msg_id\":1,\"echo\":\"hi\"}}"
    );
}

#[test]
fn encode_init_exactly() {
    let m = envelope(
        Payload::Init {
            node_id: "n1".to_string(),
            node_ids: vec!["n1".to_string(), "n2".to_string()],
        },
        Some(1),
        None,
    );
    assert_eq!(
        encode_to_string(&m),
        "{\"src\":\"a\",\"dest\":\"b\",\"body\":{\"type\":\"init\",\"msg_id\":1,\"node_id\":\"n1\",\"node_ids\":[\"n1\",\"n2\"]}}"
    );
}

#[test]
fn encode_init_ok_exactly() {
    let m = envelope(Payload::InitOk, Some(0), Some(1));
    assert_eq!(
        encode_to_string(&m),
        "{\"src\":\"a\",\"dest\":\"b\",\"body\":{\"type\":\"init_ok\",\"in_reply_to\":1,\"msg_id\":0}}"
    );
}

#[test]
fn round_trip_echo() {
    assert_round_trip(&envelope(Payload::Echo { echo: "hello".to_string() }, Some(12), None));
}

#[test]
fn round_trip_echo_ok() {
    assert_round_trip(&envelope(Payload::EchoOk { echo: "x".to_string() }, Some(5), Some(4)));
}

#[test]
fn round_trip_init() {
    assert_round_trip(&envelope(
        Payload::Init {
            node_id: "n3".to_string(),
            node_ids: vec!["n1".to_string(), "n2".to_string(), "n3".to_string()],
        },
        Some(1),
        None,
    ));
}

#[test]
fn round_trip_init_ok() {
    assert_round_trip(&envelope(Payload::InitOk, None, Some(9)));
}

#[test]
fn round_trip_empty_and_escaped_strings() {
    assert_round_trip(&envelope(Payload::Echo { echo: "".to_string() }, None, None));
    assert_round_trip(&envelope(
        Payload::Echo { echo: "a\"b\\c".to_string() },
        Some(2),
        None,
    ));
    assert_round_trip(&envelope(
        Payload::Init { node_id: "n\\1".to_string(), node_ids: vec![] },
        Some(0),
        None,
    ));
}

#[test]
fn escaped_quote_is_written_with_a_backslash() {
    let m = envelope(Payload::Echo { echo: "a\"b".to_string() }, None, None);
    assert_eq!(
        encode_to_string(&m),
        "{\"src\":\"a\",\"dest\":\"b\",\"body\":{\"type\":\"echo\",\"echo\":\"a\\\"b\"}}"
    );
}

#[test]
fn round_trip_largest_id() {
    assert_round_trip(&envelope(
        Payload::EchoOk { echo: "m".to_string() },
        Some(usize::MAX),
        Some(usize::MAX),
    ));
}

#[test]
fn encoder_output_is_standard_json() {
    let m = envelope(
        Payload::Init {
            node_id: "n1".to_string(),
            node_ids: vec!["n1".to_string(), "n2".to_string()],
        },
        Some(1),
        Some(2),
    );
    let line = encode_to_string(&m);
    let v: serde_json::Value = serde_json::from_str(&line).unwrap();
    assert_eq!(v["src"].as_str(), Some("a"));
    assert_eq!(v["dest"].as_str(), Some("b"));
    assert_eq!(v["body"]["type"].as_str(), Some("init"));
    assert_eq!(v["body"]["msg_id"].as_u64(), Some(1));
    assert_eq!(v["body"]["in_reply_to"].as_u64(), Some(2));
    assert_eq!(v["body"]["node_id"].as_str(), Some("n1"));
    assert_eq!(v["body"]["node_ids"][0].as_str(), Some("n1"));
    assert_eq!(v["body"]["node_ids"][1].as_str(), Some("n2"));
}

#[test]
fn encoder_escapes_agree_with_standard_json() {
    let m = envelope(Payload::Echo { echo: "a\"b\\c".to_string() }, None, None);
    let line = encode_to_string(&m);
    let v: serde_json::Value = serde_json::from_str(&line).unwrap();
    assert_eq!(v["body"]["echo"].as_str(), Some("a\"b\\c"));
    assert!(v["body"].get("msg_id").is_none());
    assert!(v["body"].get("in_reply_to").is_none());
}

#[test]
fn malformed_lines_are_rejected() {
    for line in [
        "",
        "not json",
        "{\"src\":\"a\"}",
        "{\"src\":\"a\",\"dest\":\"b\",\"body\":{\"type\":\"frobnicate\",\"msg_id\":1}}",
        "{\"src\":\"a\",\"dest\":\"b\",\"body\":{\"type\":\"echo\",\"msg_id\":1}}",
        "{\"src\":\"a\",\"dest\":\"b\",\"body\":{\"type\":\"init_ok\"}}trailing",
        "{\"src\":\"a\",\"dest\":\"b\",\"body\":{\"type\":\"init_ok\",\"msg_id\":99999999999999999999999999}}",
    ] {
        assert_eq!(parse_canonical(line).unwrap_err(), Error::MalformedEnvelope, "line: {line}");
    }
}

#[test]
fn parse_reads_all_fields() {
    let m = parse_canonical(
        "{\"src\":\"c2\",\"dest\":\"n7\",\"body\":{\"type\":\"init\",\"msg_id\":6,\"node_id\":\"n7\",\"node_ids\":[\"n7\",\"n8\"]}}",
    )
    .unwrap();
    assert_eq!(m.src, "c2");
    assert_eq!(m.dst, "n7");
    assert_eq!(m.body.msg_id, Some(6));
    assert_eq!(m.body.in_reply_to, None);
    match m.body.payload {
        Payload::Init { node_id, node_ids } => {
            assert_eq!(node_id, "n7");
            assert_eq!(node_ids, vec!["n7".to_string(), "n8".to_string()]);
        }
        _ => panic!("expected an init payload"),
    }
}
