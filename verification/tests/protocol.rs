use maelstrom_node::{Body, EchoNode, Error, Message, Node, NodeState, Payload, Runner};
use maelstrom_node::{encode_message, parse_canonical};

fn encode_to_string(m: &Message) -> String {
    encode_message(m).into_iter().collect()
}

fn init_line() -> &'static str {
    "{\"src\":\"c1\",\"dest\":\"n1\",\"body\":{\"type\":\"init\",\"msg_id\":1,\"node_id\":\"n1\",\"node_ids\":[\"n1\"]}}"
}

fn handshaken() -> Runner<EchoNode> {
    let runner: Runner<EchoNode> = Runner::new();
    let msg = parse_canonical(init_line()).unwrap();
    let (runner, result) = runner.step(msg);
    assert!(result.is_ok());
    runner
}

#[test]
fn fresh_node_state() {
    let s = NodeState::new();
    assert_eq!(s.next_msg_id, 0);
    assert_eq!(s.node_id, "");
    assert!(s.other_node_ids.is_empty());
}

#[test]
fn init_handshake_scenario() {
    let runner: Runner<EchoNode> = Runner::new();
    let msg = parse_canonical(init_line()).unwrap();
    let (runner, result) = runner.step(msg);
    let reply = result.unwrap().unwrap();
    assert_eq!(
        encode_to_string(&reply),
        "{\"src\":\"n1\",\"dest\":\"c1\",\"body\":{\"type\":\"init_ok\",\"in_reply_to\":1,\"msg_id\":0}}"
    );
    match runner {
        Runner::Active(node) => {
            assert_eq!(node.state.node_id, "n1");
            assert_eq!(node.state.next_msg_id, 1);
            assert_eq!(node.state.other_node_ids, vec!["n1".to_string()]);
        }
        Runner::Uninitialized(_) => panic!("handshake did not complete"),
    }
}

#[test]
fn echo_scenario_after_handshake() {
    let runner = handshaken();
    let msg = parse_canonical(
        "{\"src\":\"c1\",\"dest\":\"n1\",\"body\":{\"type\":\"echo\",\"msg_id\":2,\"echo\":\"hi\"}}",
    )
    .unwrap();
    let (_, result) = runner.step(msg);
    let reply = result.unwrap().unwrap();
    assert_eq!(
        encode_to_string(&reply),
        "{\"src\":\"n1\",\"dest\":\"c1\",\"body\":{\"type\":\"echo_ok\",\"in_reply_to\":2,\"msg_id\":1,\"echo\":\"hi\"}}"
    );
}

#[test]
fn echo_ok_is_a_no_op() {
    let runner = handshaken();
    let msg = parse_canonical(
        "{\"src\":\"c1\",\"dest\":\"n1\",\"body\":{\"type\":\"echo_ok\",\"echo\":\"x\"}}",
    )
    .unwrap();
    let (runner, result) = runner.step(msg);
    assert!(result.unwrap().is_none());
    match runner {
        Runner::Active(node) => assert_eq!(node.state.next_msg_id, 1),
        Runner::Uninitialized(_) => panic!("state machine fell back"),
    }
}

#[test]
fn non_init_before_handshake_fails() {
    let runner: Runner<EchoNode> = Runner::new();
    let msg = parse_canonical(
        "{\"src\":\"c1\",\"dest\":\"n1\",\"body\":{\"type\":\"echo\",\"msg_id\":1,\"echo\":\"hi\"}}",
    )
    .unwrap();
    let (_, result) = runner.step(msg);
    assert_eq!(result.unwrap_err(), Error::HandshakeNotComplete);
}

#[test]
fn echo_ok_before_handshake_fails_too() {
    let runner: Runner<EchoNode> = Runner::new();
    let msg = parse_canonical(
        "{\"src\":\"c1\",\"dest\":\"n1\",\"body\":{\"type\":\"echo_ok\",\"echo\":\"x\"}}",
    )
    .unwrap();
    let (_, result) = runner.step(msg);
    assert_eq!(result.unwrap_err(), Error::HandshakeNotComplete);
}

#[test]
fn second_init_fails() {
    let runner = handshaken();
    let msg = parse_canonical(init_line()).unwrap();
    let (_, result) = runner.step(msg);
    assert_eq!(result.unwrap_err(), Error::AlreadyInitialized);
}

#[test]
fn init_ok_to_echo_node_is_unsupported() {
    let runner = handshaken();
    let msg = parse_canonical(
        "{\"src\":\"c1\",\"dest\":\"n1\",\"body\":{\"type\":\"init_ok\"}}",
    )
    .unwrap();
    let (_, result) = runner.step(msg);
    assert_eq!(result.unwrap_err(), Error::UnsupportedPayload);
}

#[test]
fn emitted_ids_count_up_from_zero() {
    let mut runner = handshaken();
    let mut seen: Vec<usize> = vec![0];
    for i in 0..5u32 {
        let line = format!(
            "{{\"src\":\"c1\",\"dest\":\"n1\",\"body\":{{\"type\":\"echo\",\"msg_id\":{},\"echo\":\"m\"}}}}",
            10 + i
        );
        let msg = parse_canonical(&line).unwrap();
        let (next, result) = runner.step(msg);
        runner = next;
        let reply = result.unwrap().unwrap();
        seen.push(reply.body.msg_id.unwrap());
    }
    assert_eq!(seen, vec![0, 1, 2, 3, 4, 5]);
}

#[test]
fn no_op_dispatches_do_not_disturb_the_id_sequence() {
    let mut runner = handshaken();
    let mut seen: Vec<usize> = vec![0];
    for i in 0..3u32 {
        let echo = format!(
            "{{\"src\":\"c1\",\"dest\":\"n1\",\"body\":{{\"type\":\"echo\",\"msg_id\":{},\"echo\":\"m\"}}}}",
            20 + i
        );
        let ack = "{\"src\":\"c1\",\"dest\":\"n1\",\"body\":{\"type\":\"echo_ok\",\"echo\":\"m\"}}";
        let (next, result) = runner.step(parse_canonical(&echo).unwrap());
        runner = next;
        seen.push(result.unwrap().unwrap().body.msg_id.unwrap());
        let (next, result) = runner.step(parse_canonical(ack).unwrap());
        runner = next;
        assert!(result.unwrap().is_none());
    }
    assert_eq!(seen, vec![0, 1, 2, 3]);
}

#[test]
fn replies_carry_in_reply_to_of_request() {
    let runner = handshaken();
    let msg = parse_canonical(
        "{\"src\":\"c9\",\"dest\":\"n1\",\"body\":{\"type\":\"echo\",\"msg_id\":41,\"echo\":\"m\"}}",
    )
    .unwrap();
    let (_, result) = runner.step(msg);
    let reply = result.unwrap().unwrap();
    assert_eq!(reply.body.in_reply_to, Some(41));
    assert_eq!(reply.src, "n1");
    assert_eq!(reply.dst, "c9");
}

#[test]
fn dispatch_on_node_directly_matches_contract() {
    let mut node = EchoNode::init(NodeState::new());
    let request = Message {
        src: "c1".to_string(),
        dst: "n1".to_string(),
        body: Body {
            msg_id: Some(7),
            in_reply_to: None,
            payload: Payload::Echo { echo: "ping".to_string() },
        },
    };
    let reply = node.handle_message(request).unwrap().unwrap();
    assert_eq!(reply.body.msg_id, Some(0));
    assert_eq!(reply.body.in_reply_to, Some(7));
    match reply.body.payload {
        Payload::EchoOk { echo } => assert_eq!(echo, "ping"),
        _ => panic!("expected an echo_ok payload"),
    }
    assert_eq!(node.state.next_msg_id, 1);
}

#[test]
fn error_descriptions() {
    assert_eq!(Error::MalformedEnvelope.describe(), "malformed envelope");
    assert_eq!(Error::HandshakeNotComplete.describe(), "handshake not complete");
    assert_eq!(Error::AlreadyInitialized.describe(), "already initialized");
    assert_eq!(Error::UnsupportedPayload.describe(), "unsupported payload");
    assert_eq!(Error::IoFailure.describe(), "i/o failure");
}
