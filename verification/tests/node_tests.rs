use gossipy::decimal::{parse_u64, u64_to_dec, usize_to_dec};
use gossipy::protocol::{Body, InitPayload, Message};
use gossipy::{HandlerError, Node};

fn init_message() -> Message<InitPayload> {
    Message {
        src: "c0".to_string(),
        dst: "n1".to_string(),
        body: Body {
            id: Some(1),
            in_reply_to: None,
            payload: InitPayload::Init {
                node_id: "n1".to_string(),
                node_ids: vec!["n1".to_string()],
            },
        },
    }
}

#[test]
fn init_handshake_replies_init_ok() {
    let (node, reply) = Node::init(init_message()).expect("init must succeed");
    assert_eq!(reply.src, "n1");
    assert_eq!(reply.dst, "c0");
    assert!(matches!(reply.body.payload, InitPayload::InitOk));
    assert_eq!(reply.body.in_reply_to, Some(1));
    assert_eq!(reply.body.id, Some(1));
    assert_eq!(node.id(), "n1");
    assert_eq!(node.node_ids(), vec!["n1".to_string()]);
}

#[test]
fn init_rejects_init_ok_payload() {
    let msg = Message {
        src: "c0".to_string(),
        dst: "n1".to_string(),
        body: Body { id: Some(1), in_reply_to: None, payload: InitPayload::InitOk },
    };
    let r = Node::init(msg);
    assert!(matches!(r, Err(HandlerError::UnexpectedMessage)));
}

#[test]
fn message_ids_are_fresh_and_increasing() {
    let (mut node, _reply) = Node::init(init_message()).expect("init");
    let (m1, id1) = node.send_to("n9", "ping".to_string());
    let (m2, id2) = node.send_to("n9", "ping".to_string());
    assert_eq!(m1.body.id, Some(id1));
    assert_eq!(m2.body.id, Some(id2));
    assert!(id1 > 1, "the handshake reply already used id 1");
    assert!(id2 > id1);
    assert_eq!(m1.src, "n1");
    assert_eq!(m2.src, "n1");
    assert_eq!(m1.body.in_reply_to, None);
}

#[test]
fn reply_answers_the_incoming_msg_id() {
    let (mut node, _reply) = Node::init(init_message()).expect("init");
    let incoming = Message {
        src: "c7".to_string(),
        dst: "n1".to_string(),
        body: Body { id: Some(41), in_reply_to: None, payload: "hello".to_string() },
    };
    let reply = node.reply(&incoming, "world".to_string());
    assert_eq!(reply.src, "n1");
    assert_eq!(reply.dst, "c7");
    assert_eq!(reply.body.in_reply_to, Some(41));
    assert_eq!(reply.body.payload, "world");
}

#[test]
fn new_empty_has_no_addresses() {
    let m = Message::new_empty(7u64);
    assert_eq!(m.src, "");
    assert_eq!(m.dst, "");
    assert_eq!(m.body.id, None);
    assert_eq!(m.body.in_reply_to, None);
    assert_eq!(m.body.payload, 7);
}

#[test]
fn decimal_rendering() {
    assert_eq!(u64_to_dec(0), "0");
    assert_eq!(u64_to_dec(7), "7");
    assert_eq!(u64_to_dec(10), "10");
    assert_eq!(u64_to_dec(204), "204");
    assert_eq!(u64_to_dec(u64::MAX), "18446744073709551615");
    assert_eq!(usize_to_dec(12345), "12345");
}

#[test]
fn gossip_interval_parsing() {
    assert_eq!(parse_u64("200"), Some(200));
    assert_eq!(parse_u64("0"), Some(0));
    assert_eq!(parse_u64("+42"), Some(42));
    assert_eq!(parse_u64("18446744073709551615"), Some(u64::MAX));
    assert_eq!(parse_u64("18446744073709551616"), None);
    assert_eq!(parse_u64(""), None);
    assert_eq!(parse_u64("+"), None);
    assert_eq!(parse_u64("12a"), None);
    assert_eq!(parse_u64("-5"), None);
    assert_eq!(parse_u64(" 5"), None);
}
