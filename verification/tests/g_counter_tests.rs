use std::collections::HashMap;

use gossipy::g_counter::{Command, GCounter, Payload};
use gossipy::kv_store::{KvStorePayload, ERROR_PRECONDITION_FAILED};
use gossipy::protocol::{Body, InitPayload, Message};
use gossipy::Node;

fn make_node(id: &str, all: &[&str]) -> Node {
    let msg = Message {
        src: "c0".to_string(),
        dst: id.to_string(),
        body: Body {
            id: Some(1),
            in_reply_to: None,
            payload: InitPayload::Init {
                node_id: id.to_string(),
                node_ids: all.iter().map(|s| s.to_string()).collect(),
            },
        },
    };
    Node::init(msg).expect("init").0
}

fn client(payload: Payload, msg_id: usize) -> Message<Payload> {
    Message {
        src: "c0".to_string(),
        dst: "n1".to_string(),
        body: Body { id: Some(msg_id), in_reply_to: None, payload },
    }
}

/// Answers one KV request the way the sequentially consistent service
/// would, against the given store.
fn kv_answer(store: &mut HashMap<String, usize>, req: &Message<KvStorePayload>) -> Message<Payload> {
    let irt = req.body.id;
    let payload = match &req.body.payload {
        KvStorePayload::Read { key } => match store.get(key) {
            Some(v) => Payload::ReadOk { value: *v },
            None => Payload::Error { code: 20, text: "key does not exist".to_string() },
        },
        KvStorePayload::Write { key, value } => {
            store.insert(key.clone(), *value);
            Payload::WriteOk
        },
        KvStorePayload::Cas { key, from, to, create_if_not_exists } => match store.get(key) {
            Some(v) if v == from => {
                store.insert(key.clone(), *to);
                Payload::CasOk
            },
            Some(_) => Payload::Error {
                code: ERROR_PRECONDITION_FAILED,
                text: "precondition failed".to_string(),
            },
            None => {
                if *create_if_not_exists {
                    store.insert(key.clone(), *to);
                    Payload::CasOk
                } else {
                    Payload::Error { code: 20, text: "key does not exist".to_string() }
                }
            },
        },
    };
    Message {
        src: req.dst.clone(),
        dst: req.src.clone(),
        body: Body { id: None, in_reply_to: irt, payload },
    }
}

/// Feeds every outstanding KV request to the simulated store and hands
/// the answers back to the handler, until the exchange quiesces.
/// Returns every reply the handler addressed to a client.
fn run_kv(
    handler: &mut GCounter,
    node: &mut Node,
    store: &mut HashMap<String, usize>,
    mut pending: Vec<Message<KvStorePayload>>,
) -> Vec<Message<Payload>> {
    let mut client_replies = Vec::new();
    while let Some(req) = pending.pop() {
        let answer = kv_answer(store, &req);
        let (replies, kv) = handler.handle(answer, node).expect("kv answer");
        client_replies.extend(replies);
        pending.extend(kv);
    }
    client_replies
}

#[test]
fn init_store_materializes_the_counter() {
    let mut node = make_node("n1", &["n1"]);
    let mut handler = GCounter::new();
    let mut store: HashMap<String, usize> = HashMap::new();
    let kv = handler.handle_command(&Command::InitStore, &mut node).expect("init store");
    assert_eq!(kv.len(), 1);
    assert_eq!(kv[0].dst, "seq-kv");
    match &kv[0].body.payload {
        KvStorePayload::Cas { key, from, to, create_if_not_exists } => {
            assert_eq!(key, "g-counter");
            assert_eq!((*from, *to), (0, 0));
            assert!(create_if_not_exists);
        },
        other => panic!("expected cas, got {:?}", other),
    }
    let replies = run_kv(&mut handler, &mut node, &mut store, kv);
    assert!(replies.is_empty());
    assert_eq!(store.get("g-counter"), Some(&0));
}

#[test]
fn add_replies_at_once_and_applies_by_cas() {
    let mut node = make_node("n1", &["n1"]);
    let mut handler = GCounter::new();
    let mut store: HashMap<String, usize> = HashMap::new();
    store.insert("g-counter".to_string(), 0);

    let (replies, kv) = handler.handle(client(Payload::Add { delta: 5 }, 7), &mut node).expect("add");
    assert_eq!(replies.len(), 1);
    assert_eq!(replies[0].dst, "c0");
    assert_eq!(replies[0].body.in_reply_to, Some(7));
    assert!(matches!(replies[0].body.payload, Payload::AddOk));
    assert_eq!(kv.len(), 1);
    let late = run_kv(&mut handler, &mut node, &mut store, kv);
    assert!(late.is_empty());
    assert_eq!(store.get("g-counter"), Some(&5));
}

#[test]
fn adds_then_read_returns_the_sum() {
    let mut node = make_node("n1", &["n1", "n2", "n3"]);
    let mut handler = GCounter::new();
    let mut store: HashMap<String, usize> = HashMap::new();
    store.insert("g-counter".to_string(), 0);

    let (_, kv) = handler.handle(client(Payload::Add { delta: 5 }, 1), &mut node).expect("add 5");
    run_kv(&mut handler, &mut node, &mut store, kv);
    let (_, kv) = handler.handle(client(Payload::Add { delta: 3 }, 2), &mut node).expect("add 3");
    run_kv(&mut handler, &mut node, &mut store, kv);

    let (replies, kv) = handler.handle(client(Payload::Read, 3), &mut node).expect("read");
    assert!(replies.is_empty(), "the read answers only once the service does");
    assert_eq!(kv.len(), 2, "a fence write, then the read");
    assert!(matches!(&kv[0].body.payload, KvStorePayload::Write { key, .. } if key == "timestamp"));
    assert!(matches!(&kv[1].body.payload, KvStorePayload::Read { key } if key == "g-counter"));
    let replies = run_kv(&mut handler, &mut node, &mut store, kv);
    assert_eq!(replies.len(), 1);
    assert_eq!(replies[0].dst, "c0");
    assert_eq!(replies[0].body.in_reply_to, Some(3));
    match replies[0].body.payload {
        Payload::ReadOk { value } => assert_eq!(value, 8),
        ref other => panic!("expected read_ok, got {:?}", other),
    }
}

#[test]
fn failed_cas_retries_from_a_fresh_read() {
    let mut node = make_node("n1", &["n1"]);
    let mut handler = GCounter::new();
    let mut store: HashMap<String, usize> = HashMap::new();
    store.insert("g-counter".to_string(), 0);

    let (_, kv) = handler.handle(client(Payload::Add { delta: 5 }, 1), &mut node).expect("add");
    // Answer the read, so the handler proposes 0 -> 5 ...
    let answer = kv_answer(&mut store, &kv[0]);
    let (_, kv) = handler.handle(answer, &mut node).expect("read_ok");
    assert_eq!(kv.len(), 1);
    // ... but another node bumps the counter first.
    store.insert("g-counter".to_string(), 10);
    let answer = kv_answer(&mut store, &kv[0]);
    match &answer.body.payload {
        Payload::Error { code, .. } => assert_eq!(*code, ERROR_PRECONDITION_FAILED),
        other => panic!("expected the cas to fail, got {:?}", other),
    }
    let (_, kv) = handler.handle(answer, &mut node).expect("retry");
    assert_eq!(kv.len(), 1);
    assert!(matches!(&kv[0].body.payload, KvStorePayload::Read { key } if key == "g-counter"));
    // From here the retry runs to completion.
    run_kv(&mut handler, &mut node, &mut store, kv);
    assert_eq!(store.get("g-counter"), Some(&15));
}

#[test]
fn read_without_msg_id_is_an_error() {
    let mut node = make_node("n1", &["n1"]);
    let mut handler = GCounter::new();
    let msg = Message {
        src: "c0".to_string(),
        dst: "n1".to_string(),
        body: Body { id: None, in_reply_to: None, payload: Payload::Read },
    };
    assert_eq!(handler.handle(msg, &mut node).unwrap_err(), gossipy::HandlerError::MissingMsgId);
}

#[test]
fn read_ok_without_in_reply_to_is_an_error() {
    let mut node = make_node("n1", &["n1"]);
    let mut handler = GCounter::new();
    let msg = Message {
        src: "seq-kv".to_string(),
        dst: "n1".to_string(),
        body: Body { id: None, in_reply_to: None, payload: Payload::ReadOk { value: 3 } },
    };
    assert_eq!(
        handler.handle(msg, &mut node).unwrap_err(),
        gossipy::HandlerError::MissingInReplyTo
    );
}

#[test]
fn read_ok_answering_nothing_is_an_error() {
    let mut node = make_node("n1", &["n1"]);
    let mut handler = GCounter::new();
    let msg = Message {
        src: "seq-kv".to_string(),
        dst: "n1".to_string(),
        body: Body { id: None, in_reply_to: Some(77), payload: Payload::ReadOk { value: 3 } },
    };
    assert_eq!(
        handler.handle(msg, &mut node).unwrap_err(),
        gossipy::HandlerError::MissingCorrelation
    );
}

#[test]
fn unrelated_kv_errors_drop_the_correlation() {
    let mut node = make_node("n1", &["n1"]);
    let mut handler = GCounter::new();
    let (_, kv) = handler.handle(client(Payload::Add { delta: 5 }, 1), &mut node).expect("add");
    let read_id = kv[0].body.id.expect("request id");
    assert_eq!(handler.pending_delta(read_id), Some(5));

    let msg = Message {
        src: "seq-kv".to_string(),
        dst: "n1".to_string(),
        body: Body {
            id: None,
            in_reply_to: Some(read_id),
            payload: Payload::Error { code: 13, text: "temporarily unavailable".to_string() },
        },
    };
    let (replies, kv) = handler.handle(msg, &mut node).expect("other errors are dropped");
    assert!(replies.is_empty());
    assert!(kv.is_empty());
    assert_eq!(handler.pending_delta(read_id), None, "the pending delta is gone");
}
