use std::collections::HashMap;

use gossipy::kafka::{KafkaLog, Payload};
use gossipy::kv_store::{KvStorePayload, ERROR_KEY_DOES_NOT_EXIST, ERROR_PRECONDITION_FAILED};
use gossipy::protocol::{Body, InitPayload, Message};
use gossipy::Node;

fn make_node(id: &str) -> Node {
    let msg = Message {
        src: "c0".to_string(),
        dst: id.to_string(),
        body: Body {
            id: Some(1),
            in_reply_to: None,
            payload: InitPayload::Init {
                node_id: id.to_string(),
                node_ids: vec![id.to_string()],
            },
        },
    };
    Node::init(msg).expect("init").0
}

fn client(src: &str, payload: Payload, msg_id: usize) -> Message<Payload> {
    Message {
        src: src.to_string(),
        dst: "n1".to_string(),
        body: Body { id: Some(msg_id), in_reply_to: None, payload },
    }
}

/// Answers one KV request the way the linearizable service would.
fn kv_answer(store: &mut HashMap<String, usize>, req: &Message<KvStorePayload>) -> Message<Payload> {
    let irt = req.body.id;
    let payload = match &req.body.payload {
        KvStorePayload::Read { key } => match store.get(key) {
            Some(v) => Payload::ReadOk { value: *v },
            None => Payload::Error {
                code: ERROR_KEY_DOES_NOT_EXIST,
                text: "key does not exist".to_string(),
            },
        },
        KvStorePayload::Write { key, value } => {
            store.insert(key.clone(), *value);
            Payload::WriteOk
        },
        KvStorePayload::Cas { key, from, to, create_if_not_exists } => match store.get(key) {
            Some(v) if v == from => {
                store.insert(key.clone(), *to);
                Payload::CasOk
            },
            Some(_) => Payload::Error {
                code: ERROR_PRECONDITION_FAILED,
                text: "precondition failed".to_string(),
            },
            None => {
                if *create_if_not_exists {
                    store.insert(key.clone(), *to);
                    Payload::CasOk
                } else {
                    Payload::Error {
                        code: ERROR_KEY_DOES_NOT_EXIST,
                        text: "key does not exist".to_string(),
                    }
                }
            },
        },
    };
    Message {
        src: req.dst.clone(),
        dst: req.src.clone(),
        body: Body { id: None, in_reply_to: irt, payload },
    }
}

/// Answers outstanding KV requests in order until the exchange quiesces,
/// collecting every reply addressed to a client.
fn run_kv(
    handler: &mut KafkaLog,
    node: &mut Node,
    store: &mut HashMap<String, usize>,
    mut pending: Vec<Message<KvStorePayload>>,
) -> Vec<Message<Payload>> {
    let mut client_replies = Vec::new();
    let mut guard: usize = 0;
    while !pending.is_empty() {
        guard += 1;
        assert!(guard < 10_000, "kv exchange does not quiesce");
        let req = pending.remove(0);
        let answer = kv_answer(store, &req);
        let (replies, kv) = handler.handle(answer, node).expect("kv answer");
        client_replies.extend(replies);
        pending.extend(kv);
    }
    client_replies
}

fn send(
    handler: &mut KafkaLog,
    node: &mut Node,
    store: &mut HashMap<String, usize>,
    src: &str,
    key: &str,
    msg: u64,
    msg_id: usize,
) -> Vec<Message<Payload>> {
    let (replies, kv) = handler
        .handle(client(src, Payload::Send { key: key.to_string(), msg }, msg_id), node)
        .expect("send");
    assert!(replies.is_empty(), "send answers only after the entry is written");
    let mut all = run_kv(handler, node, store, kv);
    let mut r = Vec::new();
    r.append(&mut all);
    r
}

#[test]
fn first_send_for_a_new_key_returns_offset_one() {
    let mut node = make_node("n1");
    let mut handler = KafkaLog::new();
    let mut store: HashMap<String, usize> = HashMap::new();

    let replies = send(&mut handler, &mut node, &mut store, "c0", "k", 100, 1);
    assert_eq!(replies.len(), 1);
    assert_eq!(replies[0].dst, "c0");
    assert_eq!(replies[0].body.in_reply_to, Some(1));
    match replies[0].body.payload {
        Payload::SendOk { offset } => assert_eq!(offset, 1),
        ref other => panic!("expected send_ok, got {:?}", other),
    }
    assert_eq!(store.get("offset-k"), Some(&1));
    assert_eq!(store.get("entry-k-1"), Some(&100));
}

#[test]
fn send_then_poll_returns_the_entry() {
    let mut node = make_node("n1");
    let mut handler = KafkaLog::new();
    let mut store: HashMap<String, usize> = HashMap::new();

    let replies = send(&mut handler, &mut node, &mut store, "c0", "k", 100, 1);
    assert!(matches!(replies[0].body.payload, Payload::SendOk { offset: 1 }));

    let (replies, kv) = handler
        .handle(client("c0", Payload::Poll { offsets: vec![("k".to_string(), 1)] }, 2), &mut node)
        .expect("poll");
    assert!(replies.is_empty());
    assert_eq!(kv.len(), 3, "one fixed window of three reads");
    let replies = run_kv(&mut handler, &mut node, &mut store, kv);
    assert_eq!(replies.len(), 1);
    assert_eq!(replies[0].body.in_reply_to, Some(2));
    match &replies[0].body.payload {
        Payload::PollOk { msgs } => {
            assert_eq!(msgs.len(), 1);
            assert_eq!(msgs[0].0, "k");
            assert_eq!(msgs[0].1, vec![(1, 100)]);
        },
        other => panic!("expected poll_ok, got {:?}", other),
    }
}

#[test]
fn contended_sends_get_distinct_offsets() {
    let mut node = make_node("n1");
    let mut handler = KafkaLog::new();
    let mut store: HashMap<String, usize> = HashMap::new();

    // Both sends read the offset key before either compare-and-swap runs.
    let (_, kv_a) = handler
        .handle(client("c1", Payload::Send { key: "k".to_string(), msg: 10 }, 1), &mut node)
        .expect("send a");
    let (_, kv_b) = handler
        .handle(client("c2", Payload::Send { key: "k".to_string(), msg: 20 }, 1), &mut node)
        .expect("send b");
    let mut pending: Vec<Message<KvStorePayload>> = Vec::new();
    pending.extend(kv_a);
    pending.extend(kv_b);
    let replies = run_kv(&mut handler, &mut node, &mut store, pending);

    let mut offsets: Vec<(String, usize)> = replies
        .iter()
        .map(|r| match r.body.payload {
            Payload::SendOk { offset } => (r.dst.clone(), offset),
            ref other => panic!("expected send_ok, got {:?}", other),
        })
        .collect();
    offsets.sort();
    assert_eq!(offsets, vec![("c1".to_string(), 1), ("c2".to_string(), 2)]);
    assert_eq!(store.get("entry-k-1"), Some(&10));
    assert_eq!(store.get("entry-k-2"), Some(&20));
}

#[test]
fn poll_window_holds_at_most_three_entries() {
    let mut node = make_node("n1");
    let mut handler = KafkaLog::new();
    let mut store: HashMap<String, usize> = HashMap::new();
    for i in 0..5u64 {
        send(&mut handler, &mut node, &mut store, "c0", "k", 100 + i, 1 + i as usize);
    }
    let (_, kv) = handler
        .handle(client("c0", Payload::Poll { offsets: vec![("k".to_string(), 0)] }, 9), &mut node)
        .expect("poll");
    let replies = run_kv(&mut handler, &mut node, &mut store, kv);
    match &replies[0].body.payload {
        Payload::PollOk { msgs } => {
            assert_eq!(msgs[0].0, "k");
            assert_eq!(msgs[0].1, vec![(1, 100), (2, 101), (3, 102)]);
            assert!(msgs[0].1.len() <= 3);
        },
        other => panic!("expected poll_ok, got {:?}", other),
    }
}

#[test]
fn poll_of_a_key_with_no_entries_returns_an_empty_list() {
    let mut node = make_node("n1");
    let mut handler = KafkaLog::new();
    let mut store: HashMap<String, usize> = HashMap::new();
    let (_, kv) = handler
        .handle(client("c0", Payload::Poll { offsets: vec![("nope".to_string(), 0)] }, 4), &mut node)
        .expect("poll");
    let replies = run_kv(&mut handler, &mut node, &mut store, kv);
    assert_eq!(replies.len(), 1);
    match &replies[0].body.payload {
        Payload::PollOk { msgs } => {
            assert_eq!(msgs.len(), 1);
            assert_eq!(msgs[0].0, "nope");
            assert!(msgs[0].1.is_empty());
        },
        other => panic!("expected poll_ok, got {:?}", other),
    }
}

#[test]
fn commit_offsets_is_idempotent() {
    let mut node = make_node("n1");
    let mut handler = KafkaLog::new();
    let mut store: HashMap<String, usize> = HashMap::new();

    let commit = |handler: &mut KafkaLog, node: &mut Node, store: &mut HashMap<String, usize>, msg_id: usize| {
        let (replies, kv) = handler
            .handle(
                client("c0", Payload::CommitOffsets { offsets: vec![("k".to_string(), 3)] }, msg_id),
                node,
            )
            .expect("commit");
        assert!(replies.is_empty());
        let replies = run_kv(handler, node, store, kv);
        assert_eq!(replies.len(), 1);
        assert_eq!(replies[0].body.in_reply_to, Some(msg_id));
        assert!(matches!(replies[0].body.payload, Payload::CommitOffsetsOk));
    };
    commit(&mut handler, &mut node, &mut store, 5);
    let snapshot = store.clone();
    commit(&mut handler, &mut node, &mut store, 6);
    assert_eq!(store, snapshot, "committing the same pair twice changes nothing");
    assert_eq!(store.get("committed-offset-k"), Some(&3));
}

#[test]
fn list_committed_offsets_omits_uncommitted_keys() {
    let mut node = make_node("n1");
    let mut handler = KafkaLog::new();
    let mut store: HashMap<String, usize> = HashMap::new();
    store.insert("committed-offset-a".to_string(), 2);

    let (replies, kv) = handler
        .handle(
            client(
                "c0",
                Payload::ListCommittedOffsets {
                    keys: vec!["a".to_string(), "b".to_string()],
                },
                8,
            ),
            &mut node,
        )
        .expect("list");
    assert!(replies.is_empty());
    assert_eq!(kv.len(), 2);
    let replies = run_kv(&mut handler, &mut node, &mut store, kv);
    assert_eq!(replies.len(), 1);
    assert_eq!(replies[0].body.in_reply_to, Some(8));
    match &replies[0].body.payload {
        Payload::ListCommittedOffsetsOk { offsets } => {
            assert_eq!(offsets, &vec![("a".to_string(), 2)]);
        },
        other => panic!("expected list_committed_offsets_ok, got {:?}", other),
    }
}

#[test]
fn empty_poll_answers_at_once() {
    let mut node = make_node("n1");
    let mut handler = KafkaLog::new();
    let (replies, kv) = handler
        .handle(client("c0", Payload::Poll { offsets: Vec::new() }, 3), &mut node)
        .expect("poll");
    assert!(kv.is_empty());
    assert_eq!(replies.len(), 1);
    assert_eq!(replies[0].body.in_reply_to, Some(3));
    assert!(matches!(&replies[0].body.payload, Payload::PollOk { msgs } if msgs.is_empty()));
}

#[test]
fn unexpected_kv_error_codes_drop_the_correlation() {
    let mut node = make_node("n1");
    let mut handler = KafkaLog::new();
    let (_, kv) = handler
        .handle(client("c0", Payload::Send { key: "k".to_string(), msg: 9 }, 1), &mut node)
        .expect("send");
    let read_id = kv[0].body.id.expect("request id");

    let error = Message {
        src: "lin-kv".to_string(),
        dst: "n1".to_string(),
        body: Body {
            id: None,
            in_reply_to: Some(read_id),
            payload: Payload::Error { code: 13, text: "temporarily unavailable".to_string() },
        },
    };
    let (replies, kv) = handler.handle(error, &mut node).expect("other errors are dropped");
    assert!(replies.is_empty());
    assert!(kv.is_empty());

    // The correlation is gone: a late answer to the same id matches nothing.
    let late = Message {
        src: "lin-kv".to_string(),
        dst: "n1".to_string(),
        body: Body { id: None, in_reply_to: Some(read_id), payload: Payload::ReadOk { value: 0 } },
    };
    assert_eq!(
        handler.handle(late, &mut node).unwrap_err(),
        gossipy::HandlerError::MissingCorrelation
    );
}

#[test]
fn expected_error_codes_answering_nothing_are_ignored() {
    let mut node = make_node("n1");
    let mut handler = KafkaLog::new();
    let msg = Message {
        src: "lin-kv".to_string(),
        dst: "n1".to_string(),
        body: Body {
            id: None,
            in_reply_to: Some(4),
            payload: Payload::Error {
                code: ERROR_KEY_DOES_NOT_EXIST,
                text: "key does not exist".to_string(),
            },
        },
    };
    let (replies, kv) = handler.handle(msg, &mut node).expect("late errors are ignored");
    assert!(replies.is_empty());
    assert!(kv.is_empty());
}

#[test]
fn send_without_msg_id_is_an_error() {
    let mut node = make_node("n1");
    let mut handler = KafkaLog::new();
    let msg = Message {
        src: "c0".to_string(),
        dst: "n1".to_string(),
        body: Body {
            id: None,
            in_reply_to: None,
            payload: Payload::Send { key: "k".to_string(), msg: 1 },
        },
    };
    assert_eq!(handler.handle(msg, &mut node).unwrap_err(), gossipy::HandlerError::MissingMsgId);
}
