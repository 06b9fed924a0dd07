use gossipy::broadcast::{BroadcastHandler, Command, Payload};
use gossipy::int_set::IntSet;
use gossipy::protocol::{Body, InitPayload, Message};
use gossipy::Node;

fn make_node(id: &str, all: &[&str]) -> Node {
    let msg = Message {
        src: "c0".to_string(),
        dst: id.to_string(),
        body: Body {
            id: Some(1),
            in_reply_to: None,
            payload: InitPayload::Init {
                node_id: id.to_string(),
                node_ids: all.iter().map(|s| s.to_string()).collect(),
            },
        },
    };
    Node::init(msg).expect("init").0
}

fn client(payload: Payload, msg_id: usize) -> Message<Payload> {
    Message {
        src: "c0".to_string(),
        dst: "n1".to_string(),
        body: Body { id: Some(msg_id), in_reply_to: None, payload },
    }
}

fn from_peer(src: &str, payload: Payload) -> Message<Payload> {
    Message {
        src: src.to_string(),
        dst: "n1".to_string(),
        body: Body { id: None, in_reply_to: None, payload },
    }
}

fn read_messages(handler: &mut BroadcastHandler, node: &mut Node) -> Vec<isize> {
    let out = handler.handle(client(Payload::Read, 99), node).expect("read");
    assert_eq!(out.len(), 1);
    match &out[0].body.payload {
        Payload::ReadOk { messages } => {
            let mut v = messages.elements().clone();
            v.sort();
            v
        },
        other => panic!("expected read_ok, got {:?}", other),
    }
}

#[test]
fn broadcast_single_round() {
    let mut node = make_node("n1", &["n1"]);
    let mut handler = BroadcastHandler::new(&node.node_ids());

    let out = handler
        .handle(client(Payload::Broadcast { message: 42 }, 10), &mut node)
        .expect("broadcast");
    assert_eq!(out.len(), 1);
    assert_eq!(out[0].dst, "c0");
    assert_eq!(out[0].src, "n1");
    assert_eq!(out[0].body.in_reply_to, Some(10));
    assert!(matches!(out[0].body.payload, Payload::BroadcastOk));

    let out = handler.handle(client(Payload::Read, 11), &mut node).expect("read");
    assert_eq!(out.len(), 1);
    assert_eq!(out[0].body.in_reply_to, Some(11));
    match &out[0].body.payload {
        Payload::ReadOk { messages } => assert_eq!(messages.elements(), &vec![42isize]),
        other => panic!("expected read_ok, got {:?}", other),
    }
}

#[test]
fn topology_sets_neighbours_and_replies() {
    let mut node = make_node("n1", &["n1", "n2"]);
    let mut handler = BroadcastHandler::new(&node.node_ids());
    let topology = vec![
        ("n1".to_string(), vec!["n2".to_string()]),
        ("n2".to_string(), vec!["n1".to_string()]),
    ];
    let out = handler
        .handle(client(Payload::Topology { topology }, 5), &mut node)
        .expect("topology");
    assert_eq!(out.len(), 1);
    assert_eq!(out[0].body.in_reply_to, Some(5));
    assert!(matches!(out[0].body.payload, Payload::TopologyOk));
}

#[test]
fn topology_without_own_entry_is_an_error() {
    let mut node = make_node("n1", &["n1", "n2"]);
    let mut handler = BroadcastHandler::new(&node.node_ids());
    let topology = vec![("n2".to_string(), vec!["n1".to_string()])];
    let r = handler.handle(client(Payload::Topology { topology }, 5), &mut node);
    assert_eq!(r.unwrap_err(), gossipy::HandlerError::MissingTopologyEntry);
}

#[test]
fn gossip_from_unknown_peer_is_an_error() {
    let mut node = make_node("n1", &["n1", "n2"]);
    let mut handler = BroadcastHandler::new(&node.node_ids());
    let have = IntSet::from_vec(&vec![1, 2]);
    let r = handler.handle(from_peer("n9", Payload::Gossip { have }), &mut node);
    assert_eq!(r.unwrap_err(), gossipy::HandlerError::UnknownPeer);
}

#[test]
fn stray_read_ok_is_ignored() {
    let mut node = make_node("n1", &["n1", "n2"]);
    let mut handler = BroadcastHandler::new(&node.node_ids());
    handler
        .handle(client(Payload::Broadcast { message: 1 }, 1), &mut node)
        .expect("broadcast");

    let stray = IntSet::from_vec(&vec![5, 6]);
    let out = handler
        .handle(from_peer("n2", Payload::ReadOk { messages: stray }), &mut node)
        .expect("a stray read_ok is ignored");
    assert!(out.is_empty());
    assert_eq!(read_messages(&mut handler, &mut node), vec![1], "the observed set did not move");
}

#[test]
fn gossip_merge_is_idempotent() {
    let mut node = make_node("n1", &["n1", "n2"]);
    let mut handler = BroadcastHandler::new(&node.node_ids());
    handler
        .handle(client(Payload::Broadcast { message: 1 }, 1), &mut node)
        .expect("broadcast");

    let have = IntSet::from_vec(&vec![7, 9]);
    let out = handler.handle(from_peer("n2", Payload::Gossip { have }), &mut node).expect("gossip");
    assert_eq!(out.len(), 0, "gossip gets no reply");
    let first = read_messages(&mut handler, &mut node);

    let have_again = IntSet::from_vec(&vec![7, 9]);
    handler
        .handle(from_peer("n2", Payload::Gossip { have: have_again }), &mut node)
        .expect("gossip again");
    let second = read_messages(&mut handler, &mut node);
    assert_eq!(first, second);
    assert_eq!(second, vec![1, 7, 9]);
}

#[test]
fn gossip_rounds_send_only_what_the_peer_lacks() {
    let mut node = make_node("n1", &["n1", "n2"]);
    let mut handler = BroadcastHandler::new(&node.node_ids());
    let topology = vec![
        ("n1".to_string(), vec!["n2".to_string()]),
        ("n2".to_string(), vec!["n1".to_string()]),
    ];
    handler.handle(client(Payload::Topology { topology }, 2), &mut node).expect("topology");
    handler.handle(client(Payload::Broadcast { message: 7 }, 3), &mut node).expect("broadcast");

    // First round: everything is new for n2.
    let out = handler.handle_command(&Command::SendGossip, &mut node).expect("gossip round");
    assert_eq!(out.len(), 1);
    assert_eq!(out[0].dst, "n2");
    match &out[0].body.payload {
        Payload::Gossip { have } => assert_eq!(have.elements(), &vec![7isize]),
        other => panic!("expected gossip, got {:?}", other),
    }

    // n2 merges and gossips back; n1 then knows that n2 knows 7.
    let echo = IntSet::from_vec(&vec![7]);
    handler.handle(from_peer("n2", Payload::Gossip { have: echo }), &mut node).expect("echo");
    let out = handler.handle_command(&Command::SendGossip, &mut node).expect("second round");
    assert_eq!(out.len(), 0, "nothing left the peer lacks");
}

#[test]
fn broadcast_converges_across_two_nodes() {
    let mut node1 = make_node("n1", &["n1", "n2"]);
    let mut node2 = make_node("n2", &["n1", "n2"]);
    let mut h1 = BroadcastHandler::new(&node1.node_ids());
    let mut h2 = BroadcastHandler::new(&node2.node_ids());
    let topo = || {
        vec![
            ("n1".to_string(), vec!["n2".to_string()]),
            ("n2".to_string(), vec!["n1".to_string()]),
        ]
    };
    h1.handle(client(Payload::Topology { topology: topo() }, 2), &mut node1).expect("t1");
    h2.handle(client(Payload::Topology { topology: topo() }, 2), &mut node2).expect("t2");

    h1.handle(client(Payload::Broadcast { message: 7 }, 3), &mut node1).expect("broadcast");

    // One gossip round from n1 reaches n2.
    let round = h1.handle_command(&Command::SendGossip, &mut node1).expect("round");
    for m in round {
        assert_eq!(m.dst, "n2");
        let forwarded = Message {
            src: "n1".to_string(),
            dst: "n2".to_string(),
            body: m.body,
        };
        h2.handle(forwarded, &mut node2).expect("deliver");
    }

    let seen = read_messages(&mut h2, &mut node2);
    assert_eq!(seen, vec![7]);
}
