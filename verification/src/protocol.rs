//! Wire-level data model: envelopes, bodies, events, and the handshake
//! payload.  One envelope travels per line; its body carries an optional
//! `msg_id`, an optional `in_reply_to`, and a workload-specific payload.

use vstd::prelude::*;

verus! {

/// One Maelstrom envelope: a source, a destination, and a typed body.
#[derive(Debug, Clone)]
pub struct Message<P> {
    /// Node or client id of the sender (spelled `src` on the wire).
    pub src: String,
    /// Node or client id of the recipient (spelled `dest` on the wire).
    pub dst: String,
    /// The body of the envelope.
    pub body: Body<P>,
}

/// The body of an envelope.
#[derive(Debug, Clone)]
pub struct Body<P> {
    /// Message id of this envelope, unique and increasing per sender
    /// (spelled `msg_id` on the wire).
    pub id: Option<usize>,
    /// The `msg_id` this envelope answers, if it is a reply.
    pub in_reply_to: Option<usize>,
    /// The type-tagged payload, flattened into the body on the wire.
    pub payload: P,
}

impl<P> Message<P> {
    /// An envelope shell around a payload: empty addresses, no ids.
    pub fn new_empty(payload: P) -> (r: Self)
        ensures
            r.src@ == Seq::<char>::empty(),
            r.dst@ == Seq::<char>::empty(),
            r.body.id is None,
            r.body.in_reply_to is None,
            r.body.payload == payload,
    {
        Message {
            src: String::new(),
            dst: String::new(),
            body: Body { id: None, in_reply_to: None, payload },
        }
    }
}

/// What the event loop hands to a handler: a wire message, or a command
/// produced locally by a timer or other scheduler.
#[derive(Debug, Clone)]
pub enum Event<Payload, Command> {
    Message(Message<Payload>),
    Command(Command),
}

/// The handshake payload.  The first envelope a node receives must be
/// `init`, carrying the node's own id and the ids of every node in the
/// cluster; the node answers `init_ok`.
#[derive(Debug, Clone)]
pub enum InitPayload {
    Init { node_id: String, node_ids: Vec<String> },
    InitOk,
}

/// Copies a list of node ids.
pub(crate) fn clone_string_vec(v: &Vec<String>) -> (r: Vec<String>)
    ensures
        r@ == v@,
{
    let mut r: Vec<String> = Vec::new();
    let n = v.len();
    let mut i: usize = 0;
    while i < n
        invariant
            i <= n,
            n == v@.len(),
            r@ =~= v@.take(i as int),
        decreases n - i,
    {
        r.push(v[i].clone());
        proof {
            assert(r@ =~= v@.take(i + 1));
        }
        i = i + 1;
    }
    proof {
        assert(r@ =~= v@);
    }
    r
}

} // verus!
