//! The node runtime's verified core: identity, the message-id allocator,
//! and the construction of outbound envelopes.
//!
//! Every outbound envelope carries a fresh `msg_id`, strictly greater than
//! every id this node has emitted before, and `src` equal to the node's own
//! id; every reply answers the incoming body's `msg_id`.  The event loop
//! itself — threads, timers, standard input and output — lives in the
//! application crate, which performs each envelope this module constructs.

use vstd::prelude::*;

use crate::protocol::{Body, InitPayload, Message};

verus! {

/// An error a handler surfaces to the runtime; the process logs it and
/// exits non-zero.
#[derive(Debug, Clone, Copy, PartialEq, Eq, Structural)]
pub enum HandlerError {
    /// A message arrived that the handler cannot accept in its state.
    UnexpectedMessage,
    /// An incoming request lacked the `msg_id` a reply would answer.
    MissingMsgId,
    /// A reply arrived without `in_reply_to`.
    MissingInReplyTo,
    /// A message claimed to come from a node outside the cluster.
    UnknownPeer,
    /// A topology mapping left this node's own entry out.
    MissingTopologyEntry,
    /// A reply's correlation id matches no outstanding request.
    MissingCorrelation,
    /// The handler does not use commands.
    UnsupportedCommand,
}

/// The state shared by every part of the runtime: the node's identity and
/// the message-id counter.
pub struct Inner {
    /// Node id, fixed by the `init` handshake.
    pub id: String,
    /// Ids of all nodes in the cluster, the node itself included.
    pub node_ids: Vec<String>,
    /// Next message id to hand out; starts at 1 and only grows.
    msg_id: usize,
    /// Every message id handed out so far, oldest first.
    emitted: Ghost<Seq<usize>>,
}

/// Common node functionality: identity and envelope construction.
pub struct Node {
    inner: Inner,
}

impl Node {
    /// The node's own id.
    pub closed spec fn spec_id(self) -> Seq<char> {
        self.inner.id@
    }

    /// The ids of all nodes in the cluster.
    pub closed spec fn spec_node_ids(self) -> Seq<String> {
        self.inner.node_ids@
    }

    /// The message id the next outbound envelope will carry.
    pub closed spec fn next_msg_id(self) -> usize {
        self.inner.msg_id
    }

    /// Every message id this node has handed out, oldest first.
    pub closed spec fn emitted_ids(self) -> Seq<usize> {
        self.inner.emitted@
    }

    /// The counter is positive and ahead of every id handed out, and the
    /// ids handed out are positive and strictly increasing.
    pub closed spec fn wf(self) -> bool {
        &&& 1 <= self.inner.msg_id
        &&& forall|i: int|
            0 <= i < self.inner.emitted@.len() ==> 1 <= #[trigger] self.inner.emitted@[i]
                < self.inner.msg_id
        &&& forall|i: int, j: int|
            0 <= i < j < self.inner.emitted@.len() ==> #[trigger] self.inner.emitted@[i] < (
            #[trigger] self.inner.emitted@[j])
    }

    /// Performs the handshake on the first incoming envelope.  An `init`
    /// payload yields the node and its `init_ok` reply, which carries the
    /// node's first message id, 1; anything else is fatal.
    pub fn init(msg: Message<InitPayload>) -> (r: Result<(Node, Message<InitPayload>), HandlerError>)
        ensures
            (msg.body.payload matches InitPayload::Init { .. }) <==> r is Ok,
            r matches Ok((node, reply)) ==> {
                &&& node.wf()
                &&& msg.body.payload matches InitPayload::Init { node_id, node_ids }
                    && node.spec_id() == node_id@ && node.spec_node_ids() == node_ids@
                &&& node.next_msg_id() == 2
                &&& node.emitted_ids() == seq![1usize]
                &&& reply.src@ == node.spec_id()
                &&& reply.dst@ == msg.src@
                &&& reply.body.id == Some(1usize)
                &&& reply.body.in_reply_to == msg.body.id
                &&& reply.body.payload matches InitPayload::InitOk
            },
            r matches Err(e) ==> e == HandlerError::UnexpectedMessage,
    {
        match msg.body.payload {
            InitPayload::Init { node_id, node_ids } => {
                let mut node = Node {
                    inner: Inner {
                        id: node_id,
                        node_ids,
                        msg_id: 1,
                        emitted: Ghost(Seq::empty()),
                    },
                };
                let id = node.new_msg_id();
                let reply = Message {
                    src: node.id(),
                    dst: msg.src,
                    body: Body { id: Some(id), in_reply_to: msg.body.id, payload: InitPayload::InitOk },
                };
                Ok((node, reply))
            },
            InitPayload::InitOk => Err(HandlerError::UnexpectedMessage),
        }
    }

    /// The message id the next outbound envelope will carry, without
    /// advancing the counter.
    pub fn next_id(&self) -> (r: usize)
        ensures
            r == self.next_msg_id(),
    {
        self.inner.msg_id
    }

    /// Hands out the next message id and advances the counter.
    pub fn new_msg_id(&mut self) -> (r: usize)
        requires
            old(self).wf(),
            old(self).next_msg_id() < usize::MAX,
        ensures
            final(self).wf(),
            r == old(self).next_msg_id(),
            1 <= r,
            forall|i: int|
                0 <= i < old(self).emitted_ids().len() ==> #[trigger] old(self).emitted_ids()[i]
                    < r,
            final(self).next_msg_id() == r + 1,
            final(self).emitted_ids() == old(self).emitted_ids().push(r),
            final(self).spec_id() == old(self).spec_id(),
            final(self).spec_node_ids() == old(self).spec_node_ids(),
    {
        let msg_id = self.inner.msg_id;
        self.inner.msg_id = self.inner.msg_id + 1;
        proof {
            self.inner.emitted@ = self.inner.emitted@.push(msg_id);
        }
        msg_id
    }

    /// Builds the reply to an incoming envelope: `src` is this node,
    /// `dest` the incoming sender, the id fresh, and `in_reply_to` the
    /// incoming body's `msg_id`.  The caller sends the result.
    pub fn reply<P>(&mut self, incoming: &Message<P>, new_payload: P) -> (r: Message<P>)
        requires
            old(self).wf(),
            old(self).next_msg_id() < usize::MAX,
        ensures
            final(self).wf(),
            r.src@ == old(self).spec_id(),
            r.dst@ == incoming.src@,
            r.body.id == Some(old(self).next_msg_id()),
            1 <= old(self).next_msg_id(),
            r.body.in_reply_to == incoming.body.id,
            r.body.payload == new_payload,
            forall|i: int|
                0 <= i < old(self).emitted_ids().len() ==> #[trigger] old(self).emitted_ids()[i]
                    < old(self).next_msg_id(),
            final(self).next_msg_id() == old(self).next_msg_id() + 1,
            final(self).emitted_ids() == old(self).emitted_ids().push(old(self).next_msg_id()),
            final(self).spec_id() == old(self).spec_id(),
            final(self).spec_node_ids() == old(self).spec_node_ids(),
    {
        let id = self.new_msg_id();
        Message {
            src: self.id(),
            dst: incoming.src.clone(),
            body: Body {
                id: Some(id),
                in_reply_to: incoming.body.id,
                payload: new_payload,
            },
        }
    }

    /// Builds a fresh envelope to `dst` with no `in_reply_to` and returns
    /// it together with its message id, so the caller can correlate the
    /// eventual reply.  The caller sends the result.
    pub fn send_to<P>(&mut self, dst: &str, payload: P) -> (r: (Message<P>, usize))
        requires
            old(self).wf(),
            old(self).next_msg_id() < usize::MAX,
        ensures
            final(self).wf(),
            r.1 == old(self).next_msg_id(),
            1 <= r.1,
            r.0.src@ == old(self).spec_id(),
            r.0.dst@ == dst@,
            r.0.body.id == Some(r.1),
            r.0.body.in_reply_to is None,
            r.0.body.payload == payload,
            forall|i: int|
                0 <= i < old(self).emitted_ids().len() ==> #[trigger] old(self).emitted_ids()[i]
                    < r.1,
            final(self).next_msg_id() == old(self).next_msg_id() + 1,
            final(self).emitted_ids() == old(self).emitted_ids().push(r.1),
            final(self).spec_id() == old(self).spec_id(),
            final(self).spec_node_ids() == old(self).spec_node_ids(),
    {
        let msg_id = self.new_msg_id();
        let msg = Message {
            src: self.id(),
            dst: dst.to_owned(),
            body: Body { id: Some(msg_id), in_reply_to: None, payload },
        };
        (msg, msg_id)
    }

    /// The node's id.
    pub fn id(&self) -> (r: String)
        ensures
            r@ == self.spec_id(),
    {
        self.inner.id.clone()
    }

    /// The ids of all nodes in the cluster, the node itself included.
    pub fn node_ids(&self) -> (r: Vec<String>)
        ensures
            r@ == self.spec_node_ids(),
    {
        crate::protocol::clone_string_vec(&self.inner.node_ids)
    }
}

/// The contract the runtime calls a workload handler through.  `handle`
/// processes a received envelope; `handle_command` processes a
/// scheduler-generated command.  Either returns the envelopes to send,
/// of the shape `Out` the workload emits; an error from either aborts
/// the process with a diagnostic.
pub trait Handler<Payload, Command, Out> {
    /// What the handler asks of an incoming message and the node state.
    spec fn msg_pre(self, msg: Message<Payload>, node: Node) -> bool;

    /// What the handler asks of a command and the node state.
    spec fn cmd_pre(self, cmd: Command, node: Node) -> bool;

    /// Handles one incoming envelope.
    fn handle(&mut self, msg: Message<Payload>, node: &mut Node) -> Result<Out, HandlerError>
        requires
            old(self).msg_pre(msg, *old(node)),
    ;

    /// Handles one scheduler command.
    fn handle_command(&mut self, cmd: &Command, node: &mut Node) -> Result<Out, HandlerError>
        requires
            old(self).cmd_pre(*cmd, *old(node)),
    ;
}

/// Every outbound envelope of a node carries a positive message id,
/// strictly greater than the id of every envelope the node emitted
/// before it.
pub proof fn lemma_emitted_ids_increase(node: Node)
    requires
        node.wf(),
    ensures
        forall|i: int| 0 <= i < node.emitted_ids().len() ==> 1 <= #[trigger] node.emitted_ids()[i],
        forall|i: int, j: int|
            0 <= i < j < node.emitted_ids().len() ==> #[trigger] node.emitted_ids()[i] < (
            #[trigger] node.emitted_ids()[j]),
{
}

} // verus!
