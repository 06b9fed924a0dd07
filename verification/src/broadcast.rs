//! Multi-node broadcast by anti-entropy gossip.
//!
//! Each node accumulates a set of observed integers.  A timer command
//! makes it send every neighbour the elements that neighbour is not yet
//! known to have; receiving gossip merges the carried set both into the
//! node's own messages and into what the sender is known to have.  The
//! observed set and every known set only ever grow, and a peer is never
//! known to have an element the node itself lacks.

use vstd::prelude::*;
use vstd::hash_map::StringHashMap;

use crate::int_set::IntSet;
use crate::node::{HandlerError, Node};
use crate::protocol::{clone_string_vec, Message};

verus! {

broadcast use vstd::seq_lib::group_seq_properties;

/// Wire payloads of the broadcast workload.
#[derive(Debug)]
pub enum Payload {
    Broadcast { message: isize },
    BroadcastOk,
    Read,
    ReadOk { messages: IntSet },
    Topology { topology: Vec<(String, Vec<String>)> },
    TopologyOk,
    Gossip { have: IntSet },
}

/// Commands the timer thread feeds the handler.
#[derive(Debug, Clone, Copy, PartialEq, Eq, Structural)]
pub enum Command {
    SendGossip,
}

/// Whether some entry of a wire topology names `id`.
pub open spec fn topo_contains(t: Seq<(Seq<char>, Seq<String>)>, id: Seq<char>) -> bool {
    exists|i: int| 0 <= i < t.len() && (#[trigger] t[i]).0 == id
}

/// The topology as carried on the wire, by views.
pub open spec fn topo_view(t: Seq<(String, Vec<String>)>) -> Seq<(Seq<char>, Seq<String>)> {
    t.map_values(|e: (String, Vec<String>)| (e.0@, e.1@))
}

/// The index of the first topology entry for `id`, if any.
fn topo_find(t: &Vec<(String, Vec<String>)>, id: &String) -> (r: Option<usize>)
    ensures
        match r {
            Some(i) => i < t@.len() && t@[i as int].0@ == id@ && forall|j: int|
                0 <= j < i ==> #[trigger] t@[j].0@ != id@,
            None => forall|j: int| 0 <= j < t@.len() ==> #[trigger] t@[j].0@ != id@,
        },
{
    let n = t.len();
    let mut i: usize = 0;
    while i < n
        invariant
            i <= n,
            n == t@.len(),
            forall|j: int| 0 <= j < i ==> #[trigger] t@[j].0@ != id@,
        decreases n - i,
    {
        if t[i].0 == *id {
            return Some(i);
        }
        i = i + 1;
    }
    None
}

/// State of one broadcast node.
pub struct BroadcastHandler {
    messages: IntSet,
    topology: Vec<(String, Vec<String>)>,
    neighbours: Vec<String>,
    others_know: StringHashMap<IntSet>,
}

impl BroadcastHandler {
    /// The integers this node has observed.
    pub closed spec fn spec_messages(self) -> Set<isize> {
        self.messages@
    }

    /// The stored topology, by views.
    pub closed spec fn spec_topology(self) -> Seq<(Seq<char>, Seq<String>)> {
        topo_view(self.topology@)
    }

    /// The node's own neighbour list.
    pub closed spec fn spec_neighbours(self) -> Seq<String> {
        self.neighbours@
    }

    /// Whether `p` is a peer this node tracks.
    pub closed spec fn known_peer(self, p: Seq<char>) -> bool {
        self.others_know@.contains_key(p)
    }

    /// What peer `p` is known to have observed.
    pub closed spec fn knows(self, p: Seq<char>) -> Set<isize> {
        if self.others_know@.contains_key(p) {
            self.others_know@[p]@
        } else {
            Set::empty()
        }
    }

    /// What this node would gossip to peer `p`.
    pub open spec fn gossip_delta(self, p: Seq<char>) -> Set<isize> {
        self.spec_messages().difference(self.knows(p))
    }

    /// Internal consistency: the stored sets are well formed and no peer
    /// is known to have an element this node has not observed itself.
    pub closed spec fn wf(self) -> bool {
        &&& self.messages.wf()
        &&& forall|p: Seq<char>|
            #[trigger] self.others_know@.contains_key(p) ==> self.others_know@[p].wf()
                && self.others_know@[p]@.subset_of(self.messages@)
    }

    /// The monotone part of every step: observed messages and every known
    /// set only ever grow.
    pub open spec fn grows(pre: BroadcastHandler, post: BroadcastHandler) -> bool {
        &&& pre.spec_messages().subset_of(post.spec_messages())
        &&& forall|p: Seq<char>| #[trigger] pre.knows(p).subset_of(post.knows(p))
    }

    /// What one gossip merge does: the carried set joins both the
    /// observed messages and the sender's known set, and nothing else
    /// moves.
    pub open spec fn gossip_step(
        pre: BroadcastHandler,
        post: BroadcastHandler,
        src: Seq<char>,
        have: Set<isize>,
    ) -> bool {
        &&& post.spec_messages() == pre.spec_messages().union(have)
        &&& post.knows(src) == pre.knows(src).union(have)
        &&& forall|p: Seq<char>| p != src ==> #[trigger] post.knows(p) == pre.knows(p)
        &&& post.spec_neighbours() == pre.spec_neighbours()
        &&& post.spec_topology() == pre.spec_topology()
    }

    /// A fresh handler that tracks every node of the cluster, each with an
    /// empty known set.
    pub fn new(node_ids: &Vec<String>) -> (r: BroadcastHandler)
        ensures
            r.wf(),
            r.spec_messages() =~= Set::<isize>::empty(),
            forall|p: Seq<char>| #[trigger] r.knows(p) =~= Set::<isize>::empty(),
            forall|i: int|
                0 <= i < node_ids@.len() ==> #[trigger] r.known_peer(node_ids@[i]@),
            r.spec_neighbours() == Seq::<String>::empty(),
    {
        let mut others_know: StringHashMap<IntSet> = StringHashMap::new();
        let n = node_ids.len();
        let mut i: usize = 0;
        while i < n
            invariant
                i <= n,
                n == node_ids@.len(),
                forall|j: int|
                    0 <= j < i ==> #[trigger] others_know@.contains_key(node_ids@[j]@),
                forall|p: Seq<char>|
                    #[trigger] others_know@.contains_key(p) ==> others_know@[p].wf()
                        && others_know@[p]@ =~= Set::<isize>::empty(),
            decreases n - i,
        {
            others_know.insert(node_ids[i].clone(), IntSet::new());
            i = i + 1;
        }
        BroadcastHandler {
            messages: IntSet::new(),
            topology: Vec::new(),
            neighbours: Vec::new(),
            others_know,
        }
    }

    /// Merges `have` into the observed messages and into what `src` is
    /// known to have.
    fn absorb(&mut self, src: &String, have: &IntSet)
        requires
            old(self).wf(),
            have.wf(),
            old(self).known_peer(src@),
        ensures
            final(self).wf(),
            BroadcastHandler::gossip_step(*old(self), *final(self), src@, have@),
            BroadcastHandler::grows(*old(self), *final(self)),
    {
        proof {
            assert(self.others_know@.contains_key(src@));
        }
        let mut known = match self.others_know.get(src.as_str()) {
            Some(k) => k.duplicate(),
            None => IntSet::new(),
        };
        known.merge(have);
        self.others_know.insert(src.clone(), known);
        self.messages.merge(have);
        proof {
            assert(self.knows(src@) =~= old(self).knows(src@).union(have@));
            assert(self.spec_messages() =~= old(self).spec_messages().union(have@));
            assert forall|p: Seq<char>| p != src@ implies #[trigger] self.knows(p)
                == old(self).knows(p) by {
                assert(self.others_know@.contains_key(p)
                    == old(self).others_know@.contains_key(p));
            }
            assert forall|p: Seq<char>| #[trigger]
                self.others_know@.contains_key(p) implies self.others_know@[p].wf()
                && self.others_know@[p]@.subset_of(self.messages@) by {
                if p != src@ {
                    assert(old(self).others_know@.contains_key(p));
                }
            }
            assert forall|p: Seq<char>| #[trigger]
                old(self).knows(p).subset_of(self.knows(p)) by {
                if p != src@ {
                    assert(self.knows(p) == old(self).knows(p));
                }
            }
        }
    }

    /// Processes one incoming envelope and returns the envelopes to send.
    ///
    /// `broadcast` inserts the carried integer and answers `broadcast_ok`;
    /// `read` answers `read_ok` with a snapshot of the observed set;
    /// `topology` stores the mapping, takes the node's own entry as its
    /// neighbour list, and answers `topology_ok`; `gossip` merges the
    /// carried set with no reply; `broadcast_ok`, `topology_ok` and a
    /// stray `read_ok` are ignored.
    pub fn handle(&mut self, msg: Message<Payload>, node: &mut Node) -> (r: Result<
        Vec<Message<Payload>>,
        HandlerError,
    >)
        requires
            old(self).wf(),
            old(node).wf(),
            old(node).next_msg_id() < usize::MAX,
            msg.body.payload matches Payload::Gossip { have } ==> have.wf(),
        ensures
            final(node).wf(),
            final(node).spec_id() == old(node).spec_id(),
            final(node).spec_node_ids() == old(node).spec_node_ids(),
            old(node).next_msg_id() <= final(node).next_msg_id(),
            r matches Ok(out) ==> final(node).next_msg_id() == old(node).next_msg_id()
                + out@.len(),
            r is Err ==> final(node).next_msg_id() == old(node).next_msg_id(),
            r matches Ok(out) ==> forall|k: int|
                0 <= k < out@.len() ==> (#[trigger] out@[k]).body.id == Some(
                    (old(node).next_msg_id() + k) as usize,
                ),
            final(self).wf(),
            BroadcastHandler::grows(*old(self), *final(self)),
            match msg.body.payload {
                Payload::Broadcast { message } => r matches Ok(out) && out@.len() == 1 && {
                    &&& final(self).spec_messages() == old(self).spec_messages().insert(message)
                    &&& forall|p: Seq<char>| #[trigger] final(self).knows(p) == old(self).knows(p)
                    &&& out@[0].src@ == old(node).spec_id()
                    &&& out@[0].dst@ == msg.src@
                    &&& out@[0].body.in_reply_to == msg.body.id
                    &&& out@[0].body.payload matches Payload::BroadcastOk
                },
                Payload::Read => r matches Ok(out) && out@.len() == 1 && {
                    &&& *final(self) == *old(self)
                    &&& out@[0].src@ == old(node).spec_id()
                    &&& out@[0].dst@ == msg.src@
                    &&& out@[0].body.in_reply_to == msg.body.id
                    &&& out@[0].body.payload matches Payload::ReadOk { messages } && messages@
                        == old(self).spec_messages() && messages.wf()
                },
                Payload::Topology { topology } => {
                    if topo_contains(topo_view(topology@), old(node).spec_id()) {
                        r matches Ok(out) && out@.len() == 1 && {
                            &&& final(self).spec_topology() == topo_view(topology@)
                            &&& final(self).spec_messages() == old(self).spec_messages()
                            &&& forall|p: Seq<char>| #[trigger] final(self).knows(p)
                                == old(self).knows(p)
                            &&& exists|i: int|
                                0 <= i < topology@.len() && (#[trigger] topology@[i]).0@
                                    == old(node).spec_id() && final(self).spec_neighbours()
                                    == topology@[i].1@
                            &&& out@[0].src@ == old(node).spec_id()
                            &&& out@[0].dst@ == msg.src@
                            &&& out@[0].body.in_reply_to == msg.body.id
                            &&& out@[0].body.payload matches Payload::TopologyOk
                        }
                    } else {
                        r matches Err(e) && e == HandlerError::MissingTopologyEntry
                            && *final(self) == *old(self)
                    }
                },
                Payload::Gossip { have } => {
                    if old(self).known_peer(msg.src@) {
                        r matches Ok(out) && out@.len() == 0
                            && BroadcastHandler::gossip_step(
                            *old(self),
                            *final(self),
                            msg.src@,
                            have@,
                        )
                    } else {
                        r matches Err(e) && e == HandlerError::UnknownPeer && *final(self)
                            == *old(self)
                    }
                },
                Payload::ReadOk { .. } | Payload::BroadcastOk | Payload::TopologyOk => r matches
                    Ok(out) && out@.len() == 0 && *final(self) == *old(self),
            },
    {
        match &msg.body.payload {
            Payload::Broadcast { message } => {
                self.messages.insert(*message);
                proof {
                    assert(self.spec_messages() =~= old(self).spec_messages().insert(*message));
                    assert forall|p: Seq<char>| #[trigger]
                        old(self).knows(p).subset_of(self.knows(p)) by {
                        assert(self.knows(p) == old(self).knows(p));
                    }
                    assert forall|p: Seq<char>| #[trigger]
                        self.others_know@.contains_key(p) implies self.others_know@[p].wf()
                        && self.others_know@[p]@.subset_of(self.messages@) by {
                        assert(old(self).others_know@.contains_key(p));
                    }
                }
                let reply = node.reply(&msg, Payload::BroadcastOk);
                Ok(vec![reply])
            },
            Payload::Read => {
                let snapshot = self.messages.duplicate();
                let reply = node.reply(&msg, Payload::ReadOk { messages: snapshot });
                proof {
                    assert(forall|p: Seq<char>| #[trigger]
                        old(self).knows(p).subset_of(self.knows(p)));
                }
                Ok(vec![reply])
            },
            Payload::Topology { topology } => {
                let own_id = node.id();
                match topo_find(topology, &own_id) {
                    Some(i) => {
                        let neighbours = clone_string_vec(&topology[i].1);
                        let stored = clone_topology(topology);
                        self.topology = stored;
                        self.neighbours = neighbours;
                        let reply = node.reply(&msg, Payload::TopologyOk);
                        proof {
                            assert(topo_view(topology@)[i as int].0 == old(node).spec_id());
                            assert(topology@[i as int].0@ == old(node).spec_id());
                            assert(self.spec_neighbours() == topology@[i as int].1@);
                            assert(topo_contains(topo_view(topology@), old(node).spec_id()));
                            assert(self.spec_topology() =~~= topo_view(topology@));
                            assert(forall|p: Seq<char>| #[trigger]
                                old(self).knows(p).subset_of(self.knows(p)));
                        }
                        Ok(vec![reply])
                    },
                    None => {
                        proof {
                            assert forall|i: int|
                                0 <= i < topo_view(topology@).len() implies (#[trigger] topo_view(
                                topology@,
                            )[i]).0 != old(node).spec_id() by {
                                assert(topology@[i].0@ != old(node).spec_id());
                            }
                            assert(!topo_contains(topo_view(topology@), old(node).spec_id()));
                            assert(forall|p: Seq<char>| #[trigger]
                                old(self).knows(p).subset_of(self.knows(p)));
                        }
                        Err(HandlerError::MissingTopologyEntry)
                    },
                }
            },
            Payload::Gossip { have } => {
                if self.others_know.contains_key(msg.src.as_str()) {
                    self.absorb(&msg.src, have);
                    Ok(Vec::new())
                } else {
                    proof {
                        assert(forall|p: Seq<char>| #[trigger]
                            old(self).knows(p).subset_of(self.knows(p)));
                    }
                    Err(HandlerError::UnknownPeer)
                }
            },
            Payload::ReadOk { .. } | Payload::BroadcastOk | Payload::TopologyOk => {
                proof {
                    assert(forall|p: Seq<char>| #[trigger]
                        old(self).knows(p).subset_of(self.knows(p)));
                }
                Ok(Vec::new())
            },
        }
    }

    /// The neighbours a gossip round would address now, in neighbour-list
    /// order: those whose delta is non-empty.
    pub open spec fn spec_gossip_targets(self) -> Seq<String> {
        gossip_targets_of(self, self.spec_neighbours())
    }

    /// Processes one timer command: for every neighbour whose known set
    /// lags the observed messages, an envelope `gossip{have}` carrying
    /// exactly the missing elements.  Nothing is recorded as delivered;
    /// only a later gossip from the peer moves its known set.
    pub fn handle_command(&mut self, cmd: &Command, node: &mut Node) -> (r: Result<
        Vec<Message<Payload>>,
        HandlerError,
    >)
        requires
            old(self).wf(),
            old(node).wf(),
            old(node).next_msg_id() + old(self).spec_neighbours().len() <= usize::MAX,
        ensures
            final(node).wf(),
            final(node).spec_id() == old(node).spec_id(),
            final(node).spec_node_ids() == old(node).spec_node_ids(),
            old(node).next_msg_id() <= final(node).next_msg_id(),
            r matches Ok(out) ==> final(node).next_msg_id() == old(node).next_msg_id()
                + out@.len(),
            r matches Ok(out) ==> forall|k: int|
                0 <= k < out@.len() ==> (#[trigger] out@[k]).body.id == Some(
                    (old(node).next_msg_id() + k) as usize,
                ),
            *final(self) == *old(self),
            r matches Ok(out) && {
                let targets = old(self).spec_gossip_targets();
                &&& out@.len() == targets.len()
                &&& forall|k: int|
                    0 <= k < out@.len() ==> {
                        &&& (#[trigger] out@[k]).src@ == old(node).spec_id()
                        &&& out@[k].dst@ == targets[k]@
                        &&& out@[k].body.in_reply_to is None
                        &&& out@[k].body.payload matches Payload::Gossip { have } && have@
                            == old(self).gossip_delta(targets[k]@) && have.wf()
                    }
            },
    {
        match cmd {
            Command::SendGossip => {
                let mut out: Vec<Message<Payload>> = Vec::new();
                let n = self.neighbours.len();
                let mut i: usize = 0;
                while i < n
                    invariant
                        i <= n,
                        n == self.neighbours@.len(),
                        *self == *old(self),
                        self.wf(),
                        node.wf(),
                        node.spec_id() == old(node).spec_id(),
                        node.spec_node_ids() == old(node).spec_node_ids(),
                        old(node).next_msg_id() <= node.next_msg_id(),
                        node.next_msg_id() <= old(node).next_msg_id() + i,
                        node.next_msg_id() == old(node).next_msg_id() + out@.len(),
                        forall|k: int|
                            0 <= k < out@.len() ==> (#[trigger] out@[k]).body.id == Some(
                                (old(node).next_msg_id() + k) as usize,
                            ),
                        old(node).next_msg_id() + n <= usize::MAX,
                        out@.len() == gossip_targets_of(
                            *old(self),
                            old(self).spec_neighbours().take(i as int),
                        ).len(),
                        forall|k: int|
                            0 <= k < out@.len() ==> {
                                &&& (#[trigger] out@[k]).src@ == old(node).spec_id()
                                &&& out@[k].dst@ == gossip_targets_of(
                                    *old(self),
                                    old(self).spec_neighbours().take(i as int),
                                )[k]@
                                &&& out@[k].body.in_reply_to is None
                                &&& out@[k].body.payload matches Payload::Gossip { have }
                                    && have@ == old(self).gossip_delta(
                                    gossip_targets_of(
                                        *old(self),
                                        old(self).spec_neighbours().take(i as int),
                                    )[k]@,
                                ) && have.wf()
                            },
                    decreases n - i,
                {
                    let ghost prefix = gossip_targets_of(
                        *old(self),
                        old(self).spec_neighbours().take(i as int),
                    );
                    proof {
                        assert(old(self).spec_neighbours().take(i + 1).drop_last() =~= old(
                            self,
                        ).spec_neighbours().take(i as int));
                        assert(old(self).spec_neighbours().take(i + 1).last()
                            == self.neighbours@[i as int]);
                    }
                    let delta = match self.others_know.get(self.neighbours[i].as_str()) {
                        Some(k) => {
                            proof {
                                assert(self.others_know@.contains_key(
                                    self.neighbours@[i as int]@,
                                ));
                            }
                            self.messages.minus(k)
                        },
                        None => self.messages.duplicate(),
                    };
                    proof {
                        assert(delta@ =~= self.gossip_delta(self.neighbours@[i as int]@));
                    }
                    if !delta.is_empty() {
                        proof {
                            assert(delta@ != Set::<isize>::empty());
                            assert(gossip_targets_of(
                                *old(self),
                                old(self).spec_neighbours().take(i + 1),
                            ) == prefix.push(self.neighbours@[i as int]));
                        }
                        let (m, _msg_id) = node.send_to(
                            self.neighbours[i].as_str(),
                            Payload::Gossip { have: delta },
                        );
                        out.push(m);
                    } else {
                        proof {
                            assert(delta@ =~= Set::<isize>::empty());
                            assert(old(self).gossip_delta(self.neighbours@[i as int]@)
                                == Set::<isize>::empty());
                            assert(gossip_targets_of(
                                *old(self),
                                old(self).spec_neighbours().take(i + 1),
                            ) == prefix);
                        }
                    }
                    i = i + 1;
                }
                proof {
                    assert(old(self).spec_neighbours().take(n as int) =~= old(
                        self,
                    ).spec_neighbours());
                }
                Ok(out)
            },
        }
    }
}

/// The entries of `neigh`, in order, whose gossip delta under state `s` is
/// non-empty.
pub open spec fn gossip_targets_of(s: BroadcastHandler, neigh: Seq<String>) -> Seq<String>
    decreases neigh.len(),
{
    if neigh.len() == 0 {
        Seq::empty()
    } else {
        let rest = gossip_targets_of(s, neigh.drop_last());
        if s.gossip_delta(neigh.last()@) != Set::<isize>::empty() {
            rest.push(neigh.last())
        } else {
            rest
        }
    }
}

/// The observed set and every known set only grow, step after step: what
/// holds from one instant to the next holds across any two instants.
pub proof fn lemma_grows_trans(a: BroadcastHandler, b: BroadcastHandler, c: BroadcastHandler)
    requires
        BroadcastHandler::grows(a, b),
        BroadcastHandler::grows(b, c),
    ensures
        BroadcastHandler::grows(a, c),
{
    assert forall|p: Seq<char>| #[trigger] a.knows(p).subset_of(c.knows(p)) by {
        assert(a.knows(p).subset_of(b.knows(p)));
        assert(b.knows(p).subset_of(c.knows(p)));
    }
}

/// Between any earlier instant `a` and later instant `b` of one node:
/// the observed messages grow, each peer's known set grows, and each
/// peer's known set stays inside the later observed messages.
pub proof fn lemma_monotone_history(a: BroadcastHandler, b: BroadcastHandler)
    requires
        BroadcastHandler::grows(a, b),
        b.wf(),
    ensures
        a.spec_messages().subset_of(b.spec_messages()),
        forall|p: Seq<char>| #[trigger] a.knows(p).subset_of(b.knows(p)),
        forall|p: Seq<char>| #[trigger] b.knows(p).subset_of(b.spec_messages()),
{
    assert forall|p: Seq<char>| #[trigger] b.knows(p).subset_of(b.spec_messages()) by {
        if b.others_know@.contains_key(p) {
            assert(b.others_know@[p]@.subset_of(b.messages@));
        }
    }
}

/// Merging the same gossip twice changes nothing the second time: the
/// merge is idempotent.
pub proof fn lemma_gossip_idempotent(
    s0: BroadcastHandler,
    s1: BroadcastHandler,
    s2: BroadcastHandler,
    src: Seq<char>,
    have: Set<isize>,
)
    requires
        BroadcastHandler::gossip_step(s0, s1, src, have),
        BroadcastHandler::gossip_step(s1, s2, src, have),
    ensures
        s2.spec_messages() == s1.spec_messages(),
        forall|p: Seq<char>| #[trigger] s2.knows(p) == s1.knows(p),
{
    assert(s2.spec_messages() =~= s1.spec_messages());
    assert(s2.knows(src) =~= s1.knows(src));
    assert forall|p: Seq<char>| #[trigger] s2.knows(p) == s1.knows(p) by {
        if p != src {
            assert(s2.knows(p) == s1.knows(p));
        } else {
            assert(s2.knows(src) =~= s1.knows(src));
        }
    }
}

/// Copies a wire topology.
fn clone_topology(t: &Vec<(String, Vec<String>)>) -> (r: Vec<(String, Vec<String>)>)
    ensures
        topo_view(r@) == topo_view(t@),
{
    let mut r: Vec<(String, Vec<String>)> = Vec::new();
    let n = t.len();
    let mut i: usize = 0;
    while i < n
        invariant
            i <= n,
            n == t@.len(),
            r@.len() == i,
            forall|j: int|
                0 <= j < i ==> (#[trigger] r@[j]).0@ == t@[j].0@ && r@[j].1@ == t@[j].1@,
        decreases n - i,
    {
        let name = t[i].0.clone();
        let neighbours = clone_string_vec(&t[i].1);
        r.push((name, neighbours));
        i = i + 1;
    }
    proof {
        assert(topo_view(r@) =~~= topo_view(t@));
    }
    r
}


impl crate::node::Handler<Payload, Command, Vec<Message<Payload>>> for BroadcastHandler {
    open spec fn msg_pre(self, msg: Message<Payload>, node: Node) -> bool {
        &&& self.wf()
        &&& node.wf()
        &&& node.next_msg_id() < usize::MAX
        &&& msg.body.payload matches Payload::Gossip { have } ==> have.wf()
    }

    open spec fn cmd_pre(self, cmd: Command, node: Node) -> bool {
        &&& self.wf()
        &&& node.wf()
        &&& node.next_msg_id() + self.spec_neighbours().len() <= usize::MAX
    }

    fn handle(&mut self, msg: Message<Payload>, node: &mut Node) -> Result<
        Vec<Message<Payload>>,
        HandlerError,
    > {
        BroadcastHandler::handle(self, msg, node)
    }

    fn handle_command(&mut self, cmd: &Command, node: &mut Node) -> Result<
        Vec<Message<Payload>>,
        HandlerError,
    > {
        BroadcastHandler::handle_command(self, cmd, node)
    }
}

} // verus!
