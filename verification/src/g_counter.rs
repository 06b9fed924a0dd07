//! Grow-only counter over the sequentially consistent KV service.
//!
//! The counter lives under one key of the `seq-kv` service.  An `add`
//! reads the current value, then proposes `value + delta` by
//! compare-and-swap, retrying from a fresh read when the swap finds the
//! value changed.  A client `read` first writes a wall-clock fence so the
//! following read cannot be stale, then reads and answers the client when
//! the service replies.  Replies from the service are correlated with the
//! request that caused them through the message id they answer.

use vstd::prelude::*;
use vstd::hash_map::HashMapWithView;

use crate::kv_store::{KvStorePayload, seq_kv_service_id, ERROR_PRECONDITION_FAILED};
use crate::node::{HandlerError, Node};
use crate::protocol::{Body, Message};

verus! {

broadcast use vstd::std_specs::hash::group_hash_axioms, vstd::hash_map::group_hash_map_axioms;

/// Wire payloads of the counter workload, client side and KV side.
#[derive(Debug, Clone)]
pub enum Payload {
    Add { delta: usize },
    AddOk,
    Read,
    ReadOk { value: usize },
    Error { code: u16, text: String },
    WriteOk,
    CasOk,
}

/// Commands the startup thread feeds the handler.
#[derive(Debug, Clone, Copy, PartialEq, Eq, Structural)]
pub enum Command {
    /// Materialize the counter key before serving traffic.
    InitStore,
}

/// Relies on `std::time::SystemTime::now` for a wall-clock reading.  The
/// value only fences a subsequent read of the KV service; nothing is
/// promised of it.
#[verifier::external_body]
fn wall_clock_nanos() -> usize {
    std::time::SystemTime::now()
        .duration_since(std::time::UNIX_EPOCH)
        .map(|d| d.as_nanos() as usize)
        .unwrap_or(0)
}

/// State of the counter handler: what each outstanding KV request awaits.
pub struct GCounter {
    /// KV request id of an outstanding read for a client `read`, mapped
    /// to the client and the `msg_id` to answer.
    kv_msg_ids: HashMapWithView<usize, (String, usize)>,
    /// KV request id of an outstanding read or compare-and-swap for an
    /// `add`, mapped to the delta still to apply.
    deltas: HashMapWithView<usize, usize>,
}

impl GCounter {
    /// The pending deltas, by the KV request id they await.
    pub closed spec fn spec_deltas(self) -> Map<usize, usize> {
        self.deltas@
    }

    /// The clients awaiting a value, by the KV request id they await.
    pub closed spec fn spec_clients(self) -> Map<usize, (String, usize)> {
        self.kv_msg_ids@
    }

    /// A correlation id is held by at most one table.
    pub closed spec fn wf(self) -> bool {
        forall|k: usize|
            !(#[trigger] self.deltas@.contains_key(k) && self.kv_msg_ids@.contains_key(k))
    }

    /// Neither correlation table moved.
    pub open spec fn unchanged(pre: GCounter, post: GCounter) -> bool {
        &&& post.spec_deltas() == pre.spec_deltas()
        &&& post.spec_clients() == pre.spec_clients()
    }

    /// Every held correlation id was allocated before `bound`.
    pub open spec fn bounded(self, bound: usize) -> bool {
        &&& forall|k: usize| #[trigger] self.spec_deltas().contains_key(k) ==> k < bound
        &&& forall|k: usize| #[trigger] self.spec_clients().contains_key(k) ==> k < bound
    }

    /// A fresh handler with no outstanding request.
    pub fn new() -> (r: GCounter)
        ensures
            r.wf(),
            r.spec_deltas() =~= Map::<usize, usize>::empty(),
            r.spec_clients() =~= Map::<usize, (String, usize)>::empty(),
    {
        GCounter { kv_msg_ids: HashMapWithView::new(), deltas: HashMapWithView::new() }
    }

    /// The delta an outstanding KV request of an `add` still carries.
    pub fn pending_delta(&self, kv_msg_id: usize) -> (r: Option<usize>)
        ensures
            match r {
                Some(d) => self.spec_deltas().contains_key(kv_msg_id) && d
                    == self.spec_deltas()[kv_msg_id],
                None => !self.spec_deltas().contains_key(kv_msg_id),
            },
    {
        match self.deltas.get(&kv_msg_id) {
            Some(d) => Some(*d),
            None => None,
        }
    }

    /// Processes one incoming envelope.  Returns the replies to clients
    /// and the requests to the KV service, in order.
    ///
    /// `add{delta}` sends a read of the counter, records the delta under
    /// the read's id, and answers `add_ok` at once.  `read` sends the
    /// fence write and a read, recording the client under the read's id.
    /// `read_ok` either answers the recorded client, or turns a recorded
    /// delta into a compare-and-swap of `value` to `value + delta`.
    /// `cas_ok` drops the delta as applied.  An error with the
    /// precondition-failed code restarts a recorded delta from a fresh
    /// read; any other error drops whatever correlation it answers.
    pub fn handle(&mut self, msg: Message<Payload>, node: &mut Node) -> (r: Result<
        (Vec<Message<Payload>>, Vec<Message<KvStorePayload>>),
        HandlerError,
    >)
        requires
            old(self).wf(),
            old(self).bounded(old(node).next_msg_id()),
            old(node).wf(),
            old(node).next_msg_id() + 2 <= usize::MAX,
            match (msg.body.payload, msg.body.in_reply_to) {
                (Payload::ReadOk { value }, Some(irt)) => old(self).spec_deltas().contains_key(
                    irt,
                ) ==> value + old(self).spec_deltas()[irt] <= usize::MAX,
                _ => true,
            },
        ensures
            final(node).wf(),
            final(node).spec_id() == old(node).spec_id(),
            final(node).spec_node_ids() == old(node).spec_node_ids(),
            old(node).next_msg_id() <= final(node).next_msg_id(),
            r matches Ok(out) ==> final(node).next_msg_id() == old(node).next_msg_id()
                + out.0@.len() + out.1@.len(),
            r is Err ==> final(node).next_msg_id() == old(node).next_msg_id(),
            final(self).wf(),
            final(self).bounded(final(node).next_msg_id()),
            r is Err ==> GCounter::unchanged(*old(self), *final(self)),
            match msg.body.payload {
                Payload::Add { delta } => r matches Ok(out) && {
                    &&& out.1@.len() == 1
                    &&& out.1@[0].dst@ == "seq-kv"@
                    &&& out.1@[0].src@ == old(node).spec_id()
                    &&& out.1@[0].body.id == Some(old(node).next_msg_id())
                    &&& out.1@[0].body.payload matches KvStorePayload::Read { key } && key@
                        == "g-counter"@
                    &&& final(self).spec_deltas() == old(self).spec_deltas().insert(
                        old(node).next_msg_id(),
                        delta,
                    )
                    &&& final(self).spec_clients() == old(self).spec_clients()
                    &&& out.0@.len() == 1
                    &&& out.0@[0].src@ == old(node).spec_id()
                    &&& out.0@[0].dst@ == msg.src@
                    &&& out.0@[0].body.id == Some((old(node).next_msg_id() + 1) as usize)
                    &&& out.0@[0].body.in_reply_to == msg.body.id
                    &&& out.0@[0].body.payload matches Payload::AddOk
                },
                Payload::Read => match msg.body.id {
                    None => r matches Err(e) && e == HandlerError::MissingMsgId,
                    Some(cid) => r matches Ok(out) && {
                        &&& out.0@.len() == 0
                        &&& out.1@.len() == 2
                        &&& out.1@[0].dst@ == "seq-kv"@
                        &&& out.1@[0].src@ == old(node).spec_id()
                        &&& out.1@[0].body.id == Some(old(node).next_msg_id())
                        &&& out.1@[0].body.payload matches KvStorePayload::Write { key, value }
                            && key@ == "timestamp"@
                        &&& out.1@[1].dst@ == "seq-kv"@
                        &&& out.1@[1].src@ == old(node).spec_id()
                        &&& out.1@[1].body.id == Some((old(node).next_msg_id() + 1) as usize)
                        &&& out.1@[1].body.payload matches KvStorePayload::Read { key } && key@
                            == "g-counter"@
                        &&& final(self).spec_clients() == old(self).spec_clients().insert(
                            (old(node).next_msg_id() + 1) as usize,
                            (msg.src, cid),
                        )
                        &&& final(self).spec_deltas() == old(self).spec_deltas()
                    },
                },
                Payload::ReadOk { value } => match msg.body.in_reply_to {
                    None => r matches Err(e) && e == HandlerError::MissingInReplyTo,
                    Some(irt) => {
                        if old(self).spec_clients().contains_key(irt) {
                            r matches Ok(out) && {
                                &&& out.1@.len() == 0
                                &&& out.0@.len() == 1
                                &&& out.0@[0].src@ == old(node).spec_id()
                                &&& out.0@[0].body.id == Some(old(node).next_msg_id())
                                &&& out.0@[0].dst@ == old(self).spec_clients()[irt].0@
                                &&& out.0@[0].body.in_reply_to == Some(
                                    old(self).spec_clients()[irt].1,
                                )
                                &&& out.0@[0].body.payload matches Payload::ReadOk {
                                    value: v,
                                } && v == value
                                &&& final(self).spec_clients() == old(
                                    self,
                                ).spec_clients().remove(irt)
                                &&& final(self).spec_deltas() == old(self).spec_deltas()
                            }
                        } else if old(self).spec_deltas().contains_key(irt) {
                            r matches Ok(out) && {
                                &&& out.0@.len() == 0
                                &&& out.1@.len() == 1
                                &&& out.1@[0].dst@ == "seq-kv"@
                                &&& out.1@[0].src@ == old(node).spec_id()
                                &&& out.1@[0].body.id == Some(old(node).next_msg_id())
                                &&& out.1@[0].body.payload matches KvStorePayload::Cas {
                                    key,
                                    from,
                                    to,
                                    create_if_not_exists,
                                } && key@ == "g-counter"@ && from == value && to == value + old(
                                    self,
                                ).spec_deltas()[irt] && !create_if_not_exists
                                &&& final(self).spec_deltas() == old(self).spec_deltas().remove(
                                    irt,
                                ).insert(old(node).next_msg_id(), old(self).spec_deltas()[irt])
                                &&& final(self).spec_clients() == old(self).spec_clients()
                            }
                        } else {
                            r matches Err(e) && e == HandlerError::MissingCorrelation
                        }
                    },
                },
                Payload::CasOk => match msg.body.in_reply_to {
                    None => r matches Err(e) && e == HandlerError::MissingInReplyTo,
                    Some(irt) => r matches Ok(out) && {
                        &&& out.0@.len() == 0 && out.1@.len() == 0
                        &&& final(self).spec_deltas() == old(self).spec_deltas().remove(irt)
                        &&& final(self).spec_clients() == old(self).spec_clients()
                    },
                },
                Payload::Error { code, .. } => {
                    if code == ERROR_PRECONDITION_FAILED {
                        match msg.body.in_reply_to {
                            None => r matches Err(e) && e == HandlerError::MissingInReplyTo,
                            Some(irt) => r matches Ok(out) && {
                                &&& out.0@.len() == 0
                                    &&& if old(self).spec_deltas().contains_key(irt) {
                                    &&& out.1@.len() == 1
                                    &&& out.1@[0].dst@ == "seq-kv"@
                                    &&& out.1@[0].src@ == old(node).spec_id()
                                    &&& out.1@[0].body.id == Some(old(node).next_msg_id())
                                    &&& out.1@[0].body.payload matches KvStorePayload::Read {
                                        key,
                                    } && key@ == "g-counter"@
                                    &&& final(self).spec_deltas() == old(
                                        self,
                                    ).spec_deltas().remove(irt).insert(
                                        old(node).next_msg_id(),
                                        old(self).spec_deltas()[irt],
                                    )
                                    &&& final(self).spec_clients() == old(self).spec_clients()
                                } else {
                                    &&& out.1@.len() == 0
                                    &&& GCounter::unchanged(*old(self), *final(self))
                                }
                            },
                        }
                    } else {
                        r matches Ok(out) && out.0@.len() == 0 && out.1@.len() == 0 && match msg
                            .body.in_reply_to {
                            Some(irt) => final(self).spec_deltas() == old(
                                self,
                            ).spec_deltas().remove(irt) && final(self).spec_clients() == old(
                                self,
                            ).spec_clients().remove(irt),
                            None => GCounter::unchanged(*old(self), *final(self)),
                        }
                    }
                },
                Payload::AddOk | Payload::WriteOk => r matches Ok(out) && out.0@.len() == 0
                    && out.1@.len() == 0 && GCounter::unchanged(*old(self), *final(self)),
            },
    {
        match &msg.body.payload {
            Payload::Add { delta } => {
                let (read, read_id) = node.send_to(
                    seq_kv_service_id(),
                    KvStorePayload::Read { key: "g-counter".to_owned() },
                );
                self.deltas.insert(read_id, *delta);
                proof {
                    assert(!old(self).spec_clients().contains_key(read_id));
                    assert forall|k: usize|
                        !(#[trigger] self.deltas@.contains_key(k)
                            && self.kv_msg_ids@.contains_key(k)) by {
                        if k != read_id {
                            assert(self.deltas@.contains_key(k) == old(
                                self,
                            ).deltas@.contains_key(k));
                        }
                    }
                }
                let reply = node.reply(&msg, Payload::AddOk);
                proof {
                    assert forall|k: usize| #[trigger]
                        self.spec_deltas().contains_key(k) implies k < node.next_msg_id() by {
                        if k != read_id {
                            assert(old(self).spec_deltas().contains_key(k));
                        }
                    }
                    assert forall|k: usize| #[trigger]
                        self.spec_clients().contains_key(k) implies k < node.next_msg_id() by {
                        assert(old(self).spec_clients().contains_key(k));
                    }
                    assert(self.bounded(node.next_msg_id()));
                }
                Ok((vec![reply], vec![read]))
            },
            Payload::Read => {
                let cid = match msg.body.id {
                    Some(cid) => cid,
                    None => {
                        return Err(HandlerError::MissingMsgId);
                    },
                };
                let ts = wall_clock_nanos();
                let (fence, _fence_id) = node.send_to(
                    seq_kv_service_id(),
                    KvStorePayload::Write { key: "timestamp".to_owned(), value: ts },
                );
                let (read, read_id) = node.send_to(
                    seq_kv_service_id(),
                    KvStorePayload::Read { key: "g-counter".to_owned() },
                );
                self.kv_msg_ids.insert(read_id, (msg.src, cid));
                proof {
                    assert(!old(self).spec_deltas().contains_key(read_id));
                    assert forall|k: usize|
                        !(#[trigger] self.deltas@.contains_key(k)
                            && self.kv_msg_ids@.contains_key(k)) by {
                        if k != read_id {
                            assert(self.kv_msg_ids@.contains_key(k) == old(
                                self,
                            ).kv_msg_ids@.contains_key(k));
                        }
                    }
                }
                proof {
                    assert forall|k: usize| #[trigger]
                        self.spec_clients().contains_key(k) implies k < node.next_msg_id() by {
                        if k != read_id {
                            assert(old(self).spec_clients().contains_key(k));
                        }
                    }
                    assert forall|k: usize| #[trigger]
                        self.spec_deltas().contains_key(k) implies k < node.next_msg_id() by {
                        assert(old(self).spec_deltas().contains_key(k));
                    }
                    assert(self.bounded(node.next_msg_id()));
                }
                Ok((Vec::new(), vec![fence, read]))
            },
            Payload::ReadOk { value } => {
                let irt = match msg.body.in_reply_to {
                    Some(irt) => irt,
                    None => {
                        return Err(HandlerError::MissingInReplyTo);
                    },
                };
                if let Some((client_src, client_id)) = self.kv_msg_ids.remove(&irt) {
                    let fake = Message {
                        src: client_src,
                        dst: String::new(),
                        body: Body {
                            id: Some(client_id),
                            in_reply_to: None,
                            payload: Payload::WriteOk,
                        },
                    };
                    let reply = node.reply(&fake, Payload::ReadOk { value: *value });
                    proof {
                        assert forall|k: usize| #[trigger]
                            self.spec_clients().contains_key(k) implies k < node.next_msg_id() by {
                            assert(old(self).spec_clients().contains_key(k));
                        }
                        assert forall|k: usize| #[trigger]
                            self.spec_deltas().contains_key(k) implies k < node.next_msg_id() by {
                            assert(old(self).spec_deltas().contains_key(k));
                        }
                        assert(self.bounded(node.next_msg_id()));
                    }
                    Ok((vec![reply], Vec::new()))
                } else if let Some(delta) = self.deltas.remove(&irt) {
                    let (cas, cas_id) = node.send_to(
                        seq_kv_service_id(),
                        KvStorePayload::Cas {
                            key: "g-counter".to_owned(),
                            from: *value,
                            to: *value + delta,
                            create_if_not_exists: false,
                        },
                    );
                    self.deltas.insert(cas_id, delta);
                    proof {
                        assert(!old(self).spec_clients().contains_key(cas_id));
                        assert forall|k: usize|
                            !(#[trigger] self.deltas@.contains_key(k)
                                && self.kv_msg_ids@.contains_key(k)) by {
                            if k != cas_id {
                                assert(self.deltas@.contains_key(k) ==> old(
                                    self,
                                ).deltas@.contains_key(k));
                            }
                        }
                    }
                    proof {
                        assert forall|k: usize| #[trigger]
                            self.spec_deltas().contains_key(k) implies k < node.next_msg_id() by {
                            if k != cas_id {
                                assert(old(self).spec_deltas().contains_key(k));
                            }
                        }
                        assert forall|k: usize| #[trigger]
                            self.spec_clients().contains_key(k) implies k < node.next_msg_id() by {
                            assert(old(self).spec_clients().contains_key(k));
                        }
                        assert(self.bounded(node.next_msg_id()));
                    }
                    Ok((Vec::new(), vec![cas]))
                } else {
                    proof {
                        assert(self.deltas@ =~= old(self).deltas@);
                        assert(self.deltas@ == old(self).deltas@);
                        assert(self.kv_msg_ids@ =~= old(self).kv_msg_ids@);
                        assert(self.kv_msg_ids@ == old(self).kv_msg_ids@);
                        assert(old(self).bounded(old(node).next_msg_id()));
                        assert(node.next_msg_id() == old(node).next_msg_id());
                        assert(self.spec_deltas() == old(self).spec_deltas());
                        assert(self.spec_clients() == old(self).spec_clients());
                        assert(forall|k: usize| #[trigger]
                            self.spec_deltas().contains_key(k) ==> k < node.next_msg_id());
                        assert(forall|k: usize| #[trigger]
                            self.spec_clients().contains_key(k) ==> k < node.next_msg_id());
                        assert(self.bounded(node.next_msg_id()));
                    }
                    Err(HandlerError::MissingCorrelation)
                }
            },
            Payload::CasOk => {
                let irt = match msg.body.in_reply_to {
                    Some(irt) => irt,
                    None => {
                        return Err(HandlerError::MissingInReplyTo);
                    },
                };
                let removed = self.deltas.remove(&irt);
                proof {
                    if removed is None {
                        assert(self.deltas@ =~= old(self).deltas@.remove(irt));
                    }
                    assert forall|k: usize| #[trigger]
                        self.spec_deltas().contains_key(k) implies k < node.next_msg_id() by {
                        assert(old(self).spec_deltas().contains_key(k));
                    }
                    assert forall|k: usize| #[trigger]
                        self.spec_clients().contains_key(k) implies k < node.next_msg_id() by {
                        assert(old(self).spec_clients().contains_key(k));
                    }
                    assert(self.bounded(node.next_msg_id()));
                }
                Ok((Vec::new(), Vec::new()))
            },
            Payload::Error { code, .. } => {
                if *code == ERROR_PRECONDITION_FAILED {
                    let irt = match msg.body.in_reply_to {
                        Some(irt) => irt,
                        None => {
                            return Err(HandlerError::MissingInReplyTo);
                        },
                    };
                    if let Some(delta) = self.deltas.remove(&irt) {
                        let (read, read_id) = node.send_to(
                            seq_kv_service_id(),
                            KvStorePayload::Read { key: "g-counter".to_owned() },
                        );
                        self.deltas.insert(read_id, delta);
                        proof {
                            assert(!old(self).spec_clients().contains_key(read_id));
                            assert forall|k: usize|
                                !(#[trigger] self.deltas@.contains_key(k)
                                    && self.kv_msg_ids@.contains_key(k)) by {
                                if k != read_id {
                                    assert(self.deltas@.contains_key(k) ==> old(
                                        self,
                                    ).deltas@.contains_key(k));
                                }
                            }
                        }
                        proof {
                            assert forall|k: usize| #[trigger]
                                self.spec_deltas().contains_key(k) implies k
                                < node.next_msg_id() by {
                                if k != read_id {
                                    assert(old(self).spec_deltas().contains_key(k));
                                }
                            }
                            assert forall|k: usize| #[trigger]
                                self.spec_clients().contains_key(k) implies k
                                < node.next_msg_id() by {
                                assert(old(self).spec_clients().contains_key(k));
                            }
                            assert(self.bounded(node.next_msg_id()));
                        }
                        Ok((Vec::new(), vec![read]))
                    } else {
                        proof {
                            assert(self.deltas@ =~= old(self).deltas@);
                            assert(self.spec_deltas() == old(self).spec_deltas());
                            assert(self.spec_clients() == old(self).spec_clients());
                            assert(forall|k: usize| #[trigger]
                                self.spec_deltas().contains_key(k) ==> k < node.next_msg_id());
                            assert(forall|k: usize| #[trigger]
                                self.spec_clients().contains_key(k) ==> k < node.next_msg_id());
                            assert(self.bounded(node.next_msg_id()));
                        }
                        Ok((Vec::new(), Vec::new()))
                    }
                } else {
                    match msg.body.in_reply_to {
                        Some(irt) => {
                            let dropped_delta = self.deltas.remove(&irt);
                            let ghost mid = *self;
                            let dropped_client = self.kv_msg_ids.remove(&irt);
                            proof {
                                if dropped_delta is None {
                                    assert(mid.deltas@ =~= old(self).deltas@.remove(irt));
                                }
                                if dropped_client is None {
                                    assert(self.kv_msg_ids@ =~= old(self).kv_msg_ids@.remove(
                                        irt,
                                    ));
                                }
                                assert(self.spec_deltas() == mid.spec_deltas());
                                assert(self.spec_deltas() == old(self).spec_deltas().remove(irt));
                                assert(self.spec_clients() == old(self).spec_clients().remove(
                                    irt,
                                ));
                                assert forall|k: usize| #[trigger]
                                    self.spec_deltas().contains_key(k) implies k
                                    < node.next_msg_id() by {
                                    assert(old(self).spec_deltas().contains_key(k));
                                }
                                assert forall|k: usize| #[trigger]
                                    self.spec_clients().contains_key(k) implies k
                                    < node.next_msg_id() by {
                                    assert(old(self).spec_clients().contains_key(k));
                                }
                                assert(self.bounded(node.next_msg_id()));
                                assert forall|k: usize|
                                    !(#[trigger] self.deltas@.contains_key(k)
                                        && self.kv_msg_ids@.contains_key(k)) by {
                                    if self.deltas@.contains_key(k) {
                                        assert(old(self).deltas@.contains_key(k));
                                    }
                                }
                            }
                            Ok((Vec::new(), Vec::new()))
                        },
                        None => Ok((Vec::new(), Vec::new())),
                    }
                }
            },
            Payload::AddOk | Payload::WriteOk => {
                proof {
                    assert(self.bounded(node.next_msg_id()));
                }
                Ok((Vec::new(), Vec::new()))
            },
        }
    }

    /// Processes the startup command: a conditional compare-and-swap that
    /// creates the counter key at zero if it does not exist yet.
    pub fn handle_command(&mut self, cmd: &Command, node: &mut Node) -> (r: Result<
        Vec<Message<KvStorePayload>>,
        HandlerError,
    >)
        requires
            old(self).wf(),
            old(node).wf(),
            old(node).next_msg_id() < usize::MAX,
        ensures
            final(node).wf(),
            final(node).spec_id() == old(node).spec_id(),
            final(node).spec_node_ids() == old(node).spec_node_ids(),
            old(node).next_msg_id() <= final(node).next_msg_id(),
            final(node).next_msg_id() == old(node).next_msg_id() + 1,
            *final(self) == *old(self),
            r matches Ok(out) && out@.len() == 1 && {
                &&& out@[0].dst@ == "seq-kv"@
                &&& out@[0].src@ == old(node).spec_id()
                &&& out@[0].body.id == Some(old(node).next_msg_id())
                &&& out@[0].body.payload matches KvStorePayload::Cas {
                    key,
                    from,
                    to,
                    create_if_not_exists,
                } && key@ == "g-counter"@ && from == 0 && to == 0 && create_if_not_exists
            },
    {
        match cmd {
            Command::InitStore => {
                let (cas, _id) = node.send_to(
                    seq_kv_service_id(),
                    KvStorePayload::Cas {
                        key: "g-counter".to_owned(),
                        from: 0,
                        to: 0,
                        create_if_not_exists: true,
                    },
                );
                Ok(vec![cas])
            },
        }
    }
}


impl crate::node::Handler<Payload, Command, (Vec<Message<Payload>>, Vec<Message<KvStorePayload>>)>
    for GCounter {
    open spec fn msg_pre(self, msg: Message<Payload>, node: Node) -> bool {
        &&& self.wf()
        &&& self.bounded(node.next_msg_id())
        &&& node.wf()
        &&& node.next_msg_id() + 2 <= usize::MAX
        &&& match (msg.body.payload, msg.body.in_reply_to) {
            (Payload::ReadOk { value }, Some(irt)) => self.spec_deltas().contains_key(irt)
                ==> value + self.spec_deltas()[irt] <= usize::MAX,
            _ => true,
        }
    }

    open spec fn cmd_pre(self, cmd: Command, node: Node) -> bool {
        &&& self.wf()
        &&& node.wf()
        &&& node.next_msg_id() < usize::MAX
    }

    fn handle(&mut self, msg: Message<Payload>, node: &mut Node) -> Result<
        (Vec<Message<Payload>>, Vec<Message<KvStorePayload>>),
        HandlerError,
    > {
        GCounter::handle(self, msg, node)
    }

    fn handle_command(&mut self, cmd: &Command, node: &mut Node) -> Result<
        (Vec<Message<Payload>>, Vec<Message<KvStorePayload>>),
        HandlerError,
    > {
        match GCounter::handle_command(self, cmd, node) {
            Ok(kv) => Ok((Vec::new(), kv)),
            Err(e) => Err(e),
        }
    }
}

} // verus!
