//! Multi-key append-only log over the linearizable KV service.
//!
//! Three key families of the `lin-kv` service carry the log: the highest
//! allocated offset of each log key, one entry per allocated offset, and
//! the committed read-offset of each key.  A `send` allocates its offset
//! by compare-and-swap on the offset key, retrying while contended, then
//! writes the entry and answers the client.  A `poll` reads a fixed
//! window of three entries per requested key and answers when every key
//! is complete.  Commits write and list-reads collect the committed
//! offsets.  Every outstanding KV request is correlated with exactly one
//! continuation through the message id it answers.

use vstd::prelude::*;
use vstd::hash_map::HashMapWithView;

use crate::decimal::{spec_dec, usize_to_dec};
use crate::kv_store::{
    KvStorePayload, lin_kv_service_id, ERROR_KEY_DOES_NOT_EXIST, ERROR_PRECONDITION_FAILED,
};
use crate::node::{HandlerError, Node};
use crate::protocol::{Body, Message};

verus! {

broadcast use vstd::std_specs::hash::group_hash_axioms, vstd::hash_map::group_hash_map_axioms;

/// How many entries one poll reads per requested key.
pub const NUM_POLLED_MESSAGES: usize = 3;

/// Wire payloads of the log workload, client side and KV side.  The maps
/// of the wire format travel as lists of pairs.
#[derive(Debug, Clone)]
pub enum Payload {
    Send { key: String, msg: u64 },
    SendOk { offset: usize },
    Poll { offsets: Vec<(String, usize)> },
    PollOk { msgs: Vec<(String, Vec<(usize, u64)>)> },
    CommitOffsets { offsets: Vec<(String, usize)> },
    CommitOffsetsOk,
    ListCommittedOffsets { keys: Vec<String> },
    ListCommittedOffsetsOk { offsets: Vec<(String, usize)> },
    ReadOk { value: usize },
    CasOk,
    WriteOk,
    Error { code: u16, text: String },
}

/// The name of the KV key holding the highest allocated offset of log
/// key `k`.
pub open spec fn spec_offset_key(k: Seq<char>) -> Seq<char> {
    "offset-"@ + k
}

/// The name of the KV key holding entry `i` of log key `k`.
pub open spec fn spec_entry_key(k: Seq<char>, i: nat) -> Seq<char> {
    "entry-"@ + k + "-"@ + spec_dec(i)
}

/// The name of the KV key holding the committed offset of log key `k`.
pub open spec fn spec_committed_key(k: Seq<char>) -> Seq<char> {
    "committed-offset-"@ + k
}

/// A client `send` in flight: who asked, for which log key, the payload,
/// and the offset once allocated.
#[derive(Debug, Clone)]
pub struct SendEntry {
    pub orig_msg_id: usize,
    pub orig_msg_src: String,
    pub key: String,
    pub offset: usize,
    pub msg: u64,
}

/// Which step of a `send` the outstanding KV request performs.
#[derive(Debug, Clone)]
pub enum SendState {
    /// Awaiting the read of the offset key.
    OffsetRead { entry: SendEntry, offset_key: String },
    /// Awaiting the compare-and-swap that allocates `proposed`.
    OffsetCas { entry: SendEntry, offset_key: String, proposed: usize },
    /// Awaiting the write of the log entry itself.
    EntryWrite { entry: SendEntry },
}

/// What one requested key of a poll has gathered: the window position and
/// the three read results, present once read, complete once the window is
/// full or the log ended.
#[derive(Debug, Clone)]
pub struct PollKeyState {
    pub key: String,
    pub from: usize,
    pub got0: Option<u64>,
    pub got1: Option<u64>,
    pub got2: Option<u64>,
    pub complete: bool,
}

/// One outstanding entry read of a poll: which aggregate, which requested
/// key, and which offset it read.
#[derive(Debug, Clone)]
pub struct PollEntry {
    pub agg_id: usize,
    pub key_idx: usize,
    pub offset: usize,
}

/// Aggregate of one client poll across its requested keys.
#[derive(Debug, Clone)]
pub struct PolledMessages {
    pub orig_msg_id: usize,
    pub orig_msg_src: String,
    pub keys: Vec<PollKeyState>,
}

/// Aggregate of one client `commit_offsets`: how many writes are owed and
/// how many have been acknowledged.
#[derive(Debug, Clone)]
pub struct CommitOffsetEntry {
    pub orig_msg_id: usize,
    pub orig_msg_src: String,
    pub requested_keys_count: usize,
    pub written_count: usize,
}

/// One outstanding committed-offset read of a list request.
#[derive(Debug, Clone)]
pub struct ListReadEntry {
    pub agg_id: usize,
    pub key_idx: usize,
}

/// Aggregate of one client `list_committed_offsets`: the requested keys
/// and the offsets seen so far, position by position.
#[derive(Debug, Clone)]
pub struct CommittedOffsets {
    pub orig_msg_id: usize,
    pub orig_msg_src: String,
    pub keys: Vec<String>,
    pub offsets: Vec<Option<usize>>,
}

impl PolledMessages {
    /// Whether every requested key has finished its window.
    pub fn all_completed(&self) -> (r: bool)
        ensures
            r == (forall|i: int| 0 <= i < self.keys@.len() ==> (#[trigger] self.keys@[i]).complete),
    {
        let n = self.keys.len();
        let mut i: usize = 0;
        while i < n
            invariant
                i <= n,
                n == self.keys@.len(),
                forall|j: int| 0 <= j < i ==> (#[trigger] self.keys@[j]).complete,
            decreases n - i,
        {
            if !self.keys[i].complete {
                return false;
            }
            i = i + 1;
        }
        true
    }
}

impl CommittedOffsets {
    /// Whether every requested key has answered.
    pub fn all_completed(&self) -> (r: bool)
        ensures
            r == (forall|i: int| 0 <= i < self.offsets@.len() ==> (#[trigger] self.offsets@[i])
                is Some),
    {
        let n = self.offsets.len();
        let mut i: usize = 0;
        while i < n
            invariant
                i <= n,
                n == self.offsets@.len(),
                forall|j: int| 0 <= j < i ==> (#[trigger] self.offsets@[j]) is Some,
            decreases n - i,
        {
            if self.offsets[i].is_none() {
                return false;
            }
            i = i + 1;
        }
        true
    }
}

/// The window one poll key answers with: each read entry, paired with its
/// offset, in offset order.
pub open spec fn slots_of(k: PollKeyState) -> Seq<(usize, u64)> {
    let s0: Seq<(usize, u64)> = if k.got0 is Some {
        seq![(k.from, k.got0.unwrap())]
    } else {
        Seq::empty()
    };
    let s1: Seq<(usize, u64)> = if k.got1 is Some {
        seq![(((k.from + 1) as usize), k.got1.unwrap())]
    } else {
        Seq::empty()
    };
    let s2: Seq<(usize, u64)> = if k.got2 is Some {
        seq![(((k.from + 2) as usize), k.got2.unwrap())]
    } else {
        Seq::empty()
    };
    s0 + s1 + s2
}

/// The poll window is bounded and honest: a key answers at most
/// `NUM_POLLED_MESSAGES` entries, and every answered offset lies at or
/// past the position the window started from.
pub proof fn lemma_poll_window(k: PollKeyState)
    requires
        k.from <= usize::MAX - 2,
    ensures
        slots_of(k).len() <= NUM_POLLED_MESSAGES,
        forall|j: int|
            0 <= j < slots_of(k).len() ==> k.from <= (#[trigger] slots_of(k)[j]).0 <= k.from + 2,
{
}

/// Builds the reply window of every key of a poll aggregate.
fn poll_reply_msgs(agg: &PolledMessages) -> (r: Vec<(String, Vec<(usize, u64)>)>)
    requires
        forall|i: int| 0 <= i < agg.keys@.len() ==> (#[trigger] agg.keys@[i]).from <= usize::MAX
            - 2,
    ensures
        r@.len() == agg.keys@.len(),
        forall|i: int|
            0 <= i < r@.len() ==> (#[trigger] r@[i]).0@ == agg.keys@[i].key@ && r@[i].1@
                == slots_of(agg.keys@[i]),
{
    let mut r: Vec<(String, Vec<(usize, u64)>)> = Vec::new();
    let n = agg.keys.len();
    let mut i: usize = 0;
    while i < n
        invariant
            i <= n,
            n == agg.keys@.len(),
            forall|j: int| 0 <= j < n ==> (#[trigger] agg.keys@[j]).from <= usize::MAX - 2,
            r@.len() == i,
            forall|j: int|
                0 <= j < i ==> (#[trigger] r@[j]).0@ == agg.keys@[j].key@ && r@[j].1@ == slots_of(
                    agg.keys@[j],
                ),
        decreases n - i,
    {
        let st = &agg.keys[i];
        let mut window: Vec<(usize, u64)> = Vec::new();
        match st.got0 {
            Some(v) => window.push((st.from, v)),
            None => {},
        }
        match st.got1 {
            Some(v) => window.push((st.from + 1, v)),
            None => {},
        }
        match st.got2 {
            Some(v) => window.push((st.from + 2, v)),
            None => {},
        }
        proof {
            assert(window@ =~= slots_of(agg.keys@[i as int]));
        }
        r.push((st.key.clone(), window));
        i = i + 1;
    }
    r
}

/// The listing a list aggregate answers with: every requested key whose
/// committed offset was seen, with that offset, in request order; a key
/// not yet answered or never committed is left out.
pub open spec fn listed_offsets(keys: Seq<String>, offsets: Seq<Option<usize>>) -> Seq<
    (Seq<char>, usize),
>
    decreases keys.len(),
{
    if keys.len() == 0 || offsets.len() == 0 {
        Seq::empty()
    } else {
        let rest = listed_offsets(keys.drop_last(), offsets.drop_last());
        match offsets.last() {
            Some(v) => rest.push((keys.last()@, v)),
            None => rest,
        }
    }
}

/// A list request with no committed offset seen for any key answers with
/// an empty listing.
pub proof fn lemma_listed_empty(keys: Seq<String>, offsets: Seq<Option<usize>>)
    requires
        keys.len() == offsets.len(),
        forall|i: int| 0 <= i < offsets.len() ==> (#[trigger] offsets[i]) is None,
    ensures
        listed_offsets(keys, offsets) == Seq::<(Seq<char>, usize)>::empty(),
    decreases keys.len(),
{
    if keys.len() > 0 {
        lemma_listed_empty(keys.drop_last(), offsets.drop_last());
        assert(offsets[keys.len() - 1] is None);
    }
}

/// Builds the reply listing of a list aggregate.
fn committed_reply_offsets(agg: &CommittedOffsets) -> (r: Vec<(String, usize)>)
    requires
        agg.keys@.len() == agg.offsets@.len(),
    ensures
        r@.map_values(|e: (String, usize)| (e.0@, e.1)) == listed_offsets(
            agg.keys@,
            agg.offsets@,
        ),
{
    let mut r: Vec<(String, usize)> = Vec::new();
    let n = agg.keys.len();
    let mut i: usize = 0;
    while i < n
        invariant
            i <= n,
            n == agg.keys@.len(),
            n == agg.offsets@.len(),
            r@.map_values(|e: (String, usize)| (e.0@, e.1)) =~~= listed_offsets(
                agg.keys@.take(i as int),
                agg.offsets@.take(i as int),
            ),
        decreases n - i,
    {
        let ghost prev = r@;
        proof {
            assert(agg.keys@.take(i + 1).drop_last() =~= agg.keys@.take(i as int));
            assert(agg.offsets@.take(i + 1).drop_last() =~= agg.offsets@.take(i as int));
            assert(agg.keys@.take(i + 1).last() == agg.keys@[i as int]);
            assert(agg.offsets@.take(i + 1).last() == agg.offsets@[i as int]);
        }
        match agg.offsets[i] {
            Some(v) => {
                r.push((agg.keys[i].clone(), v));
                proof {
                    assert(r@.map_values(|e: (String, usize)| (e.0@, e.1)) =~~= listed_offsets(
                        agg.keys@.take(i + 1),
                        agg.offsets@.take(i + 1),
                    ));
                }
            },
            None => {
                proof {
                    assert(r@.map_values(|e: (String, usize)| (e.0@, e.1)) =~~= listed_offsets(
                        agg.keys@.take(i + 1),
                        agg.offsets@.take(i + 1),
                    ));
                }
            },
        }
        i = i + 1;
    }
    proof {
        assert(agg.keys@.take(n as int) =~= agg.keys@);
        assert(agg.offsets@.take(n as int) =~= agg.offsets@);
        assert(r@.map_values(|e: (String, usize)| (e.0@, e.1)) =~~= listed_offsets(
            agg.keys@,
            agg.offsets@,
        ));
    }
    r
}


/// State of the log handler: the continuation of every outstanding KV
/// request and the aggregates of the client requests in flight.
pub struct KafkaLog {
    /// Source of aggregate ids for poll, commit and list requests.
    next_agg_id: usize,
    /// KV request id of an outstanding `send` step, mapped to that step.
    send_msg_keys: HashMapWithView<usize, SendState>,
    /// KV request id of an outstanding poll entry read.
    poll_msg_keys: HashMapWithView<usize, PollEntry>,
    /// Aggregate of each poll still collecting its windows.
    polled_messages: HashMapWithView<usize, PolledMessages>,
    /// KV request id of an outstanding committed-offset write, mapped to
    /// its aggregate.
    commit_msg_keys: HashMapWithView<usize, usize>,
    /// Aggregate of each commit still counting acknowledgements.
    committed_offsets_written: HashMapWithView<usize, CommitOffsetEntry>,
    /// KV request id of an outstanding committed-offset read.
    committed_offset_reads: HashMapWithView<usize, ListReadEntry>,
    /// Aggregate of each list request still collecting offsets.
    list_committed_offsets: HashMapWithView<usize, CommittedOffsets>,
}

impl KafkaLog {
    /// The outstanding `send` steps, by KV request id.
    pub closed spec fn spec_sends(self) -> Map<usize, SendState> {
        self.send_msg_keys@
    }

    /// The outstanding poll entry reads, by KV request id.
    pub closed spec fn spec_poll_reads(self) -> Map<usize, PollEntry> {
        self.poll_msg_keys@
    }

    /// The live poll aggregates, by aggregate id.
    pub closed spec fn spec_polls(self) -> Map<usize, PolledMessages> {
        self.polled_messages@
    }

    /// The outstanding committed-offset writes, by KV request id.
    pub closed spec fn spec_commit_writes(self) -> Map<usize, usize> {
        self.commit_msg_keys@
    }

    /// The live commit aggregates, by aggregate id.
    pub closed spec fn spec_commits(self) -> Map<usize, CommitOffsetEntry> {
        self.committed_offsets_written@
    }

    /// The outstanding committed-offset reads, by KV request id.
    pub closed spec fn spec_list_reads(self) -> Map<usize, ListReadEntry> {
        self.committed_offset_reads@
    }

    /// The live list aggregates, by aggregate id.
    pub closed spec fn spec_lists(self) -> Map<usize, CommittedOffsets> {
        self.list_committed_offsets@
    }

    /// The next aggregate id to hand out.
    pub closed spec fn spec_next_agg(self) -> usize {
        self.next_agg_id
    }

    /// Internal consistency.  A KV correlation id is held by at most one
    /// of the request tables; an allocated offset is positive before the
    /// entry write and in the `send_ok` answer; a poll window starts at a
    /// positive position with room for its three entries; a live commit
    /// aggregate still owes at least one acknowledgement; a list
    /// aggregate pairs every requested key with one answer slot; and
    /// aggregate ids stay below the allocator.
    pub closed spec fn wf(self) -> bool {
        &&& forall|k: usize|
            #[trigger] self.send_msg_keys@.contains_key(k) ==> !self.poll_msg_keys@.contains_key(
                k,
            ) && !self.commit_msg_keys@.contains_key(k)
                && !self.committed_offset_reads@.contains_key(k)
        &&& forall|k: usize|
            #[trigger] self.poll_msg_keys@.contains_key(k)
                ==> !self.commit_msg_keys@.contains_key(k)
                && !self.committed_offset_reads@.contains_key(k)
        &&& forall|k: usize|
            #[trigger] self.commit_msg_keys@.contains_key(k)
                ==> !self.committed_offset_reads@.contains_key(k)
        &&& forall|k: usize|
            #[trigger] self.send_msg_keys@.contains_key(k) ==> match self.send_msg_keys@[k] {
                SendState::OffsetRead { entry, .. } => entry.msg <= usize::MAX as u64,
                SendState::OffsetCas { entry, proposed, .. } => proposed >= 1 && entry.msg
                    <= usize::MAX as u64,
                SendState::EntryWrite { entry } => entry.offset >= 1,
            }
        &&& forall|a: usize|
            #[trigger] self.polled_messages@.contains_key(a) ==> a < self.next_agg_id && forall|
                i: int,
            |
                0 <= i < self.polled_messages@[a].keys@.len() ==> 1 <= (
                #[trigger] self.polled_messages@[a].keys@[i]).from <= usize::MAX - 2
        &&& forall|a: usize|
            #[trigger] self.committed_offsets_written@.contains_key(a) ==> a < self.next_agg_id
                && self.committed_offsets_written@[a].written_count
                < self.committed_offsets_written@[a].requested_keys_count
        &&& forall|a: usize|
            #[trigger] self.list_committed_offsets@.contains_key(a) ==> a < self.next_agg_id
                && self.list_committed_offsets@[a].keys@.len()
                == self.list_committed_offsets@[a].offsets@.len()
    }

    /// Every held correlation id was allocated before `bound`.
    pub open spec fn bounded(self, bound: usize) -> bool {
        &&& forall|k: usize| #[trigger] self.spec_sends().contains_key(k) ==> k < bound
        &&& forall|k: usize| #[trigger] self.spec_poll_reads().contains_key(k) ==> k < bound
        &&& forall|k: usize| #[trigger] self.spec_commit_writes().contains_key(k) ==> k < bound
        &&& forall|k: usize| #[trigger] self.spec_list_reads().contains_key(k) ==> k < bound
    }

    /// No table and no counter moved.
    pub open spec fn unchanged(pre: KafkaLog, post: KafkaLog) -> bool {
        &&& post.spec_sends() == pre.spec_sends()
        &&& post.spec_poll_reads() == pre.spec_poll_reads()
        &&& post.spec_polls() == pre.spec_polls()
        &&& post.spec_commit_writes() == pre.spec_commit_writes()
        &&& post.spec_commits() == pre.spec_commits()
        &&& post.spec_list_reads() == pre.spec_list_reads()
        &&& post.spec_lists() == pre.spec_lists()
        &&& post.spec_next_agg() == pre.spec_next_agg()
    }

    /// A fresh handler with nothing outstanding.
    pub fn new() -> (r: KafkaLog)
        ensures
            r.wf(),
            r.spec_sends() =~= Map::<usize, SendState>::empty(),
            r.spec_poll_reads() =~= Map::<usize, PollEntry>::empty(),
            r.spec_polls() =~= Map::<usize, PolledMessages>::empty(),
            r.spec_commit_writes() =~= Map::<usize, usize>::empty(),
            r.spec_commits() =~= Map::<usize, CommitOffsetEntry>::empty(),
            r.spec_list_reads() =~= Map::<usize, ListReadEntry>::empty(),
            r.spec_lists() =~= Map::<usize, CommittedOffsets>::empty(),
            r.spec_next_agg() == 1,
    {
        KafkaLog {
            next_agg_id: 1,
            send_msg_keys: HashMapWithView::new(),
            poll_msg_keys: HashMapWithView::new(),
            polled_messages: HashMapWithView::new(),
            commit_msg_keys: HashMapWithView::new(),
            committed_offsets_written: HashMapWithView::new(),
            committed_offset_reads: HashMapWithView::new(),
            list_committed_offsets: HashMapWithView::new(),
        }
    }

    /// The next aggregate id to hand out, without advancing the counter.
    pub fn agg_counter(&self) -> (r: usize)
        ensures
            r == self.spec_next_agg(),
    {
        self.next_agg_id
    }

    /// Whether request `kv_msg_id` is an outstanding offset read of a
    /// `send`, the one state whose answer feeds an increment.
    pub fn awaiting_offset_read(&self, kv_msg_id: usize) -> (r: bool)
        ensures
            r == (self.spec_sends().contains_key(kv_msg_id) && self.spec_sends()[kv_msg_id]
                matches SendState::OffsetRead { .. }),
    {
        match self.send_msg_keys.get(&kv_msg_id) {
            Some(SendState::OffsetRead { .. }) => true,
            _ => false,
        }
    }

    /// The KV key of the highest allocated offset of `key`.
    pub fn offset_key(&self, key: &str) -> (r: String)
        ensures
            r@ == spec_offset_key(key@),
    {
        let mut s = "offset-".to_owned();
        s.append(key);
        s
    }

    /// The KV key of entry `offset` of `key`.
    pub fn logged_msg_key(&self, key: &str, offset: usize) -> (r: String)
        ensures
            r@ == spec_entry_key(key@, offset as nat),
    {
        let mut s = "entry-".to_owned();
        s.append(key);
        s.append("-");
        let d = usize_to_dec(offset);
        s.append(d.as_str());
        proof {
            assert(s@ =~= spec_entry_key(key@, offset as nat));
        }
        s
    }

    /// The KV key of the committed offset of `key`.
    pub fn committed_offset_key(&self, key: &str) -> (r: String)
        ensures
            r@ == spec_committed_key(key@),
    {
        let mut s = "committed-offset-".to_owned();
        s.append(key);
        s
    }
}


/// Where a poll window starts: a requested offset of zero is coerced to
/// one, the first position of the one-indexed log.
pub open spec fn coerce_from(f: usize) -> usize {
    if f == 0 {
        1
    } else {
        f
    }
}

impl KafkaLog {
    /// What starting a `commit_offsets` does: one aggregate owing one
    /// acknowledgement per requested key, and one committed-offset write
    /// per pair, in request order, each recorded under its fresh id.
    pub open spec fn commit_started(
        pre: KafkaLog,
        post: KafkaLog,
        node_pre: Node,
        offsets: Seq<(String, usize)>,
        orig_src: Seq<char>,
        orig_id: usize,
        kv: Seq<Message<KvStorePayload>>,
    ) -> bool {
        let agg_id = pre.spec_next_agg();
        &&& post.spec_next_agg() == agg_id + 1
        &&& post.spec_commits().contains_key(agg_id)
        &&& post.spec_commits() == pre.spec_commits().insert(agg_id, post.spec_commits()[agg_id])
        &&& post.spec_commits()[agg_id].orig_msg_src@ == orig_src
        &&& post.spec_commits()[agg_id].orig_msg_id == orig_id
        &&& post.spec_commits()[agg_id].requested_keys_count == offsets.len()
        &&& post.spec_commits()[agg_id].written_count == 0
        &&& kv.len() == offsets.len()
        &&& forall|t: int|
            0 <= t < kv.len() ==> {
                let m = #[trigger] kv[t];
                &&& m.dst@ == "lin-kv"@
                &&& m.src@ == node_pre.spec_id()
                &&& m.body.in_reply_to is None
                &&& m.body.payload matches KvStorePayload::Write { key, value } && key@
                    == spec_committed_key(offsets[t].0@) && value == offsets[t].1
                &&& m.body.id == Some((node_pre.next_msg_id() + t) as usize)
                &&& m.body.id matches Some(id) && post.spec_commit_writes().contains_key(id)
                    && post.spec_commit_writes()[id] == agg_id
            }
        &&& forall|k: usize|
            #[trigger] pre.spec_commit_writes().contains_key(k)
                ==> post.spec_commit_writes().contains_key(k) && post.spec_commit_writes()[k]
                == pre.spec_commit_writes()[k]
        &&& post.spec_sends() == pre.spec_sends()
        &&& post.spec_poll_reads() == pre.spec_poll_reads()
        &&& post.spec_polls() == pre.spec_polls()
        &&& post.spec_commits() == pre.spec_commits().insert(agg_id, post.spec_commits()[agg_id])
        &&& post.spec_list_reads() == pre.spec_list_reads()
        &&& post.spec_lists() == pre.spec_lists()
    }

    /// Starts a `commit_offsets`: registers the aggregate and sends one
    /// write per requested pair.
    fn start_commit(
        &mut self,
        node: &mut Node,
        offsets: &Vec<(String, usize)>,
        orig_src: String,
        orig_id: usize,
    ) -> (kv: Vec<Message<KvStorePayload>>)
        requires
            old(self).wf(),
            old(node).wf(),
            old(self).bounded(old(node).next_msg_id()),
            old(self).spec_next_agg() < usize::MAX,
            old(node).next_msg_id() + offsets@.len() <= usize::MAX,
            offsets@.len() >= 1,
        ensures
            final(node).wf(),
            final(node).spec_id() == old(node).spec_id(),
            final(node).spec_node_ids() == old(node).spec_node_ids(),
            old(node).next_msg_id() <= final(node).next_msg_id(),
            final(node).next_msg_id() == old(node).next_msg_id() + kv@.len(),
            final(self).wf(),
            final(self).bounded(final(node).next_msg_id()),
            KafkaLog::commit_started(
                *old(self),
                *final(self),
                *old(node),
                offsets@,
                orig_src@,
                orig_id,
                kv@,
            ),
    {
        let agg_id = self.next_agg_id;
        self.next_agg_id = self.next_agg_id + 1;
        let n = offsets.len();
        let mut kv: Vec<Message<KvStorePayload>> = Vec::new();
        let mut i: usize = 0;
        while i < n
            invariant
                i <= n,
                n == offsets@.len(),
                n >= 1,
                agg_id == old(self).spec_next_agg(),
                self.spec_next_agg() == agg_id + 1,
                node.wf(),
                node.spec_id() == old(node).spec_id(),
                node.spec_node_ids() == old(node).spec_node_ids(),
                node.next_msg_id() == old(node).next_msg_id() + i,
                old(node).next_msg_id() + n <= usize::MAX,
                old(self).wf(),
                old(self).bounded(old(node).next_msg_id()),
                self.spec_sends() == old(self).spec_sends(),
                self.spec_poll_reads() == old(self).spec_poll_reads(),
                self.spec_polls() == old(self).spec_polls(),
                self.spec_commits() == old(self).spec_commits(),
                self.spec_list_reads() == old(self).spec_list_reads(),
                self.spec_lists() == old(self).spec_lists(),
                kv@.len() == i,
                forall|t: int|
                    0 <= t < i ==> {
                        let m = #[trigger] kv@[t];
                        &&& m.dst@ == "lin-kv"@
                        &&& m.src@ == old(node).spec_id()
                        &&& m.body.in_reply_to is None
                        &&& m.body.payload matches KvStorePayload::Write { key, value } && key@
                            == spec_committed_key(offsets@[t].0@) && value == offsets@[t].1
                        &&& m.body.id == Some((old(node).next_msg_id() + t) as usize)
                        &&& m.body.id matches Some(id) && self.spec_commit_writes().contains_key(
                            id,
                        ) && self.spec_commit_writes()[id] == agg_id
                    },
                forall|k: usize|
                    #[trigger] self.spec_commit_writes().contains_key(k) ==> (old(
                        self,
                    ).spec_commit_writes().contains_key(k) && self.spec_commit_writes()[k] == old(
                        self,
                    ).spec_commit_writes()[k]) || (old(node).next_msg_id() <= k
                        < node.next_msg_id() && self.spec_commit_writes()[k] == agg_id),
                forall|k: usize|
                    #[trigger] old(self).spec_commit_writes().contains_key(k)
                        ==> self.spec_commit_writes().contains_key(k)
                        && self.spec_commit_writes()[k] == old(self).spec_commit_writes()[k],
            decreases n - i,
        {
            let ckey = self.committed_offset_key(offsets[i].0.as_str());
            let ghost prev_writes = self.commit_msg_keys@;
            proof {
                assert(prev_writes == self.spec_commit_writes());
            }
            let (m, write_id) = node.send_to(
                lin_kv_service_id(),
                KvStorePayload::Write { key: ckey, value: offsets[i].1 },
            );
            kv.push(m);
            self.commit_msg_keys.insert(write_id, agg_id);
            proof {
                assert(!old(self).spec_commit_writes().contains_key(write_id));
                assert forall|k: usize| #[trigger]
                    self.spec_commit_writes().contains_key(k) implies ((old(
                    self,
                ).spec_commit_writes().contains_key(k) && self.spec_commit_writes()[k] == old(
                    self,
                ).spec_commit_writes()[k]) || (old(node).next_msg_id() <= k < node.next_msg_id()
                    && self.spec_commit_writes()[k] == agg_id)) by {
                    if k != write_id {
                        assert(prev_writes.contains_key(k));
                        assert(self.spec_commit_writes()[k] == prev_writes[k]);
                    } else {
                        assert(self.spec_commit_writes()[k] == agg_id);
                        assert(old(node).next_msg_id() <= k < node.next_msg_id());
                    }
                }
            }
            i = i + 1;
        }
        let ghost mid = *self;
        self.committed_offsets_written.insert(
            agg_id,
            CommitOffsetEntry {
                orig_msg_id: orig_id,
                orig_msg_src: orig_src,
                requested_keys_count: n,
                written_count: 0,
            },
        );
        proof {
            assert(self.spec_commit_writes() == mid.spec_commit_writes());
            assert(self.spec_sends() == mid.spec_sends());
            assert(self.spec_poll_reads() == mid.spec_poll_reads());
            assert(self.spec_list_reads() == mid.spec_list_reads());
            assert(self.spec_polls() == mid.spec_polls());
            assert(self.spec_lists() == mid.spec_lists());
            assert(self.spec_commits() =~= old(self).spec_commits().insert(
                agg_id,
                self.spec_commits()[agg_id],
            ));
            assert forall|k: usize| #[trigger]
                self.send_msg_keys@.contains_key(k) implies !self.poll_msg_keys@.contains_key(k)
                && !self.commit_msg_keys@.contains_key(k)
                && !self.committed_offset_reads@.contains_key(k) by {
                assert(old(self).send_msg_keys@.contains_key(k));
                assert(k < old(node).next_msg_id());
                if self.commit_msg_keys@.contains_key(k) {
                    assert(mid.spec_commit_writes().contains_key(k));
                    assert(old(self).spec_commit_writes().contains_key(k));
                }
            }
            assert forall|k: usize| #[trigger]
                self.poll_msg_keys@.contains_key(k) implies !self.commit_msg_keys@.contains_key(
                k,
            ) && !self.committed_offset_reads@.contains_key(k) by {
                assert(old(self).poll_msg_keys@.contains_key(k));
                assert(k < old(node).next_msg_id());
                if self.commit_msg_keys@.contains_key(k) {
                    assert(mid.spec_commit_writes().contains_key(k));
                    assert(old(self).spec_commit_writes().contains_key(k));
                }
            }
            assert forall|k: usize| #[trigger]
                self.commit_msg_keys@.contains_key(
                    k,
                ) implies !self.committed_offset_reads@.contains_key(k) by {
                assert(mid.spec_commit_writes().contains_key(k));
                if old(self).spec_commit_writes().contains_key(k) {
                    assert(!old(self).committed_offset_reads@.contains_key(k));
                }
            }
            assert forall|k: usize| #[trigger]
                self.spec_commit_writes().contains_key(k) implies k < node.next_msg_id() by {
                assert(mid.spec_commit_writes().contains_key(k));
                if old(self).spec_commit_writes().contains_key(k) {
                    assert(k < old(node).next_msg_id());
                }
            }
            assert forall|k: usize| #[trigger]
                self.spec_sends().contains_key(k) implies k < node.next_msg_id() by {
                assert(old(self).spec_sends().contains_key(k));
            }
            assert forall|k: usize| #[trigger]
                self.spec_poll_reads().contains_key(k) implies k < node.next_msg_id() by {
                assert(old(self).spec_poll_reads().contains_key(k));
            }
            assert forall|k: usize| #[trigger]
                self.spec_list_reads().contains_key(k) implies k < node.next_msg_id() by {
                assert(old(self).spec_list_reads().contains_key(k));
            }
        }
        kv
    }
}


impl KafkaLog {
    /// What starting a `list_committed_offsets` does: one aggregate with
    /// an empty answer slot per requested key, and one committed-offset
    /// read per key, in request order, each recorded under its fresh id.
    pub open spec fn list_started(
        pre: KafkaLog,
        post: KafkaLog,
        node_pre: Node,
        keys: Seq<String>,
        orig_src: Seq<char>,
        orig_id: usize,
        kv: Seq<Message<KvStorePayload>>,
    ) -> bool {
        let agg_id = pre.spec_next_agg();
        &&& post.spec_next_agg() == agg_id + 1
        &&& post.spec_lists().contains_key(agg_id)
        &&& post.spec_lists() == pre.spec_lists().insert(agg_id, post.spec_lists()[agg_id])
        &&& post.spec_lists()[agg_id].orig_msg_src@ == orig_src
        &&& post.spec_lists()[agg_id].orig_msg_id == orig_id
        &&& post.spec_lists()[agg_id].keys@ == keys
        &&& post.spec_lists()[agg_id].offsets@.len() == keys.len()
        &&& forall|i: int|
            0 <= i < keys.len() ==> (#[trigger] post.spec_lists()[agg_id].offsets@[i]) is None
        &&& kv.len() == keys.len()
        &&& forall|t: int|
            0 <= t < kv.len() ==> {
                let m = #[trigger] kv[t];
                &&& m.dst@ == "lin-kv"@
                &&& m.src@ == node_pre.spec_id()
                &&& m.body.in_reply_to is None
                &&& m.body.payload matches KvStorePayload::Read { key } && key@
                    == spec_committed_key(keys[t]@)
                &&& m.body.id == Some((node_pre.next_msg_id() + t) as usize)
                &&& m.body.id matches Some(id) && post.spec_list_reads().contains_key(id)
                    && post.spec_list_reads()[id] == (ListReadEntry { agg_id, key_idx: t as usize })
            }
        &&& forall|k: usize|
            #[trigger] pre.spec_list_reads().contains_key(k)
                ==> post.spec_list_reads().contains_key(k) && post.spec_list_reads()[k]
                == pre.spec_list_reads()[k]
        &&& post.spec_sends() == pre.spec_sends()
        &&& post.spec_poll_reads() == pre.spec_poll_reads()
        &&& post.spec_polls() == pre.spec_polls()
        &&& post.spec_commit_writes() == pre.spec_commit_writes()
        &&& post.spec_commits() == pre.spec_commits()
    }

    /// Starts a `list_committed_offsets`: registers the aggregate and
    /// sends one committed-offset read per requested key.
    fn start_list(
        &mut self,
        node: &mut Node,
        keys: &Vec<String>,
        orig_src: String,
        orig_id: usize,
    ) -> (kv: Vec<Message<KvStorePayload>>)
        requires
            old(self).wf(),
            old(node).wf(),
            old(self).bounded(old(node).next_msg_id()),
            old(self).spec_next_agg() < usize::MAX,
            old(node).next_msg_id() + keys@.len() <= usize::MAX,
            keys@.len() >= 1,
        ensures
            final(node).wf(),
            final(node).spec_id() == old(node).spec_id(),
            final(node).spec_node_ids() == old(node).spec_node_ids(),
            old(node).next_msg_id() <= final(node).next_msg_id(),
            final(node).next_msg_id() == old(node).next_msg_id() + kv@.len(),
            final(self).wf(),
            final(self).bounded(final(node).next_msg_id()),
            KafkaLog::list_started(
                *old(self),
                *final(self),
                *old(node),
                keys@,
                orig_src@,
                orig_id,
                kv@,
            ),
    {
        let agg_id = self.next_agg_id;
        self.next_agg_id = self.next_agg_id + 1;
        let n = keys.len();
        let mut kv: Vec<Message<KvStorePayload>> = Vec::new();
        let mut offs: Vec<Option<usize>> = Vec::new();
        let mut i: usize = 0;
        while i < n
            invariant
                i <= n,
                n == keys@.len(),
                n >= 1,
                agg_id == old(self).spec_next_agg(),
                self.spec_next_agg() == agg_id + 1,
                node.wf(),
                node.spec_id() == old(node).spec_id(),
                node.spec_node_ids() == old(node).spec_node_ids(),
                node.next_msg_id() == old(node).next_msg_id() + i,
                old(node).next_msg_id() + n <= usize::MAX,
                old(self).wf(),
                old(self).bounded(old(node).next_msg_id()),
                self.spec_sends() == old(self).spec_sends(),
                self.spec_poll_reads() == old(self).spec_poll_reads(),
                self.spec_polls() == old(self).spec_polls(),
                self.spec_commit_writes() == old(self).spec_commit_writes(),
                self.spec_commits() == old(self).spec_commits(),
                self.spec_lists() == old(self).spec_lists(),
                offs@.len() == i,
                forall|j: int| 0 <= j < i ==> (#[trigger] offs@[j]) is None,
                kv@.len() == i,
                forall|t: int|
                    0 <= t < i ==> {
                        let m = #[trigger] kv@[t];
                        &&& m.dst@ == "lin-kv"@
                        &&& m.src@ == old(node).spec_id()
                        &&& m.body.in_reply_to is None
                        &&& m.body.payload matches KvStorePayload::Read { key } && key@
                            == spec_committed_key(keys@[t]@)
                        &&& m.body.id == Some((old(node).next_msg_id() + t) as usize)
                        &&& m.body.id matches Some(id) && self.spec_list_reads().contains_key(id)
                            && self.spec_list_reads()[id] == (ListReadEntry {
                            agg_id,
                            key_idx: t as usize,
                        })
                    },
                forall|k: usize|
                    #[trigger] self.spec_list_reads().contains_key(k) ==> (old(
                        self,
                    ).spec_list_reads().contains_key(k) && self.spec_list_reads()[k] == old(
                        self,
                    ).spec_list_reads()[k]) || (old(node).next_msg_id() <= k < node.next_msg_id()
                        && self.spec_list_reads()[k].agg_id == agg_id),
                forall|k: usize|
                    #[trigger] old(self).spec_list_reads().contains_key(k)
                        ==> self.spec_list_reads().contains_key(k) && self.spec_list_reads()[k]
                        == old(self).spec_list_reads()[k],
            decreases n - i,
        {
            let ckey = self.committed_offset_key(keys[i].as_str());
            let ghost prev_reads = self.committed_offset_reads@;
            proof {
                assert(prev_reads == self.spec_list_reads());
            }
            let (m, read_id) = node.send_to(
                lin_kv_service_id(),
                KvStorePayload::Read { key: ckey },
            );
            kv.push(m);
            offs.push(None);
            self.committed_offset_reads.insert(read_id, ListReadEntry { agg_id, key_idx: i });
            proof {
                assert(!old(self).spec_list_reads().contains_key(read_id));
                assert forall|k: usize| #[trigger]
                    self.spec_list_reads().contains_key(k) implies ((old(
                    self,
                ).spec_list_reads().contains_key(k) && self.spec_list_reads()[k] == old(
                    self,
                ).spec_list_reads()[k]) || (old(node).next_msg_id() <= k < node.next_msg_id()
                    && self.spec_list_reads()[k].agg_id == agg_id)) by {
                    if k != read_id {
                        assert(prev_reads.contains_key(k));
                        assert(self.spec_list_reads()[k] == prev_reads[k]);
                    } else {
                        assert(self.spec_list_reads()[k].agg_id == agg_id);
                        assert(old(node).next_msg_id() <= k < node.next_msg_id());
                    }
                }
            }
            i = i + 1;
        }
        let stored_keys = crate::protocol::clone_string_vec(keys);
        let ghost mid = *self;
        self.list_committed_offsets.insert(
            agg_id,
            CommittedOffsets { orig_msg_id: orig_id, orig_msg_src: orig_src, keys: stored_keys, offsets: offs },
        );
        proof {
            assert(self.spec_commit_writes() == mid.spec_commit_writes());
            assert(self.spec_sends() == mid.spec_sends());
            assert(self.spec_poll_reads() == mid.spec_poll_reads());
            assert(self.spec_list_reads() == mid.spec_list_reads());
            assert(self.spec_polls() == mid.spec_polls());
            assert(self.spec_commits() == mid.spec_commits());
            assert(self.spec_lists() =~= old(self).spec_lists().insert(
                agg_id,
                self.spec_lists()[agg_id],
            ));
            assert forall|k: usize| #[trigger]
                self.send_msg_keys@.contains_key(k) implies !self.poll_msg_keys@.contains_key(k)
                && !self.commit_msg_keys@.contains_key(k)
                && !self.committed_offset_reads@.contains_key(k) by {
                assert(old(self).send_msg_keys@.contains_key(k));
                assert(k < old(node).next_msg_id());
                if self.committed_offset_reads@.contains_key(k) {
                    assert(mid.spec_list_reads().contains_key(k));
                    assert(old(self).spec_list_reads().contains_key(k));
                }
            }
            assert forall|k: usize| #[trigger]
                self.poll_msg_keys@.contains_key(k) implies !self.commit_msg_keys@.contains_key(
                k,
            ) && !self.committed_offset_reads@.contains_key(k) by {
                assert(old(self).poll_msg_keys@.contains_key(k));
                assert(k < old(node).next_msg_id());
                if self.committed_offset_reads@.contains_key(k) {
                    assert(mid.spec_list_reads().contains_key(k));
                    assert(old(self).spec_list_reads().contains_key(k));
                }
            }
            assert forall|k: usize| #[trigger]
                self.commit_msg_keys@.contains_key(
                    k,
                ) implies !self.committed_offset_reads@.contains_key(k) by {
                assert(old(self).spec_commit_writes().contains_key(k));
                assert(k < old(node).next_msg_id());
                if self.committed_offset_reads@.contains_key(k) {
                    assert(mid.spec_list_reads().contains_key(k));
                    assert(old(self).spec_list_reads().contains_key(k));
                }
            }
            assert forall|k: usize| #[trigger]
                self.spec_list_reads().contains_key(k) implies k < node.next_msg_id() by {
                assert(mid.spec_list_reads().contains_key(k));
                if old(self).spec_list_reads().contains_key(k) {
                    assert(k < old(node).next_msg_id());
                }
            }
            assert forall|k: usize| #[trigger]
                self.spec_sends().contains_key(k) implies k < node.next_msg_id() by {
                assert(old(self).spec_sends().contains_key(k));
            }
            assert forall|k: usize| #[trigger]
                self.spec_poll_reads().contains_key(k) implies k < node.next_msg_id() by {
                assert(old(self).spec_poll_reads().contains_key(k));
            }
            assert forall|k: usize| #[trigger]
                self.spec_commit_writes().contains_key(k) implies k < node.next_msg_id() by {
                assert(old(self).spec_commit_writes().contains_key(k));
            }
        }
        kv
    }
}


impl KafkaLog {
    /// What starting a `poll` does: one aggregate with an empty window
    /// per requested key, starting at the coerced position, and three
    /// entry reads per key, each recorded under its fresh id as one slot
    /// of that key's window.
    pub open spec fn poll_started(
        pre: KafkaLog,
        post: KafkaLog,
        node_pre: Node,
        offsets: Seq<(String, usize)>,
        orig_src: Seq<char>,
        orig_id: usize,
        kv: Seq<Message<KvStorePayload>>,
    ) -> bool {
        let agg_id = pre.spec_next_agg();
        &&& post.spec_next_agg() == agg_id + 1
        &&& post.spec_polls().contains_key(agg_id)
        &&& post.spec_polls() == pre.spec_polls().insert(agg_id, post.spec_polls()[agg_id])
        &&& post.spec_polls()[agg_id].orig_msg_src@ == orig_src
        &&& post.spec_polls()[agg_id].orig_msg_id == orig_id
        &&& post.spec_polls()[agg_id].keys@.len() == offsets.len()
        &&& forall|i: int|
            0 <= i < offsets.len() ==> {
                let st = #[trigger] post.spec_polls()[agg_id].keys@[i];
                &&& st.key@ == offsets[i].0@
                &&& st.from == coerce_from(offsets[i].1)
                &&& st.got0 is None
                &&& st.got1 is None
                &&& st.got2 is None
                &&& !st.complete
            }
        &&& kv.len() == 3 * offsets.len()
        &&& forall|t: int|
            0 <= t < kv.len() ==> {
                let m = #[trigger] kv[t];
                &&& m.dst@ == "lin-kv"@
                &&& m.src@ == node_pre.spec_id()
                &&& m.body.in_reply_to is None
                &&& m.body.id == Some((node_pre.next_msg_id() + t) as usize)
                &&& m.body.id matches Some(id) && post.spec_poll_reads().contains_key(id) && {
                    let e = post.spec_poll_reads()[id];
                    &&& e.agg_id == agg_id
                    &&& 0 <= e.key_idx < offsets.len()
                    &&& coerce_from(offsets[e.key_idx as int].1) <= e.offset <= coerce_from(
                        offsets[e.key_idx as int].1,
                    ) + 2
                    &&& t == 3 * e.key_idx + (e.offset - coerce_from(offsets[e.key_idx as int].1))
                    &&& m.body.payload matches KvStorePayload::Read { key } && key@
                        == spec_entry_key(offsets[e.key_idx as int].0@, e.offset as nat)
                }
            }
        &&& forall|k: usize|
            #[trigger] pre.spec_poll_reads().contains_key(k)
                ==> post.spec_poll_reads().contains_key(k) && post.spec_poll_reads()[k]
                == pre.spec_poll_reads()[k]
        &&& post.spec_sends() == pre.spec_sends()
        &&& post.spec_commit_writes() == pre.spec_commit_writes()
        &&& post.spec_commits() == pre.spec_commits()
        &&& post.spec_list_reads() == pre.spec_list_reads()
        &&& post.spec_lists() == pre.spec_lists()
    }

    /// Records one outstanding poll read.
    fn record_poll_read(&mut self, read_id: usize, agg_id: usize, key_idx: usize, offset: usize)
        ensures
            final(self).spec_poll_reads() == old(self).spec_poll_reads().insert(
                read_id,
                PollEntry { agg_id, key_idx, offset },
            ),
            final(self).spec_sends() == old(self).spec_sends(),
            final(self).spec_polls() == old(self).spec_polls(),
            final(self).spec_commit_writes() == old(self).spec_commit_writes(),
            final(self).spec_commits() == old(self).spec_commits(),
            final(self).spec_list_reads() == old(self).spec_list_reads(),
            final(self).spec_lists() == old(self).spec_lists(),
            final(self).spec_next_agg() == old(self).spec_next_agg(),
    {
        self.poll_msg_keys.insert(read_id, PollEntry { agg_id, key_idx, offset });
    }

    /// Starts a `poll`: registers the aggregate and sends the three entry
    /// reads of every requested key's window.
    fn start_poll(
        &mut self,
        node: &mut Node,
        offsets: &Vec<(String, usize)>,
        orig_src: String,
        orig_id: usize,
    ) -> (kv: Vec<Message<KvStorePayload>>)
        requires
            old(self).wf(),
            old(node).wf(),
            old(self).bounded(old(node).next_msg_id()),
            old(self).spec_next_agg() < usize::MAX,
            old(node).next_msg_id() + 3 * offsets@.len() <= usize::MAX,
            forall|i: int| 0 <= i < offsets@.len() ==> (#[trigger] offsets@[i]).1 <= usize::MAX
                - 3,
            offsets@.len() >= 1,
        ensures
            final(node).wf(),
            final(node).spec_id() == old(node).spec_id(),
            final(node).spec_node_ids() == old(node).spec_node_ids(),
            old(node).next_msg_id() <= final(node).next_msg_id(),
            final(node).next_msg_id() == old(node).next_msg_id() + kv@.len(),
            final(self).wf(),
            final(self).bounded(final(node).next_msg_id()),
            KafkaLog::poll_started(
                *old(self),
                *final(self),
                *old(node),
                offsets@,
                orig_src@,
                orig_id,
                kv@,
            ),
    {
        let agg_id = self.next_agg_id;
        self.next_agg_id = self.next_agg_id + 1;
        let n = offsets.len();
        let mut keys_state: Vec<PollKeyState> = Vec::new();
        let mut kv: Vec<Message<KvStorePayload>> = Vec::new();
        let mut i: usize = 0;
        while i < n
            invariant
                i <= n,
                n == offsets@.len(),
                n >= 1,
                agg_id == old(self).spec_next_agg(),
                self.spec_next_agg() == agg_id + 1,
                node.wf(),
                node.spec_id() == old(node).spec_id(),
                node.spec_node_ids() == old(node).spec_node_ids(),
                node.next_msg_id() == old(node).next_msg_id() + 3 * i,
                old(node).next_msg_id() + 3 * n <= usize::MAX,
                forall|j: int| 0 <= j < n ==> (#[trigger] offsets@[j]).1 <= usize::MAX - 3,
                old(self).wf(),
                old(self).bounded(old(node).next_msg_id()),
                self.spec_sends() == old(self).spec_sends(),
                self.spec_polls() == old(self).spec_polls(),
                self.spec_commit_writes() == old(self).spec_commit_writes(),
                self.spec_commits() == old(self).spec_commits(),
                self.spec_list_reads() == old(self).spec_list_reads(),
                self.spec_lists() == old(self).spec_lists(),
                keys_state@.len() == i,
                forall|j: int|
                    0 <= j < i ==> {
                        let st = #[trigger] keys_state@[j];
                        &&& st.key@ == offsets@[j].0@
                        &&& st.from == coerce_from(offsets@[j].1)
                        &&& st.got0 is None
                        &&& st.got1 is None
                        &&& st.got2 is None
                        &&& !st.complete
                    },
                kv@.len() == 3 * i,
                forall|t: int|
                    0 <= t < kv@.len() ==> {
                        let m = #[trigger] kv@[t];
                        &&& m.dst@ == "lin-kv"@
                        &&& m.src@ == old(node).spec_id()
                        &&& m.body.in_reply_to is None
                        &&& m.body.id == Some((old(node).next_msg_id() + t) as usize)
                        &&& m.body.id matches Some(id) && self.spec_poll_reads().contains_key(id)
                            && {
                            let e = self.spec_poll_reads()[id];
                            &&& e.agg_id == agg_id
                            &&& 0 <= e.key_idx < n
                            &&& coerce_from(offsets@[e.key_idx as int].1) <= e.offset
                                <= coerce_from(offsets@[e.key_idx as int].1) + 2
                            &&& t == 3 * e.key_idx + (e.offset - coerce_from(
                                offsets@[e.key_idx as int].1,
                            ))
                            &&& m.body.payload matches KvStorePayload::Read { key } && key@
                                == spec_entry_key(offsets@[e.key_idx as int].0@, e.offset as nat)
                        }
                    },
                forall|k: usize|
                    #[trigger] self.spec_poll_reads().contains_key(k) ==> (old(
                        self,
                    ).spec_poll_reads().contains_key(k) && self.spec_poll_reads()[k] == old(
                        self,
                    ).spec_poll_reads()[k]) || (old(node).next_msg_id() <= k < node.next_msg_id()
                        && self.spec_poll_reads()[k].agg_id == agg_id),
                forall|k: usize|
                    #[trigger] old(self).spec_poll_reads().contains_key(k)
                        ==> self.spec_poll_reads().contains_key(k) && self.spec_poll_reads()[k]
                        == old(self).spec_poll_reads()[k],
            decreases n - i,
        {
            let pair_key = offsets[i].0.clone();
            let from: usize = if offsets[i].1 == 0 {
                1
            } else {
                offsets[i].1
            };
            keys_state.push(
                PollKeyState {
                    key: pair_key,
                    from,
                    got0: None,
                    got1: None,
                    got2: None,
                    complete: false,
                },
            );
            let ekey0 = self.logged_msg_key(offsets[i].0.as_str(), from);
            let ghost prev0 = self.spec_poll_reads();
            let (m0, id0) = node.send_to(lin_kv_service_id(), KvStorePayload::Read { key: ekey0 });
            kv.push(m0);
            self.record_poll_read(id0, agg_id, i, from);
            let ekey1 = self.logged_msg_key(offsets[i].0.as_str(), from + 1);
            let ghost prev1 = self.spec_poll_reads();
            let (m1, id1) = node.send_to(lin_kv_service_id(), KvStorePayload::Read { key: ekey1 });
            kv.push(m1);
            self.record_poll_read(id1, agg_id, i, from + 1);
            let ekey2 = self.logged_msg_key(offsets[i].0.as_str(), from + 2);
            let ghost prev2 = self.spec_poll_reads();
            let (m2, id2) = node.send_to(lin_kv_service_id(), KvStorePayload::Read { key: ekey2 });
            kv.push(m2);
            self.record_poll_read(id2, agg_id, i, from + 2);
            proof {
                assert(keys_state@[i as int].from == coerce_from(offsets@[i as int].1));
                assert forall|k: usize| #[trigger]
                    self.spec_poll_reads().contains_key(k) implies ((old(
                    self,
                ).spec_poll_reads().contains_key(k) && self.spec_poll_reads()[k] == old(
                    self,
                ).spec_poll_reads()[k]) || (old(node).next_msg_id() <= k < node.next_msg_id()
                    && self.spec_poll_reads()[k].agg_id == agg_id)) by {
                    if k != id0 && k != id1 && k != id2 {
                        assert(prev0.contains_key(k));
                        assert(self.spec_poll_reads()[k] == prev0[k]);
                    }
                }
            }
            i = i + 1;
        }
        let ghost mid = *self;
        self.polled_messages.insert(
            agg_id,
            PolledMessages { orig_msg_id: orig_id, orig_msg_src: orig_src, keys: keys_state },
        );
        proof {
            assert(self.spec_commit_writes() == mid.spec_commit_writes());
            assert(self.spec_sends() == mid.spec_sends());
            assert(self.spec_poll_reads() == mid.spec_poll_reads());
            assert(self.spec_list_reads() == mid.spec_list_reads());
            assert(self.spec_commits() == mid.spec_commits());
            assert(self.spec_lists() == mid.spec_lists());
            assert(self.spec_polls() =~= old(self).spec_polls().insert(
                agg_id,
                self.spec_polls()[agg_id],
            ));
            assert forall|k: usize| #[trigger]
                self.send_msg_keys@.contains_key(k) implies !self.poll_msg_keys@.contains_key(k)
                && !self.commit_msg_keys@.contains_key(k)
                && !self.committed_offset_reads@.contains_key(k) by {
                assert(old(self).send_msg_keys@.contains_key(k));
                assert(k < old(node).next_msg_id());
                if self.poll_msg_keys@.contains_key(k) {
                    assert(mid.spec_poll_reads().contains_key(k));
                    assert(old(self).spec_poll_reads().contains_key(k));
                }
            }
            assert forall|k: usize| #[trigger]
                self.poll_msg_keys@.contains_key(k) implies !self.commit_msg_keys@.contains_key(
                k,
            ) && !self.committed_offset_reads@.contains_key(k) by {
                assert(mid.spec_poll_reads().contains_key(k));
                if old(self).spec_poll_reads().contains_key(k) {
                    assert(!old(self).commit_msg_keys@.contains_key(k));
                    assert(!old(self).committed_offset_reads@.contains_key(k));
                } else {
                    assert(old(node).next_msg_id() <= k);
                    assert(!old(self).commit_msg_keys@.contains_key(k));
                    assert(!old(self).committed_offset_reads@.contains_key(k));
                }
            }
            assert forall|k: usize| #[trigger]
                self.commit_msg_keys@.contains_key(
                    k,
                ) implies !self.committed_offset_reads@.contains_key(k) by {
                assert(old(self).spec_commit_writes().contains_key(k));
            }
            assert forall|a: usize| #[trigger]
                self.polled_messages@.contains_key(a) implies a < self.next_agg_id && forall|
                i2: int,
            |
                0 <= i2 < self.polled_messages@[a].keys@.len() ==> 1 <= (
                #[trigger] self.polled_messages@[a].keys@[i2]).from <= usize::MAX - 2 by {
                if a != agg_id {
                    assert(old(self).polled_messages@.contains_key(a));
                    assert(self.polled_messages@[a] == old(self).polled_messages@[a]);
                }
            }
            assert forall|k: usize| #[trigger]
                self.spec_poll_reads().contains_key(k) implies k < node.next_msg_id() by {
                assert(mid.spec_poll_reads().contains_key(k));
                if old(self).spec_poll_reads().contains_key(k) {
                    assert(k < old(node).next_msg_id());
                }
            }
            assert forall|k: usize| #[trigger]
                self.spec_sends().contains_key(k) implies k < node.next_msg_id() by {
                assert(old(self).spec_sends().contains_key(k));
            }
            assert forall|k: usize| #[trigger]
                self.spec_commit_writes().contains_key(k) implies k < node.next_msg_id() by {
                assert(old(self).spec_commit_writes().contains_key(k));
            }
            assert forall|k: usize| #[trigger]
                self.spec_list_reads().contains_key(k) implies k < node.next_msg_id() by {
                assert(old(self).spec_list_reads().contains_key(k));
            }
        }
        kv
    }
}


/// One poll window slot being read: the value lands in the slot its
/// offset names, and the key completes once all three slots are present.
pub open spec fn fill_slot(st: PollKeyState, offset: usize, v: u64) -> PollKeyState {
    let st1 = if offset == st.from {
        PollKeyState { got0: Some(v), ..st }
    } else if offset == st.from + 1 {
        PollKeyState { got1: Some(v), ..st }
    } else {
        PollKeyState { got2: Some(v), ..st }
    };
    PollKeyState {
        complete: st1.complete || (st1.got0 is Some && st1.got1 is Some && st1.got2 is Some),
        ..st1
    }
}

/// Whether every key of a window list is complete.
pub open spec fn poll_done(keys: Seq<PollKeyState>) -> bool {
    forall|i: int| 0 <= i < keys.len() ==> (#[trigger] keys[i]).complete
}

/// Whether every slot of a list aggregate is filled.
pub open spec fn list_done(offsets: Seq<Option<usize>>) -> bool {
    forall|i: int| 0 <= i < offsets.len() ==> (#[trigger] offsets[i]) is Some
}

impl KafkaLog {
    /// Builds the reply to the client a request was stored for.
    fn reply(
        &self,
        node: &mut Node,
        orig_msg_src: String,
        orig_msg_id: usize,
        payload: Payload,
    ) -> (r: Message<Payload>)
        requires
            old(node).wf(),
            old(node).next_msg_id() < usize::MAX,
        ensures
            final(node).wf(),
            final(node).spec_id() == old(node).spec_id(),
            final(node).spec_node_ids() == old(node).spec_node_ids(),
            old(node).next_msg_id() <= final(node).next_msg_id(),
            final(node).next_msg_id() == old(node).next_msg_id() + 1,
            r.src@ == old(node).spec_id(),
            r.dst@ == orig_msg_src@,
            r.body.id == Some(old(node).next_msg_id()),
            r.body.in_reply_to == Some(orig_msg_id),
            r.body.payload == payload,
    {
        let fake = Message {
            src: orig_msg_src,
            dst: String::new(),
            body: Body { id: Some(orig_msg_id), in_reply_to: None, payload: Payload::WriteOk },
        };
        node.reply(&fake, payload)
    }
}


impl KafkaLog {
    /// What processing a `read_ok{value}` answering request `irt` does.
    ///
    /// A `send` whose offset read is answered moves to the
    /// compare-and-swap of `value + 1`.  A poll entry read fills its slot
    /// of its window; the aggregate answers the client and retires once
    /// every window is complete.  A committed-offset read fills its
    /// answer slot; the aggregate answers once every slot is filled.  A
    /// reply answering nothing outstanding is refused.
    pub open spec fn read_ok_processed(
        pre: KafkaLog,
        post: KafkaLog,
        node_pre: Node,
        irt: usize,
        value: usize,
        replies: Seq<Message<Payload>>,
        kv: Seq<Message<KvStorePayload>>,
        ok: bool,
    ) -> bool {
        if pre.spec_sends().contains_key(irt) {
            match pre.spec_sends()[irt] {
                SendState::OffsetRead { entry, offset_key } => {
                    &&& ok
                    &&& replies.len() == 0
                    &&& kv.len() == 1
                    &&& kv[0].dst@ == "lin-kv"@
                    &&& kv[0].src@ == node_pre.spec_id()
                    &&& kv[0].body.id == Some(node_pre.next_msg_id())
                    &&& kv[0].body.payload matches KvStorePayload::Cas {
                        key,
                        from,
                        to,
                        create_if_not_exists,
                    } && key@ == offset_key@ && from == value && to == value + 1
                        && !create_if_not_exists
                    &&& post.spec_sends().contains_key(node_pre.next_msg_id())
                    &&& post.spec_sends() == pre.spec_sends().remove(irt).insert(
                        node_pre.next_msg_id(),
                        post.spec_sends()[node_pre.next_msg_id()],
                    )
                    &&& post.spec_sends()[node_pre.next_msg_id()] matches SendState::OffsetCas {
                        entry: e2,
                        offset_key: k2,
                        proposed,
                    } && e2 == entry && k2@ == offset_key@ && proposed == value + 1
                    &&& post.spec_poll_reads() == pre.spec_poll_reads()
                    &&& post.spec_polls() == pre.spec_polls()
                    &&& post.spec_commit_writes() == pre.spec_commit_writes()
                    &&& post.spec_commits() == pre.spec_commits()
                    &&& post.spec_list_reads() == pre.spec_list_reads()
                    &&& post.spec_lists() == pre.spec_lists()
                    &&& post.spec_next_agg() == pre.spec_next_agg()
                },
                _ => !ok && KafkaLog::unchanged(pre, post),
            }
        } else if pre.spec_poll_reads().contains_key(irt) {
            let e = pre.spec_poll_reads()[irt];
            &&& ok
            &&& kv.len() == 0
            &&& post.spec_poll_reads() == pre.spec_poll_reads().remove(irt)
            &&& post.spec_sends() == pre.spec_sends()
            &&& post.spec_commit_writes() == pre.spec_commit_writes()
            &&& post.spec_commits() == pre.spec_commits()
            &&& post.spec_list_reads() == pre.spec_list_reads()
            &&& post.spec_lists() == pre.spec_lists()
            &&& post.spec_next_agg() == pre.spec_next_agg()
            &&& if !pre.spec_polls().contains_key(e.agg_id) {
                replies.len() == 0 && post.spec_polls() == pre.spec_polls()
            } else {
                let agg = pre.spec_polls()[e.agg_id];
                if 0 <= e.key_idx < agg.keys@.len() && agg.keys@[e.key_idx as int].from
                    <= e.offset <= agg.keys@[e.key_idx as int].from + 2 {
                    let updated = agg.keys@.update(
                        e.key_idx as int,
                        fill_slot(agg.keys@[e.key_idx as int], e.offset, value as u64),
                    );
                    if poll_done(updated) {
                        &&& post.spec_polls() == pre.spec_polls().remove(e.agg_id)
                        &&& replies.len() == 1
                        &&& replies[0].src@ == node_pre.spec_id()
                        &&& replies[0].body.id == Some(node_pre.next_msg_id())
                        &&& replies[0].dst@ == agg.orig_msg_src@
                        &&& replies[0].body.in_reply_to == Some(agg.orig_msg_id)
                        &&& replies[0].body.payload matches Payload::PollOk { msgs } && msgs@.len()
                            == updated.len() && forall|i: int|
                            0 <= i < updated.len() ==> (#[trigger] msgs@[i]).0@
                                == updated[i].key@ && msgs@[i].1@ == slots_of(updated[i])
                    } else {
                        &&& replies.len() == 0
                        &&& post.spec_polls().contains_key(e.agg_id)
                        &&& post.spec_polls() == pre.spec_polls().insert(
                            e.agg_id,
                            post.spec_polls()[e.agg_id],
                        )
                        &&& post.spec_polls()[e.agg_id].keys@ == updated
                        &&& post.spec_polls()[e.agg_id].orig_msg_id == agg.orig_msg_id
                        &&& post.spec_polls()[e.agg_id].orig_msg_src@ == agg.orig_msg_src@
                    }
                } else {
                    replies.len() == 0 && post.spec_polls() == pre.spec_polls()
                }
            }
        } else if pre.spec_list_reads().contains_key(irt) {
            let e = pre.spec_list_reads()[irt];
            &&& ok
            &&& kv.len() == 0
            &&& post.spec_list_reads() == pre.spec_list_reads().remove(irt)
            &&& post.spec_sends() == pre.spec_sends()
            &&& post.spec_poll_reads() == pre.spec_poll_reads()
            &&& post.spec_polls() == pre.spec_polls()
            &&& post.spec_commit_writes() == pre.spec_commit_writes()
            &&& post.spec_commits() == pre.spec_commits()
            &&& post.spec_next_agg() == pre.spec_next_agg()
            &&& if !pre.spec_lists().contains_key(e.agg_id) {
                replies.len() == 0 && post.spec_lists() == pre.spec_lists()
            } else {
                let agg = pre.spec_lists()[e.agg_id];
                if 0 <= e.key_idx < agg.offsets@.len() {
                    let updated = agg.offsets@.update(e.key_idx as int, Some(value));
                    if list_done(updated) {
                        &&& post.spec_lists() == pre.spec_lists().remove(e.agg_id)
                        &&& replies.len() == 1
                        &&& replies[0].src@ == node_pre.spec_id()
                        &&& replies[0].body.id == Some(node_pre.next_msg_id())
                        &&& replies[0].dst@ == agg.orig_msg_src@
                        &&& replies[0].body.in_reply_to == Some(agg.orig_msg_id)
                        &&& replies[0].body.payload matches Payload::ListCommittedOffsetsOk {
                            offsets,
                        } && offsets@.map_values(|p: (String, usize)| (p.0@, p.1))
                            == listed_offsets(agg.keys@, updated)
                    } else {
                        &&& replies.len() == 0
                        &&& post.spec_lists().contains_key(e.agg_id)
                        &&& post.spec_lists() == pre.spec_lists().insert(
                            e.agg_id,
                            post.spec_lists()[e.agg_id],
                        )
                        &&& post.spec_lists()[e.agg_id].offsets@ == updated
                        &&& post.spec_lists()[e.agg_id].keys@ == agg.keys@
                        &&& post.spec_lists()[e.agg_id].orig_msg_id == agg.orig_msg_id
                        &&& post.spec_lists()[e.agg_id].orig_msg_src@ == agg.orig_msg_src@
                    }
                } else {
                    replies.len() == 0 && post.spec_lists() == pre.spec_lists()
                }
            }
        } else {
            !ok && KafkaLog::unchanged(pre, post)
        }
    }
}


/// A handler state whose tables only shrank stays bounded, and a bound
/// only grows with the message-id counter.
proof fn lemma_bounded_preserved(pre: KafkaLog, post: KafkaLog, b1: usize, b2: usize)
    requires
        pre.bounded(b1),
        b1 <= b2,
        forall|k: usize|
            #[trigger] post.spec_sends().contains_key(k) ==> pre.spec_sends().contains_key(k),
        forall|k: usize|
            #[trigger] post.spec_poll_reads().contains_key(k)
                ==> pre.spec_poll_reads().contains_key(k),
        forall|k: usize|
            #[trigger] post.spec_commit_writes().contains_key(k)
                ==> pre.spec_commit_writes().contains_key(k),
        forall|k: usize|
            #[trigger] post.spec_list_reads().contains_key(k)
                ==> pre.spec_list_reads().contains_key(k),
    ensures
        post.bounded(b2),
{
}

impl KafkaLog {
    /// Processes a `read_ok{value}` answering request `irt`.
    fn process_read_ok(&mut self, node: &mut Node, irt: usize, value: usize) -> (r: Result<
        (Vec<Message<Payload>>, Vec<Message<KvStorePayload>>),
        HandlerError,
    >)
        requires
            old(self).wf(),
            old(node).wf(),
            old(self).bounded(old(node).next_msg_id()),
            old(node).next_msg_id() < usize::MAX,
            ({
                &&& old(self).spec_sends().contains_key(irt)
                &&& old(self).spec_sends()[irt] matches SendState::OffsetRead { .. }
            }) ==> value < usize::MAX,
        ensures
            final(node).wf(),
            final(node).spec_id() == old(node).spec_id(),
            final(node).spec_node_ids() == old(node).spec_node_ids(),
            old(node).next_msg_id() <= final(node).next_msg_id(),
            r matches Ok(out) ==> final(node).next_msg_id() == old(node).next_msg_id()
                + out.0@.len() + out.1@.len(),
            r is Err ==> final(node).next_msg_id() == old(node).next_msg_id(),
            final(self).wf(),
            final(self).bounded(final(node).next_msg_id()),
            r matches Ok(out) ==> KafkaLog::read_ok_processed(
                *old(self),
                *final(self),
                *old(node),
                irt,
                value,
                out.0@,
                out.1@,
                true,
            ),
            r is Err ==> KafkaLog::read_ok_processed(
                *old(self),
                *final(self),
                *old(node),
                irt,
                value,
                Seq::empty(),
                Seq::empty(),
                false,
            ),
    {
        if self.send_msg_keys.contains_key(&irt) {
            match self.send_msg_keys.remove(&irt) {
                Some(SendState::OffsetRead { entry, offset_key }) => {
                    let (cas, cas_id) = node.send_to(
                        lin_kv_service_id(),
                        KvStorePayload::Cas {
                            key: offset_key.clone(),
                            from: value,
                            to: value + 1,
                            create_if_not_exists: false,
                        },
                    );
                    let ghost mid = *self;
                    self.send_msg_keys.insert(
                        cas_id,
                        SendState::OffsetCas { entry, offset_key, proposed: value + 1 },
                    );
                    proof {
                        assert(mid.spec_sends() == old(self).spec_sends().remove(irt));
                        assert(self.spec_sends() =~= old(self).spec_sends().remove(irt).insert(
                            cas_id,
                            self.spec_sends()[cas_id],
                        ));
                        assert forall|k: usize| #[trigger]
                            self.send_msg_keys@.contains_key(
                                k,
                            ) implies !self.poll_msg_keys@.contains_key(k)
                            && !self.commit_msg_keys@.contains_key(k)
                            && !self.committed_offset_reads@.contains_key(k) by {
                            if k != cas_id {
                                assert(old(self).send_msg_keys@.contains_key(k));
                            } else {
                                assert(k == cas_id);
                                if self.poll_msg_keys@.contains_key(k) {
                                    assert(old(self).spec_poll_reads().contains_key(k));
                                }
                                if self.commit_msg_keys@.contains_key(k) {
                                    assert(old(self).spec_commit_writes().contains_key(k));
                                }
                                if self.committed_offset_reads@.contains_key(k) {
                                    assert(old(self).spec_list_reads().contains_key(k));
                                }
                            }
                        }
                        assert forall|k: usize| #[trigger]
                            self.send_msg_keys@.contains_key(k) implies match self.send_msg_keys@[
                            k] {
                            SendState::OffsetRead { entry, .. } => entry.msg <= usize::MAX as u64,
                            SendState::OffsetCas { entry, proposed, .. } => proposed >= 1
                                && entry.msg <= usize::MAX as u64,
                            SendState::EntryWrite { entry } => entry.offset >= 1,
                        } by {
                            if k != cas_id {
                                assert(old(self).send_msg_keys@.contains_key(k));
                                assert(self.send_msg_keys@[k] == old(self).send_msg_keys@[k]);
                            }
                        }
                        assert forall|k: usize| #[trigger]
                            self.spec_sends().contains_key(k) implies k < node.next_msg_id() by {
                            if k != cas_id {
                                assert(old(self).spec_sends().contains_key(k));
                            }
                        }
                        assert forall|k: usize| #[trigger]
                            self.spec_poll_reads().contains_key(k) implies k
                            < node.next_msg_id() by {
                            assert(old(self).spec_poll_reads().contains_key(k));
                        }
                        assert forall|k: usize| #[trigger]
                            self.spec_commit_writes().contains_key(k) implies k
                            < node.next_msg_id() by {
                            assert(old(self).spec_commit_writes().contains_key(k));
                        }
                        assert forall|k: usize| #[trigger]
                            self.spec_list_reads().contains_key(k) implies k
                            < node.next_msg_id() by {
                            assert(old(self).spec_list_reads().contains_key(k));
                        }
                    }
                    Ok((Vec::new(), vec![cas]))
                },
                Some(other) => {
                    self.send_msg_keys.insert(irt, other);
                    proof {
                        assert(self.spec_sends() =~= old(self).spec_sends());
                        lemma_bounded_preserved(
                            *old(self),
                            *self,
                            old(node).next_msg_id(),
                            node.next_msg_id(),
                        );
                    }
                    Err(HandlerError::UnexpectedMessage)
                },
                None => {
                    proof {
                        assert(false);
                    }
                    Err(HandlerError::MissingCorrelation)
                },
            }
        } else if self.poll_msg_keys.contains_key(&irt) {
            let e = match self.poll_msg_keys.remove(&irt) {
                Some(e) => e,
                None => {
                    proof {
                        assert(false);
                    }
                    return Err(HandlerError::MissingCorrelation);
                },
            };
            match self.polled_messages.remove(&e.agg_id) {
                None => {
                    proof {
                        assert(self.spec_polls() =~= old(self).spec_polls());
                        lemma_bounded_preserved(
                            *old(self),
                            *self,
                            old(node).next_msg_id(),
                            node.next_msg_id(),
                        );
                    }
                    Ok((Vec::new(), Vec::new()))
                },
                Some(mut agg) => {
                    proof {
                        assert(old(self).polled_messages@.contains_key(e.agg_id));
                    }
                    let valid = e.key_idx < agg.keys.len() && agg.keys[e.key_idx].from <= e.offset
                        && e.offset <= agg.keys[e.key_idx].from + 2;
                    if valid {
                        let key_copy = agg.keys[e.key_idx].key.clone();
                        let from = agg.keys[e.key_idx].from;
                        let g0 = if e.offset == from {
                            Some(value as u64)
                        } else {
                            agg.keys[e.key_idx].got0
                        };
                        let g1 = if e.offset == from + 1 {
                            Some(value as u64)
                        } else {
                            agg.keys[e.key_idx].got1
                        };
                        let g2 = if e.offset == from + 2 {
                            Some(value as u64)
                        } else {
                            agg.keys[e.key_idx].got2
                        };
                        let comp = agg.keys[e.key_idx].complete || (g0.is_some() && g1.is_some()
                            && g2.is_some());
                        let new_st = PollKeyState {
                            key: key_copy,
                            from,
                            got0: g0,
                            got1: g1,
                            got2: g2,
                            complete: comp,
                        };
                        proof {
                            assert(new_st == fill_slot(
                                old(self).spec_polls()[e.agg_id].keys@[e.key_idx as int],
                                e.offset,
                                value as u64,
                            ));
                        }
                        agg.keys[e.key_idx] = new_st;
                        proof {
                            assert(agg.keys@ =~= old(self).spec_polls()[e.agg_id].keys@.update(
                                e.key_idx as int,
                                fill_slot(
                                    old(self).spec_polls()[e.agg_id].keys@[e.key_idx as int],
                                    e.offset,
                                    value as u64,
                                ),
                            ));
                        }
                        if agg.all_completed() {
                            proof {
                                assert forall|i: int|
                                    0 <= i < agg.keys@.len() implies (#[trigger] agg.keys@[
                                i]).from <= usize::MAX - 2 by {
                                    assert(old(self).polled_messages@[e.agg_id].keys@[i].from
                                        <= usize::MAX - 2);
                                }
                            }
                            let msgs = poll_reply_msgs(&agg);
                            let rep = self.reply(
                                node,
                                agg.orig_msg_src,
                                agg.orig_msg_id,
                                Payload::PollOk { msgs },
                            );
                            proof {
                                assert(self.spec_polls() == old(self).spec_polls().remove(
                                    e.agg_id,
                                ));
                                lemma_bounded_preserved(
                                    *old(self),
                                    *self,
                                    old(node).next_msg_id(),
                                    node.next_msg_id(),
                                );
                            }
                            Ok((vec![rep], Vec::new()))
                        } else {
                            self.polled_messages.insert(e.agg_id, agg);
                            proof {
                                assert(self.spec_polls() =~= old(self).spec_polls().insert(
                                    e.agg_id,
                                    self.spec_polls()[e.agg_id],
                                ));
                                assert forall|a: usize| #[trigger]
                                    self.polled_messages@.contains_key(a) implies a
                                    < self.next_agg_id && forall|i2: int|
                                    0 <= i2 < self.polled_messages@[a].keys@.len() ==> 1 <= (
                                    #[trigger] self.polled_messages@[a].keys@[i2]).from
                                        <= usize::MAX - 2 by {
                                    if a != e.agg_id {
                                        assert(old(self).polled_messages@.contains_key(a));
                                        assert(self.polled_messages@[a] == old(
                                            self,
                                        ).polled_messages@[a]);
                                    } else {
                                        assert forall|i2: int|
                                            0 <= i2 < self.polled_messages@[a].keys@.len()
                                                implies 1 <= (
                                            #[trigger] self.polled_messages@[a].keys@[i2]).from
                                                <= usize::MAX - 2 by {
                                            assert(old(self).polled_messages@[
                                                e.agg_id].keys@[i2].from <= usize::MAX - 2);
                                            assert(1 <= old(self).polled_messages@[
                                                e.agg_id].keys@[i2].from);
                                        }
                                    }
                                }
                                lemma_bounded_preserved(
                                    *old(self),
                                    *self,
                                    old(node).next_msg_id(),
                                    node.next_msg_id(),
                                );
                            }
                            Ok((Vec::new(), Vec::new()))
                        }
                    } else {
                        self.polled_messages.insert(e.agg_id, agg);
                        proof {
                            assert(self.spec_polls() =~= old(self).spec_polls());
                            lemma_bounded_preserved(
                                *old(self),
                                *self,
                                old(node).next_msg_id(),
                                node.next_msg_id(),
                            );
                        }
                        Ok((Vec::new(), Vec::new()))
                    }
                },
            }
        } else if self.committed_offset_reads.contains_key(&irt) {
            let e = match self.committed_offset_reads.remove(&irt) {
                Some(e) => e,
                None => {
                    proof {
                        assert(false);
                    }
                    return Err(HandlerError::MissingCorrelation);
                },
            };
            match self.list_committed_offsets.remove(&e.agg_id) {
                None => {
                    proof {
                        assert(self.spec_lists() =~= old(self).spec_lists());
                        lemma_bounded_preserved(
                            *old(self),
                            *self,
                            old(node).next_msg_id(),
                            node.next_msg_id(),
                        );
                    }
                    Ok((Vec::new(), Vec::new()))
                },
                Some(mut agg) => {
                    proof {
                        assert(old(self).list_committed_offsets@.contains_key(e.agg_id));
                    }
                    if e.key_idx < agg.offsets.len() {
                        agg.offsets[e.key_idx] = Some(value);
                        proof {
                            assert(agg.offsets@ =~= old(self).spec_lists()[
                                e.agg_id].offsets@.update(e.key_idx as int, Some(value)));
                        }
                        if agg.all_completed() {
                            let listing = committed_reply_offsets(&agg);
                            let rep = self.reply(
                                node,
                                agg.orig_msg_src,
                                agg.orig_msg_id,
                                Payload::ListCommittedOffsetsOk { offsets: listing },
                            );
                            proof {
                                assert(self.spec_lists() == old(self).spec_lists().remove(
                                    e.agg_id,
                                ));
                                lemma_bounded_preserved(
                                    *old(self),
                                    *self,
                                    old(node).next_msg_id(),
                                    node.next_msg_id(),
                                );
                            }
                            Ok((vec![rep], Vec::new()))
                        } else {
                            self.list_committed_offsets.insert(e.agg_id, agg);
                            proof {
                                assert(self.spec_lists() =~= old(self).spec_lists().insert(
                                    e.agg_id,
                                    self.spec_lists()[e.agg_id],
                                ));
                                assert forall|a: usize| #[trigger]
                                    self.list_committed_offsets@.contains_key(a) implies a
                                    < self.next_agg_id && self.list_committed_offsets@[
                                    a].keys@.len() == self.list_committed_offsets@[
                                    a].offsets@.len() by {
                                    if a != e.agg_id {
                                        assert(old(self).list_committed_offsets@.contains_key(a));
                                        assert(self.list_committed_offsets@[a] == old(
                                            self,
                                        ).list_committed_offsets@[a]);
                                    }
                                }
                                lemma_bounded_preserved(
                                    *old(self),
                                    *self,
                                    old(node).next_msg_id(),
                                    node.next_msg_id(),
                                );
                            }
                            Ok((Vec::new(), Vec::new()))
                        }
                    } else {
                        self.list_committed_offsets.insert(e.agg_id, agg);
                        proof {
                            assert(self.spec_lists() =~= old(self).spec_lists());
                            lemma_bounded_preserved(
                                *old(self),
                                *self,
                                old(node).next_msg_id(),
                                node.next_msg_id(),
                            );
                        }
                        Ok((Vec::new(), Vec::new()))
                    }
                },
            }
        } else {
            proof {
                lemma_bounded_preserved(
                    *old(self),
                    *self,
                    old(node).next_msg_id(),
                    node.next_msg_id(),
                );
            }
            Err(HandlerError::MissingCorrelation)
        }
    }
}


impl KafkaLog {
    /// What processing a `cas_ok` answering request `irt` does: the
    /// `send` whose compare-and-swap won its offset moves to writing the
    /// entry named by its key and the allocated offset, carrying the
    /// client's message as the entry's value.
    pub open spec fn cas_ok_processed(
        pre: KafkaLog,
        post: KafkaLog,
        node_pre: Node,
        irt: usize,
        kv: Seq<Message<KvStorePayload>>,
        ok: bool,
    ) -> bool {
        if pre.spec_sends().contains_key(irt) {
            match pre.spec_sends()[irt] {
                SendState::OffsetCas { entry, offset_key, proposed } => {
                    &&& ok
                    &&& kv.len() == 1
                    &&& kv[0].dst@ == "lin-kv"@
                    &&& kv[0].src@ == node_pre.spec_id()
                    &&& kv[0].body.id == Some(node_pre.next_msg_id())
                    &&& kv[0].body.payload matches KvStorePayload::Write { key, value } && key@
                        == spec_entry_key(entry.key@, proposed as nat) && value == entry.msg
                        as usize
                    &&& post.spec_sends().contains_key(node_pre.next_msg_id())
                    &&& post.spec_sends() == pre.spec_sends().remove(irt).insert(
                        node_pre.next_msg_id(),
                        post.spec_sends()[node_pre.next_msg_id()],
                    )
                    &&& post.spec_sends()[node_pre.next_msg_id()] matches SendState::EntryWrite {
                        entry: e2,
                    } && e2.orig_msg_id == entry.orig_msg_id && e2.orig_msg_src
                        == entry.orig_msg_src && e2.key == entry.key && e2.msg == entry.msg
                        && e2.offset == proposed
                    &&& post.spec_poll_reads() == pre.spec_poll_reads()
                    &&& post.spec_polls() == pre.spec_polls()
                    &&& post.spec_commit_writes() == pre.spec_commit_writes()
                    &&& post.spec_commits() == pre.spec_commits()
                    &&& post.spec_list_reads() == pre.spec_list_reads()
                    &&& post.spec_lists() == pre.spec_lists()
                    &&& post.spec_next_agg() == pre.spec_next_agg()
                },
                _ => !ok && KafkaLog::unchanged(pre, post),
            }
        } else {
            !ok && KafkaLog::unchanged(pre, post)
        }
    }

    /// Processes a `cas_ok` answering request `irt`.
    fn process_cas_ok(&mut self, node: &mut Node, irt: usize) -> (r: Result<
        Vec<Message<KvStorePayload>>,
        HandlerError,
    >)
        requires
            old(self).wf(),
            old(node).wf(),
            old(self).bounded(old(node).next_msg_id()),
            old(node).next_msg_id() < usize::MAX,
        ensures
            final(node).wf(),
            final(node).spec_id() == old(node).spec_id(),
            final(node).spec_node_ids() == old(node).spec_node_ids(),
            old(node).next_msg_id() <= final(node).next_msg_id(),
            r matches Ok(kv) ==> final(node).next_msg_id() == old(node).next_msg_id()
                + kv@.len(),
            r is Err ==> final(node).next_msg_id() == old(node).next_msg_id(),
            final(self).wf(),
            final(self).bounded(final(node).next_msg_id()),
            r matches Ok(kv) ==> KafkaLog::cas_ok_processed(
                *old(self),
                *final(self),
                *old(node),
                irt,
                kv@,
                true,
            ),
            r is Err ==> KafkaLog::cas_ok_processed(
                *old(self),
                *final(self),
                *old(node),
                irt,
                Seq::empty(),
                false,
            ),
    {
        if self.send_msg_keys.contains_key(&irt) {
            match self.send_msg_keys.remove(&irt) {
                Some(SendState::OffsetCas { entry, offset_key, proposed }) => {
                    let ekey = self.logged_msg_key(entry.key.as_str(), proposed);
                    let (w, write_id) = node.send_to(
                        lin_kv_service_id(),
                        KvStorePayload::Write { key: ekey, value: entry.msg as usize },
                    );
                    let new_entry = SendEntry {
                        orig_msg_id: entry.orig_msg_id,
                        orig_msg_src: entry.orig_msg_src,
                        key: entry.key,
                        offset: proposed,
                        msg: entry.msg,
                    };
                    self.send_msg_keys.insert(write_id, SendState::EntryWrite { entry: new_entry });
                    proof {
                        assert(self.spec_sends() =~= old(self).spec_sends().remove(irt).insert(
                            write_id,
                            self.spec_sends()[write_id],
                        ));
                        assert forall|k: usize| #[trigger]
                            self.send_msg_keys@.contains_key(
                                k,
                            ) implies !self.poll_msg_keys@.contains_key(k)
                            && !self.commit_msg_keys@.contains_key(k)
                            && !self.committed_offset_reads@.contains_key(k) by {
                            if k != write_id {
                                assert(old(self).send_msg_keys@.contains_key(k));
                            } else {
                                if self.poll_msg_keys@.contains_key(k) {
                                    assert(old(self).spec_poll_reads().contains_key(k));
                                }
                                if self.commit_msg_keys@.contains_key(k) {
                                    assert(old(self).spec_commit_writes().contains_key(k));
                                }
                                if self.committed_offset_reads@.contains_key(k) {
                                    assert(old(self).spec_list_reads().contains_key(k));
                                }
                            }
                        }
                        assert forall|k: usize| #[trigger]
                            self.send_msg_keys@.contains_key(k) implies match self.send_msg_keys@[
                            k] {
                            SendState::OffsetRead { entry, .. } => entry.msg <= usize::MAX as u64,
                            SendState::OffsetCas { entry, proposed, .. } => proposed >= 1
                                && entry.msg <= usize::MAX as u64,
                            SendState::EntryWrite { entry } => entry.offset >= 1,
                        } by {
                            if k != write_id {
                                assert(old(self).send_msg_keys@.contains_key(k));
                                assert(self.send_msg_keys@[k] == old(self).send_msg_keys@[k]);
                            } else {
                                assert(old(self).send_msg_keys@[irt] matches SendState::OffsetCas {
                                    proposed: p2, .. } && p2 >= 1);
                            }
                        }
                        assert forall|k: usize| #[trigger]
                            self.spec_sends().contains_key(k) implies k < node.next_msg_id() by {
                            if k != write_id {
                                assert(old(self).spec_sends().contains_key(k));
                            }
                        }
                        assert forall|k: usize| #[trigger]
                            self.spec_poll_reads().contains_key(k) implies k
                            < node.next_msg_id() by {
                            assert(old(self).spec_poll_reads().contains_key(k));
                        }
                        assert forall|k: usize| #[trigger]
                            self.spec_commit_writes().contains_key(k) implies k
                            < node.next_msg_id() by {
                            assert(old(self).spec_commit_writes().contains_key(k));
                        }
                        assert forall|k: usize| #[trigger]
                            self.spec_list_reads().contains_key(k) implies k
                            < node.next_msg_id() by {
                            assert(old(self).spec_list_reads().contains_key(k));
                        }
                    }
                    Ok(vec![w])
                },
                Some(other) => {
                    self.send_msg_keys.insert(irt, other);
                    proof {
                        assert(self.spec_sends() =~= old(self).spec_sends());
                        lemma_bounded_preserved(
                            *old(self),
                            *self,
                            old(node).next_msg_id(),
                            node.next_msg_id(),
                        );
                    }
                    Err(HandlerError::UnexpectedMessage)
                },
                None => {
                    proof {
                        assert(false);
                    }
                    Err(HandlerError::MissingCorrelation)
                },
            }
        } else {
            Err(HandlerError::MissingCorrelation)
        }
    }

    /// What processing a `write_ok` answering request `irt` does.  The
    /// `send` whose entry write is acknowledged answers its client
    /// `send_ok` with the allocated offset, which is positive.  A
    /// committed-offset write counts towards its aggregate, which answers
    /// `commit_offsets_ok` once every write is acknowledged.
    pub open spec fn write_ok_processed(
        pre: KafkaLog,
        post: KafkaLog,
        node_pre: Node,
        irt: usize,
        replies: Seq<Message<Payload>>,
        ok: bool,
    ) -> bool {
        if pre.spec_sends().contains_key(irt) {
            match pre.spec_sends()[irt] {
                SendState::EntryWrite { entry } => {
                    &&& ok
                    &&& post.spec_sends() == pre.spec_sends().remove(irt)
                    &&& replies.len() == 1
                    &&& replies[0].src@ == node_pre.spec_id()
                    &&& replies[0].body.id == Some(node_pre.next_msg_id())
                    &&& replies[0].dst@ == entry.orig_msg_src@
                    &&& replies[0].body.in_reply_to == Some(entry.orig_msg_id)
                    &&& replies[0].body.payload matches Payload::SendOk { offset } && offset
                        == entry.offset && offset >= 1
                    &&& post.spec_poll_reads() == pre.spec_poll_reads()
                    &&& post.spec_polls() == pre.spec_polls()
                    &&& post.spec_commit_writes() == pre.spec_commit_writes()
                    &&& post.spec_commits() == pre.spec_commits()
                    &&& post.spec_list_reads() == pre.spec_list_reads()
                    &&& post.spec_lists() == pre.spec_lists()
                    &&& post.spec_next_agg() == pre.spec_next_agg()
                },
                _ => !ok && KafkaLog::unchanged(pre, post),
            }
        } else if pre.spec_commit_writes().contains_key(irt) {
            let a = pre.spec_commit_writes()[irt];
            &&& ok
            &&& post.spec_commit_writes() == pre.spec_commit_writes().remove(irt)
            &&& post.spec_sends() == pre.spec_sends()
            &&& post.spec_poll_reads() == pre.spec_poll_reads()
            &&& post.spec_polls() == pre.spec_polls()
            &&& post.spec_list_reads() == pre.spec_list_reads()
            &&& post.spec_lists() == pre.spec_lists()
            &&& post.spec_next_agg() == pre.spec_next_agg()
            &&& if !pre.spec_commits().contains_key(a) {
                replies.len() == 0 && post.spec_commits() == pre.spec_commits()
            } else {
                let c = pre.spec_commits()[a];
                if c.written_count + 1 == c.requested_keys_count {
                    &&& post.spec_commits() == pre.spec_commits().remove(a)
                    &&& replies.len() == 1
                    &&& replies[0].src@ == node_pre.spec_id()
                    &&& replies[0].body.id == Some(node_pre.next_msg_id())
                    &&& replies[0].dst@ == c.orig_msg_src@
                    &&& replies[0].body.in_reply_to == Some(c.orig_msg_id)
                    &&& replies[0].body.payload matches Payload::CommitOffsetsOk
                } else {
                    &&& replies.len() == 0
                    &&& post.spec_commits().contains_key(a)
                    &&& post.spec_commits() == pre.spec_commits().insert(
                        a,
                        post.spec_commits()[a],
                    )
                    &&& post.spec_commits()[a].written_count == c.written_count + 1
                    &&& post.spec_commits()[a].requested_keys_count == c.requested_keys_count
                    &&& post.spec_commits()[a].orig_msg_id == c.orig_msg_id
                    &&& post.spec_commits()[a].orig_msg_src == c.orig_msg_src
                }
            }
        } else {
            !ok && KafkaLog::unchanged(pre, post)
        }
    }

    /// Processes a `write_ok` answering request `irt`.
    fn process_write_ok(&mut self, node: &mut Node, irt: usize) -> (r: Result<
        Vec<Message<Payload>>,
        HandlerError,
    >)
        requires
            old(self).wf(),
            old(node).wf(),
            old(self).bounded(old(node).next_msg_id()),
            old(node).next_msg_id() < usize::MAX,
        ensures
            final(node).wf(),
            final(node).spec_id() == old(node).spec_id(),
            final(node).spec_node_ids() == old(node).spec_node_ids(),
            old(node).next_msg_id() <= final(node).next_msg_id(),
            r matches Ok(replies) ==> final(node).next_msg_id() == old(node).next_msg_id()
                + replies@.len(),
            r is Err ==> final(node).next_msg_id() == old(node).next_msg_id(),
            final(self).wf(),
            final(self).bounded(final(node).next_msg_id()),
            r matches Ok(replies) ==> KafkaLog::write_ok_processed(
                *old(self),
                *final(self),
                *old(node),
                irt,
                replies@,
                true,
            ),
            r is Err ==> KafkaLog::write_ok_processed(
                *old(self),
                *final(self),
                *old(node),
                irt,
                Seq::empty(),
                false,
            ),
    {
        if self.send_msg_keys.contains_key(&irt) {
            match self.send_msg_keys.remove(&irt) {
                Some(SendState::EntryWrite { entry }) => {
                    proof {
                        assert(old(self).send_msg_keys@[irt] matches SendState::EntryWrite {
                            entry: e2 } && e2.offset >= 1);
                    }
                    let rep = self.reply(
                        node,
                        entry.orig_msg_src,
                        entry.orig_msg_id,
                        Payload::SendOk { offset: entry.offset },
                    );
                    proof {
                        lemma_bounded_preserved(
                            *old(self),
                            *self,
                            old(node).next_msg_id(),
                            node.next_msg_id(),
                        );
                    }
                    Ok(vec![rep])
                },
                Some(other) => {
                    self.send_msg_keys.insert(irt, other);
                    proof {
                        assert(self.spec_sends() =~= old(self).spec_sends());
                        lemma_bounded_preserved(
                            *old(self),
                            *self,
                            old(node).next_msg_id(),
                            node.next_msg_id(),
                        );
                    }
                    Err(HandlerError::UnexpectedMessage)
                },
                None => {
                    proof {
                        assert(false);
                    }
                    Err(HandlerError::MissingCorrelation)
                },
            }
        } else if self.commit_msg_keys.contains_key(&irt) {
            let a = match self.commit_msg_keys.remove(&irt) {
                Some(a) => a,
                None => {
                    proof {
                        assert(false);
                    }
                    return Err(HandlerError::MissingCorrelation);
                },
            };
            match self.committed_offsets_written.remove(&a) {
                None => {
                    proof {
                        assert(self.spec_commits() =~= old(self).spec_commits());
                        lemma_bounded_preserved(
                            *old(self),
                            *self,
                            old(node).next_msg_id(),
                            node.next_msg_id(),
                        );
                    }
                    Ok(Vec::new())
                },
                Some(c) => {
                    proof {
                        assert(old(self).committed_offsets_written@.contains_key(a));
                    }
                    if c.written_count + 1 == c.requested_keys_count {
                        let rep = self.reply(
                            node,
                            c.orig_msg_src,
                            c.orig_msg_id,
                            Payload::CommitOffsetsOk,
                        );
                        proof {
                            assert(self.spec_commits() == old(self).spec_commits().remove(a));
                            lemma_bounded_preserved(
                                *old(self),
                                *self,
                                old(node).next_msg_id(),
                                node.next_msg_id(),
                            );
                        }
                        Ok(vec![rep])
                    } else {
                        let updated = CommitOffsetEntry {
                            orig_msg_id: c.orig_msg_id,
                            orig_msg_src: c.orig_msg_src,
                            requested_keys_count: c.requested_keys_count,
                            written_count: c.written_count + 1,
                        };
                        self.committed_offsets_written.insert(a, updated);
                        proof {
                            assert(self.spec_commits() =~= old(self).spec_commits().insert(
                                a,
                                self.spec_commits()[a],
                            ));
                            assert forall|a2: usize| #[trigger]
                                self.committed_offsets_written@.contains_key(a2) implies a2
                                < self.next_agg_id && self.committed_offsets_written@[
                                a2].written_count < self.committed_offsets_written@[
                                a2].requested_keys_count by {
                                if a2 != a {
                                    assert(old(self).committed_offsets_written@.contains_key(a2));
                                    assert(self.committed_offsets_written@[a2] == old(
                                        self,
                                    ).committed_offsets_written@[a2]);
                                }
                            }
                            lemma_bounded_preserved(
                                *old(self),
                                *self,
                                old(node).next_msg_id(),
                                node.next_msg_id(),
                            );
                        }
                        Ok(Vec::new())
                    }
                },
            }
        } else {
            Err(HandlerError::MissingCorrelation)
        }
    }
}


impl KafkaLog {
    /// What processing an `error{code}` answering request `irt` does.
    ///
    /// A missing key met by a `send`'s offset read creates the offset key
    /// at one; met by a poll entry read it ends that key's window; met by
    /// a committed-offset read it answers the client at once with
    /// whatever has been seen.  A failed compare-and-swap of a `send`
    /// restarts it from a fresh read of the offset key.  Any other code
    /// drops whatever correlation it answers; an expected code answering
    /// nothing outstanding is ignored.
    pub open spec fn kv_error_processed(
        pre: KafkaLog,
        post: KafkaLog,
        node_pre: Node,
        irt: usize,
        code: u16,
        replies: Seq<Message<Payload>>,
        kv: Seq<Message<KvStorePayload>>,
        ok: bool,
    ) -> bool {
        if code == ERROR_KEY_DOES_NOT_EXIST {
            if pre.spec_sends().contains_key(irt) {
                match pre.spec_sends()[irt] {
                    SendState::OffsetRead { entry, offset_key } => {
                        &&& ok
                        &&& replies.len() == 0
                        &&& kv.len() == 1
                        &&& kv[0].dst@ == "lin-kv"@
                        &&& kv[0].src@ == node_pre.spec_id()
                        &&& kv[0].body.id == Some(node_pre.next_msg_id())
                        &&& kv[0].body.payload matches KvStorePayload::Cas {
                            key,
                            from,
                            to,
                            create_if_not_exists,
                        } && key@ == offset_key@ && from == 0 && to == 1 && create_if_not_exists
                        &&& post.spec_sends().contains_key(node_pre.next_msg_id())
                        &&& post.spec_sends() == pre.spec_sends().remove(irt).insert(
                            node_pre.next_msg_id(),
                            post.spec_sends()[node_pre.next_msg_id()],
                        )
                        &&& post.spec_sends()[node_pre.next_msg_id()]
                            matches SendState::OffsetCas { entry: e2, offset_key: k2, proposed }
                            && e2 == entry && k2@ == offset_key@ && proposed == 1
                        &&& post.spec_poll_reads() == pre.spec_poll_reads()
                        &&& post.spec_polls() == pre.spec_polls()
                        &&& post.spec_commit_writes() == pre.spec_commit_writes()
                        &&& post.spec_commits() == pre.spec_commits()
                        &&& post.spec_list_reads() == pre.spec_list_reads()
                        &&& post.spec_lists() == pre.spec_lists()
                        &&& post.spec_next_agg() == pre.spec_next_agg()
                    },
                    _ => !ok && KafkaLog::unchanged(pre, post),
                }
            } else if pre.spec_poll_reads().contains_key(irt) {
                let e = pre.spec_poll_reads()[irt];
                &&& ok
                &&& kv.len() == 0
                &&& post.spec_poll_reads() == pre.spec_poll_reads().remove(irt)
                &&& post.spec_sends() == pre.spec_sends()
                &&& post.spec_commit_writes() == pre.spec_commit_writes()
                &&& post.spec_commits() == pre.spec_commits()
                &&& post.spec_list_reads() == pre.spec_list_reads()
                &&& post.spec_lists() == pre.spec_lists()
                &&& post.spec_next_agg() == pre.spec_next_agg()
                &&& if !pre.spec_polls().contains_key(e.agg_id) {
                    replies.len() == 0 && post.spec_polls() == pre.spec_polls()
                } else {
                    let agg = pre.spec_polls()[e.agg_id];
                    if 0 <= e.key_idx < agg.keys@.len() {
                        let updated = agg.keys@.update(
                            e.key_idx as int,
                            PollKeyState { complete: true, ..agg.keys@[e.key_idx as int] },
                        );
                        if poll_done(updated) {
                            &&& post.spec_polls() == pre.spec_polls().remove(e.agg_id)
                            &&& replies.len() == 1
                            &&& replies[0].src@ == node_pre.spec_id()
                            &&& replies[0].body.id == Some(node_pre.next_msg_id())
                            &&& replies[0].dst@ == agg.orig_msg_src@
                            &&& replies[0].body.in_reply_to == Some(agg.orig_msg_id)
                            &&& replies[0].body.payload matches Payload::PollOk { msgs }
                                && msgs@.len() == updated.len() && forall|i: int|
                                0 <= i < updated.len() ==> (#[trigger] msgs@[i]).0@
                                    == updated[i].key@ && msgs@[i].1@ == slots_of(updated[i])
                        } else {
                            &&& replies.len() == 0
                            &&& post.spec_polls().contains_key(e.agg_id)
                            &&& post.spec_polls() == pre.spec_polls().insert(
                                e.agg_id,
                                post.spec_polls()[e.agg_id],
                            )
                            &&& post.spec_polls()[e.agg_id].keys@ == updated
                            &&& post.spec_polls()[e.agg_id].orig_msg_id == agg.orig_msg_id
                            &&& post.spec_polls()[e.agg_id].orig_msg_src@ == agg.orig_msg_src@
                        }
                    } else {
                        replies.len() == 0 && post.spec_polls() == pre.spec_polls()
                    }
                }
            } else if pre.spec_list_reads().contains_key(irt) {
                let e = pre.spec_list_reads()[irt];
                &&& ok
                &&& kv.len() == 0
                &&& post.spec_list_reads() == pre.spec_list_reads().remove(irt)
                &&& post.spec_sends() == pre.spec_sends()
                &&& post.spec_poll_reads() == pre.spec_poll_reads()
                &&& post.spec_polls() == pre.spec_polls()
                &&& post.spec_commit_writes() == pre.spec_commit_writes()
                &&& post.spec_commits() == pre.spec_commits()
                &&& post.spec_next_agg() == pre.spec_next_agg()
                &&& if !pre.spec_lists().contains_key(e.agg_id) {
                    replies.len() == 0 && post.spec_lists() == pre.spec_lists()
                } else {
                    let agg = pre.spec_lists()[e.agg_id];
                    &&& post.spec_lists() == pre.spec_lists().remove(e.agg_id)
                    &&& replies.len() == 1
                    &&& replies[0].src@ == node_pre.spec_id()
                    &&& replies[0].body.id == Some(node_pre.next_msg_id())
                    &&& replies[0].dst@ == agg.orig_msg_src@
                    &&& replies[0].body.in_reply_to == Some(agg.orig_msg_id)
                    &&& replies[0].body.payload matches Payload::ListCommittedOffsetsOk {
                        offsets,
                    } && offsets@.map_values(|p: (String, usize)| (p.0@, p.1)) == listed_offsets(
                        agg.keys@,
                        agg.offsets@,
                    )
                }
            } else {
                &&& ok
                &&& replies.len() == 0
                &&& kv.len() == 0
                &&& KafkaLog::unchanged(pre, post)
            }
        } else if code == ERROR_PRECONDITION_FAILED {
            if pre.spec_sends().contains_key(irt) {
                match pre.spec_sends()[irt] {
                    SendState::OffsetCas { entry, offset_key, proposed } => {
                        &&& ok
                        &&& replies.len() == 0
                        &&& kv.len() == 1
                        &&& kv[0].dst@ == "lin-kv"@
                        &&& kv[0].src@ == node_pre.spec_id()
                        &&& kv[0].body.id == Some(node_pre.next_msg_id())
                        &&& kv[0].body.payload matches KvStorePayload::Read { key } && key@
                            == offset_key@
                        &&& post.spec_sends().contains_key(node_pre.next_msg_id())
                        &&& post.spec_sends() == pre.spec_sends().remove(irt).insert(
                            node_pre.next_msg_id(),
                            post.spec_sends()[node_pre.next_msg_id()],
                        )
                        &&& post.spec_sends()[node_pre.next_msg_id()]
                            matches SendState::OffsetRead { entry: e2, offset_key: k2 } && e2
                            == entry && k2@ == offset_key@
                        &&& post.spec_poll_reads() == pre.spec_poll_reads()
                        &&& post.spec_polls() == pre.spec_polls()
                        &&& post.spec_commit_writes() == pre.spec_commit_writes()
                        &&& post.spec_commits() == pre.spec_commits()
                        &&& post.spec_list_reads() == pre.spec_list_reads()
                        &&& post.spec_lists() == pre.spec_lists()
                        &&& post.spec_next_agg() == pre.spec_next_agg()
                    },
                    _ => !ok && KafkaLog::unchanged(pre, post),
                }
            } else {
                &&& ok
                &&& replies.len() == 0
                &&& kv.len() == 0
                &&& KafkaLog::unchanged(pre, post)
            }
        } else {
            &&& ok
            &&& replies.len() == 0
            &&& kv.len() == 0
            &&& post.spec_sends() == pre.spec_sends().remove(irt)
            &&& post.spec_poll_reads() == pre.spec_poll_reads().remove(irt)
            &&& post.spec_commit_writes() == pre.spec_commit_writes().remove(irt)
            &&& post.spec_list_reads() == pre.spec_list_reads().remove(irt)
            &&& post.spec_polls() == pre.spec_polls()
            &&& post.spec_commits() == pre.spec_commits()
            &&& post.spec_lists() == pre.spec_lists()
            &&& post.spec_next_agg() == pre.spec_next_agg()
        }
    }

    /// Processes an `error{code}` answering request `irt`.
    fn process_kv_error(&mut self, node: &mut Node, irt: usize, code: u16) -> (r: Result<
        (Vec<Message<Payload>>, Vec<Message<KvStorePayload>>),
        HandlerError,
    >)
        requires
            old(self).wf(),
            old(node).wf(),
            old(self).bounded(old(node).next_msg_id()),
            old(node).next_msg_id() < usize::MAX,
        ensures
            final(node).wf(),
            final(node).spec_id() == old(node).spec_id(),
            final(node).spec_node_ids() == old(node).spec_node_ids(),
            old(node).next_msg_id() <= final(node).next_msg_id(),
            r matches Ok(out) ==> final(node).next_msg_id() == old(node).next_msg_id()
                + out.0@.len() + out.1@.len(),
            r is Err ==> final(node).next_msg_id() == old(node).next_msg_id(),
            final(self).wf(),
            final(self).bounded(final(node).next_msg_id()),
            r matches Ok(out) ==> KafkaLog::kv_error_processed(
                *old(self),
                *final(self),
                *old(node),
                irt,
                code,
                out.0@,
                out.1@,
                true,
            ),
            r is Err ==> KafkaLog::kv_error_processed(
                *old(self),
                *final(self),
                *old(node),
                irt,
                code,
                Seq::empty(),
                Seq::empty(),
                false,
            ),
    {
        if code == ERROR_KEY_DOES_NOT_EXIST {
            if self.send_msg_keys.contains_key(&irt) {
                match self.send_msg_keys.remove(&irt) {
                    Some(SendState::OffsetRead { entry, offset_key }) => {
                        let (cas, cas_id) = node.send_to(
                            lin_kv_service_id(),
                            KvStorePayload::Cas {
                                key: offset_key.clone(),
                                from: 0,
                                to: 1,
                                create_if_not_exists: true,
                            },
                        );
                        self.send_msg_keys.insert(
                            cas_id,
                            SendState::OffsetCas { entry, offset_key, proposed: 1 },
                        );
                        proof {
                            assert(self.spec_sends() =~= old(self).spec_sends().remove(
                                irt,
                            ).insert(cas_id, self.spec_sends()[cas_id]));
                            assert forall|k: usize| #[trigger]
                                self.send_msg_keys@.contains_key(
                                    k,
                                ) implies !self.poll_msg_keys@.contains_key(k)
                                && !self.commit_msg_keys@.contains_key(k)
                                && !self.committed_offset_reads@.contains_key(k) by {
                                if k != cas_id {
                                    assert(old(self).send_msg_keys@.contains_key(k));
                                } else {
                                    if self.poll_msg_keys@.contains_key(k) {
                                        assert(old(self).spec_poll_reads().contains_key(k));
                                    }
                                    if self.commit_msg_keys@.contains_key(k) {
                                        assert(old(self).spec_commit_writes().contains_key(k));
                                    }
                                    if self.committed_offset_reads@.contains_key(k) {
                                        assert(old(self).spec_list_reads().contains_key(k));
                                    }
                                }
                            }
                            assert forall|k: usize| #[trigger]
                                self.send_msg_keys@.contains_key(k) implies match self
                                .send_msg_keys@[k] {
                                SendState::OffsetRead { entry, .. } => entry.msg <= usize::MAX
                                    as u64,
                                SendState::OffsetCas { entry, proposed, .. } => proposed >= 1
                                    && entry.msg <= usize::MAX as u64,
                                SendState::EntryWrite { entry } => entry.offset >= 1,
                            } by {
                                if k != cas_id {
                                    assert(old(self).send_msg_keys@.contains_key(k));
                                    assert(self.send_msg_keys@[k] == old(self).send_msg_keys@[k]);
                                }
                            }
                            assert forall|k: usize| #[trigger]
                                self.spec_sends().contains_key(k) implies k
                                < node.next_msg_id() by {
                                if k != cas_id {
                                    assert(old(self).spec_sends().contains_key(k));
                                }
                            }
                            assert forall|k: usize| #[trigger]
                                self.spec_poll_reads().contains_key(k) implies k
                                < node.next_msg_id() by {
                                assert(old(self).spec_poll_reads().contains_key(k));
                            }
                            assert forall|k: usize| #[trigger]
                                self.spec_commit_writes().contains_key(k) implies k
                                < node.next_msg_id() by {
                                assert(old(self).spec_commit_writes().contains_key(k));
                            }
                            assert forall|k: usize| #[trigger]
                                self.spec_list_reads().contains_key(k) implies k
                                < node.next_msg_id() by {
                                assert(old(self).spec_list_reads().contains_key(k));
                            }
                        }
                        Ok((Vec::new(), vec![cas]))
                    },
                    Some(other) => {
                        self.send_msg_keys.insert(irt, other);
                        proof {
                            assert(self.spec_sends() =~= old(self).spec_sends());
                            lemma_bounded_preserved(
                                *old(self),
                                *self,
                                old(node).next_msg_id(),
                                node.next_msg_id(),
                            );
                        }
                        Err(HandlerError::UnexpectedMessage)
                    },
                    None => {
                        proof {
                            assert(false);
                        }
                        Err(HandlerError::MissingCorrelation)
                    },
                }
            } else if self.poll_msg_keys.contains_key(&irt) {
                let e = match self.poll_msg_keys.remove(&irt) {
                    Some(e) => e,
                    None => {
                        proof {
                            assert(false);
                        }
                        return Err(HandlerError::MissingCorrelation);
                    },
                };
                match self.polled_messages.remove(&e.agg_id) {
                    None => {
                        proof {
                            assert(self.spec_polls() =~= old(self).spec_polls());
                            lemma_bounded_preserved(
                                *old(self),
                                *self,
                                old(node).next_msg_id(),
                                node.next_msg_id(),
                            );
                        }
                        Ok((Vec::new(), Vec::new()))
                    },
                    Some(mut agg) => {
                        proof {
                            assert(old(self).polled_messages@.contains_key(e.agg_id));
                        }
                        if e.key_idx < agg.keys.len() {
                            let key_copy = agg.keys[e.key_idx].key.clone();
                            let new_st = PollKeyState {
                                key: key_copy,
                                from: agg.keys[e.key_idx].from,
                                got0: agg.keys[e.key_idx].got0,
                                got1: agg.keys[e.key_idx].got1,
                                got2: agg.keys[e.key_idx].got2,
                                complete: true,
                            };
                            proof {
                                assert(new_st == (PollKeyState {
                                    complete: true,
                                    ..old(self).spec_polls()[e.agg_id].keys@[e.key_idx as int]
                                }));
                            }
                            agg.keys[e.key_idx] = new_st;
                            proof {
                                assert(agg.keys@ =~= old(self).spec_polls()[
                                    e.agg_id].keys@.update(
                                    e.key_idx as int,
                                    PollKeyState {
                                        complete: true,
                                        ..old(self).spec_polls()[e.agg_id].keys@[e.key_idx as int]
                                    },
                                ));
                            }
                            if agg.all_completed() {
                                proof {
                                    assert forall|i: int|
                                        0 <= i < agg.keys@.len() implies (#[trigger] agg.keys@[
                                    i]).from <= usize::MAX - 2 by {
                                        assert(old(self).polled_messages@[
                                            e.agg_id].keys@[i].from <= usize::MAX - 2);
                                    }
                                }
                                let msgs = poll_reply_msgs(&agg);
                                let rep = self.reply(
                                    node,
                                    agg.orig_msg_src,
                                    agg.orig_msg_id,
                                    Payload::PollOk { msgs },
                                );
                                proof {
                                    assert(self.spec_polls() == old(self).spec_polls().remove(
                                        e.agg_id,
                                    ));
                                    lemma_bounded_preserved(
                                        *old(self),
                                        *self,
                                        old(node).next_msg_id(),
                                        node.next_msg_id(),
                                    );
                                }
                                Ok((vec![rep], Vec::new()))
                            } else {
                                self.polled_messages.insert(e.agg_id, agg);
                                proof {
                                    assert(self.spec_polls() =~= old(self).spec_polls().insert(
                                        e.agg_id,
                                        self.spec_polls()[e.agg_id],
                                    ));
                                    assert forall|a: usize| #[trigger]
                                        self.polled_messages@.contains_key(a) implies a
                                        < self.next_agg_id && forall|i2: int|
                                        0 <= i2 < self.polled_messages@[a].keys@.len() ==> 1 <= (
                                        #[trigger] self.polled_messages@[a].keys@[i2]).from
                                            <= usize::MAX - 2 by {
                                        if a != e.agg_id {
                                            assert(old(self).polled_messages@.contains_key(a));
                                            assert(self.polled_messages@[a] == old(
                                                self,
                                            ).polled_messages@[a]);
                                        } else {
                                            assert forall|i2: int|
                                                0 <= i2 < self.polled_messages@[a].keys@.len()
                                                    implies 1 <= (
                                                #[trigger] self.polled_messages@[a].keys@[
                                                i2]).from <= usize::MAX - 2 by {
                                                assert(old(self).polled_messages@[
                                                    e.agg_id].keys@[i2].from <= usize::MAX - 2);
                                                assert(1 <= old(self).polled_messages@[
                                                    e.agg_id].keys@[i2].from);
                                            }
                                        }
                                    }
                                    lemma_bounded_preserved(
                                        *old(self),
                                        *self,
                                        old(node).next_msg_id(),
                                        node.next_msg_id(),
                                    );
                                }
                                Ok((Vec::new(), Vec::new()))
                            }
                        } else {
                            self.polled_messages.insert(e.agg_id, agg);
                            proof {
                                assert(self.spec_polls() =~= old(self).spec_polls());
                                lemma_bounded_preserved(
                                    *old(self),
                                    *self,
                                    old(node).next_msg_id(),
                                    node.next_msg_id(),
                                );
                            }
                            Ok((Vec::new(), Vec::new()))
                        }
                    },
                }
            } else if self.committed_offset_reads.contains_key(&irt) {
                let e = match self.committed_offset_reads.remove(&irt) {
                    Some(e) => e,
                    None => {
                        proof {
                            assert(false);
                        }
                        return Err(HandlerError::MissingCorrelation);
                    },
                };
                match self.list_committed_offsets.remove(&e.agg_id) {
                    None => {
                        proof {
                            assert(self.spec_lists() =~= old(self).spec_lists());
                            lemma_bounded_preserved(
                                *old(self),
                                *self,
                                old(node).next_msg_id(),
                                node.next_msg_id(),
                            );
                        }
                        Ok((Vec::new(), Vec::new()))
                    },
                    Some(agg) => {
                        proof {
                            assert(old(self).list_committed_offsets@.contains_key(e.agg_id));
                        }
                        let listing = committed_reply_offsets(&agg);
                        let rep = self.reply(
                            node,
                            agg.orig_msg_src,
                            agg.orig_msg_id,
                            Payload::ListCommittedOffsetsOk { offsets: listing },
                        );
                        proof {
                            assert(self.spec_lists() == old(self).spec_lists().remove(e.agg_id));
                            lemma_bounded_preserved(
                                *old(self),
                                *self,
                                old(node).next_msg_id(),
                                node.next_msg_id(),
                            );
                        }
                        Ok((vec![rep], Vec::new()))
                    },
                }
            } else {
                Ok((Vec::new(), Vec::new()))
            }
        } else if code == ERROR_PRECONDITION_FAILED {
            if self.send_msg_keys.contains_key(&irt) {
                match self.send_msg_keys.remove(&irt) {
                    Some(SendState::OffsetCas { entry, offset_key, proposed: _ }) => {
                        let (read, read_id) = node.send_to(
                            lin_kv_service_id(),
                            KvStorePayload::Read { key: offset_key.clone() },
                        );
                        self.send_msg_keys.insert(
                            read_id,
                            SendState::OffsetRead { entry, offset_key },
                        );
                        proof {
                            assert(self.spec_sends() =~= old(self).spec_sends().remove(
                                irt,
                            ).insert(read_id, self.spec_sends()[read_id]));
                            assert forall|k: usize| #[trigger]
                                self.send_msg_keys@.contains_key(
                                    k,
                                ) implies !self.poll_msg_keys@.contains_key(k)
                                && !self.commit_msg_keys@.contains_key(k)
                                && !self.committed_offset_reads@.contains_key(k) by {
                                if k != read_id {
                                    assert(old(self).send_msg_keys@.contains_key(k));
                                } else {
                                    if self.poll_msg_keys@.contains_key(k) {
                                        assert(old(self).spec_poll_reads().contains_key(k));
                                    }
                                    if self.commit_msg_keys@.contains_key(k) {
                                        assert(old(self).spec_commit_writes().contains_key(k));
                                    }
                                    if self.committed_offset_reads@.contains_key(k) {
                                        assert(old(self).spec_list_reads().contains_key(k));
                                    }
                                }
                            }
                            assert forall|k: usize| #[trigger]
                                self.send_msg_keys@.contains_key(k) implies match self
                                .send_msg_keys@[k] {
                                SendState::OffsetRead { entry, .. } => entry.msg <= usize::MAX
                                    as u64,
                                SendState::OffsetCas { entry, proposed, .. } => proposed >= 1
                                    && entry.msg <= usize::MAX as u64,
                                SendState::EntryWrite { entry } => entry.offset >= 1,
                            } by {
                                if k != read_id {
                                    assert(old(self).send_msg_keys@.contains_key(k));
                                    assert(self.send_msg_keys@[k] == old(self).send_msg_keys@[k]);
                                } else {
                                    assert(old(self).send_msg_keys@[irt]
                                        matches SendState::OffsetCas { entry: e3, .. } && e3.msg
                                        <= usize::MAX as u64);
                                }
                            }
                            assert forall|k: usize| #[trigger]
                                self.spec_sends().contains_key(k) implies k
                                < node.next_msg_id() by {
                                if k != read_id {
                                    assert(old(self).spec_sends().contains_key(k));
                                }
                            }
                            assert forall|k: usize| #[trigger]
                                self.spec_poll_reads().contains_key(k) implies k
                                < node.next_msg_id() by {
                                assert(old(self).spec_poll_reads().contains_key(k));
                            }
                            assert forall|k: usize| #[trigger]
                                self.spec_commit_writes().contains_key(k) implies k
                                < node.next_msg_id() by {
                                assert(old(self).spec_commit_writes().contains_key(k));
                            }
                            assert forall|k: usize| #[trigger]
                                self.spec_list_reads().contains_key(k) implies k
                                < node.next_msg_id() by {
                                assert(old(self).spec_list_reads().contains_key(k));
                            }
                        }
                        Ok((Vec::new(), vec![read]))
                    },
                    Some(other) => {
                        self.send_msg_keys.insert(irt, other);
                        proof {
                            assert(self.spec_sends() =~= old(self).spec_sends());
                            lemma_bounded_preserved(
                                *old(self),
                                *self,
                                old(node).next_msg_id(),
                                node.next_msg_id(),
                            );
                        }
                        Err(HandlerError::UnexpectedMessage)
                    },
                    None => {
                        proof {
                            assert(false);
                        }
                        Err(HandlerError::MissingCorrelation)
                    },
                }
            } else {
                Ok((Vec::new(), Vec::new()))
            }
        } else {
            let dropped_send = self.send_msg_keys.remove(&irt);
            let ghost s1 = *self;
            let dropped_poll = self.poll_msg_keys.remove(&irt);
            let ghost s2 = *self;
            let dropped_commit = self.commit_msg_keys.remove(&irt);
            let ghost s3 = *self;
            let dropped_list = self.committed_offset_reads.remove(&irt);
            proof {
                if dropped_send is None {
                    assert(s1.send_msg_keys@ =~= old(self).send_msg_keys@.remove(irt));
                }
                if dropped_poll is None {
                    assert(s2.poll_msg_keys@ =~= s1.poll_msg_keys@.remove(irt));
                }
                if dropped_commit is None {
                    assert(s3.commit_msg_keys@ =~= s2.commit_msg_keys@.remove(irt));
                }
                if dropped_list is None {
                    assert(self.committed_offset_reads@ =~= s3.committed_offset_reads@.remove(
                        irt,
                    ));
                }
                assert(self.spec_sends() == old(self).spec_sends().remove(irt));
                assert(self.spec_poll_reads() == old(self).spec_poll_reads().remove(irt));
                assert(self.spec_commit_writes() == old(self).spec_commit_writes().remove(irt));
                assert(self.spec_list_reads() == old(self).spec_list_reads().remove(irt));
                assert(self.spec_polls() == old(self).spec_polls());
                assert(self.spec_commits() == old(self).spec_commits());
                assert(self.spec_lists() == old(self).spec_lists());
                assert(self.spec_next_agg() == old(self).spec_next_agg());
                assert forall|k: usize| #[trigger]
                    self.send_msg_keys@.contains_key(k) implies !self.poll_msg_keys@.contains_key(
                    k,
                ) && !self.commit_msg_keys@.contains_key(k)
                    && !self.committed_offset_reads@.contains_key(k) by {
                    assert(old(self).send_msg_keys@.contains_key(k));
                }
                assert forall|k: usize| #[trigger]
                    self.poll_msg_keys@.contains_key(
                        k,
                    ) implies !self.commit_msg_keys@.contains_key(k)
                    && !self.committed_offset_reads@.contains_key(k) by {
                    assert(old(self).poll_msg_keys@.contains_key(k));
                }
                assert forall|k: usize| #[trigger]
                    self.commit_msg_keys@.contains_key(
                        k,
                    ) implies !self.committed_offset_reads@.contains_key(k) by {
                    assert(old(self).commit_msg_keys@.contains_key(k));
                }
                assert forall|k: usize| #[trigger]
                    self.send_msg_keys@.contains_key(k) implies match self.send_msg_keys@[k] {
                    SendState::OffsetRead { entry, .. } => entry.msg <= usize::MAX as u64,
                    SendState::OffsetCas { entry, proposed, .. } => proposed >= 1 && entry.msg
                        <= usize::MAX as u64,
                    SendState::EntryWrite { entry } => entry.offset >= 1,
                } by {
                    assert(old(self).send_msg_keys@.contains_key(k));
                    assert(self.send_msg_keys@[k] == old(self).send_msg_keys@[k]);
                }
                lemma_bounded_preserved(
                    *old(self),
                    *self,
                    old(node).next_msg_id(),
                    node.next_msg_id(),
                );
            }
            Ok((Vec::new(), Vec::new()))
        }
    }
}


impl KafkaLog {
    /// Processes one incoming envelope.  Returns the replies to clients
    /// and the requests to the KV service, in order.
    ///
    /// `send` starts the offset read of its key; `poll`, `commit_offsets`
    /// and `list_committed_offsets` register an aggregate and fan their
    /// reads or writes out, answering at once when they ask for nothing;
    /// `read_ok`, `cas_ok`, `write_ok` and `error` advance whatever their
    /// correlation id awaits; the workload's own reply types are ignored.
    pub fn handle(&mut self, msg: Message<Payload>, node: &mut Node) -> (r: Result<
        (Vec<Message<Payload>>, Vec<Message<KvStorePayload>>),
        HandlerError,
    >)
        requires
            old(self).wf(),
            old(node).wf(),
            old(self).bounded(old(node).next_msg_id()),
            old(node).next_msg_id() < usize::MAX,
            match msg.body.payload {
                Payload::Send { msg: m, .. } => m <= usize::MAX as u64,
                Payload::Poll { offsets } => {
                    &&& old(self).spec_next_agg() < usize::MAX
                    &&& old(node).next_msg_id() + 3 * offsets@.len() <= usize::MAX
                    &&& forall|i: int|
                        0 <= i < offsets@.len() ==> (#[trigger] offsets@[i]).1 <= usize::MAX - 3
                },
                Payload::CommitOffsets { offsets } => {
                    &&& old(self).spec_next_agg() < usize::MAX
                    &&& old(node).next_msg_id() + offsets@.len() <= usize::MAX
                },
                Payload::ListCommittedOffsets { keys } => {
                    &&& old(self).spec_next_agg() < usize::MAX
                    &&& old(node).next_msg_id() + keys@.len() <= usize::MAX
                },
                _ => true,
            },
            match (msg.body.payload, msg.body.in_reply_to) {
                (Payload::ReadOk { value }, Some(irt)) => ({
                    &&& old(self).spec_sends().contains_key(irt)
                    &&& old(self).spec_sends()[irt] matches SendState::OffsetRead { .. }
                }) ==> value < usize::MAX,
                _ => true,
            },
        ensures
            final(node).wf(),
            final(node).spec_id() == old(node).spec_id(),
            final(node).spec_node_ids() == old(node).spec_node_ids(),
            old(node).next_msg_id() <= final(node).next_msg_id(),
            r matches Ok(out) ==> final(node).next_msg_id() == old(node).next_msg_id()
                + out.0@.len() + out.1@.len(),
            r is Err ==> final(node).next_msg_id() == old(node).next_msg_id(),
            final(self).wf(),
            final(self).bounded(final(node).next_msg_id()),
            match msg.body.payload {
                Payload::Send { key, msg: m } => match msg.body.id {
                    None => r matches Err(e) && e == HandlerError::MissingMsgId
                        && KafkaLog::unchanged(*old(self), *final(self)),
                    Some(orig) => r matches Ok(out) && {
                        &&& out.0@.len() == 0
                        &&& out.1@.len() == 1
                        &&& out.1@[0].dst@ == "lin-kv"@
                        &&& out.1@[0].src@ == old(node).spec_id()
                        &&& out.1@[0].body.id == Some(old(node).next_msg_id())
                        &&& out.1@[0].body.payload matches KvStorePayload::Read { key: k2 }
                            && k2@ == spec_offset_key(key@)
                        &&& final(self).spec_sends().contains_key(old(node).next_msg_id())
                        &&& final(self).spec_sends() == old(self).spec_sends().insert(
                            old(node).next_msg_id(),
                            final(self).spec_sends()[old(node).next_msg_id()],
                        )
                        &&& final(self).spec_sends()[old(node).next_msg_id()]
                            matches SendState::OffsetRead { entry, offset_key } && entry.orig_msg_id
                            == orig && entry.orig_msg_src == msg.src && entry.key == key
                            && entry.offset == 0 && entry.msg == m && offset_key@
                            == spec_offset_key(key@)
                        &&& final(self).spec_poll_reads() == old(self).spec_poll_reads()
                        &&& final(self).spec_polls() == old(self).spec_polls()
                        &&& final(self).spec_commit_writes() == old(self).spec_commit_writes()
                        &&& final(self).spec_commits() == old(self).spec_commits()
                        &&& final(self).spec_list_reads() == old(self).spec_list_reads()
                        &&& final(self).spec_lists() == old(self).spec_lists()
                        &&& final(self).spec_next_agg() == old(self).spec_next_agg()
                    },
                },
                Payload::Poll { offsets } => match msg.body.id {
                    None => r matches Err(e) && e == HandlerError::MissingMsgId
                        && KafkaLog::unchanged(*old(self), *final(self)),
                    Some(orig) => {
                        if offsets@.len() == 0 {
                            r matches Ok(out) && {
                                &&& out.1@.len() == 0
                                &&& out.0@.len() == 1
                                &&& out.0@[0].src@ == old(node).spec_id()
                                &&& out.0@[0].dst@ == msg.src@
                                &&& out.0@[0].body.id == Some(old(node).next_msg_id())
                                &&& out.0@[0].body.in_reply_to == Some(orig)
                                &&& out.0@[0].body.payload matches Payload::PollOk { msgs }
                                    && msgs@.len() == 0
                                &&& KafkaLog::unchanged(*old(self), *final(self))
                            }
                        } else {
                            r matches Ok(out) && out.0@.len() == 0
                                && KafkaLog::poll_started(
                                *old(self),
                                *final(self),
                                *old(node),
                                offsets@,
                                msg.src@,
                                orig,
                                out.1@,
                            )
                        }
                    },
                },
                Payload::CommitOffsets { offsets } => match msg.body.id {
                    None => r matches Err(e) && e == HandlerError::MissingMsgId
                        && KafkaLog::unchanged(*old(self), *final(self)),
                    Some(orig) => {
                        if offsets@.len() == 0 {
                            r matches Ok(out) && {
                                &&& out.1@.len() == 0
                                &&& out.0@.len() == 1
                                &&& out.0@[0].src@ == old(node).spec_id()
                                &&& out.0@[0].dst@ == msg.src@
                                &&& out.0@[0].body.id == Some(old(node).next_msg_id())
                                &&& out.0@[0].body.in_reply_to == Some(orig)
                                &&& out.0@[0].body.payload matches Payload::CommitOffsetsOk
                                &&& KafkaLog::unchanged(*old(self), *final(self))
                            }
                        } else {
                            r matches Ok(out) && out.0@.len() == 0
                                && KafkaLog::commit_started(
                                *old(self),
                                *final(self),
                                *old(node),
                                offsets@,
                                msg.src@,
                                orig,
                                out.1@,
                            )
                        }
                    },
                },
                Payload::ListCommittedOffsets { keys } => match msg.body.id {
                    None => r matches Err(e) && e == HandlerError::MissingMsgId
                        && KafkaLog::unchanged(*old(self), *final(self)),
                    Some(orig) => {
                        if keys@.len() == 0 {
                            r matches Ok(out) && {
                                &&& out.1@.len() == 0
                                &&& out.0@.len() == 1
                                &&& out.0@[0].src@ == old(node).spec_id()
                                &&& out.0@[0].dst@ == msg.src@
                                &&& out.0@[0].body.id == Some(old(node).next_msg_id())
                                &&& out.0@[0].body.in_reply_to == Some(orig)
                                &&& out.0@[0].body.payload
                                    matches Payload::ListCommittedOffsetsOk { offsets }
                                    && offsets@.len() == 0
                                &&& KafkaLog::unchanged(*old(self), *final(self))
                            }
                        } else {
                            r matches Ok(out) && out.0@.len() == 0
                                && KafkaLog::list_started(
                                *old(self),
                                *final(self),
                                *old(node),
                                keys@,
                                msg.src@,
                                orig,
                                out.1@,
                            )
                        }
                    },
                },
                Payload::ReadOk { value } => match msg.body.in_reply_to {
                    None => r matches Err(e) && e == HandlerError::MissingInReplyTo
                        && KafkaLog::unchanged(*old(self), *final(self)),
                    Some(irt) => {
                        &&& r matches Ok(out) ==> KafkaLog::read_ok_processed(
                            *old(self),
                            *final(self),
                            *old(node),
                            irt,
                            value,
                            out.0@,
                            out.1@,
                            true,
                        )
                        &&& r is Err ==> KafkaLog::read_ok_processed(
                            *old(self),
                            *final(self),
                            *old(node),
                            irt,
                            value,
                            Seq::empty(),
                            Seq::empty(),
                            false,
                        )
                    },
                },
                Payload::CasOk => match msg.body.in_reply_to {
                    None => r matches Err(e) && e == HandlerError::MissingInReplyTo
                        && KafkaLog::unchanged(*old(self), *final(self)),
                    Some(irt) => {
                        &&& r matches Ok(out) ==> out.0@.len() == 0
                            && KafkaLog::cas_ok_processed(
                            *old(self),
                            *final(self),
                            *old(node),
                            irt,
                            out.1@,
                            true,
                        )
                        &&& r is Err ==> KafkaLog::cas_ok_processed(
                            *old(self),
                            *final(self),
                            *old(node),
                            irt,
                            Seq::empty(),
                            false,
                        )
                    },
                },
                Payload::WriteOk => match msg.body.in_reply_to {
                    None => r matches Err(e) && e == HandlerError::MissingInReplyTo
                        && KafkaLog::unchanged(*old(self), *final(self)),
                    Some(irt) => {
                        &&& r matches Ok(out) ==> out.1@.len() == 0
                            && KafkaLog::write_ok_processed(
                            *old(self),
                            *final(self),
                            *old(node),
                            irt,
                            out.0@,
                            true,
                        )
                        &&& r is Err ==> KafkaLog::write_ok_processed(
                            *old(self),
                            *final(self),
                            *old(node),
                            irt,
                            Seq::empty(),
                            false,
                        )
                    },
                },
                Payload::Error { code, .. } => match msg.body.in_reply_to {
                    None => r matches Err(e) && e == HandlerError::MissingInReplyTo
                        && KafkaLog::unchanged(*old(self), *final(self)),
                    Some(irt) => {
                        &&& r matches Ok(out) ==> KafkaLog::kv_error_processed(
                            *old(self),
                            *final(self),
                            *old(node),
                            irt,
                            code,
                            out.0@,
                            out.1@,
                            true,
                        )
                        &&& r is Err ==> KafkaLog::kv_error_processed(
                            *old(self),
                            *final(self),
                            *old(node),
                            irt,
                            code,
                            Seq::empty(),
                            Seq::empty(),
                            false,
                        )
                    },
                },
                Payload::SendOk { .. } | Payload::PollOk { .. } | Payload::CommitOffsetsOk
                    | Payload::ListCommittedOffsetsOk { .. } => r matches Ok(out) && out.0@.len()
                    == 0 && out.1@.len() == 0 && KafkaLog::unchanged(*old(self), *final(self)),
            },
    {
        match &msg.body.payload {
            Payload::Send { key, msg: m } => {
                let orig = match msg.body.id {
                    Some(o) => o,
                    None => {
                        return Err(HandlerError::MissingMsgId);
                    },
                };
                let okey = self.offset_key(key.as_str());
                let (read, read_id) = node.send_to(
                    lin_kv_service_id(),
                    KvStorePayload::Read { key: okey.clone() },
                );
                self.send_msg_keys.insert(
                    read_id,
                    SendState::OffsetRead {
                        entry: SendEntry {
                            orig_msg_id: orig,
                            orig_msg_src: msg.src.clone(),
                            key: key.clone(),
                            offset: 0,
                            msg: *m,
                        },
                        offset_key: okey,
                    },
                );
                proof {
                    assert(self.spec_sends() =~= old(self).spec_sends().insert(
                        read_id,
                        self.spec_sends()[read_id],
                    ));
                    assert forall|k: usize| #[trigger]
                        self.send_msg_keys@.contains_key(
                            k,
                        ) implies !self.poll_msg_keys@.contains_key(k)
                        && !self.commit_msg_keys@.contains_key(k)
                        && !self.committed_offset_reads@.contains_key(k) by {
                        if k != read_id {
                            assert(old(self).send_msg_keys@.contains_key(k));
                        } else {
                            if self.poll_msg_keys@.contains_key(k) {
                                assert(old(self).spec_poll_reads().contains_key(k));
                            }
                            if self.commit_msg_keys@.contains_key(k) {
                                assert(old(self).spec_commit_writes().contains_key(k));
                            }
                            if self.committed_offset_reads@.contains_key(k) {
                                assert(old(self).spec_list_reads().contains_key(k));
                            }
                        }
                    }
                    assert forall|k: usize| #[trigger]
                        self.send_msg_keys@.contains_key(k) implies match self.send_msg_keys@[k] {
                        SendState::OffsetRead { entry, .. } => entry.msg <= usize::MAX as u64,
                        SendState::OffsetCas { entry, proposed, .. } => proposed >= 1 && entry.msg
                            <= usize::MAX as u64,
                        SendState::EntryWrite { entry } => entry.offset >= 1,
                    } by {
                        if k != read_id {
                            assert(old(self).send_msg_keys@.contains_key(k));
                            assert(self.send_msg_keys@[k] == old(self).send_msg_keys@[k]);
                        }
                    }
                    assert forall|k: usize| #[trigger]
                        self.spec_sends().contains_key(k) implies k < node.next_msg_id() by {
                        if k != read_id {
                            assert(old(self).spec_sends().contains_key(k));
                        }
                    }
                    assert forall|k: usize| #[trigger]
                        self.spec_poll_reads().contains_key(k) implies k < node.next_msg_id() by {
                        assert(old(self).spec_poll_reads().contains_key(k));
                    }
                    assert forall|k: usize| #[trigger]
                        self.spec_commit_writes().contains_key(k) implies k
                        < node.next_msg_id() by {
                        assert(old(self).spec_commit_writes().contains_key(k));
                    }
                    assert forall|k: usize| #[trigger]
                        self.spec_list_reads().contains_key(k) implies k < node.next_msg_id() by {
                        assert(old(self).spec_list_reads().contains_key(k));
                    }
                }
                Ok((Vec::new(), vec![read]))
            },
            Payload::Poll { offsets } => {
                let orig = match msg.body.id {
                    Some(o) => o,
                    None => {
                        return Err(HandlerError::MissingMsgId);
                    },
                };
                if offsets.len() == 0 {
                    let rep = node.reply(&msg, Payload::PollOk { msgs: Vec::new() });
                    Ok((vec![rep], Vec::new()))
                } else {
                    let kv = self.start_poll(node, offsets, msg.src.clone(), orig);
                    Ok((Vec::new(), kv))
                }
            },
            Payload::CommitOffsets { offsets } => {
                let orig = match msg.body.id {
                    Some(o) => o,
                    None => {
                        return Err(HandlerError::MissingMsgId);
                    },
                };
                if offsets.len() == 0 {
                    let rep = node.reply(&msg, Payload::CommitOffsetsOk);
                    Ok((vec![rep], Vec::new()))
                } else {
                    let kv = self.start_commit(node, offsets, msg.src.clone(), orig);
                    Ok((Vec::new(), kv))
                }
            },
            Payload::ListCommittedOffsets { keys } => {
                let orig = match msg.body.id {
                    Some(o) => o,
                    None => {
                        return Err(HandlerError::MissingMsgId);
                    },
                };
                if keys.len() == 0 {
                    let rep = node.reply(
                        &msg,
                        Payload::ListCommittedOffsetsOk { offsets: Vec::new() },
                    );
                    Ok((vec![rep], Vec::new()))
                } else {
                    let kv = self.start_list(node, keys, msg.src.clone(), orig);
                    Ok((Vec::new(), kv))
                }
            },
            Payload::ReadOk { value } => {
                let irt = match msg.body.in_reply_to {
                    Some(irt) => irt,
                    None => {
                        return Err(HandlerError::MissingInReplyTo);
                    },
                };
                self.process_read_ok(node, irt, *value)
            },
            Payload::CasOk => {
                let irt = match msg.body.in_reply_to {
                    Some(irt) => irt,
                    None => {
                        return Err(HandlerError::MissingInReplyTo);
                    },
                };
                match self.process_cas_ok(node, irt) {
                    Ok(kv) => Ok((Vec::new(), kv)),
                    Err(e) => Err(e),
                }
            },
            Payload::WriteOk => {
                let irt = match msg.body.in_reply_to {
                    Some(irt) => irt,
                    None => {
                        return Err(HandlerError::MissingInReplyTo);
                    },
                };
                match self.process_write_ok(node, irt) {
                    Ok(replies) => Ok((replies, Vec::new())),
                    Err(e) => Err(e),
                }
            },
            Payload::Error { code, .. } => {
                let irt = match msg.body.in_reply_to {
                    Some(irt) => irt,
                    None => {
                        return Err(HandlerError::MissingInReplyTo);
                    },
                };
                self.process_kv_error(node, irt, *code)
            },
            Payload::SendOk { .. } | Payload::PollOk { .. } | Payload::CommitOffsetsOk
                | Payload::ListCommittedOffsetsOk { .. } => Ok((Vec::new(), Vec::new())),
        }
    }
}


/// Committing the same `(key, offset)` twice leaves the committed-offset
/// store exactly as committing it once does: the write is idempotent.
pub proof fn lemma_commit_write_idempotent(m: Map<Seq<char>, usize>, k: Seq<char>, v: usize)
    ensures
        m.insert(spec_committed_key(k), v).insert(spec_committed_key(k), v) == m.insert(
            spec_committed_key(k),
            v,
        ),
{
    assert(m.insert(spec_committed_key(k), v).insert(spec_committed_key(k), v) =~= m.insert(
        spec_committed_key(k),
        v,
    ));
}


impl crate::node::Handler<Payload, (), (Vec<Message<Payload>>, Vec<Message<KvStorePayload>>)>
    for KafkaLog {
    open spec fn msg_pre(self, msg: Message<Payload>, node: Node) -> bool {
        &&& self.wf()
        &&& node.wf()
        &&& self.bounded(node.next_msg_id())
        &&& node.next_msg_id() < usize::MAX
        &&& match msg.body.payload {
            Payload::Send { msg: m, .. } => m <= usize::MAX as u64,
            Payload::Poll { offsets } => {
                &&& self.spec_next_agg() < usize::MAX
                &&& node.next_msg_id() + 3 * offsets@.len() <= usize::MAX
                &&& forall|i: int|
                    0 <= i < offsets@.len() ==> (#[trigger] offsets@[i]).1 <= usize::MAX - 3
            },
            Payload::CommitOffsets { offsets } => {
                &&& self.spec_next_agg() < usize::MAX
                &&& node.next_msg_id() + offsets@.len() <= usize::MAX
            },
            Payload::ListCommittedOffsets { keys } => {
                &&& self.spec_next_agg() < usize::MAX
                &&& node.next_msg_id() + keys@.len() <= usize::MAX
            },
            _ => true,
        }
        &&& match (msg.body.payload, msg.body.in_reply_to) {
            (Payload::ReadOk { value }, Some(irt)) => ({
                &&& self.spec_sends().contains_key(irt)
                &&& self.spec_sends()[irt] matches SendState::OffsetRead { .. }
            }) ==> value < usize::MAX,
            _ => true,
        }
    }

    /// The log workload uses no commands.
    open spec fn cmd_pre(self, cmd: (), node: Node) -> bool {
        false
    }

    fn handle(&mut self, msg: Message<Payload>, node: &mut Node) -> Result<
        (Vec<Message<Payload>>, Vec<Message<KvStorePayload>>),
        HandlerError,
    > {
        KafkaLog::handle(self, msg, node)
    }

    fn handle_command(&mut self, cmd: &(), node: &mut Node) -> Result<
        (Vec<Message<Payload>>, Vec<Message<KvStorePayload>>),
        HandlerError,
    > {
        Err(HandlerError::UnsupportedCommand)
    }
}

} // verus!
