//! The decisions of a node: what it answers, what it sends and when it changes roles.
//!
//! Timers, channels and connections are outside. They bring events in, and carry
//! out the effects that come back.

pub mod candidate;
pub mod describe;
pub mod follower;
pub mod leader;

pub use self::candidate::{campaigning, is_vote, vote_request, Candidate};
pub use self::describe::{leader_reads, Role};
pub use self::follower::{forwarded_reply, Follower};
pub use self::leader::{
    acks, agreeing, batch, earlier, entries_request, last_entry_of, AppendEntriesCall,
    ClientOutcome, Leader, Waiter, HEARBEAT_INTERVAL_MILLIS, MAX_BATCH_SIZE,
};

use super::errors::ClientError;
use super::storage::{
    after_term, entries_between, entry_at, overwritten, term_at, Storage, StorageView,
};
use super::{
    AppendEntriesRequest, AppendEntriesResponse, AppendEntriesView, ClientResponse, Command,
    LogEntry, LogIndex, NodeId, RaftStateDump, RequestVoteRequest, RequestVoteResponse, RpcRequest,
    RpcResponse, State, TermIndex,
};
use crate::webrtc_rpc::transport;
use std::collections::HashMap;
use vstd::prelude::*;
use vstd::std_specs::iter::IteratorSpec;

verus! {

pub struct RaftWorkerInner<M: State> {
    pub leader_id: Option<NodeId>,
    pub node_id: NodeId,
    pub session_key: u128,
    pub cluster_size: usize,
    pub current_state: M,
    /// The other members of the cluster, online or not.
    pub peers: Vec<NodeId>,
    /// The peers that were connected at some time, and whether they still are.
    pub peer_clients: HashMap<NodeId, bool>,
    pub commit_index: LogIndex,
    pub last_applied: LogIndex,
    pub storage: Storage<M::Command>,
}

pub struct RaftWorker<S, M: State> {
    pub inner: RaftWorkerInner<M>,
    pub state: S,
}

/// Whether a candidate's log is not behind `log`: it ends in a later term, or in the
/// same term and is at least as long.
pub open spec fn is_up_to_date<T>(req: RequestVoteRequest, log: Seq<LogEntry<T>>) -> bool {
    let last = term_at(log, log.len() as int);
    req.last_log_term > last || (req.last_log_term == last && req.last_log_index >= log.len())
}

/// Whether a node in the state `v` votes for the sender of `req`.
pub open spec fn grants_vote<T>(v: StorageView<T>, req: RequestVoteRequest) -> bool {
    &&& req.term >= v.term
    &&& v.voted_for is None || v.voted_for == Some(req.candidate)
    &&& is_up_to_date(req, v.log)
}

pub open spec fn after_vote<T>(v: StorageView<T>, req: RequestVoteRequest) -> StorageView<T> {
    if grants_vote(v, req) {
        StorageView { voted_for: Some(req.candidate), ..v }
    } else {
        v
    }
}

pub open spec fn vote_response<T>(
    v: StorageView<T>,
    req: RequestVoteRequest,
) -> RequestVoteResponse {
    if grants_vote(v, req) {
        RequestVoteResponse { term: req.last_log_term, vote_granted: true }
    } else {
        RequestVoteResponse { term: 0, vote_granted: false }
    }
}

/// Whether the log has the entry that the sender's entries follow on.
pub open spec fn has_previous<T>(log: Seq<LogEntry<T>>, idx: LogIndex, term: TermIndex) -> bool {
    idx == 0 || (entry_at(log, idx as int) is Some && term_at(log, idx as int) == term)
}

pub open spec fn accepts_entries<T>(v: StorageView<T>, req: AppendEntriesView<T>) -> bool {
    req.term >= v.term && has_previous(v.log, req.prev_log_index, req.prev_log_term)
}

/// The log after one entry from the leader: an entry of another term at that index
/// gives way, together with what follows it.
pub open spec fn merged_one<T>(log: Seq<LogEntry<T>>, e: LogEntry<T>) -> Seq<LogEntry<T>> {
    match entry_at(log, e.idx as int) {
        Some(existing) => if existing.term != e.term {
            overwritten(log, e)
        } else {
            log
        },
        None => log.push(e),
    }
}

/// The log after all the entries, in order.
pub open spec fn merged<T>(log: Seq<LogEntry<T>>, entries: Seq<LogEntry<T>>) -> Seq<LogEntry<T>>
    decreases entries.len(),
{
    if entries.len() == 0 {
        log
    } else {
        merged_one(merged(log, entries.drop_last()), entries.last())
    }
}

/// Whether each entry in turn falls on the log or right behind its end.
pub open spec fn mergeable<T>(log: Seq<LogEntry<T>>, entries: Seq<LogEntry<T>>) -> bool
    decreases entries.len(),
{
    entries.len() > 0 ==> {
        &&& mergeable(log, entries.drop_last())
        &&& 1 <= entries.last().idx <= merged(log, entries.drop_last()).len() + 1
    }
}

pub open spec fn after_entries<T>(v: StorageView<T>, req: AppendEntriesView<T>) -> StorageView<T> {
    if accepts_entries(v, req) {
        StorageView { log: merged(v.log, req.entries), ..v }
    } else {
        v
    }
}

pub open spec fn entries_response<T>(
    v: StorageView<T>,
    req: AppendEntriesView<T>,
) -> AppendEntriesResponse {
    AppendEntriesResponse { term: v.term, success: accepts_entries(v, req) }
}

/// How much the sender has committed, up to the last of its entries: whoever accepts
/// them shares the sender's log up to there, and perhaps no further.
pub open spec fn known_commit<T>(req: AppendEntriesView<T>) -> LogIndex {
    if req.leader_commit <= req.prev_log_index + req.entries.len() {
        req.leader_commit
    } else {
        (req.prev_log_index + req.entries.len()) as u64
    }
}

pub open spec fn commit_after_entries<T>(
    v: StorageView<T>,
    commit_index: LogIndex,
    req: AppendEntriesView<T>,
) -> LogIndex {
    if accepts_entries(v, req) && known_commit(req) > commit_index {
        known_commit(req)
    } else {
        commit_index
    }
}

impl<M: State> RaftWorkerInner<M> {
    pub open spec fn wf(&self) -> bool {
        &&& self.storage.wf()
        &&& self.peers@.no_duplicates()
    }

    /// Whether nothing but term, vote, log, commit index and leader differ from
    /// `before`, and local storage can follow.
    pub open spec fn only_log_moved(&self, before: RaftWorkerInner<M>) -> bool {
        &&& self.node_id == before.node_id
        &&& self.session_key == before.session_key
        &&& self.cluster_size == before.cluster_size
        &&& self.current_state == before.current_state
        &&& self.peers == before.peers
        &&& self.peer_clients == before.peer_clients
        &&& self.last_applied == before.last_applied
        &&& self.storage.follows(before.storage)
    }
}

impl<S, M: State> RaftWorker<S, M> {
    pub fn quorum(&self) -> (r: usize)
        ensures
            r == quorum_of(self.inner.cluster_size),
    {
        (self.inner.cluster_size / 2) + 1
    }

    /// Casts the vote that the sender asks for, if it is due.
    pub fn handle_request_vote(&mut self, req: RequestVoteRequest) -> (r: RequestVoteResponse)
        requires
            old(self).inner.wf(),
        ensures
            final(self).inner.wf(),
            final(self).inner.only_log_moved(old(self).inner),
            final(self).state == old(self).state,
            final(self).inner.leader_id == old(self).inner.leader_id,
            final(self).inner.commit_index == old(self).inner.commit_index,
            final(self).inner.storage@ == after_vote(old(self).inner.storage@, req),
            r == vote_response(old(self).inner.storage@, req),
    {
        let current_term = self.inner.storage.current_term();
        let free = match self.inner.storage.voted_for() {
            None => true,
            Some(id) => *id == req.candidate,
        };
        let last_term = self.inner.storage.last_log_term();
        let up_to_date = req.last_log_term > last_term || (req.last_log_term == last_term
            && req.last_log_index >= self.inner.storage.last_log_index());
        if req.term >= current_term && free && up_to_date {
            self.inner.storage.set_voted_for(Some(req.candidate));
            RequestVoteResponse { term: req.last_log_term, vote_granted: true }
        } else {
            proof {
                self.inner.storage.lemma_follows_itself();
            }
            RequestVoteResponse { term: 0, vote_granted: false }
        }
    }

    /// Takes over the leader's entries, if the log has the entry before them.
    pub fn handle_append_entries(
        &mut self,
        req: AppendEntriesRequest<M::Command>,
    ) -> (r: AppendEntriesResponse)
        requires
            old(self).inner.wf(),
            accepts_entries(old(self).inner.storage@, req@) ==> mergeable(
                old(self).inner.storage@.log,
                req@.entries,
            ),
        ensures
            final(self).inner.wf(),
            final(self).inner.only_log_moved(old(self).inner),
            final(self).state == old(self).state,
            final(self).inner.leader_id == old(self).inner.leader_id,
            final(self).inner.storage@ == after_entries(old(self).inner.storage@, req@),
            final(self).inner.commit_index == commit_after_entries(
                old(self).inner.storage@,
                old(self).inner.commit_index,
                req@,
            ),
            r == entries_response(old(self).inner.storage@, req@),
    {
        let current_term = self.inner.storage.current_term();
        proof {
            self.inner.storage.lemma_follows_itself();
        }
        if req.term < current_term {
            return AppendEntriesResponse { term: current_term, success: false };
        }
        let entry = self.inner.storage.get_log(req.prev_log_index);
        if req.prev_log_index != 0 {
            let fits = match entry {
                Some(e) => e.term == req.prev_log_term,
                None => false,
            };
            if !fits {
                return AppendEntriesResponse { term: current_term, success: false };
            }
        }
        let ghost before = self.inner;
        let ghost log = self.inner.storage@.log;
        let ghost entries = req.entries@;
        for i in 0..req.entries.len()
            invariant
                entries == req.entries@,
                mergeable(log, entries.take(i as int)),
                mergeable(log, entries),
                self.inner.wf(),
                self.inner.only_log_moved(before),
                self.state == old(self).state,
                self.inner.leader_id == before.leader_id,
                self.inner.commit_index == before.commit_index,
                before.storage@.log == log,
                self.inner.storage@ == (StorageView {
                    log: merged(log, entries.take(i as int)),
                    ..before.storage@
                }),
        {
            let e = &req.entries[i];
            let ghost middle = self.inner.storage;
            proof {
                lemma_mergeable_prefix(log, entries, i as int + 1);
                assert(entries.take(i as int + 1).drop_last() =~= entries.take(i as int));
                assert(entries.take(i as int + 1).last() == *e);
                middle.lemma_follows_itself();
            }
            match self.inner.storage.get_log(e.idx) {
                Some(existing) => {
                    if existing.term != e.term {
                        self.inner.storage.overwrite_log(e);
                    }
                },
                None => {
                    self.inner.storage.append_log(e);
                },
            }
            proof {
                self.inner.storage.lemma_follows_transitive(middle, before.storage);
            }
        }
        assert(entries.take(entries.len() as int) =~= entries);
        let last_entry = req.prev_log_index.saturating_add(req.entries.len() as u64);
        let known = if req.leader_commit <= last_entry {
            req.leader_commit
        } else {
            last_entry
        };
        if known > self.inner.commit_index {
            self.inner.commit_index = known;
        }
        AppendEntriesResponse { term: current_term, success: true }
    }
}

/// The least number of nodes that make a majority.
pub open spec fn quorum_of(cluster_size: usize) -> int {
    cluster_size / 2 + 1
}

pub proof fn lemma_mergeable_prefix<T>(log: Seq<LogEntry<T>>, entries: Seq<LogEntry<T>>, n: int)
    requires
        mergeable(log, entries),
        0 <= n <= entries.len(),
    ensures
        mergeable(log, entries.take(n)),
    decreases entries.len(),
{
    if n == entries.len() {
        assert(entries.take(n) =~= entries);
    } else {
        lemma_mergeable_prefix(log, entries.drop_last(), n);
        assert(entries.drop_last().take(n) =~= entries.take(n));
    }
}

/// The state after the commands of the entries, in order.
pub open spec fn state_after<M: State>(state: M::V, entries: Seq<LogEntry<M::Command>>) -> M::V
    decreases entries.len(),
{
    if entries.len() == 0 {
        state
    } else {
        M::next(state_after::<M>(state, entries.drop_last()), entries.last().cmd)
    }
}

/// Whether the commands of the entries can be applied one after another.
pub open spec fn applicable<M: State>(state: M::V, entries: Seq<LogEntry<M::Command>>) -> bool
    decreases entries.len(),
{
    entries.len() > 0 ==> {
        &&& applicable::<M>(state, entries.drop_last())
        &&& M::admits(state_after::<M>(state, entries.drop_last()), entries.last().cmd)
    }
}

impl<M: State> RaftWorkerInner<M> {
    /// The committed entries that were not applied yet.
    pub open spec fn unapplied(&self) -> Seq<LogEntry<M::Command>> {
        entries_between(self.storage@.log, self.last_applied + 1, self.commit_index as int)
    }

    /// Whether everything but the state machine and its position is as in `before`.
    pub open spec fn only_state_moved(&self, before: RaftWorkerInner<M>) -> bool {
        &&& self.leader_id == before.leader_id
        &&& self.node_id == before.node_id
        &&& self.session_key == before.session_key
        &&& self.cluster_size == before.cluster_size
        &&& self.peers == before.peers
        &&& self.peer_clients == before.peer_clients
        &&& self.commit_index == before.commit_index
        &&& self.storage == before.storage
    }

    /// Whether the first `n` of the entries that `before` had yet to apply are
    /// applied now.
    pub open spec fn applied_of(&self, before: RaftWorkerInner<M>, n: int) -> bool {
        let entries = before.unapplied();
        &&& 0 <= n <= entries.len()
        &&& applicable::<M>(before.current_state@, entries.take(n))
        &&& self.current_state@ == state_after::<M>(before.current_state@, entries.take(n))
        &&& self.last_applied == if n == 0 {
            before.last_applied
        } else {
            entries[n - 1].idx
        }
    }
}

impl<M: State> RaftWorkerInner<M> {
    /// Whether the entries that `before` had yet to apply are applied now, or those
    /// before one that the state machine does not admit.
    pub open spec fn applied_log(
        &self,
        before: RaftWorkerInner<M>,
        r: Result<(), LogIndex>,
    ) -> bool {
        let entries = before.unapplied();
        &&& self.only_state_moved(before)
        &&& match r {
            Ok(()) => self.applied_of(before, entries.len() as int),
            Err(idx) => exists|n: int|
                {
                    &&& #[trigger] self.applied_of(before, n)
                    &&& n < entries.len()
                    &&& idx == entries[n].idx
                    &&& !M::admits(self.current_state@, entries[n].cmd)
                },
        }
    }
}

impl<S, M: State> RaftWorker<S, M> {
    /// Applies the committed entries in order. Stops before an entry that the state
    /// machine does not admit, and returns its index.
    pub fn apply_log(&mut self) -> (r: Result<(), LogIndex>)
        requires
            old(self).inner.wf(),
        ensures
            final(self).inner.wf(),
            final(self).state == old(self).state,
            final(self).inner.applied_log(old(self).inner, r),
    {
        let ghost before = self.inner;
        let ghost entries = before.unapplied();
        assert(entries.take(0) =~= Seq::<LogEntry<M::Command>>::empty());
        if self.inner.last_applied == u64::MAX {
            assert(entries =~= Seq::<LogEntry<M::Command>>::empty());
            assert(self.inner.applied_of(before, 0));
            return Ok(());
        }
        let due = self.inner.storage.sublog(self.inner.last_applied + 1, self.inner.commit_index);
        assert(self.inner.applied_of(before, 0));
        for i in 0..due.len()
            invariant
                due@ == entries,
                entries == before.unapplied(),
                self.inner.wf(),
                self.state == old(self).state,
                before == old(self).inner,
                self.inner.only_state_moved(before),
                self.inner.applied_of(before, i as int),
        {
            let entry = &due[i];
            proof {
                assert(entries.take(i as int + 1).drop_last() =~= entries.take(i as int));
            }
            if !self.inner.current_state.accepts(&entry.cmd) {
                return Err(entry.idx);
            }
            self.inner.current_state.apply(entry.cmd.duplicate());
            self.inner.last_applied = entry.idx;
        }
        Ok(())
    }
}

#[derive(Debug, Clone, Copy, PartialEq, Eq, Structural)]
pub enum StateChange {
    Continue,
    BecomeFollower,
}

pub type ClientResult<Item> = Result<ClientResponse<Item>, ClientError>;

pub type RpcResult<Item> = Result<RpcResponse<Item>, transport::Error>;

/// What a vote request from `q` does to a node, and the answer.
pub open spec fn vote_step<M: State>(
    pre: RaftWorkerInner<M>,
    post: RaftWorkerInner<M>,
    q: RequestVoteRequest,
    resp: RequestVoteResponse,
) -> bool {
    let v = after_term(pre.storage@, q.term);
    &&& post.only_log_moved(pre)
    &&& post.leader_id == pre.leader_id
    &&& post.commit_index == pre.commit_index
    &&& post.storage@ == after_vote(v, q)
    &&& resp == vote_response(v, q)
}

/// What entries from a leader do to a node, and the answer.
pub open spec fn entries_step<M: State>(
    pre: RaftWorkerInner<M>,
    post: RaftWorkerInner<M>,
    q: AppendEntriesView<M::Command>,
    resp: AppendEntriesResponse,
) -> bool {
    let v = after_term(pre.storage@, q.term);
    &&& post.only_log_moved(pre)
    &&& post.storage@ == after_entries(v, q)
    &&& post.commit_index == commit_after_entries(v, pre.commit_index, q)
    &&& resp == entries_response(v, q)
}

/// Whether the node can take the request: entries that it would accept must fall on
/// its log or right behind it.
pub open spec fn fits<M: State>(
    inner: RaftWorkerInner<M>,
    req: RpcRequest<M::Command, M::Key>,
) -> bool {
    match req {
        RpcRequest::AppendEntries(q) => accepts_entries(inner.storage@, q@) ==> mergeable(
            inner.storage@.log,
            q@.entries,
        ),
        _ => true,
    }
}

/// Whether a leader can take the request: only entries of a later term touch its log.
pub open spec fn fits_leader<M: State>(
    inner: RaftWorkerInner<M>,
    req: RpcRequest<M::Command, M::Key>,
) -> bool {
    req matches RpcRequest::AppendEntries(q) && q.term > inner.storage@.term ==> fits(inner, req)
}

/// The keys of a map, each once, in no particular order.
pub fn keys_of<V>(m: &HashMap<u64, V>) -> (r: Vec<u64>)
    ensures
        r@.no_duplicates(),
        r@.to_set() == m@.dom(),
{
    let mut r: Vec<u64> = Vec::new();
    let keys = m.keys();
    let ghost all = keys.remaining().unref();
    for k in it: keys
        invariant
            it.seq().unref() == all,
            r@ == all.take(it.index() as int),
    {
        r.push(*k);
        assert(r@ =~= all.take(it.index() as int + 1));
    }
    assert(r@ =~= all);
    r
}

impl<M: State> RaftWorkerInner<M> {
    pub open spec fn is_online(&self, id: NodeId) -> bool {
        self.peer_clients@.contains_key(id) && self.peer_clients@[id]
    }

    /// The peers that are connected, each once.
    pub fn online_peers(&self) -> (r: Vec<NodeId>)
        ensures
            r@.no_duplicates(),
            forall|id: NodeId| #[trigger] r@.contains(id) <==> self.is_online(id),
    {
        let ids = keys_of(&self.peer_clients);
        let mut r: Vec<NodeId> = Vec::new();
        for i in 0..ids.len()
            invariant
                ids@.no_duplicates(),
                ids@.to_set() == self.peer_clients@.dom(),
                r@.no_duplicates(),
                forall|id: NodeId| #[trigger]
                    r@.contains(id) <==> self.is_online(id) && ids@.take(i as int).contains(id),
        {
            let id = ids[i];
            let ghost before = r@;
            proof {
                assert(ids@.to_set().contains(id));
                assert(ids@.take(i as int + 1) =~= ids@.take(i as int).push(id));
                assert(!ids@.take(i as int).contains(id));
            }
            if *self.peer_clients.get(&id).unwrap() {
                assert(!before.contains(id));
                r.push(id);
                assert(forall|k: NodeId| #[trigger]
                    r@.contains(k) <==> before.contains(k) || k == id) by {
                    assert forall|k: NodeId| before.contains(k) || k == id implies #[trigger]
                        r@.contains(k) by {
                        if k == id {
                            assert(r@[before.len() as int] == id);
                        } else {
                            let j = choose|j: int| 0 <= j < before.len() && before[j] == k;
                            assert(r@[j] == k);
                        }
                    }
                }
            }
            assert forall|k: NodeId| #[trigger] r@.contains(k) <==> self.is_online(k)
                && ids@.take(i as int + 1).contains(k) by {
                if ids@.take(i as int).contains(k) {
                    let j = choose|j: int| 0 <= j < i && ids@.take(i as int)[j] == k;
                    assert(ids@.take(i as int + 1)[j] == k);
                }
                if k == id {
                    assert(ids@.take(i as int + 1)[i as int] == k);
                }
            }
        }
        assert(ids@.take(ids@.len() as int) =~= ids@);
        assert forall|id: NodeId| self.is_online(id) implies #[trigger] r@.contains(id) by {
            assert(ids@.to_set().contains(id));
        }
        r
    }
}

impl<M: State> RaftWorkerInner<M> {
    /// Whether `dump` describes the node, but for its role.
    pub open spec fn describes(&self, dump: RaftStateDump) -> bool {
        &&& dump.leader_id == self.leader_id
        &&& dump.node_id == self.node_id
        &&& dump.session_key == self.session_key
        &&& dump.cluster_size == self.cluster_size
        &&& dump.peers@ == self.peers@
        &&& dump.online_peers@.no_duplicates()
        &&& forall|id: NodeId| #[trigger] dump.online_peers@.contains(id) <==> self.is_online(id)
        &&& dump.voted_for == self.storage@.voted_for
        &&& dump.current_term == self.storage@.term
        &&& dump.last_log_index == self.storage@.log.len()
        &&& dump.commit_index == self.commit_index
        &&& dump.last_applied == self.last_applied
    }
}

impl<S: Role, M: State> RaftWorker<S, M> {
    /// How the node describes itself and its role.
    pub fn state_dump(&self) -> (r: RaftStateDump)
        ensures
            self.inner.describes(r),
            self.state.reads(r.state@),
    {
        let peers = self.inner.peers.clone();
        assert(peers@ =~= self.inner.peers@);
        RaftStateDump {
            state: self.state.describe(),
            leader_id: self.inner.leader_id,
            node_id: self.inner.node_id,
            session_key: self.inner.session_key,
            cluster_size: self.inner.cluster_size,
            peers,
            online_peers: self.inner.online_peers(),
            voted_for: *self.inner.storage.voted_for(),
            current_term: self.inner.storage.current_term(),
            last_log_index: self.inner.storage.last_log_index(),
            commit_index: self.inner.commit_index,
            last_applied: self.inner.last_applied,
        }
    }
}

/// The terms of the entries.
pub open spec fn terms<T>(log: Seq<LogEntry<T>>) -> Seq<TermIndex> {
    log.map_values(|e: LogEntry<T>| e.term)
}

/// Entries that follow on an index of the log without gaps fall on the log or right
/// behind it, and the log then reaches at least to the last of them.
pub proof fn lemma_consecutive_mergeable<T>(
    log: Seq<LogEntry<T>>,
    prev: int,
    entries: Seq<LogEntry<T>>,
)
    requires
        0 <= prev <= log.len(),
        forall|i: int| 0 <= i < entries.len() ==> (#[trigger] entries[i]).idx == prev + 1 + i,
    ensures
        mergeable(log, entries),
        merged(log, entries).len() >= prev + entries.len(),
    decreases entries.len(),
{
    if entries.len() > 0 {
        let init = entries.drop_last();
        assert forall|i: int| 0 <= i < init.len() implies (#[trigger] init[i]).idx == prev + 1
            + i by {
            assert(init[i] == entries[i]);
        }
        lemma_consecutive_mergeable(log, prev, init);
        assert(entries.last().idx == prev + entries.len());
    }
}

impl<M: State> RaftWorkerInner<M> {
    /// Whether each of the entries in turn falls on the log or right behind it.
    fn can_merge(&self, prev: LogIndex, entries: &Vec<LogEntry<M::Command>>) -> (r: bool)
        requires
            self.wf(),
        ensures
            r == mergeable(self.storage@.log, entries@),
    {
        let last = self.storage.last_log_index();
        if prev <= last {
            let mut consecutive = true;
            for i in 0..entries.len()
                invariant
                    prev <= last,
                    last == self.storage@.log.len(),
                    consecutive ==> forall|j: int|
                        0 <= j < i ==> (#[trigger] entries@[j]).idx == prev + 1 + j,
            {
                if entries[i].idx <= prev || entries[i].idx - prev - 1 != i as u64 {
                    consecutive = false;
                }
            }
            if consecutive {
                proof {
                    lemma_consecutive_mergeable(self.storage@.log, prev as int, entries@);
                }
                return true;
            }
        }
        let mut sim: Vec<TermIndex> = Vec::new();
        let stored = self.storage.sublog(1, last);
        let ghost log = self.storage@.log;
        assert(stored@ =~= log);
        for i in 0..stored.len()
            invariant
                stored@ == log,
                sim@ == terms(log.take(i as int)),
        {
            sim.push(stored[i].term);
            assert(sim@ =~= terms(log.take(i as int + 1)));
        }
        assert(log.take(log.len() as int) =~= log);
        for i in 0..entries.len()
            invariant
                log == self.storage@.log,
                mergeable(log, entries@.take(i as int)),
                sim@ == terms(merged(log, entries@.take(i as int))),
        {
            let idx = entries[i].idx;
            let term = entries[i].term;
            let len = sim.len();
            let ghost now = merged(log, entries@.take(i as int));
            proof {
                assert(entries@.take(i as int + 1).drop_last() =~= entries@.take(i as int));
                assert(entries@.take(i as int + 1).last() == entries@[i as int]);
                assert(sim@.len() == now.len());
            }
            if idx == 0 || idx - 1 > len as u64 {
                proof {
                    if mergeable(log, entries@) {
                        lemma_mergeable_prefix(log, entries@, i as int + 1);
                    }
                }
                return false;
            }
            if idx - 1 == len as u64 {
                sim.push(term);
                assert(sim@ =~= terms(now.push(entries@[i as int])));
            } else {
                let at = (idx - 1) as usize;
                if sim[at] != term {
                    sim.truncate(at);
                    sim.push(term);
                    assert(sim@ =~= terms(overwritten(now, entries@[i as int])));
                }
            }
        }
        assert(entries@.take(entries@.len() as int) =~= entries@);
        true
    }

    /// Whether the node can take the request.
    pub fn can_fit(&self, req: &RpcRequest<M::Command, M::Key>) -> (r: bool)
        requires
            self.wf(),
        ensures
            r == fits(*self, *req),
    {
        match req {
            RpcRequest::AppendEntries(q) => {
                let accepted = q.term >= self.storage.current_term() && (q.prev_log_index == 0
                    || match self.storage.get_log(q.prev_log_index) {
                    Some(e) => e.term == q.prev_log_term,
                    None => false,
                });
                !accepted || self.can_merge(q.prev_log_index, &q.entries)
            },
            _ => true,
        }
    }

    /// Whether the node can take the request as a leader.
    pub fn can_fit_leader(&self, req: &RpcRequest<M::Command, M::Key>) -> (r: bool)
        requires
            self.wf(),
        ensures
            r == fits_leader(*self, *req),
    {
        match req {
            RpcRequest::AppendEntries(q) => q.term <= self.storage.current_term() || self.can_fit(
                req,
            ),
            _ => true,
        }
    }
}

} // verus!
