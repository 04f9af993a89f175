//! A node that leads: it serves clients, and replicates its log to the others.

use super::super::storage::{after_term, entries_between, term_at, StorageView};
use super::super::{
    AppendEntriesRequest, AppendEntriesResponse, AppendEntriesView, ClientRequest, ClientResponse,
    LogEntry, LogIndex, NodeId, RaftStateDump, RequestVoteResponse, RpcRequest, RpcResponse, State,
};
use super::{
    entries_step, fits_leader, leader_reads, quorum_of, vote_step, ClientResult, Follower,
    RaftWorker, RaftWorkerInner, RpcResult, StateChange,
};
use std::collections::HashMap;
use std::fmt::Debug;
use vstd::prelude::*;

verus! {

/// Who waits for the outcome of a client request: a client of this node, or a node
/// that passed on what its own client asked.
#[derive(Debug)]
pub enum Waiter<C, R> {
    Client(C),
    Forwarded(R),
}

#[derive(Debug)]
pub struct Leader<C, R> {
    pub next_indices: HashMap<NodeId, LogIndex>,
    pub match_indices: HashMap<NodeId, LogIndex>,
    pub in_flight: HashMap<LogIndex, Waiter<C, R>>,
}

impl<C, R, M: State> RaftWorker<Leader<C, R>, M> {
    /// A leader keeps the progress of every peer, within its own log.
    pub open spec fn wf(&self) -> bool {
        &&& self.inner.wf()
        &&& self.state.next_indices@.dom() == self.inner.peers@.to_set()
        &&& self.state.match_indices@.dom() == self.inner.peers@.to_set()
        &&& forall|p: NodeId| #[trigger]
            self.state.next_indices@.contains_key(p) ==> 1 <= self.state.next_indices@[p]
                <= self.inner.storage@.log.len() + 1
        &&& forall|p: NodeId| #[trigger]
            self.state.match_indices@.contains_key(p) ==> self.state.match_indices@[p]
                <= self.inner.storage@.log.len()
    }
}

/// How many entries go to a peer at once.
pub const MAX_BATCH_SIZE: u64 = 10;

/// How long a leader is silent at most.
pub const HEARBEAT_INTERVAL_MILLIS: u64 = 100;

/// Entries on their way to a peer; the answer to them comes back together with
/// `last_entry`, the last index that it speaks for.
#[derive(Debug)]
pub struct AppendEntriesCall<Cmd> {
    pub peer_id: NodeId,
    pub last_entry: LogIndex,
    pub req: AppendEntriesRequest<Cmd>,
}

/// The entries that a peer gets whose log is taken to end before `next`.
pub open spec fn batch<T>(log: Seq<LogEntry<T>>, next: LogIndex) -> Seq<LogEntry<T>> {
    entries_between(log, next as int, next + MAX_BATCH_SIZE - 1)
}

/// What a leader in the state `v` sends to such a peer.
pub open spec fn entries_request<T>(
    v: StorageView<T>,
    node_id: NodeId,
    commit_index: LogIndex,
    next: LogIndex,
) -> AppendEntriesView<T> {
    AppendEntriesView {
        term: v.term,
        leader_id: node_id,
        prev_log_index: (next - 1) as u64,
        prev_log_term: term_at(v.log, next - 1),
        entries: batch(v.log, next),
        leader_commit: commit_index,
    }
}

/// The last index that an answer to such a request speaks for.
pub open spec fn last_entry_of<T>(log: Seq<LogEntry<T>>, next: LogIndex) -> int {
    if batch(log, next).len() > 0 {
        next + batch(log, next).len() - 1
    } else {
        log.len() as int
    }
}

/// The index before `next`, but not before the first.
pub open spec fn earlier(next: LogIndex) -> LogIndex {
    if next > 1 {
        (next - 1) as u64
    } else {
        1
    }
}

/// How many of the peers have stored the log up to `n`.
pub open spec fn agreeing(
    peers: Seq<NodeId>,
    match_indices: Map<NodeId, LogIndex>,
    n: LogIndex,
) -> nat {
    peers.filter(|p: NodeId| match_indices[p] >= n).len()
}

/// The replies to those who wait for the indices after `from` up to `to`.
pub open spec fn acks<C, R, Item>(
    in_flight: Map<LogIndex, Waiter<C, R>>,
    from: LogIndex,
    to: LogIndex,
) -> Seq<(Waiter<C, R>, ClientResult<Item>)>
    decreases to,
{
    if to <= from {
        Seq::empty()
    } else {
        let earlier = acks(in_flight, from, (to - 1) as u64);
        if in_flight.contains_key(to) {
            earlier.push((in_flight[to], Ok(ClientResponse::Ack)))
        } else {
            earlier
        }
    }
}

impl<C, R, M: State> RaftWorker<Leader<C, R>, M> {
    /// Whether the entry `n` can be committed: it is of the current term, and
    /// together with this node a majority has it.
    pub open spec fn committable(&self, n: LogIndex) -> bool {
        &&& 1 <= n <= self.inner.storage@.log.len()
        &&& agreeing(self.inner.peers@, self.state.match_indices@, n) >= quorum_of(
            self.inner.cluster_size,
        ) - 1
        &&& term_at(self.inner.storage@.log, n as int) == self.inner.storage@.term
    }

    /// Whether committing goes to `to`: to the last entry that can be committed, which
    /// commits all before it, or no further than before where there is none.
    pub open spec fn commits_to(&self, to: LogIndex) -> bool {
        &&& to == self.inner.commit_index || (to > self.inner.commit_index && self.committable(to))
        &&& forall|n: LogIndex| #[trigger] self.committable(n) ==> n <= to
    }

    fn count_agreeing(&self, n: LogIndex) -> (r: usize)
        requires
            self.wf(),
        ensures
            r == agreeing(self.inner.peers@, self.state.match_indices@, n),
    {
        let mut count: usize = 0;
        let ghost peers = self.inner.peers@;
        let ghost agrees = |p: NodeId| self.state.match_indices@[p] >= n;
        proof {
            reveal(Seq::filter);
            assert(peers.take(0).filter(agrees).len() == 0);
        }
        for i in 0..self.inner.peers.len()
            invariant
                self.wf(),
                peers == self.inner.peers@,
                agrees == (|p: NodeId| self.state.match_indices@[p] >= n),
                count <= i,
                count == peers.take(i as int).filter(agrees).len(),
        {
            let p = self.inner.peers[i];
            proof {
                assert(self.inner.peers@.to_set().contains(p));
                lemma_filter_step(peers, agrees, i as int);
            }
            if *self.state.match_indices.get(&p).unwrap() >= n {
                count = count + 1;
            }
        }
        assert(peers.take(peers.len() as int) =~= peers);
        count
    }

    /// Whether the entry `n` can be committed.
    pub fn can_commit(&self, n: LogIndex) -> (r: bool)
        requires
            self.wf(),
        ensures
            r == self.committable(n),
    {
        let of_this_term = match self.inner.storage.get_log(n) {
            Some(entry) => entry.term == self.inner.storage.current_term(),
            None => return false,
        };
        // This node agrees as well, so one less than a quorum is needed.
        of_this_term && self.count_agreeing(n) >= self.quorum() - 1
    }

    /// Commits what a majority has stored, and answers those who wait for it.
    pub fn advance_commit_index(&mut self) -> (r: Vec<(Waiter<C, R>, ClientResult<M::Item>)>)
        requires
            old(self).wf(),
        ensures
            final(self).wf(),
            final(self).inner == (RaftWorkerInner {
                commit_index: final(self).inner.commit_index,
                ..old(self).inner
            }),
            old(self).commits_to(final(self).inner.commit_index),
            final(self).state.next_indices == old(self).state.next_indices,
            final(self).state.match_indices == old(self).state.match_indices,
            r@ == acks::<C, R, M::Item>(
                old(self).state.in_flight@,
                old(self).inner.commit_index,
                final(self).inner.commit_index,
            ),
            forall|n: LogIndex| #[trigger]
                final(self).state.in_flight@.contains_key(n) <==> old(self).state.in_flight@.contains_key(n) && !(old(self).inner.commit_index < n
                    <= final(self).inner.commit_index),
            forall|n: LogIndex| #[trigger]
                final(self).state.in_flight@.contains_key(n) ==> final(self).state.in_flight@[n]
                    == old(self).state.in_flight@[n],
    {
        let start = self.inner.commit_index;
        let mut n = self.inner.storage.last_log_index();
        while n > start && !self.can_commit(n)
            invariant
                self.wf(),
                n <= self.inner.storage@.log.len(),
                forall|k: LogIndex| #[trigger] self.committable(k) ==> k <= n,
            decreases n,
        {
            n = n - 1;
        }
        if n > start {
            self.inner.commit_index = n;
        }
        let end = self.inner.commit_index;
        assert(old(self).commits_to(end));
        let mut r: Vec<(Waiter<C, R>, ClientResult<M::Item>)> = Vec::new();
        let ghost waiting = self.state.in_flight@;
        let mut idx = start;
        while idx < end
            invariant
                start <= idx <= end,
                waiting == old(self).state.in_flight@,
                self.inner.commit_index == end,
                self.wf(),
                self.inner == (RaftWorkerInner { commit_index: end, ..old(self).inner }),
                self.state.next_indices == old(self).state.next_indices,
                self.state.match_indices == old(self).state.match_indices,
                r@ == acks::<C, R, M::Item>(waiting, start, idx),
                forall|n: LogIndex| #[trigger]
                    self.state.in_flight@.contains_key(n) <==> waiting.contains_key(n) && !(start
                        < n <= idx),
                forall|n: LogIndex| #[trigger]
                    self.state.in_flight@.contains_key(n) ==> self.state.in_flight@[n]
                        == waiting[n],
            decreases end - idx,
        {
            idx = idx + 1;
            match self.state.in_flight.remove(&idx) {
                Some(tx) => {
                    r.push((tx, Ok(ClientResponse::Ack)));
                },
                None => {},
            }
        }
        r
    }
}

proof fn lemma_filter_step(s: Seq<NodeId>, pred: spec_fn(NodeId) -> bool, i: int)
    requires
        0 <= i < s.len(),
    ensures
        s.take(i + 1).filter(pred) == if pred(s[i]) {
            s.take(i).filter(pred).push(s[i])
        } else {
            s.take(i).filter(pred)
        },
{
    reveal(Seq::filter);
    assert(s.take(i + 1).drop_last() =~= s.take(i));
}

impl<C, R, M: State> RaftWorker<Leader<C, R>, M> {
    /// Whether `call` brings the peer what it lacks.
    pub open spec fn is_call(&self, call: AppendEntriesCall<M::Command>, peer: NodeId) -> bool {
        let next = self.state.next_indices@[peer];
        &&& call.peer_id == peer
        &&& call.req@ == entries_request(
            self.inner.storage@,
            self.inner.node_id,
            self.inner.commit_index,
            next,
        )
        &&& call.last_entry == last_entry_of(self.inner.storage@.log, next)
    }

    /// Whether `calls` bring each of the peers in turn what it lacks.
    pub open spec fn calls_for(
        &self,
        calls: Seq<AppendEntriesCall<M::Command>>,
        peers: Seq<NodeId>,
    ) -> bool {
        &&& calls.len() == peers.len()
        &&& forall|i: int|
            #![trigger calls[i]]
            0 <= i < calls.len() ==> self.is_call(calls[i], peers[i])
    }

    /// Whether `calls` are the calls to the peers that are online, in their order.
    pub open spec fn are_calls(&self, calls: Seq<AppendEntriesCall<M::Command>>) -> bool {
        self.calls_for(calls, self.inner.peers@.filter(|p: NodeId| self.inner.is_online(p)))
    }

    /// The next entries for a peer, unless it is offline.
    pub fn append_entries(&self, peer_id: NodeId) -> (r: Option<AppendEntriesCall<M::Command>>)
        requires
            self.wf(),
            self.inner.peers@.contains(peer_id),
        ensures
            match r {
                Some(call) => self.inner.is_online(peer_id) && self.is_call(call, peer_id),
                None => !self.inner.is_online(peer_id),
            },
    {
        let connected = match self.inner.peer_clients.get(&peer_id) {
            Some(c) => *c,
            None => false,
        };
        if !connected {
            return None;
        }
        assert(self.inner.peers@.to_set().contains(peer_id));
        let next_index = *self.state.next_indices.get(&peer_id).unwrap();
        let prev_log_index = next_index - 1;
        let prev_log_term = if prev_log_index > 0 {
            match self.inner.storage.get_log(prev_log_index) {
                Some(entry) => entry.term,
                None => 0,
            }
        } else {
            0
        };
        let entries = self.inner.storage.sublog(
            next_index,
            next_index.saturating_add(MAX_BATCH_SIZE - 1),
        );
        assert(entries@ =~= batch(self.inner.storage@.log, next_index));
        let last_entry = if entries.len() > 0 {
            entries[entries.len() - 1].idx
        } else {
            self.inner.storage.last_log_index()
        };
        let req = AppendEntriesRequest {
            leader_id: self.inner.node_id,
            term: self.inner.storage.current_term(),
            prev_log_index,
            prev_log_term,
            entries,
            leader_commit: self.inner.commit_index,
        };
        Some(AppendEntriesCall { peer_id, last_entry, req })
    }

    /// The next entries for every peer that is online: a heartbeat, where there are
    /// none.
    pub fn append_entries_to_all(&self) -> (r: Vec<AppendEntriesCall<M::Command>>)
        requires
            self.wf(),
        ensures
            self.are_calls(r@),
    {
        let mut r: Vec<AppendEntriesCall<M::Command>> = Vec::new();
        let ghost peers = self.inner.peers@;
        let ghost is_online = |p: NodeId| self.inner.is_online(p);
        proof {
            reveal(Seq::filter);
            assert(peers.take(0).filter(is_online).len() == 0);
        }
        for i in 0..self.inner.peers.len()
            invariant
                self.wf(),
                peers == self.inner.peers@,
                is_online == (|p: NodeId| self.inner.is_online(p)),
                self.calls_for(r@, peers.take(i as int).filter(is_online)),
        {
            let p = self.inner.peers[i];
            proof {
                lemma_filter_step(peers, is_online, i as int);
            }
            let ghost before = r@;
            match self.append_entries(p) {
                Some(call) => {
                    r.push(call);
                },
                None => {},
            }
            assert forall|k: int| #![trigger r@[k]] 0 <= k < r@.len() implies self.is_call(
                r@[k],
                peers.take(i as int + 1).filter(is_online)[k],
            ) by {
                if k < before.len() {
                    assert(r@[k] == before[k]);
                }
            }
        }
        assert(peers.take(peers.len() as int) =~= peers);
        r
    }

    /// Takes in how a peer answered to the entries up to `idx`.
    pub fn handle_append_entries_response(
        &mut self,
        peer_id: NodeId,
        idx: LogIndex,
        res: RpcResult<M::Item>,
    ) -> (r: (StateChange, Option<AppendEntriesCall<M::Command>>))
        requires
            old(self).wf(),
            old(self).takes_response(peer_id, idx, res),
        ensures
            final(self).inner.wf(),
            r.0 == StateChange::Continue ==> final(self).wf(),
            final(self).inner == (RaftWorkerInner {
                storage: final(self).inner.storage,
                ..old(self).inner
            }),
            final(self).inner.storage.follows(old(self).inner.storage),
            final(self).state.in_flight == old(self).state.in_flight,
            match res {
                Ok(RpcResponse::AppendEntries(resp)) => {
                    let term = old(self).inner.storage@.term;
                    let next = old(self).state.next_indices@[peer_id];
                    let matched = old(self).state.match_indices@[peer_id];
                    &&& final(self).inner.storage@ == after_term(
                        old(self).inner.storage@,
                        resp.term,
                    )
                    &&& r.0 == if term < resp.term {
                        StateChange::BecomeFollower
                    } else {
                        StateChange::Continue
                    }
                    &&& resp.term <= term ==> final(self).inner == old(self).inner
                    &&& resp.term != term ==> final(self).state == old(self).state && r.1 is None
                    &&& resp.term == term && resp.success ==> {
                        &&& r.1 is None
                        &&& final(self).state.next_indices@ == old(self).state.next_indices@.insert(
                            peer_id,
                            if next > idx {
                                next
                            } else {
                                (idx + 1) as u64
                            },
                        )
                        &&& final(self).state.match_indices@ == old(self).state.match_indices@.insert(
                            peer_id,
                            if matched > idx {
                                matched
                            } else {
                                idx
                            },
                        )
                    }
                    &&& resp.term == term && !resp.success ==> {
                        &&& final(self).state.next_indices@ == old(self).state.next_indices@.insert(
                            peer_id,
                            earlier(next),
                        )
                        &&& final(self).state.match_indices == old(self).state.match_indices
                        &&& match r.1 {
                            Some(call) => final(self).inner.is_online(peer_id) && final(self).is_call(call, peer_id),
                            None => !final(self).inner.is_online(peer_id),
                        }
                    }
                },
                _ => {
                    &&& r.0 == StateChange::Continue
                    &&& r.1 is None
                    &&& *final(self) == *old(self)
                },
            },
    {
        proof {
            self.inner.storage.lemma_follows_itself();
        }
        match res {
            Ok(RpcResponse::AppendEntries(resp)) => {
                if self.inner.storage.update_term(resp.term) {
                    // There is a higher term out there: give up the leadership.
                    return (StateChange::BecomeFollower, None);
                }
                if resp.term < self.inner.storage.current_term() {
                    return (StateChange::Continue, None);
                }
                assert(self.inner.peers@.to_set().contains(peer_id));
                let next = *self.state.next_indices.get(&peer_id).unwrap();
                if resp.success {
                    let matched = *self.state.match_indices.get(&peer_id).unwrap();
                    let new_next = if next > idx {
                        next
                    } else {
                        idx + 1
                    };
                    self.state.next_indices.insert(peer_id, new_next);
                    let new_match = if matched > idx {
                        matched
                    } else {
                        idx
                    };
                    self.state.match_indices.insert(peer_id, new_match);
                    proof {
                        assert(self.state.next_indices@.dom() =~= old(self).state.next_indices@.dom());
                        assert(self.state.match_indices@.dom() =~= old(self).state.match_indices@.dom());
                    }
                    (StateChange::Continue, None)
                } else {
                    // Try again with an earlier entry. Late refusals can come in when the
                    // first entry is tried already.
                    let new_next = if next > 1 {
                        next - 1
                    } else {
                        1
                    };
                    self.state.next_indices.insert(peer_id, new_next);
                    proof {
                        assert(self.state.next_indices@.dom() =~= old(self).state.next_indices@.dom());
                    }
                    let call = self.append_entries(peer_id);
                    (StateChange::Continue, call)
                }
            },
            _ => (StateChange::Continue, None),
        }
    }

    /// Whether an answer can be taken in: it is an error or speaks of entries, and an
    /// answer that still counts is from a peer and about entries of the log.
    pub open spec fn takes_response(
        &self,
        peer_id: NodeId,
        idx: LogIndex,
        res: RpcResult<M::Item>,
    ) -> bool {
        match res {
            Err(_) => true,
            Ok(RpcResponse::AppendEntries(resp)) => resp.term == self.inner.storage@.term ==> {
                &&& self.inner.peers@.contains(peer_id)
                &&& resp.success ==> idx <= self.inner.storage@.log.len() && idx < u64::MAX
            },
            Ok(_) => false,
        }
    }
}

/// What comes of a client request at the leader: a reply at once, or calls to the
/// peers and a reply when the entry is committed.
pub struct ClientOutcome<M: State, C, R> {
    pub reply: Option<(Waiter<C, R>, ClientResult<M::Item>)>,
    pub calls: Vec<AppendEntriesCall<M::Command>>,
    pub reset_heartbeat: bool,
}

impl<C, R, M: State> RaftWorker<Leader<C, R>, M> {
    /// Whether this is the leader `before` with one more entry, for which `waiter`
    /// waits, and `calls` bring it to the peers.
    pub open spec fn logged(
        &self,
        before: RaftWorker<Leader<C, R>, M>,
        cmd: M::Command,
        waiter: Waiter<C, R>,
        calls: Seq<AppendEntriesCall<M::Command>>,
    ) -> bool {
        let v = before.inner.storage@;
        let idx = (v.log.len() + 1) as u64;
        &&& self.inner == (RaftWorkerInner { storage: self.inner.storage, ..before.inner })
        &&& self.inner.storage.follows(before.inner.storage)
        &&& self.inner.storage@ == (StorageView {
            log: v.log.push(LogEntry { cmd, idx, term: v.term }),
            ..v
        })
        &&& self.state.next_indices == before.state.next_indices
        &&& self.state.match_indices == before.state.match_indices
        &&& self.state.in_flight@ == before.state.in_flight@.insert(idx, waiter)
        &&& self.are_calls(calls)
    }

    /// Whether `dump` describes the leader.
    pub open spec fn shown_in(&self, dump: RaftStateDump) -> bool {
        self.inner.describes(dump) && leader_reads(self.state, dump.state@)
    }

    /// Adds a command to the log and sends it to the peers.
    pub fn handle_log_update(&mut self, cmd: M::Command, waiter: Waiter<C, R>) -> (r: Vec<
        AppendEntriesCall<M::Command>,
    >)
        requires
            old(self).wf(),
            old(self).inner.storage@.log.len() < u64::MAX,
        ensures
            final(self).wf(),
            final(self).logged(*old(self), cmd, waiter, r@),
    {
        let idx = self.inner.storage.last_log_index() + 1;
        let entry = LogEntry { cmd, idx, term: self.inner.storage.current_term() };
        self.inner.storage.append_log(&entry);
        self.state.in_flight.insert(idx, waiter);
        self.append_entries_to_all()
    }

    /// Answers a client request, or starts to replicate what it asks.
    pub fn handle_client_request(
        &mut self,
        req: ClientRequest<M::Command, M::Key>,
        waiter: Waiter<C, R>,
    ) -> (r: ClientOutcome<M, C, R>) where C: Debug, R: Debug
        requires
            old(self).wf(),
            req is Apply ==> old(self).inner.storage@.log.len() < u64::MAX,
        ensures
            final(self).wf(),
            match req {
                ClientRequest::Apply(cmd) => {
                    &&& final(self).logged(*old(self), cmd, waiter, r.calls@)
                    &&& r.reply is None
                    &&& r.reset_heartbeat == M::renews(cmd)
                },
                ClientRequest::Get(key) => {
                    &&& *final(self) == *old(self)
                    &&& r.calls@.len() == 0
                    &&& !r.reset_heartbeat
                    &&& r.reply matches Some((to, Ok(ClientResponse::Get(item))))
                    &&& to == waiter
                    &&& M::finds(old(self).inner.current_state@, key, item)
                },
                ClientRequest::Debug => {
                    &&& *final(self) == *old(self)
                    &&& r.calls@.len() == 0
                    &&& !r.reset_heartbeat
                    &&& r.reply matches Some((to, Ok(ClientResponse::Debug(dump))))
                    &&& to == waiter
                    &&& old(self).shown_in(*dump)
                },
            },
    {
        match req {
            ClientRequest::Apply(cmd) => {
                let reset_heartbeat = M::renews_heartbeat(&cmd);
                let calls = self.handle_log_update(cmd, waiter);
                ClientOutcome { reply: None, calls, reset_heartbeat }
            },
            ClientRequest::Get(key) => {
                let item = self.handle_get_request(key);
                ClientOutcome {
                    reply: Some((waiter, Ok(ClientResponse::Get(item)))),
                    calls: Vec::new(),
                    reset_heartbeat: false,
                }
            },
            ClientRequest::Debug => {
                let dump = self.handle_debug();
                ClientOutcome {
                    reply: Some((waiter, Ok(ClientResponse::Debug(Box::new(dump))))),
                    calls: Vec::new(),
                    reset_heartbeat: false,
                }
            },
        }
    }

    /// Reads the state machine as of the last entry that was applied here.
    pub fn handle_get_request(&self, key: M::Key) -> (r: Option<M::Item>)
        ensures
            M::finds(self.inner.current_state@, key, r),
    {
        self.inner.current_state.get(key)
    }

    pub fn handle_debug(&self) -> (r: RaftStateDump) where C: Debug, R: Debug
        ensures
            self.shown_in(r),
    {
        self.state_dump()
    }

    /// Answers a request from another node. A request from a later term ends the
    /// leadership; a request that a node passes on for its client is like one from
    /// an own client.
    pub fn handle_rpc(&mut self, req: RpcRequest<M::Command, M::Key>, resp_tx: R) -> (r: (
        StateChange,
        Option<(R, RpcResponse<M::Item>)>,
        ClientOutcome<M, C, R>,
    )) where C: Debug, R: Debug
        requires
            old(self).wf(),
            fits_leader(old(self).inner, req),
            req matches RpcRequest::ForwardClientRequest(ClientRequest::Apply(_)) ==> old(
                self).inner.storage@.log.len() < u64::MAX,
        ensures
            final(self).inner.wf(),
            r.0 == StateChange::Continue ==> final(self).wf(),
            match req {
                RpcRequest::AppendEntries(q) => {
                    let term = old(self).inner.storage@.term;
                    &&& r.2.reply is None
                    &&& r.2.calls@.len() == 0
                    &&& !r.2.reset_heartbeat
                    &&& final(self).state == old(self).state
                    &&& final(self).inner.leader_id == old(self).inner.leader_id
                    &&& r.1 matches Some((to, RpcResponse::AppendEntries(resp)))
                    &&& to == resp_tx
                    &&& term < q.term ==> {
                        &&& r.0 == StateChange::BecomeFollower
                        &&& entries_step(old(self).inner, final(self).inner, q@, resp)
                    }
                    &&& term >= q.term ==> {
                        &&& r.0 == StateChange::Continue
                        &&& final(self).inner == old(self).inner
                        &&& resp == (AppendEntriesResponse { term, success: false })
                    }
                },
                RpcRequest::RequestVote(q) => {
                    let term = old(self).inner.storage@.term;
                    &&& r.2.reply is None
                    &&& r.2.calls@.len() == 0
                    &&& !r.2.reset_heartbeat
                    &&& final(self).state == old(self).state
                    &&& r.1 matches Some((to, RpcResponse::RequestVote(resp)))
                    &&& to == resp_tx
                    &&& term < q.term ==> {
                        &&& r.0 == StateChange::BecomeFollower
                        &&& vote_step(old(self).inner, final(self).inner, q, resp)
                    }
                    &&& term >= q.term ==> {
                        &&& r.0 == StateChange::Continue
                        &&& final(self).inner == old(self).inner
                        &&& resp == (RequestVoteResponse { term, vote_granted: false })
                    }
                },
                RpcRequest::ForwardClientRequest(ClientRequest::Apply(cmd)) => {
                    &&& r.0 == StateChange::Continue
                    &&& r.1 is None
                    &&& r.2.reply is None
                    &&& r.2.reset_heartbeat == M::renews(cmd)
                    &&& final(self).logged(*old(self), cmd, Waiter::Forwarded(resp_tx), r.2.calls@)
                },
                RpcRequest::ForwardClientRequest(ClientRequest::Get(key)) => {
                    &&& r.0 == StateChange::Continue
                    &&& r.1 is None
                    &&& *final(self) == *old(self)
                    &&& r.2.calls@.len() == 0
                    &&& !r.2.reset_heartbeat
                    &&& r.2.reply matches Some((to, Ok(ClientResponse::Get(item))))
                    &&& to == Waiter::<C, R>::Forwarded(resp_tx)
                    &&& M::finds(old(self).inner.current_state@, key, item)
                },
                RpcRequest::ForwardClientRequest(ClientRequest::Debug) => {
                    &&& r.0 == StateChange::Continue
                    &&& r.1 is None
                    &&& *final(self) == *old(self)
                    &&& r.2.calls@.len() == 0
                    &&& !r.2.reset_heartbeat
                    &&& r.2.reply matches Some((to, Ok(ClientResponse::Debug(dump))))
                    &&& to == Waiter::<C, R>::Forwarded(resp_tx)
                    &&& old(self).shown_in(*dump)
                },
            },
    {
        let term = self.inner.storage.current_term();
        let nothing = ClientOutcome { reply: None, calls: Vec::new(), reset_heartbeat: false };
        match req {
            RpcRequest::AppendEntries(req) => {
                if self.inner.storage.update_term(req.term) {
                    let ghost middle = self.inner.storage;
                    let resp = self.handle_append_entries(req);
                    proof {
                        self.inner.storage.lemma_follows_transitive(
                            middle,
                            old(self).inner.storage,
                        );
                    }
                    (
                        StateChange::BecomeFollower,
                        Some((resp_tx, RpcResponse::AppendEntries(resp))),
                        nothing,
                    )
                } else {
                    let resp = AppendEntriesResponse { term, success: false };
                    (
                        StateChange::Continue,
                        Some((resp_tx, RpcResponse::AppendEntries(resp))),
                        nothing,
                    )
                }
            },
            RpcRequest::RequestVote(req) => {
                if self.inner.storage.update_term(req.term) {
                    let ghost middle = self.inner.storage;
                    let resp = self.handle_request_vote(req);
                    proof {
                        self.inner.storage.lemma_follows_transitive(
                            middle,
                            old(self).inner.storage,
                        );
                    }
                    (
                        StateChange::BecomeFollower,
                        Some((resp_tx, RpcResponse::RequestVote(resp))),
                        nothing,
                    )
                } else {
                    let resp = RequestVoteResponse { term, vote_granted: false };
                    (
                        StateChange::Continue,
                        Some((resp_tx, RpcResponse::RequestVote(resp))),
                        nothing,
                    )
                }
            },
            RpcRequest::ForwardClientRequest(req) => {
                let outcome = self.handle_client_request(req, Waiter::Forwarded(resp_tx));
                (StateChange::Continue, None, outcome)
            },
        }
    }

    /// Gives up the leadership; whoever still waits gets no answer from this node.
    pub fn become_follower(self) -> (r: RaftWorker<Follower, M>)
        ensures
            r.inner == self.inner,
    {
        RaftWorker { inner: self.inner, state: Follower {  } }
    }
}

impl<C, R, M: State> RaftWorker<Leader<C, R>, M> {
    /// Whether the answer of a peer can be taken in.
    pub fn can_take_response(
        &self,
        peer_id: NodeId,
        idx: LogIndex,
        res: &RpcResult<M::Item>,
    ) -> (r: bool)
        requires
            self.wf(),
        ensures
            r == self.takes_response(peer_id, idx, *res),
    {
        match res {
            Err(_) => true,
            Ok(RpcResponse::AppendEntries(resp)) => {
                if resp.term != self.inner.storage.current_term() {
                    return true;
                }
                assert(self.inner.peers@.to_set().contains(peer_id)
                    == self.inner.peers@.contains(peer_id));
                self.state.next_indices.contains_key(&peer_id) && (!resp.success || (idx
                    <= self.inner.storage.last_log_index() && idx < u64::MAX))
            },
            Ok(_) => false,
        }
    }
}

} // verus!
