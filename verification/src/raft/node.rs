//! A node as a whole: one role at a time, moved on by events.

use super::errors::ClientError;
use super::storage::{after_term, Storage};
use super::worker::{
    acks, campaigning, earlier, entries_step, fits, fits_leader, quorum_of, vote_request, vote_step,
    AppendEntriesCall, Candidate, ClientOutcome, ClientResult, Follower, Leader, RaftWorker,
    RaftWorkerInner, RpcResult, StateChange, Waiter,
};
use super::{
    AppendEntriesResponse, ClientRequest, ClientResponse, LogIndex, NodeId, RequestVoteRequest,
    RequestVoteResponse, RpcRequest, RpcResponse, State,
};
use std::collections::HashMap;
use std::fmt::Debug;
use vstd::prelude::*;

verus! {

pub enum RaftWorkerState<M: State, C, R> {
    Follower(RaftWorker<Follower, M>),
    Candidate(RaftWorker<Candidate, M>),
    Leader(RaftWorker<Leader<C, R>, M>),
}

/// What a node reacts to. `C` and `R` are where the answers to clients and to other
/// nodes go.
pub enum Event<M: State, C, R> {
    /// A request from another node.
    Rpc(RpcRequest<M::Command, M::Key>, R),
    /// A request from a client of this node.
    Client(ClientRequest<M::Command, M::Key>, C),
    /// A peer got connected.
    NewPeer(NodeId),
    /// A peer gave its vote in the current election.
    Vote,
    /// The answer to entries up to an index.
    Response(NodeId, LogIndex, RpcResult<M::Item>),
    /// The timer ran out: no leader was heard of, no election was decided, or the
    /// next heartbeat is due.
    Timeout,
}

/// What becomes of the timer.
#[derive(Debug, Clone, Copy, PartialEq, Eq, Structural)]
pub enum Timer {
    /// It goes on.
    Keep,
    /// It starts anew, with an election timeout.
    Election,
    /// It starts anew, with the time between heartbeats.
    Heartbeat,
    /// It runs out at once.
    Now,
}

/// What has to be done after an event.
pub struct Effects<M: State, C, R> {
    /// Answers to other nodes.
    pub responses: Vec<(R, RpcResponse<M::Item>)>,
    /// Answers to clients, here or behind another node.
    pub replies: Vec<(Waiter<C, R>, ClientResult<M::Item>)>,
    /// Entries for peers.
    pub calls: Vec<AppendEntriesCall<M::Command>>,
    /// A request for votes, and who gets it.
    pub vote_request: Option<(Vec<NodeId>, RequestVoteRequest)>,
    /// A client request for the leader.
    pub forward: Option<(NodeId, ClientRequest<M::Command, M::Key>, C)>,
    pub timer: Timer,
}

impl<M: State, C, R> Effects<M, C, R> {
    /// Whether there is nothing but, perhaps, a new timer.
    pub open spec fn only_timer(&self, timer: Timer) -> bool {
        &&& self.responses@.len() == 0
        &&& self.replies@.len() == 0
        &&& self.calls@.len() == 0
        &&& self.vote_request is None
        &&& self.forward is None
        &&& self.timer == timer
    }

    pub open spec fn only_response(&self, to: R, timer: Timer) -> bool {
        &&& self.responses@.len() == 1
        &&& self.responses@[0].0 == to
        &&& self.replies@.len() == 0
        &&& self.calls@.len() == 0
        &&& self.vote_request is None
        &&& self.forward is None
        &&& self.timer == timer
    }

    pub open spec fn only_reply(&self, to: Waiter<C, R>, timer: Timer) -> bool {
        &&& self.responses@.len() == 0
        &&& self.replies@.len() == 1
        &&& self.replies@[0].0 == to
        &&& self.calls@.len() == 0
        &&& self.vote_request is None
        &&& self.forward is None
        &&& self.timer == timer
    }

    pub open spec fn only_calls(&self, timer: Timer) -> bool {
        &&& self.responses@.len() == 0
        &&& self.replies@.len() == 0
        &&& self.vote_request is None
        &&& self.forward is None
        &&& self.timer == timer
    }

    fn none() -> (r: Self)
        ensures
            r.only_timer(Timer::Keep),
    {
        Effects {
            responses: Vec::new(),
            replies: Vec::new(),
            calls: Vec::new(),
            vote_request: None,
            forward: None,
            timer: Timer::Keep,
        }
    }
}

/// Whether `post` is `pre` at the start of an election, with `eff` asking for votes.
pub open spec fn campaign_starts<M: State, C, R>(
    pre: RaftWorkerInner<M>,
    post: RaftWorker<Candidate, M>,
    eff: Effects<M, C, R>,
) -> bool {
    &&& post.state.votes == 1
    &&& post.inner.only_log_moved(pre)
    &&& post.inner.commit_index == pre.commit_index
    &&& post.inner.storage@ == campaigning(pre.storage@, pre.node_id)
    &&& eff.responses@.len() == 0
    &&& eff.replies@.len() == 0
    &&& eff.calls@.len() == 0
    &&& eff.forward is None
    &&& eff.timer == Timer::Election
    &&& eff.vote_request matches Some((to, req))
    &&& req == vote_request(post.inner.storage@, pre.node_id)
    &&& to@.no_duplicates()
    &&& forall|id: NodeId| #[trigger] to@.contains(id) <==> pre.is_online(id)
}

/// How a follower moves on.
pub open spec fn follower_steps<M: State, C, R>(
    pre: RaftWorker<Follower, M>,
    ev: Event<M, C, R>,
    post: RaftWorkerState<M, C, R>,
    eff: Effects<M, C, R>,
) -> bool {
    match ev {
        Event::Rpc(RpcRequest::RequestVote(q), tx) => {
            &&& post matches RaftWorkerState::Follower(w)
            &&& eff.only_response(tx, Timer::Keep)
            &&& eff.responses@[0].1 matches RpcResponse::RequestVote(resp)
            &&& vote_step(pre.inner, w.inner, q, resp)
        },
        Event::Rpc(RpcRequest::AppendEntries(q), tx) => {
            &&& post matches RaftWorkerState::Follower(w)
            &&& eff.only_response(tx, Timer::Election)
            &&& eff.responses@[0].1 matches RpcResponse::AppendEntries(resp)
            &&& entries_step(pre.inner, w.inner, q@, resp)
            &&& w.inner.leader_id == Some(q.leader_id)
        },
        Event::Rpc(RpcRequest::ForwardClientRequest(_), tx) => {
            &&& post matches RaftWorkerState::Follower(w)
            &&& w.inner == pre.inner
            &&& eff.only_response(tx, Timer::Keep)
            &&& eff.responses@[0].1 == RpcResponse::<M::Item>::ForwardClientRequest(
                Err(ClientError::Unavailable),
            )
        },
        Event::Client(req, tx) => {
            &&& post matches RaftWorkerState::Follower(w)
            &&& w.inner == pre.inner
            &&& match pre.inner.leader_id {
                Some(leader) if pre.inner.peer_clients@.contains_key(leader) => {
                    &&& eff.responses@.len() == 0
                    &&& eff.replies@.len() == 0
                    &&& eff.calls@.len() == 0
                    &&& eff.vote_request is None
                    &&& eff.forward == Some((leader, req, tx))
                    &&& eff.timer == Timer::Keep
                },
                _ => {
                    &&& eff.only_reply(Waiter::Client(tx), Timer::Keep)
                    &&& eff.replies@[0].1 == ClientResult::<M::Item>::Err(ClientError::Unavailable)
                },
            }
        },
        Event::NewPeer(id) => {
            &&& post matches RaftWorkerState::Follower(w)
            &&& w.inner.peer_clients@ == pre.inner.peer_clients@.insert(id, true)
            &&& w.inner == (RaftWorkerInner { peer_clients: w.inner.peer_clients, ..pre.inner })
            &&& eff.only_timer(Timer::Keep)
        },
        Event::Timeout => {
            &&& post matches RaftWorkerState::Candidate(w)
            &&& w.inner.leader_id is None
            &&& campaign_starts(pre.inner, w, eff)
        },
        _ => false,
    }
}

/// How a candidate moves on.
pub open spec fn candidate_steps<M: State, C, R>(
    pre: RaftWorker<Candidate, M>,
    ev: Event<M, C, R>,
    post: RaftWorkerState<M, C, R>,
    eff: Effects<M, C, R>,
) -> bool {
    match ev {
        Event::Vote => if pre.state.votes + 1 >= quorum_of(pre.inner.cluster_size) {
            &&& post matches RaftWorkerState::Leader(w)
            &&& w.inner == (RaftWorkerInner { leader_id: Some(pre.inner.node_id), ..pre.inner })
            &&& fresh_progress(w)
            &&& eff.only_timer(Timer::Now)
        } else {
            &&& post matches RaftWorkerState::Candidate(w)
            &&& w.inner == pre.inner
            &&& w.state.votes == pre.state.votes + 1
            &&& eff.only_timer(Timer::Keep)
        },
        Event::Rpc(RpcRequest::RequestVote(q), tx) => {
            &&& eff.responses@.len() == 1
            &&& eff.responses@[0].1 matches RpcResponse::RequestVote(resp)
            &&& if pre.inner.storage@.term < q.term {
                &&& post matches RaftWorkerState::Follower(w)
                &&& vote_step(pre.inner, w.inner, q, resp)
                &&& eff.only_response(tx, Timer::Election)
            } else {
                &&& post matches RaftWorkerState::Candidate(w)
                &&& vote_step(pre.inner, w.inner, q, resp)
                &&& w.state == pre.state
                &&& eff.only_response(tx, Timer::Keep)
            }
        },
        Event::Rpc(RpcRequest::AppendEntries(q), tx) => {
            &&& post matches RaftWorkerState::Follower(w)
            &&& eff.only_response(tx, Timer::Election)
            &&& eff.responses@[0].1 matches RpcResponse::AppendEntries(resp)
            &&& entries_step(pre.inner, w.inner, q@, resp)
            &&& w.inner.leader_id == pre.inner.leader_id
        },
        Event::Rpc(RpcRequest::ForwardClientRequest(_), tx) => {
            &&& post == RaftWorkerState::<M, C, R>::Candidate(pre)
            &&& eff.only_response(tx, Timer::Keep)
            &&& eff.responses@[0].1 == RpcResponse::<M::Item>::ForwardClientRequest(
                Err(ClientError::Unavailable),
            )
        },
        Event::Timeout => {
            &&& post matches RaftWorkerState::Candidate(w)
            &&& w.inner.leader_id == pre.inner.leader_id
            &&& campaign_starts(pre.inner, w, eff)
        },
        _ => false,
    }
}

/// The progress of the peers as a new leader takes it to be.
pub open spec fn fresh_progress<M: State, C, R>(w: RaftWorker<Leader<C, R>, M>) -> bool {
    &&& w.state.next_indices@.dom() == w.inner.peers@.to_set()
    &&& forall|p: NodeId| #[trigger]
        w.state.next_indices@.contains_key(p) ==> w.state.next_indices@[p]
            == w.inner.storage@.log.len() + 1
    &&& w.state.match_indices@.dom() == w.inner.peers@.to_set()
    &&& forall|p: NodeId| #[trigger]
        w.state.match_indices@.contains_key(p) ==> w.state.match_indices@[p] == 0
    &&& w.state.in_flight@ == Map::<LogIndex, Waiter<C, R>>::empty()
}

/// How a leader answers a client.
pub open spec fn leader_serves<M: State, C, R>(
    pre: RaftWorker<Leader<C, R>, M>,
    req: ClientRequest<M::Command, M::Key>,
    waiter: Waiter<C, R>,
    post: RaftWorkerState<M, C, R>,
    eff: Effects<M, C, R>,
) -> bool {
    &&& post matches RaftWorkerState::Leader(w)
    &&& match req {
        ClientRequest::Apply(cmd) => {
            &&& w.logged(pre, cmd, waiter, eff.calls@)
            &&& eff.only_calls(
                if M::renews(cmd) {
                    Timer::Heartbeat
                } else {
                    Timer::Keep
                },
            )
        },
        ClientRequest::Get(key) => {
            &&& w == pre
            &&& eff.only_reply(waiter, Timer::Keep)
            &&& eff.replies@[0].1 matches Ok(ClientResponse::Get(item))
            &&& M::finds(pre.inner.current_state@, key, item)
        },
        ClientRequest::Debug => {
            &&& w == pre
            &&& eff.only_reply(waiter, Timer::Keep)
            &&& eff.replies@[0].1 matches Ok(ClientResponse::Debug(dump))
            &&& pre.shown_in(*dump)
        },
    }
}

/// How a leader moves on.
pub open spec fn leader_steps<M: State, C, R>(
    pre: RaftWorker<Leader<C, R>, M>,
    ev: Event<M, C, R>,
    post: RaftWorkerState<M, C, R>,
    eff: Effects<M, C, R>,
) -> bool {
    match ev {
        Event::Rpc(RpcRequest::AppendEntries(q), tx) => {
            let term = pre.inner.storage@.term;
            &&& eff.responses@.len() == 1
            &&& eff.responses@[0].1 matches RpcResponse::AppendEntries(resp)
            &&& if term < q.term {
                &&& post matches RaftWorkerState::Follower(w)
                &&& entries_step(pre.inner, w.inner, q@, resp)
                &&& w.inner.leader_id == pre.inner.leader_id
                &&& eff.only_response(tx, Timer::Election)
            } else {
                &&& post == RaftWorkerState::Leader(pre)
                &&& resp == (AppendEntriesResponse { term, success: false })
                &&& eff.only_response(tx, Timer::Keep)
            }
        },
        Event::Rpc(RpcRequest::RequestVote(q), tx) => {
            let term = pre.inner.storage@.term;
            &&& eff.responses@.len() == 1
            &&& eff.responses@[0].1 matches RpcResponse::RequestVote(resp)
            &&& if term < q.term {
                &&& post matches RaftWorkerState::Follower(w)
                &&& vote_step(pre.inner, w.inner, q, resp)
                &&& eff.only_response(tx, Timer::Election)
            } else {
                &&& post == RaftWorkerState::Leader(pre)
                &&& resp == (RequestVoteResponse { term, vote_granted: false })
                &&& eff.only_response(tx, Timer::Keep)
            }
        },
        Event::Rpc(RpcRequest::ForwardClientRequest(req), tx) => leader_serves(
            pre,
            req,
            Waiter::Forwarded(tx),
            post,
            eff,
        ),
        Event::Client(req, tx) => leader_serves(pre, req, Waiter::Client(tx), post, eff),
        Event::Response(peer, idx, res) => response_taken(pre, peer, idx, res, post, eff),
        Event::Timeout => {
            &&& post == RaftWorkerState::Leader(pre)
            &&& pre.are_calls(eff.calls@)
            &&& eff.only_calls(Timer::Heartbeat)
        },
        _ => false,
    }
}

/// How a leader takes in the answer of a peer to the entries up to `idx`.
pub open spec fn response_taken<M: State, C, R>(
    pre: RaftWorker<Leader<C, R>, M>,
    peer: NodeId,
    idx: LogIndex,
    res: RpcResult<M::Item>,
    post: RaftWorkerState<M, C, R>,
    eff: Effects<M, C, R>,
) -> bool {
    let term = pre.inner.storage@.term;
    match res {
        Ok(RpcResponse::AppendEntries(resp)) if resp.term >= term => if resp.term > term {
            &&& post matches RaftWorkerState::Follower(w)
            &&& w.inner == (RaftWorkerInner { storage: w.inner.storage, ..pre.inner })
            &&& w.inner.storage.follows(pre.inner.storage)
            &&& w.inner.storage@ == after_term(pre.inner.storage@, resp.term)
            &&& eff.only_timer(Timer::Election)
        } else {
            let next = pre.state.next_indices@[peer];
            let matched = pre.state.match_indices@[peer];
            &&& post matches RaftWorkerState::Leader(w)
            &&& w.inner == pre.inner
            &&& w.state.in_flight == pre.state.in_flight
            &&& eff.only_calls(Timer::Keep)
            &&& if resp.success {
                &&& eff.calls@.len() == 0
                &&& w.state.next_indices@ == pre.state.next_indices@.insert(
                    peer,
                    if next > idx {
                        next
                    } else {
                        (idx + 1) as u64
                    },
                )
                &&& w.state.match_indices@ == pre.state.match_indices@.insert(
                    peer,
                    if matched > idx {
                        matched
                    } else {
                        idx
                    },
                )
            } else {
                &&& w.state.next_indices@ == pre.state.next_indices@.insert(peer, earlier(next))
                &&& w.state.match_indices == pre.state.match_indices
                &&& if pre.inner.is_online(peer) {
                    eff.calls@.len() == 1 && w.is_call(eff.calls@[0], peer)
                } else {
                    eff.calls@.len() == 0
                }
            }
        },
        _ => {
            &&& post == RaftWorkerState::Leader(pre)
            &&& eff.only_timer(Timer::Keep)
        },
    }
}

impl<M: State, C, R> RaftWorkerState<M, C, R> {
    pub open spec fn inner(&self) -> RaftWorkerInner<M> {
        match *self {
            RaftWorkerState::Follower(w) => w.inner,
            RaftWorkerState::Candidate(w) => w.inner,
            RaftWorkerState::Leader(w) => w.inner,
        }
    }

    pub open spec fn wf(&self) -> bool {
        match *self {
            RaftWorkerState::Follower(w) => w.inner.wf(),
            RaftWorkerState::Candidate(w) => {
                &&& w.inner.wf()
                &&& w.state.votes == 1 || 1 < w.state.votes < quorum_of(w.inner.cluster_size)
            },
            RaftWorkerState::Leader(w) => w.wf(),
        }
    }

    /// Whether the node waits for such an event in its role and can take it: terms
    /// and indices that it counts up are not at their end, and what other nodes say
    /// fits its log.
    pub open spec fn takes(&self, ev: Event<M, C, R>) -> bool {
        match (*self, ev) {
            (RaftWorkerState::Follower(w), Event::Rpc(req, _)) => fits(w.inner, req),
            (RaftWorkerState::Follower(_), Event::Client(_, _)) => true,
            (RaftWorkerState::Follower(_), Event::NewPeer(_)) => true,
            (RaftWorkerState::Follower(w), Event::Timeout) => w.inner.storage@.term < u64::MAX,
            (RaftWorkerState::Candidate(w), Event::Rpc(req, _)) => fits(w.inner, req),
            (RaftWorkerState::Candidate(w), Event::Vote) => w.inner.storage@.log.len() < u64::MAX,
            (RaftWorkerState::Candidate(w), Event::Timeout) => w.inner.storage@.term < u64::MAX,
            (RaftWorkerState::Leader(w), Event::Rpc(req, _)) => {
                &&& fits_leader(w.inner, req)
                &&& req matches RpcRequest::ForwardClientRequest(ClientRequest::Apply(_))
                    ==> w.inner.storage@.log.len() < u64::MAX
            },
            (RaftWorkerState::Leader(w), Event::Client(req, _)) => req is Apply
                ==> w.inner.storage@.log.len() < u64::MAX,
            (RaftWorkerState::Leader(w), Event::Response(peer, idx, res)) => w.takes_response(
                peer,
                idx,
                res,
            ),
            (RaftWorkerState::Leader(_), Event::Timeout) => true,
            _ => false,
        }
    }

    /// How the node moves on.
    pub open spec fn steps(
        &self,
        ev: Event<M, C, R>,
        post: RaftWorkerState<M, C, R>,
        eff: Effects<M, C, R>,
    ) -> bool {
        match *self {
            RaftWorkerState::Follower(w) => follower_steps(w, ev, post, eff),
            RaftWorkerState::Candidate(w) => candidate_steps(w, ev, post, eff),
            RaftWorkerState::Leader(w) => leader_steps(w, ev, post, eff),
        }
    }

    /// Reacts to an event.
    pub fn next(self, ev: Event<M, C, R>) -> (r: (Self, Effects<M, C, R>)) where C: Debug, R: Debug
        requires
            self.wf(),
            self.takes(ev),
        ensures
            r.0.wf(),
            self.steps(ev, r.0, r.1),
    {
        match self {
            RaftWorkerState::Follower(worker) => follower_next(worker, ev),
            RaftWorkerState::Candidate(worker) => candidate_next(worker, ev),
            RaftWorkerState::Leader(worker) => leader_next(worker, ev),
        }
    }
}

/// A node at its start: a follower that knows of no leader, with nothing committed.
pub fn run<M: State, C, R>(
    node_id: NodeId,
    session_key: u128,
    peers: Vec<NodeId>,
    peer_clients: HashMap<NodeId, bool>,
    storage: Storage<M::Command>,
    current_state: M,
) -> (r: RaftWorkerState<M, C, R>)
    requires
        storage.wf(),
        peers@.no_duplicates(),
        peers@.len() < usize::MAX,
    ensures
        r.wf(),
        r matches RaftWorkerState::Follower(w) && w.inner == (RaftWorkerInner {
            leader_id: None,
            node_id,
            session_key,
            cluster_size: (peers@.len() + 1) as usize,
            current_state,
            peers,
            peer_clients,
            commit_index: 0,
            last_applied: 0,
            storage,
        }),
{
    let cluster_size = peers.len() + 1;
    RaftWorkerState::Follower(
        RaftWorker::new(
            RaftWorkerInner {
                leader_id: None,
                node_id,
                session_key,
                cluster_size,
                current_state,
                peers,
                peer_clients,
                commit_index: 0,
                last_applied: 0,
                storage,
            },
        ),
    )
}

impl<M: State, C, R> RaftWorkerState<M, C, R> {
    /// Looks into the state machine of this node, whatever its role.
    pub fn read(&self, key: M::Key) -> (r: Option<M::Item>)
        ensures
            M::finds(self.inner().current_state@, key, r),
    {
        match self {
            RaftWorkerState::Follower(w) => w.inner.current_state.get(key),
            RaftWorkerState::Candidate(w) => w.inner.current_state.get(key),
            RaftWorkerState::Leader(w) => w.inner.current_state.get(key),
        }
    }
}

/// What a node does before it waits for the next event.
pub struct Settled<M: State, C, R> {
    /// Answers to those whose entries got committed.
    pub replies: Vec<(Waiter<C, R>, ClientResult<M::Item>)>,
    /// Whether all that is committed is applied, or the index of an entry that the
    /// state machine does not admit.
    pub applied: Result<(), LogIndex>,
}

impl<M: State, C, R> RaftWorkerState<M, C, R> {
    /// Whether `post` is this node with all committed that can be, and with what is
    /// committed applied.
    pub open spec fn settles(
        &self,
        post: RaftWorkerState<M, C, R>,
        settled: Settled<M, C, R>,
    ) -> bool {
        match (*self, post) {
            (RaftWorkerState::Follower(pre), RaftWorkerState::Follower(w)) => {
                &&& w.inner.applied_log(pre.inner, settled.applied)
                &&& settled.replies@.len() == 0
            },
            (RaftWorkerState::Candidate(pre), RaftWorkerState::Candidate(w)) => {
                &&& w.state == pre.state
                &&& w.inner.applied_log(pre.inner, settled.applied)
                &&& settled.replies@.len() == 0
            },
            (RaftWorkerState::Leader(pre), RaftWorkerState::Leader(w)) => {
                let commit = w.inner.commit_index;
                &&& pre.commits_to(commit)
                &&& w.inner.applied_log(
                    RaftWorkerInner { commit_index: commit, ..pre.inner },
                    settled.applied,
                )
                &&& settled.replies@ == acks::<C, R, M::Item>(
                    pre.state.in_flight@,
                    pre.inner.commit_index,
                    commit,
                )
                &&& w.state.next_indices == pre.state.next_indices
                &&& w.state.match_indices == pre.state.match_indices
                &&& forall|n: LogIndex| #[trigger]
                    w.state.in_flight@.contains_key(n) <==> pre.state.in_flight@.contains_key(n)
                        && !(pre.inner.commit_index < n <= commit)
                &&& forall|n: LogIndex| #[trigger]
                    w.state.in_flight@.contains_key(n) ==> w.state.in_flight@[n]
                        == pre.state.in_flight@[n]
            },
            _ => false,
        }
    }

    /// Commits and applies what is due.
    pub fn settle(self) -> (r: (Self, Settled<M, C, R>))
        requires
            self.wf(),
        ensures
            r.0.wf(),
            self.settles(r.0, r.1),
    {
        match self {
            RaftWorkerState::Follower(mut w) => {
                let applied = w.apply_log();
                (RaftWorkerState::Follower(w), Settled { replies: Vec::new(), applied })
            },
            RaftWorkerState::Candidate(mut w) => {
                let applied = w.apply_log();
                (RaftWorkerState::Candidate(w), Settled { replies: Vec::new(), applied })
            },
            RaftWorkerState::Leader(mut w) => {
                let replies = w.advance_commit_index();
                let applied = w.apply_log();
                (RaftWorkerState::Leader(w), Settled { replies, applied })
            },
        }
    }

    /// Whether the node waits for such an event and can take it.
    pub fn can_take(&self, ev: &Event<M, C, R>) -> (r: bool)
        requires
            self.wf(),
        ensures
            r == self.takes(*ev),
    {
        match self {
            RaftWorkerState::Follower(w) => match ev {
                Event::Rpc(req, _) => w.inner.can_fit(req),
                Event::Client(_, _) => true,
                Event::NewPeer(_) => true,
                Event::Timeout => w.inner.storage.current_term() < u64::MAX,
                _ => false,
            },
            RaftWorkerState::Candidate(w) => match ev {
                Event::Rpc(req, _) => w.inner.can_fit(req),
                Event::Vote => w.inner.storage.last_log_index() < u64::MAX,
                Event::Timeout => w.inner.storage.current_term() < u64::MAX,
                _ => false,
            },
            RaftWorkerState::Leader(w) => match ev {
                Event::Rpc(req, _) => match req {
                    RpcRequest::ForwardClientRequest(ClientRequest::Apply(_)) => {
                        w.inner.storage.last_log_index() < u64::MAX
                    },
                    _ => w.inner.can_fit_leader(req),
                },
                Event::Client(req, _) => match req {
                    ClientRequest::Apply(_) => w.inner.storage.last_log_index() < u64::MAX,
                    _ => true,
                },
                Event::Response(peer_id, idx, res) => w.can_take_response(*peer_id, *idx, res),
                Event::Timeout => true,
                _ => false,
            },
        }
    }

    /// A connection was lost, or is back.
    pub fn set_connected(&mut self, peer_id: NodeId, connected: bool)
        requires
            old(self).wf(),
        ensures
            final(self).wf(),
            match (*old(self), *final(self)) {
                (RaftWorkerState::Follower(pre), RaftWorkerState::Follower(w)) => {
                    reconnected(pre.inner, w.inner, peer_id, connected)
                },
                (RaftWorkerState::Candidate(pre), RaftWorkerState::Candidate(w)) => {
                    w.state == pre.state && reconnected(pre.inner, w.inner, peer_id, connected)
                },
                (RaftWorkerState::Leader(pre), RaftWorkerState::Leader(w)) => {
                    w.state == pre.state && reconnected(pre.inner, w.inner, peer_id, connected)
                },
                _ => false,
            },
    {
        match self {
            RaftWorkerState::Follower(w) => {
                w.inner.peer_clients.insert(peer_id, connected);
            },
            RaftWorkerState::Candidate(w) => {
                w.inner.peer_clients.insert(peer_id, connected);
            },
            RaftWorkerState::Leader(w) => {
                w.inner.peer_clients.insert(peer_id, connected);
            },
        }
    }
}

/// Whether `post` is `pre` but for the connection of one peer.
pub open spec fn reconnected<M: State>(
    pre: RaftWorkerInner<M>,
    post: RaftWorkerInner<M>,
    peer_id: NodeId,
    connected: bool,
) -> bool {
    &&& post.peer_clients@ == pre.peer_clients@.insert(peer_id, connected)
    &&& post == (RaftWorkerInner { peer_clients: post.peer_clients, ..pre })
}

fn follower_next<M: State, C, R>(worker: RaftWorker<Follower, M>, ev: Event<M, C, R>) -> (r: (
    RaftWorkerState<M, C, R>,
    Effects<M, C, R>,
))
    requires
        worker.inner.wf(),
        RaftWorkerState::<M, C, R>::Follower(worker).takes(ev),
    ensures
        r.0.wf(),
        follower_steps(worker, ev, r.0, r.1),
{
    let mut w = worker;
    let mut eff = Effects::none();
    match ev {
        Event::Rpc(req, resp_tx) => {
            let (resp, heartbeat) = w.handle_rpc(req);
            eff.responses.push((resp_tx, resp));
            if heartbeat {
                eff.timer = Timer::Election;
            }
            (RaftWorkerState::Follower(w), eff)
        },
        Event::Client(req, resp_tx) => {
            match w.forward_client_request() {
                Ok(leader) => {
                    eff.forward = Some((leader, req, resp_tx));
                },
                Err(err) => {
                    eff.replies.push((Waiter::Client(resp_tx), Err(err)));
                },
            }
            (RaftWorkerState::Follower(w), eff)
        },
        Event::NewPeer(id) => {
            w.handle_new_peer(id);
            (RaftWorkerState::Follower(w), eff)
        },
        _ => {
            let mut c = w.become_candidate();
            eff.vote_request = Some(c.start_election());
            eff.timer = Timer::Election;
            (RaftWorkerState::Candidate(c), eff)
        },
    }
}

fn candidate_next<M: State, C, R>(worker: RaftWorker<Candidate, M>, ev: Event<M, C, R>) -> (r: (
    RaftWorkerState<M, C, R>,
    Effects<M, C, R>,
))
    requires
        RaftWorkerState::<M, C, R>::Candidate(worker).wf(),
        RaftWorkerState::<M, C, R>::Candidate(worker).takes(ev),
    ensures
        r.0.wf(),
        candidate_steps(worker, ev, r.0, r.1),
{
    let mut w = worker;
    let mut eff = Effects::none();
    match ev {
        Event::Vote => {
            if w.handle_vote() {
                eff.timer = Timer::Now;
                (RaftWorkerState::Leader(w.become_leader()), eff)
            } else {
                (RaftWorkerState::Candidate(w), eff)
            }
        },
        Event::Rpc(req, resp_tx) => {
            let (resp, change) = w.handle_rpc(req);
            eff.responses.push((resp_tx, resp));
            match change {
                StateChange::BecomeFollower => {
                    eff.timer = Timer::Election;
                    (RaftWorkerState::Follower(w.become_follower()), eff)
                },
                StateChange::Continue => (RaftWorkerState::Candidate(w), eff),
            }
        },
        _ => {
            eff.vote_request = Some(w.start_election());
            eff.timer = Timer::Election;
            (RaftWorkerState::Candidate(w), eff)
        },
    }
}

fn leader_next<M: State, C: Debug, R: Debug>(
    worker: RaftWorker<Leader<C, R>, M>,
    ev: Event<M, C, R>,
) -> (r: (
    RaftWorkerState<M, C, R>,
    Effects<M, C, R>,
))
    requires
        worker.wf(),
        RaftWorkerState::<M, C, R>::Leader(worker).takes(ev),
    ensures
        r.0.wf(),
        leader_steps(worker, ev, r.0, r.1),
{
    let mut w = worker;
    let mut eff = Effects::none();
    match ev {
        Event::Rpc(req, resp_tx) => {
            let (change, response, outcome) = w.handle_rpc(req, resp_tx);
            eff = client_effects(outcome);
            match response {
                Some(resp) => {
                    eff.responses.push(resp);
                },
                None => {},
            }
            match change {
                StateChange::BecomeFollower => {
                    eff.timer = Timer::Election;
                    (RaftWorkerState::Follower(w.become_follower()), eff)
                },
                StateChange::Continue => (RaftWorkerState::Leader(w), eff),
            }
        },
        Event::Client(req, resp_tx) => {
            let outcome = w.handle_client_request(req, Waiter::Client(resp_tx));
            (RaftWorkerState::Leader(w), client_effects(outcome))
        },
        Event::Response(peer_id, idx, res) => {
            let (change, call) = w.handle_append_entries_response(peer_id, idx, res);
            match call {
                Some(call) => {
                    eff.calls.push(call);
                },
                None => {},
            }
            match change {
                StateChange::BecomeFollower => {
                    eff.timer = Timer::Election;
                    (RaftWorkerState::Follower(w.become_follower()), eff)
                },
                StateChange::Continue => (RaftWorkerState::Leader(w), eff),
            }
        },
        _ => {
            eff.calls = w.append_entries_to_all();
            eff.timer = Timer::Heartbeat;
            (RaftWorkerState::Leader(w), eff)
        },
    }
}

fn client_effects<M: State, C, R>(outcome: ClientOutcome<M, C, R>) -> (r: Effects<M, C, R>)
    ensures
        r.responses@.len() == 0,
        r.vote_request is None,
        r.forward is None,
        r.calls == outcome.calls,
        r.timer == if outcome.reset_heartbeat {
            Timer::Heartbeat
        } else {
            Timer::Keep
        },
        match outcome.reply {
            Some(reply) => r.replies@ == seq![reply],
            None => r.replies@.len() == 0,
        },
{
    let mut eff = Effects::none();
    eff.calls = outcome.calls;
    match outcome.reply {
        Some(reply) => {
            eff.replies.push(reply);
        },
        None => {},
    }
    if outcome.reset_heartbeat {
        eff.timer = Timer::Heartbeat;
    }
    eff
}

} // verus!
