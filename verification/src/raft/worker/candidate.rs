//! A node that campaigns: it asks the others for their votes.

use super::super::errors::ClientError;
use super::super::storage::{term_at, StorageView};
use super::super::{LogIndex, NodeId, RequestVoteRequest, RpcRequest, RpcResponse, State};
use super::{
    entries_step, fits, quorum_of, vote_step, Follower, Leader, RaftWorker, RaftWorkerInner,
    RpcResult, StateChange, Waiter,
};
use std::collections::HashMap;
use vstd::prelude::*;

verus! {

/// A node that campaigns, with the votes it has so far.
#[derive(Debug)]
pub struct Candidate {
    pub votes: usize,
}

impl<M: State> RaftWorker<Candidate, M> {
    /// Starts an election: a new term, the own vote, and the request for the others.
    pub fn start_election(&mut self) -> (r: (Vec<NodeId>, RequestVoteRequest))
        requires
            old(self).inner.wf(),
            old(self).inner.storage@.term < u64::MAX,
        ensures
            final(self).inner.wf(),
            final(self).state.votes == 1,
            final(self).inner.only_log_moved(old(self).inner),
            final(self).inner.leader_id == old(self).inner.leader_id,
            final(self).inner.commit_index == old(self).inner.commit_index,
            final(self).inner.storage@ == campaigning(
                old(self).inner.storage@,
                old(self).inner.node_id,
            ),
            r.1 == vote_request(final(self).inner.storage@, final(self).inner.node_id),
            r.0@.no_duplicates(),
            forall|id: NodeId| #[trigger] r.0@.contains(id) <==> final(self).inner.is_online(id),
    {
        self.inner.storage.increment_term();
        let ghost middle = self.inner.storage;
        self.vote_for_self();
        proof {
            self.inner.storage.lemma_follows_transitive(middle, old(self).inner.storage);
        }
        self.state.votes = 1;
        self.request_votes()
    }

    fn vote_for_self(&mut self)
        requires
            old(self).inner.wf(),
        ensures
            final(self).inner.wf(),
            final(self).inner == (RaftWorkerInner {
                storage: final(self).inner.storage,
                ..old(self).inner
            }),
            final(self).inner.storage.follows(old(self).inner.storage),
            final(self).inner.storage@ == (StorageView {
                voted_for: Some(old(self).inner.node_id),
                ..old(self).inner.storage@
            }),
            final(self).state == old(self).state,
    {
        self.inner.storage.set_voted_for(Some(self.inner.node_id));
    }

    /// The request for votes, and the peers that it goes to.
    pub fn request_votes(&self) -> (r: (Vec<NodeId>, RequestVoteRequest))
        requires
            self.inner.wf(),
        ensures
            r.1 == vote_request(self.inner.storage@, self.inner.node_id),
            r.0@.no_duplicates(),
            forall|id: NodeId| #[trigger] r.0@.contains(id) <==> self.inner.is_online(id),
    {
        let req = RequestVoteRequest {
            term: self.inner.storage.current_term(),
            candidate: self.inner.node_id,
            last_log_index: self.inner.storage.last_log_index(),
            last_log_term: self.inner.storage.last_log_term(),
        };
        (self.inner.online_peers(), req)
    }

    /// Counts one more vote. Returns whether the election is won.
    pub fn handle_vote(&mut self) -> (r: bool)
        requires
            old(self).state.votes < usize::MAX,
        ensures
            final(self).inner == old(self).inner,
            final(self).state.votes == old(self).state.votes + 1,
            r == (final(self).state.votes >= quorum_of(old(self).inner.cluster_size)),
    {
        self.state.votes = self.state.votes + 1;
        self.state.votes >= self.quorum()
    }

    /// Answers a request from another node.
    pub fn handle_rpc(&mut self, req: RpcRequest<M::Command, M::Key>) -> (r: (
        RpcResponse<M::Item>,
        StateChange,
    ))
        requires
            old(self).inner.wf(),
            fits(old(self).inner, req),
        ensures
            final(self).inner.wf(),
            final(self).state == old(self).state,
            final(self).inner.leader_id == old(self).inner.leader_id,
            match req {
                RpcRequest::RequestVote(q) => {
                    &&& r.0 matches RpcResponse::RequestVote(resp)
                    &&& vote_step(old(self).inner, final(self).inner, q, resp)
                    &&& r.1 == if old(self).inner.storage@.term < q.term {
                        StateChange::BecomeFollower
                    } else {
                        StateChange::Continue
                    }
                },
                RpcRequest::AppendEntries(q) => {
                    &&& r.0 matches RpcResponse::AppendEntries(resp)
                    &&& entries_step(old(self).inner, final(self).inner, q@, resp)
                    &&& r.1 == StateChange::BecomeFollower
                },
                RpcRequest::ForwardClientRequest(_) => {
                    &&& r.0 == RpcResponse::<M::Item>::ForwardClientRequest(
                        Err(ClientError::Unavailable),
                    )
                    &&& r.1 == StateChange::Continue
                    &&& final(self).inner == old(self).inner
                },
            },
    {
        match req {
            RpcRequest::RequestVote(req) => {
                let new_term = self.inner.storage.update_term(req.term);
                let ghost middle = self.inner.storage;
                let resp = self.handle_request_vote(req);
                proof {
                    self.inner.storage.lemma_follows_transitive(middle, old(self).inner.storage);
                }
                let change = if new_term {
                    // A request from a higher term: back to being a follower.
                    StateChange::BecomeFollower
                } else {
                    StateChange::Continue
                };
                (RpcResponse::RequestVote(resp), change)
            },
            RpcRequest::AppendEntries(req) => {
                self.inner.storage.update_term(req.term);
                let ghost middle = self.inner.storage;
                let resp = self.handle_append_entries(req);
                proof {
                    self.inner.storage.lemma_follows_transitive(middle, old(self).inner.storage);
                }
                // A heartbeat: the election is lost.
                (RpcResponse::AppendEntries(resp), StateChange::BecomeFollower)
            },
            RpcRequest::ForwardClientRequest(_) => (
                RpcResponse::ForwardClientRequest(Err(ClientError::Unavailable)),
                StateChange::Continue,
            ),
        }
    }

    pub fn become_follower(self) -> (r: RaftWorker<Follower, M>)
        ensures
            r.inner == self.inner,
    {
        RaftWorker { inner: self.inner, state: Follower {  } }
    }

    /// The election is won: the log of every peer is taken to be as long as the own
    /// one, until it answers otherwise.
    pub fn become_leader<C, R>(self) -> (r: RaftWorker<Leader<C, R>, M>)
        requires
            self.inner.wf(),
            self.inner.storage@.log.len() < u64::MAX,
        ensures
            r.wf(),
            r.inner == (RaftWorkerInner { leader_id: Some(self.inner.node_id), ..self.inner }),
            r.state.next_indices@.dom() == self.inner.peers@.to_set(),
            forall|p: NodeId| #[trigger]
                r.state.next_indices@.contains_key(p) ==> r.state.next_indices@[p]
                    == self.inner.storage@.log.len() + 1,
            r.state.match_indices@.dom() == self.inner.peers@.to_set(),
            forall|p: NodeId| #[trigger]
                r.state.match_indices@.contains_key(p) ==> r.state.match_indices@[p] == 0,
            r.state.in_flight@ == Map::<LogIndex, Waiter<C, R>>::empty(),
    {
        let mut next_indices: HashMap<NodeId, LogIndex> = HashMap::new();
        let mut match_indices: HashMap<NodeId, LogIndex> = HashMap::new();
        let next = self.inner.storage.last_log_index() + 1;
        let ghost peers = self.inner.peers@;
        assert(peers.take(0).to_set() =~= Set::<NodeId>::empty());
        for i in 0..self.inner.peers.len()
            invariant
                peers == self.inner.peers@,
                next_indices@.dom() == peers.take(i as int).to_set(),
                match_indices@.dom() == peers.take(i as int).to_set(),
                forall|p: NodeId| #[trigger]
                    next_indices@.contains_key(p) ==> next_indices@[p] == next,
                forall|p: NodeId| #[trigger]
                    match_indices@.contains_key(p) ==> match_indices@[p] == 0,
        {
            let p = self.inner.peers[i];
            next_indices.insert(p, next);
            match_indices.insert(p, 0);
            proof {
                let a = peers.take(i as int);
                let b = peers.take(i as int + 1);
                assert(b =~= a.push(p));
                assert forall|q: NodeId| #[trigger] b.to_set().contains(q) <==> a.to_set().insert(
                    p,
                ).contains(q) by {
                    if a.contains(q) {
                        let j = choose|j: int| 0 <= j < a.len() && a[j] == q;
                        assert(b[j] == q);
                    }
                    if q == p {
                        assert(b[i as int] == q);
                    }
                }
                assert(b.to_set() =~= a.to_set().insert(p));
            }
        }
        assert(peers.take(peers.len() as int) =~= peers);
        let mut inner = self.inner;
        inner.leader_id = Some(inner.node_id);
        RaftWorker {
            inner,
            state: Leader { next_indices, match_indices, in_flight: HashMap::new() },
        }
    }
}

/// The state of a node that campaigns: the next term, with its vote for itself.
pub open spec fn campaigning<T>(v: StorageView<T>, node_id: NodeId) -> StorageView<T> {
    StorageView { term: (v.term + 1) as u64, voted_for: Some(node_id), ..v }
}

pub open spec fn vote_request<T>(v: StorageView<T>, node_id: NodeId) -> RequestVoteRequest {
    RequestVoteRequest {
        term: v.term,
        candidate: node_id,
        last_log_index: v.log.len() as u64,
        last_log_term: term_at(v.log, v.log.len() as int),
    }
}

/// Whether the answer to a vote request is a vote.
pub fn is_vote<Item>(res: &RpcResult<Item>) -> (r: bool)
    requires
        res matches Ok(resp) ==> resp is RequestVote,
    ensures
        r == (res matches Ok(RpcResponse::RequestVote(resp)) && resp.vote_granted),
{
    match res {
        Ok(RpcResponse::RequestVote(resp)) => resp.vote_granted,
        _ => false,
    }
}

} // verus!
