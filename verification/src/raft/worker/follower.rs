//! A node that follows: it takes over what the leader sends, and passes its clients on
//! to the leader.

use super::super::errors::ClientError;
use super::super::{NodeId, RpcRequest, RpcResponse, State};
use super::{
    entries_step, fits, vote_step, Candidate, ClientResult, RaftWorker, RaftWorkerInner, RpcResult,
};
use vstd::prelude::*;

verus! {

#[derive(Debug)]
pub struct Follower {}

impl<M: State> RaftWorker<Follower, M> {
    pub fn new(inner: RaftWorkerInner<M>) -> (r: Self)
        ensures
            r.inner == inner,
    {
        RaftWorker { inner, state: Follower {  } }
    }

    /// Answers a request from another node. Also returns whether it was a sign of
    /// life from a leader, on which the election timeout starts anew.
    pub fn handle_rpc(&mut self, req: RpcRequest<M::Command, M::Key>) -> (r: (
        RpcResponse<M::Item>,
        bool,
    ))
        requires
            old(self).inner.wf(),
            fits(old(self).inner, req),
        ensures
            final(self).inner.wf(),
            match req {
                RpcRequest::RequestVote(q) => {
                    &&& !r.1
                    &&& r.0 matches RpcResponse::RequestVote(resp)
                    &&& vote_step(old(self).inner, final(self).inner, q, resp)
                },
                RpcRequest::AppendEntries(q) => {
                    &&& r.1
                    &&& r.0 matches RpcResponse::AppendEntries(resp)
                    &&& entries_step(old(self).inner, final(self).inner, q@, resp)
                    &&& final(self).inner.leader_id == Some(q.leader_id)
                },
                RpcRequest::ForwardClientRequest(_) => {
                    &&& !r.1
                    &&& r.0 == RpcResponse::<M::Item>::ForwardClientRequest(
                        Err(ClientError::Unavailable),
                    )
                    &&& final(self).inner == old(self).inner
                },
            },
    {
        match req {
            RpcRequest::RequestVote(req) => {
                self.inner.storage.update_term(req.term);
                let ghost middle = self.inner.storage;
                let resp = self.handle_request_vote(req);
                proof {
                    self.inner.storage.lemma_follows_transitive(middle, old(self).inner.storage);
                }
                (RpcResponse::RequestVote(resp), false)
            },
            RpcRequest::AppendEntries(req) => {
                self.inner.storage.update_term(req.term);
                let ghost middle = self.inner.storage;
                self.inner.leader_id = Some(req.leader_id);
                let resp = self.handle_append_entries(req);
                proof {
                    self.inner.storage.lemma_follows_transitive(middle, old(self).inner.storage);
                }
                (RpcResponse::AppendEntries(resp), true)
            },
            RpcRequest::ForwardClientRequest(_) => (
                RpcResponse::ForwardClientRequest(Err(ClientError::Unavailable)),
                false,
            ),
        }
    }

    /// Where a client request goes: on to the leader, if it is known and was
    /// connected, or back to the client.
    pub fn forward_client_request(&self) -> (r: Result<NodeId, ClientError>)
        ensures
            match r {
                Ok(leader) => self.inner.leader_id == Some(leader)
                    && self.inner.peer_clients@.contains_key(leader),
                Err(err) => {
                    &&& err == ClientError::Unavailable
                    &&& match self.inner.leader_id {
                        Some(leader) => !self.inner.peer_clients@.contains_key(leader),
                        None => true,
                    }
                },
            },
    {
        match self.inner.leader_id {
            Some(leader_id) => if self.inner.peer_clients.contains_key(&leader_id) {
                Ok(leader_id)
            } else {
                Err(ClientError::Unavailable)
            },
            None => Err(ClientError::Unavailable),
        }
    }

    /// A peer got connected, for the first time or again.
    pub fn handle_new_peer(&mut self, peer_id: NodeId)
        ensures
            final(self).inner.peer_clients@ == old(self).inner.peer_clients@.insert(peer_id, true),
            final(self).inner == (RaftWorkerInner {
                peer_clients: final(self).inner.peer_clients,
                ..old(self).inner
            }),
            final(self).state == old(self).state,
    {
        self.inner.peer_clients.insert(peer_id, true);
    }

    /// The election timeout has passed without a sign of life from a leader.
    pub fn become_candidate(self) -> (r: RaftWorker<Candidate, M>)
        ensures
            r.inner == (RaftWorkerInner { leader_id: None, ..self.inner }),
            r.state.votes == 0,
    {
        let mut inner = self.inner;
        inner.leader_id = None;
        RaftWorker { inner, state: Candidate { votes: 0 } }
    }
}

/// What a follower tells its client of the leader's answer.
pub fn forwarded_reply<Item>(res: RpcResult<Item>) -> (r: ClientResult<Item>)
    requires
        res matches Ok(resp) ==> resp is ForwardClientRequest,
    ensures
        r == match res {
            Ok(RpcResponse::ForwardClientRequest(resp)) => resp,
            _ => Err(ClientError::Unavailable),
        },
{
    match res {
        Ok(RpcResponse::ForwardClientRequest(resp)) => resp,
        _ => Err(ClientError::Unavailable),
    }
}

} // verus!
