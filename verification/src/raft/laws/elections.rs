//! Who votes for whom, and who gets to lead.

use super::super::node::{Effects, Event, RaftWorkerState, Timer};
use super::super::storage::{after_term, StorageView};
use super::super::worker::{
    after_vote, campaigning, vote_request, vote_response, Candidate, RaftWorker,
};
use super::super::{LogIndex, NodeId, RequestVoteRequest, RpcRequest, State, TermIndex};
use vstd::prelude::*;

verus! {

/// A later term takes over, without a vote in it; an earlier one, or the same, changes
/// nothing. The log stays in any case.
pub proof fn law_later_terms_take_over<T>(v: StorageView<T>, term: TermIndex)
    ensures
        term > v.term ==> after_term(v, term).term == term && after_term(v, term).voted_for is None,
        term <= v.term ==> after_term(v, term) == v,
        after_term(v, term).log == v.log,
{
}

/// A node votes for a candidate if the candidate's term is not behind its own, it has
/// not voted for another one, and the candidate's log ends in a later term than its own
/// log, or in the same term and is not shorter; it refuses its vote in no other case. A
/// vote is kept, and changes nothing else.
pub proof fn law_vote_is_given_when_due<T>(v: StorageView<T>, q: RequestVoteRequest)
    ensures
        ({
            let resp = vote_response(v, q);
            let after = after_vote(v, q);
            let last = if v.log.len() == 0 {
                0
            } else {
                v.log[v.log.len() - 1].term
            };
            &&& resp.vote_granted <==> {
                &&& q.term >= v.term
                &&& v.voted_for is None || v.voted_for == Some(q.candidate)
                &&& q.last_log_term > last || (q.last_log_term == last && q.last_log_index
                    >= v.log.len())
            }
            &&& resp.vote_granted ==> after.voted_for == Some(q.candidate) && resp.term
                == q.last_log_term
            &&& !resp.vote_granted ==> after == v && resp.term == 0
            &&& after.term == v.term
            &&& after.log == v.log
        }),
{
}

/// What a node does with a request for its vote, whatever its role. In a later term it
/// is free to vote and leads or campaigns no longer; a leader of that term or a later one
/// gives no vote. What it has logged and committed stays.
pub proof fn law_votes_answered<M: State, C, R>(
    pre: RaftWorkerState<M, C, R>,
    q: RequestVoteRequest,
    tx: R,
    post: RaftWorkerState<M, C, R>,
    eff: Effects<M, C, R>,
)
    requires
        pre.wf(),
        pre.steps(Event::Rpc(RpcRequest::RequestVote(q), tx), post, eff),
    ensures
        pre.takes(Event::Rpc(RpcRequest::RequestVote(q), tx)),
        ({
            let term = pre.inner().storage@.term;
            let vote = pre.inner().storage@.voted_for;
            let log = pre.inner().storage@.log;
            let last = if log.len() == 0 {
                0
            } else {
                log[log.len() - 1].term
            };
            let resp = eff.responses@[0].1->RequestVote_0;
            let due = {
                &&& q.term > term || (q.term == term && !(pre is Leader) && (vote is None || vote
                    == Some(q.candidate)))
                &&& q.last_log_term > last || (q.last_log_term == last && q.last_log_index
                    >= log.len())
            };
            &&& eff.responses@.len() == 1
            &&& eff.responses@[0].0 == tx
            &&& eff.responses@[0].1 is RequestVote
            &&& eff.replies@.len() == 0
            &&& eff.calls@.len() == 0
            &&& eff.vote_request is None
            &&& eff.forward is None
            &&& resp.vote_granted <==> due
            &&& post.inner().storage@.term == if q.term > term {
                q.term
            } else {
                term
            }
            &&& post.inner().storage@.voted_for == if due {
                Some(q.candidate)
            } else if q.term > term {
                None
            } else {
                vote
            }
            &&& post.inner().storage@.log == log
            &&& post.inner().commit_index == pre.inner().commit_index
            &&& post.inner().last_applied == pre.inner().last_applied
            &&& post.inner().current_state == pre.inner().current_state
            &&& q.term > term ==> post is Follower
            &&& q.term <= term ==> (pre is Leader == post is Leader) && (pre is Candidate == post
                is Candidate)
            &&& pre is Leader && q.term <= term ==> post == pre
            &&& eff.timer == if q.term > term && !(pre is Follower) {
                Timer::Election
            } else {
                Timer::Keep
            }
        }),
{
}

/// When it has heard of no leader in time, or no election was decided, a node campaigns:
/// in the next term, with its own vote, and it asks every peer that is online for its
/// vote, once, and nobody else. It tells where its log ends. What it has logged stays.
pub proof fn law_timeout_starts_a_campaign<M: State, C, R>(
    pre: RaftWorkerState<M, C, R>,
    post: RaftWorkerState<M, C, R>,
    eff: Effects<M, C, R>,
)
    requires
        pre.wf(),
        !(pre is Leader),
        pre.inner().storage@.term < u64::MAX,
        pre.steps(Event::Timeout, post, eff),
    ensures
        pre.takes(Event::Timeout),
        post matches RaftWorkerState::Candidate(c) && {
            let log = pre.inner().storage@.log;
            &&& c.state.votes == 1
            &&& c.inner.storage@.term == pre.inner().storage@.term + 1
            &&& c.inner.storage@.voted_for == Some(pre.inner().node_id)
            &&& c.inner.storage@.log == log
            &&& c.inner.commit_index == pre.inner().commit_index
            &&& pre is Follower ==> c.inner.leader_id is None
            &&& eff.vote_request matches Some((to, req))
            &&& req.term == pre.inner().storage@.term + 1
            &&& req.candidate == pre.inner().node_id
            &&& req.last_log_index == log.len()
            &&& req.last_log_term == if log.len() == 0 {
                0
            } else {
                log[log.len() - 1].term
            }
            &&& to@.no_duplicates()
            &&& forall|id: NodeId| #[trigger]
                to@.contains(id) <==> pre.inner().peer_clients@.contains_key(id)
                    && pre.inner().peer_clients@[id]
        },
        eff.timer == Timer::Election,
        eff.responses@.len() == 0,
        eff.replies@.len() == 0,
        eff.calls@.len() == 0,
        eff.forward is None,
{
}

/// A candidate leads as soon as more than half of the cluster voted for it, and no
/// sooner; until then it counts. As a leader it takes the log of every peer to be as long
/// as its own, knows of nothing that they have, and makes itself known at once.
pub proof fn law_majority_elects<M: State, C, R>(
    pre: RaftWorker<Candidate, M>,
    post: RaftWorkerState<M, C, R>,
    eff: Effects<M, C, R>,
)
    requires
        RaftWorkerState::<M, C, R>::Candidate(pre).wf(),
        pre.inner.storage@.log.len() < u64::MAX,
        RaftWorkerState::Candidate(pre).steps(Event::Vote, post, eff),
    ensures
        RaftWorkerState::<M, C, R>::Candidate(pre).takes(Event::Vote),
        post is Leader <==> 2 * (pre.state.votes + 1) > pre.inner.cluster_size,
        post is Candidate <==> 2 * (pre.state.votes + 1) <= pre.inner.cluster_size,
        post matches RaftWorkerState::Candidate(c) ==> c.inner == pre.inner && c.state.votes
            == pre.state.votes + 1 && eff.timer == Timer::Keep,
        post matches RaftWorkerState::Leader(w) ==> {
            &&& w.inner.storage == pre.inner.storage
            &&& w.inner.commit_index == pre.inner.commit_index
            &&& w.inner.last_applied == pre.inner.last_applied
            &&& w.inner.leader_id == Some(pre.inner.node_id)
            &&& eff.timer == Timer::Now
            &&& forall|p: NodeId| #[trigger]
                pre.inner.peers@.contains(p) ==> {
                    &&& w.state.next_indices@.contains_key(p)
                    &&& w.state.next_indices@[p] == pre.inner.storage@.log.len() + 1
                    &&& w.state.match_indices@.contains_key(p)
                    &&& w.state.match_indices@[p] == 0
                }
            &&& forall|n: LogIndex| !(#[trigger] w.state.in_flight@.contains_key(n))
        },
        eff.responses@.len() == 0,
        eff.replies@.len() == 0,
        eff.calls@.len() == 0,
        eff.forward is None,
        eff.vote_request is None,
{
    assert forall|p: NodeId| #[trigger] pre.inner.peers@.contains(p) implies (
    post matches RaftWorkerState::Leader(w) ==> w.state.next_indices@.contains_key(p)
        && w.state.match_indices@.contains_key(p)) by {
        assert(pre.inner.peers@.to_set().contains(p));
    }
}

/// A node that campaigns with the log of another one, or with a later one, gets its vote
/// in a term that is new to it.
pub proof fn law_campaign_wins_votes<T>(
    candidate: StorageView<T>,
    node_id: NodeId,
    voter: StorageView<T>,
)
    requires
        candidate.term < u64::MAX,
        voter.term <= candidate.term,
        candidate.log.len() <= u64::MAX,
        voter.log.len() <= candidate.log.len(),
        voter.log.len() > 0 ==> voter.log[voter.log.len() - 1].term
            <= candidate.log[candidate.log.len() - 1].term,
    ensures
        ({
            let q = vote_request(campaigning(candidate, node_id), node_id);
            let v = after_term(voter, q.term);
            &&& vote_response(v, q).vote_granted
            &&& after_vote(v, q).voted_for == Some(node_id)
            &&& after_vote(v, q).term == candidate.term + 1
        }),
{
}

} // verus!
