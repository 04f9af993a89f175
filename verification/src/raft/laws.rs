//! What holds of every step of a node, whatever its role and whatever the event.

pub mod clients;
pub mod committing;
pub mod elections;
pub mod replication;

use super::node::{Effects, Event, RaftWorkerState, Settled};
use super::storage::{
    after_term, current_term_key, holds, last_log_index_key, law_restart_restores, reads, replayed,
    restored, stored_number, stores_log, voted_for_key, Item, StorageView,
};
use super::worker::{
    after_entries, campaigning, commit_after_entries, entries_request, entries_response,
    is_up_to_date, last_entry_of, quorum_of, vote_request,
};
use super::{
    AppendEntriesResponse, AppendEntriesView, ClientRequest, LogEntry, LogIndex, NodeId,
    RequestVoteRequest, RpcRequest, RpcResponse, State,
};
use crate::filtering::lemma_filter_within;
use vstd::prelude::*;

verus! {

impl<M: State, C, R> RaftWorkerState<M, C, R> {
    /// What the node must remember across restarts.
    pub open spec fn stored(&self) -> StorageView<M::Command> {
        self.inner().storage@
    }

    /// Whether the node has the same place in the same cluster as `other`.
    pub open spec fn same_member(&self, other: RaftWorkerState<M, C, R>) -> bool {
        &&& self.inner().node_id == other.inner().node_id
        &&& self.inner().session_key == other.inner().session_key
        &&& self.inner().cluster_size == other.inner().cluster_size
        &&& self.inner().peers == other.inner().peers
    }
}

impl<M: State, C, R> Event<M, C, R> {
    /// The entries that the event brings from a leader.
    pub open spec fn entries(&self) -> Option<AppendEntriesView<M::Command>> {
        match *self {
            Event::Rpc(RpcRequest::AppendEntries(q), _) => Some(q@),
            _ => None,
        }
    }

    /// The vote that the event asks for.
    pub open spec fn campaign(&self) -> Option<RequestVoteRequest> {
        match *self {
            Event::Rpc(RpcRequest::RequestVote(q), _) => Some(q),
            _ => None,
        }
    }

    /// The command that the event asks to have applied.
    pub open spec fn command(&self) -> Option<M::Command> {
        match *self {
            Event::Rpc(RpcRequest::ForwardClientRequest(ClientRequest::Apply(cmd)), _) => Some(cmd),
            Event::Client(ClientRequest::Apply(cmd), _) => Some(cmd),
            _ => None,
        }
    }
}

impl<M: State, C, R> Effects<M, C, R> {
    /// Whether the answer to another node is a vote for it.
    pub open spec fn grants(&self) -> bool {
        &&& self.responses@.len() == 1
        &&& self.responses@[0].1 matches RpcResponse::RequestVote(resp)
        &&& resp.vote_granted
    }

    /// The answer to a leader's entries.
    pub open spec fn verdict(&self) -> AppendEntriesResponse {
        match self.responses@[0].1 {
            RpcResponse::AppendEntries(resp) => resp,
            _ => AppendEntriesResponse { term: 0, success: false },
        }
    }
}

/// A node stays the same member of the same cluster.
pub proof fn law_same_member<M: State, C, R>(
    pre: RaftWorkerState<M, C, R>,
    ev: Event<M, C, R>,
    post: RaftWorkerState<M, C, R>,
    eff: Effects<M, C, R>,
)
    requires
        pre.wf(),
        pre.takes(ev),
        pre.steps(ev, post, eff),
    ensures
        post.same_member(pre),
{
}

/// The term of a node never falls.
pub proof fn law_term_never_falls<M: State, C, R>(
    pre: RaftWorkerState<M, C, R>,
    ev: Event<M, C, R>,
    post: RaftWorkerState<M, C, R>,
    eff: Effects<M, C, R>,
)
    requires
        pre.wf(),
        pre.takes(ev),
        pre.steps(ev, post, eff),
    ensures
        pre.stored().term <= post.stored().term,
{
}

/// A node does not change its vote within a term.
pub proof fn law_one_vote_per_term<M: State, C, R>(
    pre: RaftWorkerState<M, C, R>,
    ev: Event<M, C, R>,
    post: RaftWorkerState<M, C, R>,
    eff: Effects<M, C, R>,
)
    requires
        pre.wf(),
        pre.takes(ev),
        pre.steps(ev, post, eff),
        pre.stored().term == post.stored().term,
        pre.stored().voted_for is Some,
    ensures
        post.stored().voted_for == pre.stored().voted_for,
{
}

/// A vote that a node gives is its vote in the candidate's term, stands in its storage,
/// and goes to a candidate whose log is not behind its own.
pub proof fn law_vote_is_stored<M: State, C, R>(
    pre: RaftWorkerState<M, C, R>,
    ev: Event<M, C, R>,
    post: RaftWorkerState<M, C, R>,
    eff: Effects<M, C, R>,
)
    requires
        pre.wf(),
        pre.takes(ev),
        pre.steps(ev, post, eff),
        eff.grants(),
    ensures
        ev.campaign() matches Some(q) && post.stored().term == q.term && post.stored().voted_for
            == Some(q.candidate) && is_up_to_date(q, pre.stored().log),
{
}

/// What a node does with a leader's entries: it takes them over and follows, or
/// refuses them and changes nothing but its term.
pub proof fn law_entries_taken<M: State, C, R>(
    pre: RaftWorkerState<M, C, R>,
    ev: Event<M, C, R>,
    post: RaftWorkerState<M, C, R>,
    eff: Effects<M, C, R>,
)
    requires
        pre.wf(),
        pre.takes(ev),
        pre.steps(ev, post, eff),
        ev.entries() is Some,
    ensures
        eff.responses@.len() == 1,
        eff.responses@[0].1 is AppendEntries,
        ({
            let q = ev.entries()->0;
            let v = after_term(pre.stored(), q.term);
            ||| {
                &&& pre is Leader
                &&& q.term <= pre.stored().term
                &&& post == pre
                &&& !eff.verdict().success
            }
            ||| {
                &&& post is Follower
                &&& post.stored() == after_entries(v, q)
                &&& post.inner().commit_index == commit_after_entries(
                    v,
                    pre.inner().commit_index,
                    q,
                )
                &&& eff.verdict() == entries_response(v, q)
            }
        }),
{
}

/// The log of a node changes by the entries of a leader, or by one command that the
/// node as a leader adds at the end, and in no other way.
pub proof fn law_log_changes<M: State, C, R>(
    pre: RaftWorkerState<M, C, R>,
    ev: Event<M, C, R>,
    post: RaftWorkerState<M, C, R>,
    eff: Effects<M, C, R>,
)
    requires
        pre.wf(),
        pre.takes(ev),
        pre.steps(ev, post, eff),
        ev.entries() is None,
    ensures
        post.inner().commit_index == pre.inner().commit_index,
        ({
            ||| post.stored().log == pre.stored().log
            ||| {
                &&& pre is Leader && post is Leader
                &&& ev.command() matches Some(cmd)
                &&& post.stored().term == pre.stored().term
                &&& post.stored().log == pre.stored().log.push(
                    LogEntry {
                        cmd,
                        term: pre.stored().term,
                        idx: (pre.stored().log.len() + 1) as u64,
                    },
                )
            }
        }),
{
}

/// What is committed stays committed.
pub proof fn law_commit_never_falls<M: State, C, R>(
    pre: RaftWorkerState<M, C, R>,
    ev: Event<M, C, R>,
    post: RaftWorkerState<M, C, R>,
    eff: Effects<M, C, R>,
)
    requires
        pre.wf(),
        pre.takes(ev),
        pre.steps(ev, post, eff),
    ensures
        pre.inner().commit_index <= post.inner().commit_index,
{
}

/// A leader that stays one keeps its term, and its log only grows.
pub proof fn law_leader_only_appends<M: State, C, R>(
    pre: RaftWorkerState<M, C, R>,
    ev: Event<M, C, R>,
    post: RaftWorkerState<M, C, R>,
    eff: Effects<M, C, R>,
)
    requires
        pre.wf(),
        pre.takes(ev),
        pre.steps(ev, post, eff),
        pre is Leader,
        post is Leader,
    ensures
        post.stored().term == pre.stored().term,
        pre.stored().log.is_prefix_of(post.stored().log),
{
    if ev.entries() is Some {
        law_entries_taken(pre, ev, post, eff);
    } else {
        law_log_changes(pre, ev, post, eff);
    }
}

/// A node leads only after it won an election: it campaigned, and the vote that came
/// in made a majority. Its log and its term are those it campaigned with.
pub proof fn law_leader_was_elected<M: State, C, R>(
    pre: RaftWorkerState<M, C, R>,
    ev: Event<M, C, R>,
    post: RaftWorkerState<M, C, R>,
    eff: Effects<M, C, R>,
)
    requires
        pre.wf(),
        pre.takes(ev),
        pre.steps(ev, post, eff),
        post is Leader,
        !(pre is Leader),
    ensures
        pre matches RaftWorkerState::Candidate(c) && ev is Vote && c.state.votes + 1 >= quorum_of(
            c.inner.cluster_size,
        ) && post.stored() == pre.stored() && eff.calls@.len() == 0,
{
}

/// A node campaigns in a term of its own, with its own vote, and counts the votes of
/// that term only.
pub proof fn law_candidate_counts<M: State, C, R>(
    pre: RaftWorkerState<M, C, R>,
    ev: Event<M, C, R>,
    post: RaftWorkerState<M, C, R>,
    eff: Effects<M, C, R>,
)
    requires
        pre.wf(),
        pre.takes(ev),
        pre.steps(ev, post, eff),
    ensures
        eff.vote_request is Some <==> ev is Timeout && !(pre is Leader),
        eff.vote_request is Some ==> {
            &&& post matches RaftWorkerState::Candidate(c)
            &&& c.state.votes == 1
            &&& post.stored() == campaigning(pre.stored(), pre.inner().node_id)
            &&& post.stored().term == pre.stored().term + 1
            &&& (eff.vote_request->0).1 == vote_request(post.stored(), pre.inner().node_id)
        },
        post is Candidate && eff.vote_request is None ==> {
            &&& pre is Candidate
            &&& post.stored().term == pre.stored().term
            &&& (post->Candidate_0).state.votes == (pre->Candidate_0).state.votes + if ev is Vote {
                1int
            } else {
                0int
            }
        },
        ev is Vote ==> pre is Candidate && post.stored() == pre.stored(),
{
}

/// Only a leader sends entries, and they are the entries of its log from some index
/// on.
pub proof fn law_calls_carry_the_log<M: State, C, R>(
    pre: RaftWorkerState<M, C, R>,
    ev: Event<M, C, R>,
    post: RaftWorkerState<M, C, R>,
    eff: Effects<M, C, R>,
    k: int,
)
    requires
        pre.wf(),
        pre.takes(ev),
        pre.steps(ev, post, eff),
        post.wf(),
        0 <= k < eff.calls@.len(),
    ensures
        post is Leader,
        exists|next: LogIndex|
            1 <= next <= post.stored().log.len() + 1 && eff.calls@[k].req@
                == #[trigger] entries_request(
                post.stored(),
                post.inner().node_id,
                post.inner().commit_index,
                next,
            ) && eff.calls@[k].last_entry == last_entry_of(post.stored().log, next),
{
    assert(pre is Leader);
    assert(post is Leader);
    let w = post->Leader_0;
    let call = eff.calls@[k];
    let peer = call.peer_id;
    assert(w.inner.peers@.contains(peer) && w.is_call(call, peer)) by {
        if let Event::Response(_, _, _) = ev {
        } else {
            let online = |p: NodeId| w.inner.is_online(p);
            lemma_filter_within(w.inner.peers@, online, k);
        }
    }
    assert(w.inner.peers@.to_set().contains(peer));
    assert(w.state.next_indices@.contains_key(peer));
}

/// Whatever a node does, the writes that it leaves behind carry it into local storage: a
/// storage that held its state before holds its state after them, and nothing else in it
/// is touched.
pub proof fn law_steps_are_persisted<M: State, C, R>(
    pre: RaftWorkerState<M, C, R>,
    ev: Event<M, C, R>,
    post: RaftWorkerState<M, C, R>,
    eff: Effects<M, C, R>,
)
    requires
        pre.wf(),
        pre.takes(ev),
        pre.steps(ev, post, eff),
    ensures
        post.inner().storage.follows(pre.inner().storage),
{
    pre.inner().storage.lemma_follows_itself();
}

/// A node that stops after a step, and starts again from local storage with all writes
/// of the step carried out, is where it was: it has the same term, the same vote and the
/// same log.
pub proof fn law_node_survives_a_restart<M: State, C, R>(
    pre: RaftWorkerState<M, C, R>,
    ev: Event<M, C, R>,
    post: RaftWorkerState<M, C, R>,
    eff: Effects<M, C, R>,
    m: Map<Seq<char>, Item<M::Command>>,
    term: Option<Seq<char>>,
    vote: Option<Seq<char>>,
    last: Option<Seq<char>>,
    log: Seq<LogEntry<M::Command>>,
)
    requires
        pre.wf(),
        pre.takes(ev),
        pre.steps(ev, post, eff),
        holds(m, pre.inner().storage.session(), pre.stored()),
        ({
            let s = pre.inner().storage.session();
            let written = post.inner().storage.pending().skip(
                pre.inner().storage.pending().len() as int,
            );
            let after = replayed(m, written);
            &&& reads(after, current_term_key(s), term)
            &&& reads(after, voted_for_key(s), vote)
            &&& reads(after, last_log_index_key(s), last)
            &&& stores_log(after, s, log)
            &&& stored_number(last) == Some(log.len())
        }),
    ensures
        stored_number(term) == Some(post.stored().term as nat),
        post.stored().voted_for == match vote {
            Some(_) => Some((stored_number(vote)->0) as u64),
            None => None,
        },
        log == post.stored().log,
        restored(term, vote, last, log) == Some(post.stored()),
{
    let s = pre.inner().storage.session();
    let written = post.inner().storage.pending().skip(pre.inner().storage.pending().len() as int);
    law_steps_are_persisted(pre, ev, post, eff);
    law_restart_restores(replayed(m, written), s, post.stored(), term, vote, last, log);
}

/// An entry of the leader's term that a majority has gets committed, together with all
/// before it, whatever their terms are.
pub proof fn law_majority_commits<M: State, C, R>(
    pre: RaftWorkerState<M, C, R>,
    post: RaftWorkerState<M, C, R>,
    settled: Settled<M, C, R>,
    n: LogIndex,
)
    requires
        pre.wf(),
        pre.settles(post, settled),
        pre matches RaftWorkerState::Leader(w) && w.committable(n),
    ensures
        n <= post.inner().commit_index,
{
}

/// To commit and apply what is due changes neither the role of a node nor what it
/// must remember, and takes nothing back.
pub proof fn law_settling_keeps_the_log<M: State, C, R>(
    pre: RaftWorkerState<M, C, R>,
    post: RaftWorkerState<M, C, R>,
    settled: Settled<M, C, R>,
)
    requires
        pre.wf(),
        pre.settles(post, settled),
    ensures
        post.same_member(pre),
        post.inner().storage == pre.inner().storage,
        pre.inner().commit_index <= post.inner().commit_index,
        pre is Leader == post is Leader,
        pre is Candidate == post is Candidate,
{
}

} // verus!
