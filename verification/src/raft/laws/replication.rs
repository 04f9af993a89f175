//! How the log gets from a leader to the others.

use super::super::node::{Effects, Event, RaftWorkerState, Timer};
use super::super::storage::StorageView;
use super::super::worker::{
    after_entries, entries_response, lemma_consecutive_mergeable, merged, mergeable,
    AppendEntriesCall, Leader, RaftWorker, RpcResult, MAX_BATCH_SIZE,
};
use super::super::{
    AppendEntriesRequest, AppendEntriesResponse, AppendEntriesView, LogEntry, LogIndex, NodeId,
    RpcRequest, RpcResponse, State,
};
use crate::filtering::{lemma_filter_complete, lemma_filter_distinct, lemma_filter_within};
use vstd::prelude::*;

verus! {

/// A node refuses the entries of a leader if the leader's term is behind its own, or if
/// its log lacks the entry, of that index and term, that they follow on; it refuses them
/// for no other reason, however many they are, and answers in its own term.
pub proof fn law_entries_refused_only_if_unfit<T>(v: StorageView<T>, q: AppendEntriesView<T>)
    ensures
        entries_response(v, q).term == v.term,
        entries_response(v, q).success <==> {
            &&& q.term >= v.term
            &&& q.prev_log_index == 0 || (q.prev_log_index <= v.log.len() && v.log[q.prev_log_index
                - 1].term == q.prev_log_term)
        },
        !entries_response(v, q).success ==> after_entries(v, q) == v,
        after_entries(v, q).term == v.term,
        after_entries(v, q).voted_for == v.voted_for,
{
}

/// After a leader's entries were accepted the log has each of them at its index, or had
/// one of that term there already. Up to the entry that they follow on the log is as it
/// was. What comes behind them stays too, unless one of them took the place of an entry
/// of another term: then the log ends with them.
pub proof fn law_accepted_entries_are_in_the_log<T>(v: StorageView<T>, q: AppendEntriesView<T>)
    requires
        entries_response(v, q).success,
        forall|k: int|
            0 <= k < q.entries.len() ==> (#[trigger] q.entries[k]).idx == q.prev_log_index + 1 + k,
    ensures
        ({
            let prev = q.prev_log_index as int;
            let log = after_entries(v, q).log;
            let contradicted = exists|k: int|
                0 <= k < q.entries.len() && prev + k < v.log.len() && v.log[prev + k].term != (
                #[trigger] q.entries[k]).term;
            &&& log.len() >= prev + q.entries.len()
            &&& forall|i: int| 0 <= i < prev ==> #[trigger] log[i] == v.log[i]
            &&& forall|k: int|
                0 <= k < q.entries.len() ==> {
                    ||| log[prev + k] == #[trigger] q.entries[k]
                    ||| {
                        &&& prev + k < v.log.len()
                        &&& log[prev + k] == v.log[prev + k]
                        &&& v.log[prev + k].term == q.entries[k].term
                    }
                }
            &&& contradicted ==> log.len() == prev + q.entries.len()
            &&& !contradicted ==> {
                &&& log.len() == v.log.len() || log.len() == prev + q.entries.len()
                &&& log.len() >= v.log.len()
                &&& forall|i: int| 0 <= i < v.log.len() ==> #[trigger] log[i] == v.log[i]
            }
        }),
{
    lemma_merged_consecutive(v.log, q.prev_log_index as int, q.entries);
}

proof fn lemma_merged_consecutive<T>(
    log: Seq<LogEntry<T>>,
    prev: int,
    entries: Seq<LogEntry<T>>,
)
    requires
        0 <= prev <= log.len(),
        forall|k: int| 0 <= k < entries.len() ==> (#[trigger] entries[k]).idx == prev + 1 + k,
    ensures
        ({
            let after = merged(log, entries);
            let contradicted = exists|k: int|
                0 <= k < entries.len() && prev + k < log.len() && log[prev + k].term != (
                #[trigger] entries[k]).term;
            &&& after.len() >= prev + entries.len()
            &&& forall|i: int| 0 <= i < prev ==> #[trigger] after[i] == log[i]
            &&& forall|k: int|
                0 <= k < entries.len() ==> {
                    ||| after[prev + k] == #[trigger] entries[k]
                    ||| {
                        &&& prev + k < log.len()
                        &&& after[prev + k] == log[prev + k]
                        &&& log[prev + k].term == entries[k].term
                    }
                }
            &&& contradicted ==> after.len() == prev + entries.len()
            &&& !contradicted ==> {
                &&& after.len() == log.len() || after.len() == prev + entries.len()
                &&& after.len() >= log.len()
                &&& forall|i: int| 0 <= i < log.len() ==> #[trigger] after[i] == log[i]
            }
        }),
    decreases entries.len(),
{
    if entries.len() > 0 {
        let n = entries.len() - 1;
        let init = entries.drop_last();
        assert forall|k: int| 0 <= k < init.len() implies (#[trigger] init[k]).idx == prev + 1
            + k by {
            assert(init[k] == entries[k]);
        }
        lemma_merged_consecutive(log, prev, init);
        let before = merged(log, init);
        let after = merged(log, entries);
        let e = entries.last();
        assert(entries[n] == e);
        assert(e.idx == prev + 1 + n);
        if exists|k: int|
            0 <= k < init.len() && prev + k < log.len() && log[prev + k].term != (
            #[trigger] init[k]).term {
            let k = choose|k: int|
                0 <= k < init.len() && prev + k < log.len() && log[prev + k].term != (
                #[trigger] init[k]).term;
            assert(entries[k] == init[k]);
        } else {
            assert forall|k: int| 0 <= k < n && prev + k < log.len() implies log[prev + k].term
                == (#[trigger] entries[k]).term by {
                assert(entries[k] == init[k]);
            }
        }
        assert forall|k: int| 0 <= k < entries.len() implies {
            ||| after[prev + k] == #[trigger] entries[k]
            ||| {
                &&& prev + k < log.len()
                &&& after[prev + k] == log[prev + k]
                &&& log[prev + k].term == entries[k].term
            }
        } by {
            if k < n {
                assert(init[k] == entries[k]);
                assert(after[prev + k] == before[prev + k]);
            }
        }
    }
}

/// Entries that follow on one another from an index of the log on can be taken in,
/// however many they are.
pub proof fn law_entries_in_a_row_fit<T>(
    log: Seq<LogEntry<T>>,
    prev: LogIndex,
    entries: Seq<LogEntry<T>>,
)
    requires
        prev <= log.len(),
        forall|k: int| 0 <= k < entries.len() ==> (#[trigger] entries[k]).idx == prev + 1 + k,
    ensures
        mergeable(log, entries),
{
    lemma_consecutive_mergeable(log, prev as int, entries);
}

/// What a node does with the entries of a leader, whatever its role: they are refused
/// only by a later term or by a log that lacks what they follow on. A node that is not
/// the leader of that term, or of a later one, follows from then on, and waits anew for
/// the next sign of life. Accepted entries commit as much as the leader has committed of
/// them.
pub proof fn law_entries_answered<M: State, C, R>(
    pre: RaftWorkerState<M, C, R>,
    q: AppendEntriesRequest<M::Command>,
    tx: R,
    post: RaftWorkerState<M, C, R>,
    eff: Effects<M, C, R>,
)
    requires
        pre.wf(),
        pre.takes(Event::Rpc(RpcRequest::AppendEntries(q), tx)),
        pre.steps(Event::Rpc(RpcRequest::AppendEntries(q), tx), post, eff),
    ensures
        ({
            let term = pre.inner().storage@.term;
            let log = pre.inner().storage@.log;
            let commit = pre.inner().commit_index;
            let reach = q.prev_log_index + q.entries@.len();
            let resp = eff.responses@[0].1->AppendEntries_0;
            let leads = pre is Leader && q.term <= term;
            let fit = q.term >= term && (q.prev_log_index == 0 || (q.prev_log_index <= log.len()
                && log[q.prev_log_index - 1].term == q.prev_log_term));
            &&& eff.responses@.len() == 1
            &&& eff.responses@[0].0 == tx
            &&& eff.responses@[0].1 is AppendEntries
            &&& eff.replies@.len() == 0
            &&& eff.calls@.len() == 0
            &&& eff.vote_request is None
            &&& eff.forward is None
            &&& resp.success <==> fit && !leads
            &&& resp.term == post.inner().storage@.term
            &&& resp.term == term || resp.term == q.term
            &&& resp.term >= term && resp.term >= q.term || leads
            &&& leads ==> post == pre && eff.timer == Timer::Keep
            &&& !leads ==> post is Follower && eff.timer == Timer::Election
            &&& pre is Follower ==> post.inner().leader_id == Some(q.leader_id)
            &&& post.inner().storage@.voted_for == if q.term > term {
                None
            } else {
                pre.inner().storage@.voted_for
            }
            &&& !resp.success ==> post.inner().storage@.log == log && post.inner().commit_index
                == commit
            &&& resp.success ==> post.inner().commit_index == if q.leader_commit <= reach {
                if q.leader_commit > commit {
                    q.leader_commit as int
                } else {
                    commit as int
                }
            } else {
                if reach > commit {
                    reach
                } else {
                    commit as int
                }
            }
            &&& post.inner().current_state == pre.inner().current_state
            &&& post.inner().last_applied == pre.inner().last_applied
            &&& post.inner().peer_clients == pre.inner().peer_clients
        }),
{
}

/// Whatever a leader sends in its term or later is in the log of the node that accepts
/// it, however much it is, and what the node had before stays where nothing speaks
/// against it.
pub proof fn law_entries_replicated<M: State, C, R>(
    pre: RaftWorkerState<M, C, R>,
    q: AppendEntriesRequest<M::Command>,
    tx: R,
    post: RaftWorkerState<M, C, R>,
    eff: Effects<M, C, R>,
)
    requires
        pre.wf(),
        pre.takes(Event::Rpc(RpcRequest::AppendEntries(q), tx)),
        pre.steps(Event::Rpc(RpcRequest::AppendEntries(q), tx), post, eff),
        !(pre is Leader) || q.term > pre.inner().storage@.term,
        q.term >= pre.inner().storage@.term,
        q.prev_log_index == 0 || (q.prev_log_index <= pre.inner().storage@.log.len()
            && pre.inner().storage@.log[q.prev_log_index - 1].term == q.prev_log_term),
        forall|k: int|
            0 <= k < q.entries@.len() ==> (#[trigger] q.entries@[k]).idx == q.prev_log_index + 1
                + k,
    ensures
        eff.responses@.len() == 1,
        eff.responses@[0].1 == RpcResponse::<M::Item>::AppendEntries(
            AppendEntriesResponse { term: q.term, success: true },
        ),
        ({
            let prev = q.prev_log_index as int;
            let log = pre.inner().storage@.log;
            let after = post.inner().storage@.log;
            let contradicted = exists|k: int|
                0 <= k < q.entries@.len() && prev + k < log.len() && log[prev + k].term != (
                #[trigger] q.entries@[k]).term;
            &&& after.len() >= prev + q.entries@.len()
            &&& forall|i: int| 0 <= i < prev ==> #[trigger] after[i] == log[i]
            &&& forall|k: int|
                0 <= k < q.entries@.len() ==> {
                    ||| after[prev + k] == #[trigger] q.entries@[k]
                    ||| {
                        &&& prev + k < log.len()
                        &&& after[prev + k] == log[prev + k]
                        &&& log[prev + k].term == q.entries@[k].term
                    }
                }
            &&& contradicted ==> after.len() == prev + q.entries@.len()
            &&& !contradicted ==> {
                &&& after.len() == log.len() || after.len() == prev + q.entries@.len()
                &&& log.is_prefix_of(after)
            }
        }),
{
    lemma_merged_consecutive(pre.inner().storage@.log, q.prev_log_index as int, q.entries@);
}

/// What a leader sends to a peer are the entries of its log from where it takes the
/// peer's log to end, as many as go at once or as there are, with the index and the term
/// of the entry before them, its term and how much it has committed.
pub proof fn law_call_carries_what_follows<M: State, C, R>(
    w: RaftWorker<Leader<C, R>, M>,
    call: AppendEntriesCall<M::Command>,
    peer: NodeId,
)
    requires
        w.wf(),
        w.inner.peers@.contains(peer),
        w.is_call(call, peer),
    ensures
        ({
            let log = w.inner.storage@.log;
            let prev = w.state.next_indices@[peer] - 1;
            let entries = call.req.entries@;
            &&& call.peer_id == peer
            &&& call.req.term == w.inner.storage@.term
            &&& call.req.leader_id == w.inner.node_id
            &&& call.req.leader_commit == w.inner.commit_index
            &&& call.req.prev_log_index == prev
            &&& call.req.prev_log_term == if prev == 0 {
                0
            } else {
                log[prev - 1].term
            }
            &&& entries.len() == if log.len() - prev < MAX_BATCH_SIZE {
                log.len() - prev
            } else {
                MAX_BATCH_SIZE as int
            }
            &&& forall|k: int| 0 <= k < entries.len() ==> #[trigger] entries[k] == log[prev + k]
            &&& call.last_entry == prev + entries.len()
        }),
{
    assert(w.inner.peers@.to_set().contains(peer));
    assert(w.state.next_indices@.contains_key(peer));
}

/// When a leader's heartbeat is due, and when it has a new entry, every peer that is
/// online gets what it lacks, once, and nobody else gets anything.
pub proof fn law_every_online_peer_is_served<M: State, C, R>(
    pre: RaftWorkerState<M, C, R>,
    ev: Event<M, C, R>,
    post: RaftWorkerState<M, C, R>,
    eff: Effects<M, C, R>,
    p: NodeId,
)
    requires
        pre.wf(),
        pre is Leader,
        pre.takes(ev),
        pre.steps(ev, post, eff),
        post.wf(),
        ev is Timeout || (ev matches Event::Client(req, _) && req is Apply) || (
        ev matches Event::Rpc(RpcRequest::ForwardClientRequest(req), _) && req is Apply),
    ensures
        post is Leader,
        forall|k: int|
            0 <= k < eff.calls@.len() ==> {
                let to = (#[trigger] eff.calls@[k]).peer_id;
                &&& pre.inner().peers@.contains(to)
                &&& pre.inner().peer_clients@.contains_key(to)
                &&& pre.inner().peer_clients@[to]
                &&& (post->Leader_0).is_call(eff.calls@[k], to)
            },
        forall|j: int, k: int|
            0 <= j < k < eff.calls@.len() ==> (#[trigger] eff.calls@[j]).peer_id != (
            #[trigger] eff.calls@[k]).peer_id,
        pre.inner().peers@.contains(p) && pre.inner().peer_clients@.contains_key(p)
            && pre.inner().peer_clients@[p] ==> exists|k: int|
            0 <= k < eff.calls@.len() && (#[trigger] eff.calls@[k]).peer_id == p,
        ev is Timeout ==> post == pre && eff.timer == Timer::Heartbeat,
{
    let w = post->Leader_0;
    let peers = w.inner.peers@;
    let online = |q: NodeId| w.inner.is_online(q);
    let to = peers.filter(online);
    assert(w.calls_for(eff.calls@, to));
    assert forall|k: int| 0 <= k < eff.calls@.len() implies {
        let to = (#[trigger] eff.calls@[k]).peer_id;
        &&& pre.inner().peers@.contains(to)
        &&& pre.inner().peer_clients@.contains_key(to)
        &&& pre.inner().peer_clients@[to]
        &&& w.is_call(eff.calls@[k], to)
    } by {
        lemma_filter_within(peers, online, k);
    }
    lemma_filter_distinct(peers, online);
    assert forall|j: int, k: int| 0 <= j < k < eff.calls@.len() implies (
    #[trigger] eff.calls@[j]).peer_id != (#[trigger] eff.calls@[k]).peer_id by {
        assert(to[j] != to[k]);
    }
    if peers.contains(p) && online(p) {
        lemma_filter_complete(peers, online, p);
        let k = choose|k: int| 0 <= k < to.len() && to[k] == p;
        assert(eff.calls@[k].peer_id == p);
    }
}

/// How a leader learns what a peer has. A peer that took entries has them, and gets what
/// comes behind them next; nothing that it was known to have is forgotten. To a peer that
/// refused them the leader goes back by one entry and tries again at once, until it
/// starts from the first one. What it knows of the other peers stays. A later term ends
/// its leadership, and an error or an answer from an earlier term changes nothing.
pub proof fn law_answers_move_the_peer<M: State, C, R>(
    pre: RaftWorker<Leader<C, R>, M>,
    peer: NodeId,
    idx: LogIndex,
    res: RpcResult<M::Item>,
    post: RaftWorkerState<M, C, R>,
    eff: Effects<M, C, R>,
)
    requires
        pre.wf(),
        RaftWorkerState::Leader(pre).takes(Event::Response(peer, idx, res)),
        RaftWorkerState::Leader(pre).steps(Event::Response(peer, idx, res), post, eff),
        post.wf(),
    ensures
        eff.responses@.len() == 0,
        eff.replies@.len() == 0,
        eff.vote_request is None,
        eff.forward is None,
        post.inner().storage@.log == pre.inner.storage@.log,
        post.inner().commit_index == pre.inner.commit_index,
        match res {
            Ok(RpcResponse::AppendEntries(resp)) => {
                let term = pre.inner.storage@.term;
                let next = pre.state.next_indices@[peer];
                let matched = pre.state.match_indices@[peer];
                &&& resp.term > term ==> {
                    &&& post is Follower
                    &&& post.inner().storage@.term == resp.term
                    &&& post.inner().storage@.voted_for is None
                    &&& eff.calls@.len() == 0
                    &&& eff.timer == Timer::Election
                }
                &&& resp.term < term ==> {
                    &&& post == RaftWorkerState::Leader(pre)
                    &&& eff.calls@.len() == 0
                    &&& eff.timer == Timer::Keep
                }
                &&& resp.term == term ==> {
                    &&& post matches RaftWorkerState::Leader(w)
                    &&& w.inner == pre.inner
                    &&& w.state.in_flight == pre.state.in_flight
                    &&& eff.timer == Timer::Keep
                    &&& forall|p: NodeId|
                        p != peer && pre.inner.peers@.contains(p) ==> #[trigger] w.state.next_indices@[p]
                            == pre.state.next_indices@[p]
                    &&& forall|p: NodeId|
                        p != peer && pre.inner.peers@.contains(p) ==> #[trigger] w.state.match_indices@[p]
                            == pre.state.match_indices@[p]
                    &&& resp.success ==> {
                        &&& w.state.match_indices@[peer] >= idx
                        &&& w.state.match_indices@[peer] >= matched
                        &&& w.state.match_indices@[peer] == idx || w.state.match_indices@[peer]
                            == matched
                        &&& w.state.next_indices@[peer] > idx
                        &&& w.state.next_indices@[peer] >= next
                        &&& w.state.next_indices@[peer] == idx + 1 || w.state.next_indices@[peer]
                            == next
                        &&& eff.calls@.len() == 0
                    }
                    &&& !resp.success ==> {
                        &&& w.state.match_indices@[peer] == matched
                        &&& next > 1 ==> w.state.next_indices@[peer] == next - 1
                        &&& next == 1 ==> w.state.next_indices@[peer] == 1
                        &&& if pre.inner.peer_clients@.contains_key(peer)
                            && pre.inner.peer_clients@[peer] {
                            &&& eff.calls@.len() == 1
                            &&& eff.calls@[0].peer_id == peer
                            &&& w.is_call(eff.calls@[0], peer)
                        } else {
                            eff.calls@.len() == 0
                        }
                    }
                }
            },
            _ => {
                &&& post == RaftWorkerState::Leader(pre)
                &&& eff.calls@.len() == 0
                &&& eff.timer == Timer::Keep
            },
        },
{
    assert(pre.inner.peers@.to_set().contains(peer) == pre.inner.peers@.contains(peer));
}

/// A peer whose log has what a leader's call follows on takes it in, and once its answer
/// is back the leader knows that it has everything up to the last entry of the call. If
/// the call was the last that the peer lacked, that is the whole log.
pub proof fn law_peer_catches_up<M: State, C, R>(
    leader: RaftWorker<Leader<C, R>, M>,
    peer: NodeId,
    call: AppendEntriesCall<M::Command>,
    pre: RaftWorkerState<M, C, R>,
    tx: R,
    post: RaftWorkerState<M, C, R>,
    eff: Effects<M, C, R>,
    resp: AppendEntriesResponse,
    next: RaftWorkerState<M, C, R>,
    next_eff: Effects<M, C, R>,
)
    requires
        leader.wf(),
        leader.inner.peers@.contains(peer),
        leader.is_call(call, peer),
        call.last_entry < u64::MAX,
        pre.wf(),
        !(pre is Leader),
        pre.inner().storage@.term <= leader.inner.storage@.term,
        call.req.prev_log_index <= pre.inner().storage@.log.len(),
        call.req.prev_log_index > 0 ==> pre.inner().storage@.log[call.req.prev_log_index - 1].term
            == leader.inner.storage@.log[call.req.prev_log_index - 1].term,
        pre.steps(Event::Rpc(RpcRequest::AppendEntries(call.req), tx), post, eff),
        eff.responses@[0].1 == RpcResponse::<M::Item>::AppendEntries(resp),
        RaftWorkerState::Leader(leader).steps(
            Event::Response(peer, call.last_entry, Ok(RpcResponse::AppendEntries(resp))),
            next,
            next_eff,
        ),
        next.wf(),
    ensures
        pre.takes(Event::Rpc(RpcRequest::AppendEntries(call.req), tx)),
        resp.success,
        RaftWorkerState::Leader(leader).takes(
            Event::Response(peer, call.last_entry, Ok(RpcResponse::AppendEntries(resp))),
        ),
        post.inner().storage@.log.len() >= call.last_entry,
        next matches RaftWorkerState::Leader(w) && w.state.match_indices@[peer] >= call.last_entry
            && w.state.next_indices@[peer] > call.last_entry,
        leader.inner.storage@.log.len() <= call.req.prev_log_index + MAX_BATCH_SIZE
            ==> call.last_entry == leader.inner.storage@.log.len(),
{
    law_call_carries_what_follows(leader, call, peer);
    let q = call.req;
    let log = leader.inner.storage@.log;
    assert forall|k: int| 0 <= k < q.entries@.len() implies (#[trigger] q.entries@[k]).idx
        == q.prev_log_index + 1 + k by {
        assert(q.entries@[k] == log[q.prev_log_index + k]);
    }
    law_entries_in_a_row_fit(pre.inner().storage@.log, q.prev_log_index, q.entries@);
    law_entries_replicated(pre, q, tx, post, eff);
    law_answers_move_the_peer(
        leader,
        peer,
        call.last_entry,
        Ok(RpcResponse::AppendEntries(resp)),
        next,
        next_eff,
    );
}

} // verus!
