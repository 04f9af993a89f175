//! What gets committed, who hears of it, and what is applied.

use super::super::node::{RaftWorkerState, Settled};
use super::super::worker::{
    acks, agreeing, applicable, quorum_of, state_after, ClientResult, Leader, RaftWorker,
    RaftWorkerInner, Waiter,
};
use super::super::{ClientResponse, LogEntry, LogIndex, NodeId, State};
use crate::filtering::{
    lemma_filter_complete, lemma_filter_distinct, lemma_filter_passes, lemma_filter_within,
};
use vstd::prelude::*;

verus! {

/// The least number of nodes that make a majority are more than half of them, and one
/// less are not.
pub proof fn law_quorum_is_a_majority(cluster_size: usize)
    ensures
        2 * quorum_of(cluster_size) > cluster_size,
        2 * (quorum_of(cluster_size) - 1) <= cluster_size,
{
}

/// Everybody who waits for an index after `from` up to `to` is told that it is
/// committed, once and in the order of the indices, and nobody else is told anything.
/// Returns the indices that the replies are for.
pub proof fn law_all_waiters_are_told<C, R, Item>(
    in_flight: Map<LogIndex, Waiter<C, R>>,
    from: LogIndex,
    to: LogIndex,
) -> (told: Seq<LogIndex>)
    ensures
        acks::<C, R, Item>(in_flight, from, to).len() == told.len(),
        forall|i: int|
            0 <= i < told.len() ==> {
                &&& from < #[trigger] told[i] <= to
                &&& in_flight.contains_key(told[i])
                &&& acks::<C, R, Item>(in_flight, from, to)[i] == (
                    in_flight[told[i]],
                    ClientResult::<Item>::Ok(ClientResponse::Ack),
                )
            },
        forall|i: int, j: int| 0 <= i < j < told.len() ==> #[trigger] told[i] < #[trigger] told[j],
        forall|n: LogIndex|
            from < n <= to && in_flight.contains_key(n) ==> #[trigger] told.contains(n),
    decreases to,
{
    if to <= from {
        Seq::empty()
    } else {
        let before = law_all_waiters_are_told::<C, R, Item>(in_flight, from, (to - 1) as u64);
        if in_flight.contains_key(to) {
            let told = before.push(to);
            assert forall|n: LogIndex|
                from < n <= to && in_flight.contains_key(n) implies #[trigger] told.contains(
                n,
            ) by {
                if n == to {
                    assert(told[before.len() as int] == n);
                } else {
                    assert(before.contains(n));
                    let k = choose|k: int| 0 <= k < before.len() && before[k] == n;
                    assert(told[k] == n);
                }
            }
            told
        } else {
            before
        }
    }
}

/// Of every entry that a leader commits, whoever waits for it is told so, once and in
/// the order of the log; nobody else is told anything, and nobody stops waiting without
/// an answer. Returns the indices that the replies are for.
pub proof fn law_committed_are_acknowledged<M: State, C, R>(
    pre: RaftWorker<Leader<C, R>, M>,
    post: RaftWorkerState<M, C, R>,
    settled: Settled<M, C, R>,
) -> (told: Seq<LogIndex>)
    requires
        pre.wf(),
        RaftWorkerState::Leader(pre).settles(post, settled),
    ensures
        settled.replies@.len() == told.len(),
        forall|i: int|
            0 <= i < told.len() ==> {
                &&& pre.inner.commit_index < #[trigger] told[i] <= post.inner().commit_index
                &&& pre.state.in_flight@.contains_key(told[i])
                &&& settled.replies@[i] == (
                    pre.state.in_flight@[told[i]],
                    ClientResult::<M::Item>::Ok(ClientResponse::Ack),
                )
            },
        forall|i: int, j: int| 0 <= i < j < told.len() ==> #[trigger] told[i] < #[trigger] told[j],
        forall|n: LogIndex|
            pre.inner.commit_index < n <= post.inner().commit_index
                && pre.state.in_flight@.contains_key(n) ==> #[trigger] told.contains(n),
        post matches RaftWorkerState::Leader(w) && forall|n: LogIndex|
            pre.state.in_flight@.contains_key(n) ==> (#[trigger] told.contains(n) || (
            w.state.in_flight@.contains_key(n) && w.state.in_flight@[n]
                == pre.state.in_flight@[n])),
        post matches RaftWorkerState::Leader(w) && forall|n: LogIndex| #[trigger]
            w.state.in_flight@.contains_key(n) ==> pre.state.in_flight@.contains_key(n)
                && !told.contains(n),
{
    let w = post->Leader_0;
    let told = law_all_waiters_are_told::<C, R, M::Item>(
        pre.state.in_flight@,
        pre.inner.commit_index,
        post.inner().commit_index,
    );
    assert forall|n: LogIndex| #[trigger]
        w.state.in_flight@.contains_key(n) implies pre.state.in_flight@.contains_key(n)
        && !told.contains(n) by {
        if told.contains(n) {
            let k = choose|k: int| 0 <= k < told.len() && told[k] == n;
            assert(pre.inner.commit_index < told[k] <= post.inner().commit_index);
        }
    }
    assert forall|n: LogIndex| pre.state.in_flight@.contains_key(n) implies (
    #[trigger] told.contains(n) || (w.state.in_flight@.contains_key(n)
        && w.state.in_flight@[n] == pre.state.in_flight@[n])) by {
        if !(pre.inner.commit_index < n <= post.inner().commit_index) {
            assert(w.state.in_flight@.contains_key(n));
        }
    }
    told
}

/// Nodes that do not lead have nobody to answer when they apply what is committed.
pub proof fn law_only_leaders_acknowledge<M: State, C, R>(
    pre: RaftWorkerState<M, C, R>,
    post: RaftWorkerState<M, C, R>,
    settled: Settled<M, C, R>,
)
    requires
        pre.settles(post, settled),
        !(pre is Leader),
    ensures
        settled.replies@.len() == 0,
        post.inner().commit_index == pre.inner().commit_index,
{
}

/// Once more than half of the cluster, the leader among them, have an entry of the
/// leader's term, it is committed with all before it. `have` are peers that have it.
pub proof fn law_stored_by_a_majority_is_committed<M: State, C, R>(
    pre: RaftWorker<Leader<C, R>, M>,
    post: RaftWorkerState<M, C, R>,
    settled: Settled<M, C, R>,
    n: LogIndex,
    have: Seq<NodeId>,
)
    requires
        pre.wf(),
        RaftWorkerState::Leader(pre).settles(post, settled),
        1 <= n <= pre.inner.storage@.log.len(),
        pre.inner.storage@.log[n - 1].term == pre.inner.storage@.term,
        have.no_duplicates(),
        forall|i: int|
            0 <= i < have.len() ==> pre.inner.peers@.contains(#[trigger] have[i])
                && pre.state.match_indices@[have[i]] >= n,
        2 * (have.len() + 1) > pre.inner.cluster_size,
    ensures
        post.inner().commit_index >= n,
{
    let peers = pre.inner.peers@;
    let has = |p: NodeId| pre.state.match_indices@[p] >= n;
    let all = peers.filter(has);
    lemma_filter_distinct(peers, has);
    assert forall|p: NodeId| have.to_set().contains(p) implies #[trigger] all.to_set().contains(
        p,
    ) by {
        let i = choose|i: int| 0 <= i < have.len() && have[i] == p;
        assert(have[i] == p);
        lemma_filter_complete(peers, has, p);
    }
    have.unique_seq_to_set();
    all.unique_seq_to_set();
    vstd::set_lib::lemma_len_subset(have.to_set(), all.to_set());
    assert(agreeing(peers, pre.state.match_indices@, n) == all.len());
    assert(pre.committable(n));
}

/// A leader commits no more than what more than half of the cluster have: where it goes
/// on, it is to an entry of its own term, and it goes back never. Returns the peers that
/// have that entry.
pub proof fn law_committed_is_stored_by_a_majority<M: State, C, R>(
    pre: RaftWorker<Leader<C, R>, M>,
    post: RaftWorkerState<M, C, R>,
    settled: Settled<M, C, R>,
) -> (have: Seq<NodeId>)
    requires
        pre.wf(),
        RaftWorkerState::Leader(pre).settles(post, settled),
    ensures
        post.inner().commit_index >= pre.inner.commit_index,
        have.no_duplicates(),
        forall|i: int|
            0 <= i < have.len() ==> pre.inner.peers@.contains(#[trigger] have[i])
                && pre.state.match_indices@[have[i]] >= post.inner().commit_index,
        post.inner().commit_index > pre.inner.commit_index ==> {
            let n = post.inner().commit_index;
            &&& n <= pre.inner.storage@.log.len()
            &&& pre.inner.storage@.log[n - 1].term == pre.inner.storage@.term
            &&& 2 * (have.len() + 1) > pre.inner.cluster_size
        },
{
    let n = post.inner().commit_index;
    let peers = pre.inner.peers@;
    let has = |p: NodeId| pre.state.match_indices@[p] >= n;
    let have = peers.filter(has);
    lemma_filter_distinct(peers, has);
    assert forall|i: int| 0 <= i < have.len() implies peers.contains(#[trigger] have[i])
        && pre.state.match_indices@[have[i]] >= n by {
        lemma_filter_within(peers, has, i);
        lemma_filter_passes(peers, has, i);
    }
    if n > pre.inner.commit_index {
        assert(agreeing(peers, pre.state.match_indices@, n) == have.len());
    }
    have
}

/// Whether the entry behind the first `from + k` of the log can be applied in the state
/// `k`, and leads to the one after it.
pub open spec fn applies<M: State>(
    states: Seq<M::V>,
    k: int,
    log: Seq<LogEntry<M::Command>>,
    from: int,
) -> bool {
    &&& M::admits(states[k], log[from + k].cmd)
    &&& states[k + 1] == M::next(states[k], log[from + k].cmd)
}

/// What is committed is applied: each entry once, in the order of the log, and nothing
/// that was applied before. Where all went well nothing of it is left; otherwise the
/// first entry that the state machine does not admit is named, and all before it are
/// applied. Returns the states that the state machine went through.
pub proof fn law_committed_is_applied<M: State, C, R>(
    pre: RaftWorkerState<M, C, R>,
    post: RaftWorkerState<M, C, R>,
    settled: Settled<M, C, R>,
) -> (states: Seq<M::V>)
    requires
        pre.wf(),
        pre.settles(post, settled),
    ensures
        ({
            let log = pre.inner().storage@.log;
            let from = pre.inner().last_applied as int;
            let commit = post.inner().commit_index as int;
            let n = states.len() - 1;
            &&& states.len() > 0
            &&& states[0] == pre.inner().current_state@
            &&& states[n] == post.inner().current_state@
            &&& post.inner().last_applied == from + n
            &&& n > 0 ==> from + n <= log.len() && from + n <= commit
            &&& forall|k: int| 0 <= k < n ==> #[trigger] applies::<M>(states, k, log, from)
            &&& match settled.applied {
                Ok(()) => from + n >= commit || from + n >= log.len(),
                Err(idx) => {
                    &&& idx == from + n + 1
                    &&& idx <= log.len()
                    &&& idx <= commit
                    &&& !M::admits(states[n], log[from + n].cmd)
                },
            }
        }),
{
    let before = RaftWorkerInner { commit_index: post.inner().commit_index, ..pre.inner() };
    let entries = before.unapplied();
    let log = pre.inner().storage@.log;
    let from = pre.inner().last_applied as int;
    assert(post.inner().applied_log(before, settled.applied));
    let n = match settled.applied {
        Ok(()) => entries.len() as int,
        Err(idx) => choose|n: int|
            {
                &&& #[trigger] post.inner().applied_of(before, n)
                &&& n < entries.len()
                &&& idx == entries[n].idx
                &&& !M::admits(post.inner().current_state@, entries[n].cmd)
            },
    };
    assert(post.inner().applied_of(before, n));
    assert forall|k: int| 0 <= k < entries.len() implies entries[k] == #[trigger] log[from + k] by {
    }
    let states = lemma_states::<M>(pre.inner().current_state@, entries.take(n));
    assert forall|k: int| 0 <= k < n implies #[trigger] applies::<M>(states, k, log, from) by {
        assert(applies::<M>(states, k, entries.take(n), 0));
        assert(entries.take(n)[k] == entries[k]);
        assert(entries[k] == log[from + k]);
    }
    if n > 0 {
        assert(entries[n - 1] == log[from + n - 1]);
    }
    states
}

/// The states on the way through the entries.
proof fn lemma_states<M: State>(
    state: M::V,
    entries: Seq<LogEntry<M::Command>>,
) -> (states: Seq<M::V>)
    requires
        applicable::<M>(state, entries),
    ensures
        states.len() == entries.len() + 1,
        states[0] == state,
        states.last() == state_after::<M>(state, entries),
        forall|k: int| 0 <= k < entries.len() ==> #[trigger] applies::<M>(states, k, entries, 0),
    decreases entries.len(),
{
    if entries.len() == 0 {
        seq![state]
    } else {
        let init = entries.drop_last();
        let before = lemma_states::<M>(state, init);
        let states = before.push(state_after::<M>(state, entries));
        assert forall|k: int| 0 <= k < entries.len() implies #[trigger] applies::<M>(
            states,
            k,
            entries,
            0,
        ) by {
            assert(states[k] == before[k]);
            if k < init.len() {
                assert(applies::<M>(before, k, init, 0));
                assert(init[k] == entries[k]);
                assert(states[k + 1] == before[k + 1]);
            }
        }
        states
    }
}

} // verus!
