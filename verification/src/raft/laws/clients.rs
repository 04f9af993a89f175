//! What becomes of the requests of clients, and which events a node takes.

use super::super::errors::ClientError;
use super::super::kv::{cluster_request, KvRequest, KvStore, LogCmd, RaftDebugState};
use super::super::node::{reconnected, Effects, Event, RaftWorkerState, Timer};
use super::super::worker::{
    leader_reads, ClientResult, Follower, Leader, RaftWorker, RaftWorkerInner, Role, Waiter,
};
use super::super::{
    ClientRequest, ClientResponse, Command, LogEntry, NodeId, RpcRequest, RpcResponse, State,
};
use vstd::prelude::*;

verus! {

/// A follower passes every request of its clients on to the leader, whatever is asked,
/// as long as it knows the leader and has a connection to it, and leaves the answer to
/// it. Only where it does not, it answers itself, that the cluster is unavailable.
pub proof fn law_follower_passes_on<M: State, C, R>(
    pre: RaftWorker<Follower, M>,
    req: ClientRequest<M::Command, M::Key>,
    tx: C,
    post: RaftWorkerState<M, C, R>,
    eff: Effects<M, C, R>,
)
    requires
        RaftWorkerState::<M, C, R>::Follower(pre).steps(Event::Client(req, tx), post, eff),
    ensures
        RaftWorkerState::<M, C, R>::Follower(pre).takes(Event::Client(req, tx)),
        post is Follower,
        post.inner() == pre.inner,
        eff.responses@.len() == 0,
        eff.calls@.len() == 0,
        eff.vote_request is None,
        eff.timer == Timer::Keep,
        forall|leader: NodeId|
            pre.inner.leader_id == Some(leader) && #[trigger] pre.inner.peer_clients@.contains_key(
                leader,
            ) ==> eff.forward == Some((leader, req, tx)) && eff.replies@.len() == 0,
        pre.inner.leader_id is None || !pre.inner.peer_clients@.contains_key(
            pre.inner.leader_id->0,
        ) ==> {
            &&& eff.forward is None
            &&& eff.replies@ == seq![
                (
                    Waiter::<C, R>::Client(tx),
                    ClientResult::<M::Item>::Err(ClientError::Unavailable),
                ),
            ]
        },
{
    assert(eff.replies@.len() == 1 ==> eff.replies@ =~= seq![eff.replies@[0]]);
}

/// A node that does not lead tells another one, which took it for the leader, that the
/// cluster is unavailable, and stays as it is.
pub proof fn law_only_the_leader_serves_others<M: State, C, R>(
    pre: RaftWorkerState<M, C, R>,
    req: ClientRequest<M::Command, M::Key>,
    tx: R,
    post: RaftWorkerState<M, C, R>,
    eff: Effects<M, C, R>,
)
    requires
        !(pre is Leader),
        pre.steps(Event::Rpc(RpcRequest::ForwardClientRequest(req), tx), post, eff),
    ensures
        post.inner() == pre.inner(),
        pre is Follower == post is Follower,
        pre is Candidate ==> post == pre,
        eff.responses@.len() == 1,
        eff.responses@[0] == (
            tx,
            RpcResponse::<M::Item>::ForwardClientRequest(Err(ClientError::Unavailable)),
        ),
        eff.replies@.len() == 0,
        eff.calls@.len() == 0,
        eff.forward is None,
        eff.vote_request is None,
        eff.timer == Timer::Keep,
{
}

/// Whether the event brings the leader this request, and `waiter` waits for the answer.
pub open spec fn asks<M: State, C, R>(
    ev: Event<M, C, R>,
    req: ClientRequest<M::Command, M::Key>,
    waiter: Waiter<C, R>,
) -> bool {
    match waiter {
        Waiter::Client(tx) => ev == Event::<M, C, R>::Client(req, tx),
        Waiter::Forwarded(tx) => ev == Event::<M, C, R>::Rpc(
            RpcRequest::ForwardClientRequest(req),
            tx,
        ),
    }
}

/// A command that a leader is asked to apply is added at the end of its log, in its
/// term, whoever asked. Whoever asked waits for it, and those who waited before still
/// do; nobody is answered yet.
pub proof fn law_command_is_logged<M: State, C, R>(
    pre: RaftWorker<Leader<C, R>, M>,
    ev: Event<M, C, R>,
    cmd: M::Command,
    waiter: Waiter<C, R>,
    post: RaftWorkerState<M, C, R>,
    eff: Effects<M, C, R>,
)
    requires
        pre.wf(),
        pre.inner.storage@.log.len() < u64::MAX,
        asks(ev, ClientRequest::Apply(cmd), waiter),
        RaftWorkerState::Leader(pre).steps(ev, post, eff),
    ensures
        RaftWorkerState::Leader(pre).takes(ev),
        post matches RaftWorkerState::Leader(w) && {
            let log = pre.inner.storage@.log;
            let n = (log.len() + 1) as u64;
            &&& w.inner.storage@.log.len() == n
            &&& log.is_prefix_of(w.inner.storage@.log)
            &&& w.inner.storage@.log[n - 1] == (LogEntry {
                cmd,
                term: pre.inner.storage@.term,
                idx: n,
            })
            &&& w.inner.storage@.term == pre.inner.storage@.term
            &&& w.inner.storage@.voted_for == pre.inner.storage@.voted_for
            &&& w.inner.commit_index == pre.inner.commit_index
            &&& w.inner.last_applied == pre.inner.last_applied
            &&& w.inner.current_state == pre.inner.current_state
            &&& w.state.in_flight@.contains_key(n)
            &&& w.state.in_flight@[n] == waiter
            &&& forall|k: u64|
                k != n ==> (#[trigger] w.state.in_flight@.contains_key(k)
                    == pre.state.in_flight@.contains_key(k)) && (
                pre.state.in_flight@.contains_key(k) ==> w.state.in_flight@[k]
                    == pre.state.in_flight@[k])
            &&& w.state.next_indices == pre.state.next_indices
            &&& w.state.match_indices == pre.state.match_indices
        },
        eff.replies@.len() == 0,
        eff.responses@.len() == 0,
        eff.forward is None,
        eff.vote_request is None,
        eff.timer == Timer::Heartbeat <==> M::renews(cmd),
        eff.timer == Timer::Keep <==> !M::renews(cmd),
{
}

/// A leader answers what it is asked of its state machine at once, to the one who
/// asked, and stays as it is.
pub proof fn law_reads_are_answered_at_once<M: State, C, R>(
    pre: RaftWorker<Leader<C, R>, M>,
    ev: Event<M, C, R>,
    key: M::Key,
    waiter: Waiter<C, R>,
    post: RaftWorkerState<M, C, R>,
    eff: Effects<M, C, R>,
)
    requires
        asks(ev, ClientRequest::Get(key), waiter),
        RaftWorkerState::Leader(pre).steps(ev, post, eff),
    ensures
        RaftWorkerState::Leader(pre).takes(ev),
        post == RaftWorkerState::Leader(pre),
        eff.replies@.len() == 1,
        eff.replies@[0].0 == waiter,
        eff.replies@[0].1 matches Ok(ClientResponse::Get(item)) && M::finds(
            pre.inner.current_state@,
            key,
            item,
        ),
        eff.responses@.len() == 0,
        eff.calls@.len() == 0,
        eff.forward is None,
        eff.vote_request is None,
        eff.timer == Timer::Keep,
{
}

/// Asked for it, a leader describes itself as it is, to the one who asked.
pub proof fn law_dump_tells_what_is<M: State, C, R>(
    pre: RaftWorker<Leader<C, R>, M>,
    ev: Event<M, C, R>,
    waiter: Waiter<C, R>,
    post: RaftWorkerState<M, C, R>,
    eff: Effects<M, C, R>,
)
    requires
        asks(ev, ClientRequest::Debug, waiter),
        RaftWorkerState::Leader(pre).steps(ev, post, eff),
    ensures
        RaftWorkerState::Leader(pre).takes(ev),
        post == RaftWorkerState::Leader(pre),
        eff.replies@.len() == 1,
        eff.replies@[0].0 == waiter,
        eff.replies@[0].1 matches Ok(ClientResponse::Debug(dump)) && {
            &&& dump.leader_id == pre.inner.leader_id
            &&& dump.node_id == pre.inner.node_id
            &&& dump.session_key == pre.inner.session_key
            &&& dump.cluster_size == pre.inner.cluster_size
            &&& dump.peers@ == pre.inner.peers@
            &&& dump.online_peers@.no_duplicates()
            &&& forall|id: NodeId| #[trigger]
                dump.online_peers@.contains(id) <==> pre.inner.peer_clients@.contains_key(id)
                    && pre.inner.peer_clients@[id]
            &&& dump.voted_for == pre.inner.storage@.voted_for
            &&& dump.current_term == pre.inner.storage@.term
            &&& dump.last_log_index == pre.inner.storage@.log.len()
            &&& dump.commit_index == pre.inner.commit_index
            &&& dump.last_applied == pre.inner.last_applied
            &&& leader_reads(pre.state, dump.state@)
        },
        eff.responses@.len() == 0,
        eff.calls@.len() == 0,
        eff.forward is None,
        eff.timer == Timer::Keep,
{
}

/// A node with a store describes itself as it is, with its store.
pub proof fn law_debug_state_tells_what_is<S: Role, T: Command>(
    w: RaftWorker<S, KvStore<T>>,
    dump: RaftDebugState<T>,
)
    requires
        w.shows(dump),
    ensures
        w.state.reads(dump.state@),
        dump.leader_id == w.inner.leader_id,
        dump.node_id == w.inner.node_id,
        dump.session_key == w.inner.session_key,
        dump.cluster_size == w.inner.cluster_size,
        dump.peers@ == w.inner.peers@,
        dump.online_peers@.no_duplicates(),
        forall|id: NodeId| #[trigger]
            dump.online_peers@.contains(id) <==> w.inner.peer_clients@.contains_key(id)
                && w.inner.peer_clients@[id],
        dump.voted_for == w.inner.storage@.voted_for,
        dump.current_term == w.inner.storage@.term,
        dump.last_log_index == w.inner.storage@.log.len(),
        dump.commit_index == w.inner.commit_index,
        dump.last_applied == w.inner.last_applied,
        dump.current_state@ == w.inner.current_state@,
{
}

/// No client is left without an answer, and none gets two: a request is answered at
/// once, or passed on to the leader, or waited for in the log, and only one of these.
pub proof fn law_one_answer_per_client<M: State, C, R>(
    pre: RaftWorkerState<M, C, R>,
    req: ClientRequest<M::Command, M::Key>,
    tx: C,
    post: RaftWorkerState<M, C, R>,
    eff: Effects<M, C, R>,
)
    requires
        pre.wf(),
        pre.takes(Event::Client(req, tx)),
        pre.steps(Event::Client(req, tx), post, eff),
    ensures
        ({
            let last = post.inner().storage@.log.len() as u64;
            let answered = eff.replies@.len() == 1 && eff.replies@[0].0 == Waiter::<C, R>::Client(
                tx,
            );
            let passed_on = eff.forward matches Some((_, what, to)) && what == req && to == tx;
            let logged = post matches RaftWorkerState::Leader(w)
                && w.inner.storage@.log.len() > pre.inner().storage@.log.len()
                && w.state.in_flight@.contains_key(last) && w.state.in_flight@[last] == Waiter::<
                C,
                R,
            >::Client(tx);
            &&& answered || passed_on || logged
            &&& answered ==> eff.forward is None && !logged
            &&& passed_on ==> eff.replies@.len() == 0 && !logged
            &&& logged ==> eff.replies@.len() == 0 && eff.forward is None
        }),
{
}

/// Every request of another node is answered: at once, with what it asked for, or as a
/// client is.
pub proof fn law_one_answer_per_node<M: State, C, R>(
    pre: RaftWorkerState<M, C, R>,
    req: RpcRequest<M::Command, M::Key>,
    tx: R,
    post: RaftWorkerState<M, C, R>,
    eff: Effects<M, C, R>,
)
    requires
        pre.wf(),
        pre.takes(Event::Rpc(req, tx)),
        pre.steps(Event::Rpc(req, tx), post, eff),
    ensures
        ({
            let last = post.inner().storage@.log.len() as u64;
            let responded = {
                &&& eff.responses@.len() == 1
                &&& eff.responses@[0].0 == tx
                &&& match req {
                    RpcRequest::AppendEntries(_) => eff.responses@[0].1 is AppendEntries,
                    RpcRequest::RequestVote(_) => eff.responses@[0].1 is RequestVote,
                    RpcRequest::ForwardClientRequest(_) => eff.responses@[0].1
                        is ForwardClientRequest,
                }
            };
            let answered = eff.replies@.len() == 1 && eff.replies@[0].0 == Waiter::<
                C,
                R,
            >::Forwarded(tx);
            let logged = post matches RaftWorkerState::Leader(w)
                && w.inner.storage@.log.len() > pre.inner().storage@.log.len()
                && w.state.in_flight@.contains_key(last) && w.state.in_flight@[last] == Waiter::<
                C,
                R,
            >::Forwarded(tx);
            &&& responded || answered || logged
            &&& responded ==> eff.replies@.len() == 0 && !logged
            &&& answered ==> eff.responses@.len() == 0 && !logged
            &&& logged ==> eff.responses@.len() == 0 && eff.replies@.len() == 0
            &&& eff.forward is None
        }),
{
}

/// A follower that hears of a peer has it connected, and knows of all others what it
/// knew.
pub proof fn law_new_peer_is_connected<M: State, C, R>(
    pre: RaftWorker<Follower, M>,
    id: NodeId,
    post: RaftWorkerState<M, C, R>,
    eff: Effects<M, C, R>,
    other: NodeId,
)
    requires
        RaftWorkerState::<M, C, R>::Follower(pre).steps(Event::NewPeer(id), post, eff),
    ensures
        RaftWorkerState::<M, C, R>::Follower(pre).takes(Event::NewPeer(id)),
        post is Follower,
        post.inner().peer_clients@.contains_key(id),
        post.inner().peer_clients@[id],
        other != id ==> post.inner().peer_clients@.contains_key(other)
            == pre.inner.peer_clients@.contains_key(other) && (
        pre.inner.peer_clients@.contains_key(other) ==> post.inner().peer_clients@[other]
            == pre.inner.peer_clients@[other]),
        post.inner() == (RaftWorkerInner { peer_clients: post.inner().peer_clients, ..pre.inner }),
        eff.responses@.len() == 0,
        eff.replies@.len() == 0,
        eff.calls@.len() == 0,
        eff.forward is None,
        eff.vote_request is None,
        eff.timer == Timer::Keep,
{
}

/// Where a connection is lost or back, that is noted, of this peer only.
pub proof fn law_connection_is_noted<M: State>(
    pre: RaftWorkerInner<M>,
    post: RaftWorkerInner<M>,
    peer_id: NodeId,
    connected: bool,
    other: NodeId,
)
    requires
        reconnected(pre, post, peer_id, connected),
    ensures
        post.peer_clients@.contains_key(peer_id),
        post.peer_clients@[peer_id] == connected,
        post.is_online(peer_id) == connected,
        other != peer_id ==> post.is_online(other) == pre.is_online(other),
        post.storage == pre.storage,
        post.commit_index == pre.commit_index,
        post.leader_id == pre.leader_id,
        post.current_state == pre.current_state,
{
}

/// What a node takes. It takes every request for its vote, entries that follow on one
/// another, however many, and whatever clients ask of a follower or a leader, until the
/// log is full; a follower takes every peer; an election and the timer are taken until
/// terms are used up; and a leader takes every error, every answer from another term and
/// every answer of a peer about entries of its log.
pub proof fn law_what_a_node_takes<M: State, C, R>(
    node: RaftWorkerState<M, C, R>,
    ev: Event<M, C, R>,
)
    requires
        node.wf(),
    ensures
        ({
            let log = node.inner().storage@.log;
            let term = node.inner().storage@.term;
            match ev {
                Event::Rpc(RpcRequest::RequestVote(_), _) => node.takes(ev),
                Event::Rpc(RpcRequest::AppendEntries(q), _) => (forall|k: int|
                    0 <= k < q.entries@.len() ==> (#[trigger] q.entries@[k]).idx
                        == q.prev_log_index + 1 + k) ==> node.takes(ev),
                Event::Rpc(RpcRequest::ForwardClientRequest(req), _) => !(node is Leader) || !(
                req is Apply) || log.len() < u64::MAX ==> node.takes(ev),
                Event::Client(req, _) => node is Follower || (node is Leader && (!(req is Apply)
                    || log.len() < u64::MAX)) ==> node.takes(ev),
                Event::NewPeer(_) => node is Follower ==> node.takes(ev),
                Event::Vote => node is Candidate && log.len() < u64::MAX ==> node.takes(ev),
                Event::Timeout => node is Leader || term < u64::MAX ==> node.takes(ev),
                Event::Response(peer, idx, res) => node is Leader ==> match res {
                    Err(_) => node.takes(ev),
                    Ok(RpcResponse::AppendEntries(resp)) => resp.term != term || (
                    node.inner().peers@.contains(peer) && (!resp.success || (idx <= log.len()
                        && idx < u64::MAX))) ==> node.takes(ev),
                    _ => true,
                },
            }
        }),
{
    if let Event::Rpc(RpcRequest::AppendEntries(q), _) = ev {
        let log = node.inner().storage@.log;
        if q.prev_log_index <= log.len() && forall|k: int|
            0 <= k < q.entries@.len() ==> (#[trigger] q.entries@[k]).idx == q.prev_log_index + 1
                + k {
            super::replication::law_entries_in_a_row_fit(log, q.prev_log_index, q.entries@);
        }
    }
}

/// What the user of a store asks for comes about once the cluster has it: a value that
/// was put is found under its key, a deleted key is empty, and all other keys are as
/// before. What is looked up and described is asked of the cluster as such. A new store
/// has nothing under any key, and only a value that is put renews the heartbeat.
pub proof fn law_store_does_what_is_asked<T: Command>(
    store: Map<Seq<char>, T>,
    req: KvRequest<T>,
    key: String,
    item: Option<T>,
)
    ensures
        KvStore::<T>::finds(Map::empty(), key, item) <==> item is None,
        match req {
            KvRequest::Put(k, data) => {
                &&& cluster_request(req) matches ClientRequest::Apply(cmd)
                &&& KvStore::<T>::admits(store, cmd)
                &&& KvStore::<T>::renews(cmd)
                &&& KvStore::<T>::finds(KvStore::<T>::next(store, cmd), key, item) <==> if key@
                    == k@ {
                    item == Some(data)
                } else {
                    KvStore::<T>::finds(store, key, item)
                }
            },
            KvRequest::Delete(k) => {
                &&& cluster_request(req) matches ClientRequest::Apply(cmd)
                &&& KvStore::<T>::admits(store, cmd)
                &&& !KvStore::<T>::renews(cmd)
                &&& KvStore::<T>::finds(KvStore::<T>::next(store, cmd), key, item) <==> if key@
                    == k@ {
                    item is None
                } else {
                    KvStore::<T>::finds(store, key, item)
                }
            },
            KvRequest::Get(k) => cluster_request(req) == ClientRequest::<LogCmd<T>, String>::Get(k),
            KvRequest::Debug => cluster_request(req) is Debug,
        },
{
}

} // verus!
