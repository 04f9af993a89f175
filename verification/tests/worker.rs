use std::collections::HashMap;
use wraft::raft::kv::{KvRequest, KvStore, LogCmd};
use wraft::raft::node::{run, Event, RaftWorkerState};
use wraft::raft::storage::Storage;
use wraft::raft::worker::{
    forwarded_reply, keys_of, Leader, RaftWorker, Waiter, HEARBEAT_INTERVAL_MILLIS, MAX_BATCH_SIZE,
};
use wraft::raft::{
    AppendEntriesRequest, AppendEntriesResponse, ClientResponse, LogEntry, RequestVoteRequest,
    RequestVoteResponse, RpcRequest, RpcResponse,
};
use wraft::raft::errors::ClientError;
use wraft::webrtc_rpc::transport;

type Store = KvStore<String>;

type Node = RaftWorkerState<Store, u8, u8>;

fn entry(idx: u64, term: u64) -> LogEntry<LogCmd<String>> {
    LogEntry { cmd: LogCmd::Delete { key: format!("{}", idx) }, term, idx }
}

fn storage(term: u64, vote: Option<u64>, terms: &[u64]) -> Storage<LogCmd<String>> {
    let log = terms.iter().enumerate().map(|(i, t)| Some(entry(i as u64 + 1, *t))).collect();
    Storage::new(
        7,
        Some(format!("{}", term)),
        vote.map(|v| format!("{}", v)),
        Some(format!("{}", terms.len())),
        log,
    )
    .unwrap()
}

fn follower(term: u64, vote: Option<u64>, terms: &[u64]) -> Node {
    let clients: HashMap<u64, bool> = [(2, true), (3, true)].into_iter().collect();
    run(1, 7, vec![2, 3], clients, storage(term, vote, terms), KvStore::new())
}

fn vote(term: u64, candidate: u64, last_log_index: u64, last_log_term: u64) -> RequestVoteRequest {
    RequestVoteRequest { term, candidate, last_log_index, last_log_term }
}

fn ask(node: Node, req: RequestVoteRequest) -> (Node, RequestVoteResponse) {
    let (node, mut eff) = node.next(Event::Rpc(RpcRequest::RequestVote(req), 0));
    match eff.responses.pop() {
        Some((0, RpcResponse::RequestVote(resp))) => (node, resp),
        _ => panic!("no answer"),
    }
}

fn send(
    node: Node,
    term: u64,
    prev: (u64, u64),
    entries: Vec<LogEntry<LogCmd<String>>>,
    leader_commit: u64,
) -> (Node, AppendEntriesResponse) {
    let req = AppendEntriesRequest {
        term,
        leader_id: 2,
        prev_log_index: prev.0,
        prev_log_term: prev.1,
        entries,
        leader_commit,
    };
    let ev = Event::Rpc(RpcRequest::AppendEntries(req), 0);
    assert!(node.can_take(&ev));
    let (node, mut eff) = node.next(ev);
    match eff.responses.pop() {
        Some((0, RpcResponse::AppendEntries(resp))) => (node, resp),
        _ => panic!("no answer"),
    }
}

fn terms(node: &Node) -> Vec<u64> {
    let s = match node {
        RaftWorkerState::Follower(w) => &w.inner.storage,
        RaftWorkerState::Candidate(w) => &w.inner.storage,
        RaftWorkerState::Leader(w) => &w.inner.storage,
    };
    (1..=s.last_log_index()).map(|i| s.get_log(i).unwrap().term).collect()
}

fn leader(terms: &[u64]) -> RaftWorker<Leader<u8, u8>, Store> {
    let (node, _) = follower(1, None, terms).next(Event::Timeout);
    let (node, _) = node.next(Event::Vote);
    match node {
        RaftWorkerState::Leader(w) => w,
        _ => panic!("not elected"),
    }
}

#[test]
fn constants_are_as_documented() {
    assert_eq!(MAX_BATCH_SIZE, 10);
    assert_eq!(HEARBEAT_INTERVAL_MILLIS, 100);
}

#[test]
fn a_vote_is_given_once_per_term() {
    let node = follower(3, None, &[1, 2]);
    let (node, resp) = ask(node, vote(3, 2, 5, 9));
    assert_eq!(resp, RequestVoteResponse { term: 9, vote_granted: true });
    let (node, resp) = ask(node, vote(3, 3, 5, 9));
    assert_eq!(resp, RequestVoteResponse { term: 0, vote_granted: false });
    let (node, resp) = ask(node, vote(3, 2, 5, 9));
    assert!(resp.vote_granted);
    // A later term frees the vote, an earlier one gets none.
    let (node, resp) = ask(node, vote(4, 3, 5, 9));
    assert!(resp.vote_granted);
    let (_, resp) = ask(node, vote(3, 3, 5, 9));
    assert!(!resp.vote_granted);
}

#[test]
fn a_candidate_behind_the_log_gets_no_vote() {
    // Nothing is committed here: the log alone decides.
    for (last_log_index, last_log_term, granted) in [
        (0, 0, false),
        (1, 1, false),
        (9, 1, false),
        (1, 2, false),
        (2, 2, true),
        (3, 2, true),
        (1, 3, true),
    ] {
        let (node, resp) = ask(follower(3, None, &[1, 2]), vote(4, 3, last_log_index, last_log_term));
        assert_eq!(resp.vote_granted, granted, "{} {}", last_log_index, last_log_term);
        match node {
            RaftWorkerState::Follower(w) => {
                assert_eq!(w.inner.storage.current_term(), 4);
                assert_eq!(*w.inner.storage.voted_for(), if granted { Some(3) } else { None });
            }
            _ => panic!("not a follower"),
        }
    }
    // Without a log, everybody is up to date.
    let (_, resp) = ask(follower(0, None, &[]), vote(1, 2, 0, 0));
    assert!(resp.vote_granted);
}

#[test]
fn entries_are_taken_over() {
    // They follow on the log.
    let (node, resp) = send(follower(1, None, &[1]), 2, (1, 1), vec![entry(2, 2), entry(3, 2)], 0);
    assert_eq!(resp, AppendEntriesResponse { term: 2, success: true });
    assert_eq!(terms(&node), vec![1, 2, 2]);
    // They are there already: what follows them stays.
    let (node, resp) = send(node, 2, (1, 1), vec![entry(2, 2)], 0);
    assert!(resp.success);
    assert_eq!(terms(&node), vec![1, 2, 2]);
    // They take the place of others, and of what follows these.
    let (node, resp) = send(node, 3, (1, 1), vec![entry(2, 3)], 0);
    assert!(resp.success);
    assert_eq!(terms(&node), vec![1, 3]);
}

#[test]
fn entries_are_refused() {
    // An earlier term.
    let (node, resp) = send(follower(5, None, &[1]), 4, (0, 0), vec![entry(1, 4)], 1);
    assert_eq!(resp, AppendEntriesResponse { term: 5, success: false });
    // The entry before is missing, or of another term.
    let (node, resp) = send(node, 5, (3, 1), vec![], 1);
    assert_eq!(resp, AppendEntriesResponse { term: 5, success: false });
    let (node, resp) = send(node, 6, (1, 2), vec![], 1);
    assert_eq!(resp, AppendEntriesResponse { term: 6, success: false });
    assert_eq!(terms(&node), vec![1]);
}

#[test]
fn entries_with_gaps_cannot_be_taken() {
    let node = follower(1, None, &[1]);
    let req = AppendEntriesRequest {
        term: 1,
        leader_id: 2,
        prev_log_index: 1,
        prev_log_term: 1,
        entries: vec![entry(4, 1)],
        leader_commit: 0,
    };
    assert!(!node.can_take(&Event::Rpc(RpcRequest::AppendEntries(req), 0)));
}

#[test]
fn applying_follows_the_commit_index() {
    let (node, _) = send(follower(1, None, &[1, 1, 1]), 1, (3, 1), vec![], 2);
    let (node, settled) = node.settle();
    assert!(settled.applied.is_ok());
    match node {
        RaftWorkerState::Follower(w) => {
            assert_eq!(w.inner.commit_index, 2);
            assert_eq!(w.inner.last_applied, 2);
        }
        _ => panic!("not a follower"),
    }
}

#[test]
fn only_what_is_shared_is_committed() {
    let commit = |node: &Node| match node {
        RaftWorkerState::Follower(w) => w.inner.commit_index,
        _ => panic!("not a follower"),
    };
    // The leader has committed three, but nothing shows that the tail here is its own.
    let (node, resp) = send(follower(2, None, &[1, 1, 1]), 2, (1, 1), vec![], 3);
    assert!(resp.success);
    assert_eq!(commit(&node), 1);
    let (node, resp) = send(node, 2, (1, 1), vec![entry(2, 2)], 3);
    assert!(resp.success);
    assert_eq!(terms(&node), vec![1, 2]);
    assert_eq!(commit(&node), 2);
    // It never goes back.
    let (node, _) = send(node, 2, (0, 0), vec![], 3);
    assert_eq!(commit(&node), 2);
}

#[test]
fn a_leader_sends_batches() {
    let mut w = leader(&[1; 15]);
    assert_eq!(w.inner.leader_id, Some(1));
    assert_eq!(w.state.next_indices[&2], 16);
    assert_eq!(w.state.match_indices[&2], 0);
    let call = w.append_entries(2).unwrap();
    assert_eq!(call.req.entries.len(), 0);
    assert_eq!(call.req.prev_log_index, 15);
    assert_eq!(call.req.prev_log_term, 1);
    assert_eq!(call.last_entry, 15);
    w.state.next_indices.insert(2, 1);
    let call = w.append_entries(2).unwrap();
    assert_eq!(call.req.entries.len(), 10);
    assert_eq!(call.req.prev_log_index, 0);
    assert_eq!(call.req.prev_log_term, 0);
    assert_eq!(call.last_entry, 10);
    w.inner.peer_clients.insert(2, false);
    assert!(w.append_entries(2).is_none());
    assert_eq!(w.append_entries_to_all().len(), 1);
}

#[test]
fn a_leader_learns_from_answers() {
    let w = leader(&[1, 1, 1]);
    let node: Node = RaftWorkerState::Leader(w);
    // Refused: one entry earlier is tried.
    let resp = RpcResponse::AppendEntries(AppendEntriesResponse { term: 2, success: false });
    let (node, eff) = node.next(Event::Response(2, 3, Ok(resp)));
    assert_eq!(eff.calls.len(), 1);
    assert_eq!(eff.calls[0].req.prev_log_index, 2);
    assert_eq!(eff.calls[0].req.entries.len(), 1);
    // Accepted.
    let resp = RpcResponse::AppendEntries(AppendEntriesResponse { term: 2, success: true });
    let (node, eff) = node.next(Event::Response(2, 3, Ok(resp)));
    assert_eq!(eff.calls.len(), 0);
    match &node {
        RaftWorkerState::Leader(w) => {
            assert_eq!(w.state.next_indices[&2], 4);
            assert_eq!(w.state.match_indices[&2], 3);
        }
        _ => panic!("not a leader"),
    }
    // Errors and answers of earlier terms change nothing.
    let (node, _) = node.next(Event::Response(2, 3, Err(transport::Error::RequestTimeout)));
    let resp = RpcResponse::AppendEntries(AppendEntriesResponse { term: 1, success: false });
    let (node, _) = node.next(Event::Response(3, 3, Ok(resp)));
    // A later term ends the leadership.
    let resp = RpcResponse::AppendEntries(AppendEntriesResponse { term: 9, success: false });
    let (node, _) = node.next(Event::Response(3, 3, Ok(resp)));
    match node {
        RaftWorkerState::Follower(w) => assert_eq!(w.inner.storage.current_term(), 9),
        _ => panic!("not a follower"),
    }
}

#[test]
fn late_refusals_do_not_go_before_the_first_entry() {
    let mut node: Node = RaftWorkerState::Leader(leader(&[1]));
    for prev in [0, 0, 0] {
        let resp = RpcResponse::AppendEntries(AppendEntriesResponse { term: 2, success: false });
        let ev = Event::Response(2, 1, Ok(resp));
        assert!(node.can_take(&ev));
        let (next, eff) = node.next(ev);
        assert_eq!(eff.calls[0].req.prev_log_index, prev);
        assert_eq!(eff.calls[0].req.entries.len(), 1);
        node = next;
    }
}

#[test]
fn entries_of_earlier_terms_are_not_counted() {
    // All entries are of term 1, the leader is in term 2.
    let mut w = leader(&[1, 1]);
    w.state.match_indices.insert(2, 2);
    let replies = w.advance_commit_index();
    assert_eq!(replies.len(), 0);
    assert_eq!(w.inner.commit_index, 0);
}

#[test]
fn an_own_entry_commits_the_earlier_ones() {
    let mut w = leader(&[1, 1]);
    w.handle_log_update(LogCmd::Delete { key: "a".to_string() }, Waiter::Client(5));
    w.state.match_indices.insert(2, 3);
    assert!(w.can_commit(3));
    assert!(!w.can_commit(2));
    let replies = w.advance_commit_index();
    assert_eq!(replies.len(), 1);
    assert!(matches!(replies[0], (Waiter::Client(5), Ok(ClientResponse::Ack))));
    assert_eq!(w.inner.commit_index, 3);
    assert_eq!(w.advance_commit_index().len(), 0);
    assert_eq!(w.inner.commit_index, 3);
}

#[test]
fn a_majority_commits_and_is_acknowledged() {
    let mut w = leader(&[]);
    let calls = w.handle_log_update(LogCmd::Delete { key: "a".to_string() }, Waiter::Client(5));
    assert_eq!(calls.len(), 2);
    assert_eq!(w.advance_commit_index().len(), 0);
    w.state.match_indices.insert(3, 1);
    let replies = w.advance_commit_index();
    assert_eq!(replies.len(), 1);
    assert!(matches!(replies[0], (Waiter::Client(5), Ok(ClientResponse::Ack))));
    assert_eq!(w.inner.commit_index, 1);
    assert_eq!(w.quorum(), 2);
}

#[test]
fn a_leader_refuses_requests_of_its_term() {
    let node: Node = RaftWorkerState::Leader(leader(&[1]));
    let (node, resp) = ask(node, vote(2, 3, 9, 9));
    assert_eq!(resp, RequestVoteResponse { term: 2, vote_granted: false });
    let (node, resp) = send(node, 2, (0, 0), vec![], 0);
    assert_eq!(resp, AppendEntriesResponse { term: 2, success: false });
    // Even entries with a gap.
    let (node, resp) = send(node, 2, (1, 1), vec![entry(9, 2)], 0);
    assert_eq!(resp, AppendEntriesResponse { term: 2, success: false });
    assert_eq!(terms(&node), vec![1]);
    let (node, resp) = send(node, 3, (0, 0), vec![], 0);
    assert_eq!(resp, AppendEntriesResponse { term: 3, success: true });
    assert!(matches!(node, RaftWorkerState::Follower(_)));
}

#[test]
fn store_requests_are_served_by_the_leader() {
    let mut w = leader(&[]);
    let out = w.handle_kv_request(KvRequest::Put("k".to_string(), "v".to_string()), Waiter::Client(1));
    assert!(out.reset_heartbeat);
    assert!(out.reply.is_none());
    assert_eq!(out.calls.len(), 2);
    let out = w.handle_kv_request(KvRequest::Delete("k".to_string()), Waiter::Client(2));
    assert!(!out.reset_heartbeat);
    assert_eq!(w.inner.storage.last_log_index(), 2);
    w.state.match_indices.insert(2, 1);
    w.advance_commit_index();
    assert!(w.apply_log().is_ok());
    let out = w.handle_kv_request(KvRequest::Get("k".to_string()), Waiter::Client(3));
    match out.reply {
        Some((Waiter::Client(3), Ok(ClientResponse::Get(Some(v))))) => assert_eq!(v, "v"),
        _ => panic!("no value"),
    }
    let dump = w.debug_state();
    assert!(dump.state.starts_with("Leader { next_indices: {"));
    assert!(dump.state.ends_with("in_flight: {2: 2} }"));
    assert_eq!(dump.current_term, 2);
    assert_eq!(dump.last_log_index, 2);
    assert_eq!(dump.commit_index, 1);
    let out = w.handle_kv_request(KvRequest::Debug, Waiter::Client(4));
    assert!(matches!(out.reply, Some((Waiter::Client(4), Ok(ClientResponse::Debug(_))))));
}

#[test]
fn dumps_tell_the_role() {
    let node = follower(1, None, &[1]);
    match &node {
        RaftWorkerState::Follower(w) => assert_eq!(w.debug_state().state, "Follower"),
        _ => panic!("not a follower"),
    }
    let (node, _) = node.next(Event::Timeout);
    match &node {
        RaftWorkerState::Candidate(w) => assert_eq!(w.state_dump().state, "Candidate"),
        _ => panic!("not a candidate"),
    }
    // Maps are told in any order.
    let mut w = leader(&[]);
    let text = w.handle_debug().state;
    let next = ["2: 1, 3: 1", "3: 1, 2: 1"];
    let matched = ["2: 0, 3: 0", "3: 0, 2: 0"];
    let told = |waiting: &str| -> Vec<String> {
        let mut r = Vec::new();
        for n in next {
            for m in matched {
                r.push(format!(
                    "Leader {{ next_indices: {{{}}}, match_indices: {{{}}}, in_flight: {{{}}} }}",
                    n, m, waiting
                ));
            }
        }
        r
    };
    assert!(told("").contains(&text));
    w.state.in_flight.insert(7, Waiter::Forwarded(40));
    assert!(told("7: 40").contains(&w.handle_debug().state));
    w.state.in_flight.insert(8, Waiter::Client(41));
    let text = w.handle_debug().state;
    assert!(told("7: 40, 8: 41").contains(&text) || told("8: 41, 7: 40").contains(&text));
}

#[test]
fn keys_come_once_each() {
    let m: HashMap<u64, bool> = [(4, true), (9, false)].into_iter().collect();
    let mut keys = keys_of(&m);
    keys.sort();
    assert_eq!(keys, vec![4, 9]);
}

#[test]
fn forwarded_answers_come_through() {
    let ok: Result<RpcResponse<String>, transport::Error> =
        Ok(RpcResponse::ForwardClientRequest(Ok(ClientResponse::Ack)));
    assert!(matches!(forwarded_reply(ok), Ok(ClientResponse::Ack)));
    let late: Result<RpcResponse<String>, transport::Error> =
        Ok(RpcResponse::ForwardClientRequest(Err(ClientError::Timeout)));
    assert!(matches!(forwarded_reply(late), Err(ClientError::Timeout)));
    let lost: Result<RpcResponse<String>, transport::Error> = Err(transport::Error::Disconnected);
    assert!(matches!(forwarded_reply(lost), Err(ClientError::Unavailable)));
}

#[test]
fn lost_connections_are_known() {
    let mut node = follower(1, None, &[]);
    node.set_connected(2, false);
    let (node, eff) = node.next(Event::Timeout);
    assert_eq!(eff.vote_request.unwrap().0, vec![3]);
    assert!(matches!(node, RaftWorkerState::Candidate(_)));
    let (node, _) = follower(1, None, &[]).next(Event::NewPeer(9));
    match node {
        RaftWorkerState::Follower(w) => assert!(w.inner.peer_clients[&9]),
        _ => panic!("not a follower"),
    }
}
