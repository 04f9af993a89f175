//! Three nodes, run by hand: messages are carried between them, windows are closed and
//! opened again.

use std::collections::{HashMap, VecDeque};
use wraft::raft::errors::ClientError;
use wraft::raft::kv::{KvStore, LogCmd};
use wraft::raft::node::{run, Event, RaftWorkerState, Timer};
use wraft::raft::storage::{Storage, Write};
use wraft::raft::worker::{is_vote, ClientResult, Waiter};
use wraft::raft::{ClientRequest, ClientResponse, Command, LogEntry, RpcRequest, RpcResponse};

const SESSION: u128 = 42;

/// Where the answer to another node goes.
#[derive(Debug, Clone)]
enum Back {
    Vote { to: usize, term: u64 },
    Entries { to: usize, last: u64 },
    Forward { client: u64 },
}

type Store = KvStore<String>;
type Node = RaftWorkerState<Store, u64, Back>;
type Ev = Event<Store, u64, Back>;

enum Item {
    Text(String),
    Entry(LogEntry<LogCmd<String>>),
}

struct Sim {
    nodes: Vec<Option<Node>>,
    disks: Vec<HashMap<String, Item>>,
    queue: VecDeque<(usize, Ev)>,
    replies: Vec<(u64, ClientResult<String>)>,
    timers: Vec<Timer>,
}

fn id(i: usize) -> u64 {
    100 + i as u64
}

fn text(disk: &HashMap<String, Item>, key: &str) -> Option<String> {
    match disk.get(key) {
        Some(Item::Text(s)) => Some(s.clone()),
        _ => None,
    }
}

fn restore(disk: &HashMap<String, Item>) -> Storage<LogCmd<String>> {
    let last = text(disk, "last-log-index-42");
    let n: u64 = match &last {
        Some(s) => s.parse().unwrap(),
        None => 0,
    };
    let mut log = Vec::new();
    for idx in 1..=n {
        match disk.get(&format!("log-42-{}", idx)) {
            Some(Item::Entry(e)) => log.push(Some(e.duplicate())),
            _ => panic!("no entry {}", idx),
        }
    }
    Storage::new(
        SESSION,
        text(disk, "current-term-42"),
        text(disk, "voted-for-42"),
        last,
        log,
    )
    .unwrap()
}

impl Sim {
    fn new() -> Sim {
        let mut sim = Sim {
            nodes: Vec::new(),
            disks: Vec::new(),
            queue: VecDeque::new(),
            replies: Vec::new(),
            timers: Vec::new(),
        };
        for i in 0..3 {
            sim.nodes.push(None);
            sim.disks.push(HashMap::new());
            sim.timers.push(Timer::Keep);
            sim.open(i);
        }
        sim
    }

    fn open(&mut self, i: usize) {
        let peers: Vec<u64> = (0..3).filter(|j| *j != i).map(id).collect();
        let clients: HashMap<u64, bool> = peers.iter().map(|p| (*p, true)).collect();
        let storage = restore(&self.disks[i]);
        self.nodes[i] = Some(run(id(i), SESSION, peers, clients, storage, KvStore::new()));
    }

    fn close(&mut self, i: usize) {
        self.nodes[i] = None;
    }

    fn index(&self, id: u64) -> usize {
        (id - 100) as usize
    }

    fn settle(&mut self, i: usize) {
        if let Some(node) = self.nodes[i].take() {
            let (node, settled) = node.settle();
            assert!(settled.applied.is_ok());
            self.nodes[i] = Some(node);
            for (waiter, res) in settled.replies {
                self.reply(waiter, res);
            }
        }
    }

    fn reply(&mut self, waiter: Waiter<u64, Back>, res: ClientResult<String>) {
        match waiter {
            Waiter::Client(client) => self.replies.push((client, res)),
            Waiter::Forwarded(Back::Forward { client }) => self.replies.push((client, res)),
            _ => unreachable!(),
        }
    }

    fn react(&mut self, i: usize, ev: Ev) {
        let node = match self.nodes[i].take() {
            Some(node) => node,
            None => return,
        };
        if !node.can_take(&ev) {
            self.nodes[i] = Some(node);
            return;
        }
        let (mut node, eff) = node.next(ev);
        let writes = match &mut node {
            RaftWorkerState::Follower(w) => w.inner.storage.take_writes(),
            RaftWorkerState::Candidate(w) => w.inner.storage.take_writes(),
            RaftWorkerState::Leader(w) => w.inner.storage.take_writes(),
        };
        for w in writes {
            match w {
                Write::Put { key, value } => {
                    self.disks[i].insert(key, Item::Text(value));
                }
                Write::PutEntry { key, entry } => {
                    self.disks[i].insert(key, Item::Entry(entry));
                }
                Write::Remove { key } => {
                    self.disks[i].remove(&key);
                }
            }
        }
        self.nodes[i] = Some(node);
        self.timers[i] = eff.timer;
        for (back, resp) in eff.responses {
            match back {
                Back::Vote { to, term } => {
                    let current = match &self.nodes[to] {
                        Some(RaftWorkerState::Candidate(w)) => w.inner.storage.current_term() == term,
                        _ => false,
                    };
                    if is_vote::<String>(&Ok(resp)) && current {
                        self.react(to, Event::Vote);
                    }
                }
                Back::Entries { to, last } => {
                    if let Some(RaftWorkerState::Leader(_)) = &self.nodes[to] {
                        self.queue.push_back((to, Event::Response(id(i), last, Ok(resp))));
                    }
                }
                Back::Forward { client } => match resp {
                    RpcResponse::ForwardClientRequest(res) => self.replies.push((client, res)),
                    _ => unreachable!(),
                },
            }
        }
        for (waiter, res) in eff.replies {
            self.reply(waiter, res);
        }
        for call in eff.calls {
            let to = self.index(call.peer_id);
            let back = Back::Entries { to: i, last: call.last_entry };
            self.queue.push_back((to, Event::Rpc(RpcRequest::AppendEntries(call.req), back)));
        }
        if let Some((to, req)) = eff.vote_request {
            for p in to {
                let back = Back::Vote { to: i, term: req.term };
                let to = self.index(p);
                self.queue.push_back((to, Event::Rpc(RpcRequest::RequestVote(req), back)));
            }
        }
        if let Some((leader, req, client)) = eff.forward {
            let to = self.index(leader);
            let back = Back::Forward { client };
            self.queue.push_back((to, Event::Rpc(RpcRequest::ForwardClientRequest(req), back)));
        }
        self.settle(i);
    }

    fn drain(&mut self) {
        while let Some((i, ev)) = self.queue.pop_front() {
            self.react(i, ev);
        }
    }

    fn timeout(&mut self, i: usize) {
        self.react(i, Event::Timeout);
        self.drain();
    }

    fn put(&mut self, i: usize, client: u64, key: &str, val: &str) {
        let cmd = LogCmd::Put { key: key.to_string(), data: val.to_string() };
        self.react(i, Event::Client(ClientRequest::Apply(cmd), client));
        self.drain();
    }

    fn read(&self, i: usize, key: &str) -> Option<String> {
        self.nodes[i].as_ref().unwrap().read(key.to_string())
    }

    fn is_leader(&self, i: usize) -> bool {
        matches!(self.nodes[i], Some(RaftWorkerState::Leader(_)))
    }

    fn acked(&self, client: u64) -> bool {
        self.replies.iter().any(|(c, r)| *c == client && matches!(r, Ok(ClientResponse::Ack)))
    }
}

#[test]
fn an_election_has_one_winner() {
    let mut sim = Sim::new();
    sim.timeout(0);
    assert!(sim.is_leader(0));
    assert!(!sim.is_leader(1));
    assert!(!sim.is_leader(2));
    sim.timeout(0);
    for i in 1..3 {
        match &sim.nodes[i] {
            Some(RaftWorkerState::Follower(w)) => {
                assert_eq!(w.inner.leader_id, Some(id(0)));
                assert_eq!(w.inner.storage.current_term(), 1);
                assert_eq!(*w.inner.storage.voted_for(), Some(id(0)));
            }
            _ => panic!("not a follower"),
        }
    }
}

#[test]
fn commands_reach_all_nodes_in_order() {
    let mut sim = Sim::new();
    sim.timeout(0);
    sim.timeout(0);
    sim.put(0, 1, "x", "first");
    sim.put(0, 2, "x", "second");
    sim.put(0, 3, "y", "other");
    assert!(sim.acked(1) && sim.acked(2) && sim.acked(3));
    sim.timeout(0);
    for i in 0..3 {
        assert_eq!(sim.read(i, "x"), Some("second".to_string()));
        assert_eq!(sim.read(i, "y"), Some("other".to_string()));
        assert_eq!(sim.read(i, "z"), None);
    }
}

#[test]
fn followers_pass_requests_on() {
    let mut sim = Sim::new();
    sim.timeout(0);
    sim.timeout(0);
    sim.put(2, 9, "k", "v");
    assert!(sim.acked(9));
    assert_eq!(sim.read(0, "k"), Some("v".to_string()));
    // A follower that knows no leader cannot.
    let mut fresh = Sim::new();
    fresh.put(1, 5, "k", "v");
    assert_eq!(fresh.replies.len(), 1);
    assert!(matches!(fresh.replies[0].1, Err(ClientError::Unavailable)));
}

#[test]
fn cluster_goes_on_without_one_node() {
    let mut sim = Sim::new();
    sim.timeout(0);
    sim.timeout(0);
    sim.put(0, 1, "a", "1");
    assert!(sim.acked(1));
    // The others have not heard yet that it is committed.
    sim.close(0);
    sim.timeout(1);
    assert!(sim.is_leader(1));
    sim.timeout(1);
    assert_eq!(sim.read(1, "a"), None);
    sim.put(1, 2, "b", "2");
    assert!(sim.acked(2));
    assert_eq!(sim.read(1, "a"), Some("1".to_string()));
    assert_eq!(sim.read(1, "b"), Some("2".to_string()));
    // The one that stopped catches up.
    sim.open(0);
    sim.timeout(1);
    sim.timeout(1);
    sim.timeout(1);
    assert_eq!(sim.read(0, "a"), Some("1".to_string()));
    assert_eq!(sim.read(0, "b"), Some("2".to_string()));
}

#[test]
fn cluster_recovers_after_two_nodes_stopped() {
    let mut sim = Sim::new();
    sim.timeout(0);
    sim.timeout(0);
    sim.put(0, 1, "a", "1");
    sim.close(1);
    sim.close(2);
    sim.put(0, 2, "b", "2");
    assert!(!sim.acked(2));
    sim.open(1);
    sim.open(2);
    sim.timeout(0);
    assert!(sim.acked(2));
    sim.timeout(0);
    for i in 0..3 {
        assert_eq!(sim.read(i, "b"), Some("2".to_string()));
    }
}

#[test]
fn messages_survive_a_restart_of_all() {
    let mut sim = Sim::new();
    sim.timeout(0);
    sim.timeout(0);
    for n in 0..25u64 {
        sim.put(0, n, &format!("k{}", n), &format!("v{}", n));
    }
    for i in 0..3 {
        sim.close(i);
    }
    for i in 0..3 {
        sim.open(i);
    }
    sim.timeout(2);
    assert!(sim.is_leader(2));
    sim.put(2, 99, "last", "one");
    for _ in 0..5 {
        sim.timeout(2);
    }
    assert!(sim.acked(99));
    for i in 0..3 {
        assert_eq!(sim.read(i, "last"), Some("one".to_string()));
        for n in 0..25u64 {
            assert_eq!(sim.read(i, &format!("k{}", n)), Some(format!("v{}", n)));
        }
        match sim.nodes[i].as_ref().unwrap() {
            RaftWorkerState::Follower(w) => assert_eq!(w.inner.storage.last_log_index(), 26),
            RaftWorkerState::Leader(w) => assert_eq!(w.inner.storage.last_log_index(), 26),
            _ => panic!("a candidate"),
        }
        assert!(matches!(
            restore(&sim.disks[i]).get_log(25),
            Some(LogEntry { cmd: LogCmd::Put { .. }, term: 1, idx: 25 })
        ));
    }
}

#[test]
fn a_leader_gives_way_to_a_later_term() {
    let mut sim = Sim::new();
    sim.timeout(0);
    sim.timeout(0);
    sim.timeout(1);
    assert!(!sim.is_leader(0));
    assert!(sim.is_leader(1));
}

#[test]
fn a_node_without_an_acknowledged_command_is_not_elected() {
    let mut sim = Sim::new();
    sim.timeout(0);
    sim.timeout(0);
    sim.close(2);
    sim.put(0, 1, "a", "1");
    assert!(sim.acked(1));
    // The leader stops before the other one hears that the command is committed.
    sim.close(0);
    sim.open(2);
    for _ in 0..3 {
        sim.timeout(2);
        assert!(!sim.is_leader(2));
    }
    sim.timeout(1);
    assert!(sim.is_leader(1));
    for _ in 0..3 {
        sim.timeout(1);
    }
    sim.put(1, 2, "b", "2");
    sim.timeout(1);
    for i in 1..3 {
        assert_eq!(sim.read(i, "a"), Some("1".to_string()));
        assert_eq!(sim.read(i, "b"), Some("2".to_string()));
    }
}

#[test]
fn an_unacknowledged_command_gives_way() {
    let mut sim = Sim::new();
    sim.timeout(0);
    sim.timeout(0);
    sim.close(1);
    sim.close(2);
    sim.put(0, 1, "a", "lost");
    assert!(!sim.acked(1));
    sim.close(0);
    sim.open(1);
    sim.open(2);
    sim.timeout(1);
    assert!(sim.is_leader(1));
    sim.put(1, 2, "a", "kept");
    assert!(sim.acked(2));
    sim.open(0);
    for _ in 0..4 {
        sim.timeout(1);
    }
    for i in 0..3 {
        assert_eq!(sim.read(i, "a"), Some("kept".to_string()));
    }
}

#[test]
fn timers_follow_the_role() {
    let mut sim = Sim::new();
    sim.react(0, Event::Timeout);
    assert_eq!(sim.timers[0], Timer::Election);
    sim.drain();
    // The first heartbeat is due at once.
    assert_eq!(sim.timers[0], Timer::Now);
    sim.react(0, Event::Timeout);
    assert_eq!(sim.timers[0], Timer::Heartbeat);
    sim.drain();
    assert_eq!(sim.timers[1], Timer::Election);
}

#[test]
fn only_a_put_starts_the_heartbeat_anew() {
    let mut sim = Sim::new();
    sim.timeout(0);
    sim.timeout(0);
    sim.react(0, Event::Client(ClientRequest::Apply(LogCmd::Delete { key: "k".to_string() }), 1));
    assert_eq!(sim.timers[0], Timer::Keep);
    sim.drain();
    assert!(sim.acked(1));
    let cmd = LogCmd::Put { key: "k".to_string(), data: "v".to_string() };
    sim.react(0, Event::Client(ClientRequest::Apply(cmd), 2));
    assert_eq!(sim.timers[0], Timer::Heartbeat);
}

#[test]
fn reads_and_dumps_are_answered_at_once() {
    let mut sim = Sim::new();
    sim.timeout(0);
    sim.timeout(0);
    sim.put(0, 1, "k", "v");
    sim.react(0, Event::Client(ClientRequest::Get("k".to_string()), 2));
    match &sim.replies.last().unwrap().1 {
        Ok(ClientResponse::Get(Some(v))) => assert_eq!(v, "v"),
        _ => panic!("no value"),
    }
    sim.react(0, Event::Client(ClientRequest::Debug, 3));
    match &sim.replies.last().unwrap().1 {
        Ok(ClientResponse::Debug(dump)) => {
            assert!(dump.state.starts_with("Leader { next_indices: {"));
            assert!(dump.state.contains("101: 2"));
            assert!(dump.state.contains("102: 2"));
            assert!(dump.state.ends_with("in_flight: {} }"));
            assert_eq!(dump.leader_id, Some(100));
            assert_eq!(dump.cluster_size, 3);
            assert_eq!(dump.peers, vec![101, 102]);
            assert_eq!(dump.online_peers.len(), 2);
            assert_eq!(dump.voted_for, Some(100));
            assert_eq!(dump.current_term, 1);
            assert_eq!(dump.last_log_index, 1);
            assert_eq!(dump.commit_index, 1);
            assert_eq!(dump.last_applied, 1);
        }
        _ => panic!("no dump"),
    }
}
