//! A key/value store as a state machine, and the requests that its users make.

use super::worker::{ClientOutcome, Leader, RaftWorker, Role, Waiter};
use super::{ClientRequest, ClientResponse, Command, LogIndex, NodeId, State, TermIndex};
use std::fmt::Debug;
use vstd::prelude::*;

verus! {

/// A change to the store.
#[derive(Debug)]
pub enum LogCmd<T> {
    Put { key: String, data: T },
    Delete { key: String },
}

impl<T: Command> Command for LogCmd<T> {
    fn duplicate(&self) -> (r: Self) {
        match self {
            LogCmd::Put { key, data } => LogCmd::Put { key: key.clone(), data: data.duplicate() },
            LogCmd::Delete { key } => LogCmd::Delete { key: key.clone() },
        }
    }
}

impl Command for String {
    fn duplicate(&self) -> (r: Self) {
        self.clone()
    }
}

/// Values by their keys.
#[derive(Debug)]
pub struct KvStore<T> {
    items: Vec<(String, T)>,
}

/// No key occurs twice.
pub closed spec fn distinct_keys<T>(items: Seq<(String, T)>) -> bool {
    forall|i: int, j: int|
        0 <= i < j < items.len() ==> (#[trigger] items[i]).0@ != (#[trigger] items[j]).0@
}

spec fn occurs<T>(items: Seq<(String, T)>, key: Seq<char>, i: int) -> bool {
    0 <= i < items.len() && items[i].0@ == key
}

closed spec fn as_map<T>(items: Seq<(String, T)>) -> Map<Seq<char>, T> {
    Map::new(
        |key: Seq<char>| exists|i: int| occurs(items, key, i),
        |key: Seq<char>| items[choose|i: int| occurs(items, key, i)].1,
    )
}

proof fn lemma_occurs_once<T>(items: Seq<(String, T)>, key: Seq<char>, i: int)
    requires
        distinct_keys(items),
        occurs(items, key, i),
    ensures
        as_map(items).contains_key(key),
        as_map(items)[key] == items[i].1,
{
    let j = choose|j: int| occurs(items, key, j);
    assert(occurs(items, key, j));
    if i < j {
        assert(items[i].0@ != items[j].0@);
    } else if j < i {
        assert(items[j].0@ != items[i].0@);
    }
}

impl<T> View for KvStore<T> {
    type V = Map<Seq<char>, T>;

    closed spec fn view(&self) -> Map<Seq<char>, T> {
        as_map(self.items@)
    }
}

impl<T> KvStore<T> {
    #[verifier::type_invariant]
    spec fn inv(self) -> bool {
        distinct_keys(self.items@)
    }

    pub fn new() -> (r: Self)
        ensures
            r@ == Map::<Seq<char>, T>::empty(),
    {
        let r = KvStore { items: Vec::new() };
        assert(r@ =~= Map::<Seq<char>, T>::empty());
        r
    }

    fn position(items: &Vec<(String, T)>, key: &String) -> (r: Option<usize>)
        ensures
            match r {
                Some(i) => occurs(items@, key@, i as int),
                None => forall|i: int| !occurs(items@, key@, i),
            },
    {
        for i in 0..items.len()
            invariant
                forall|j: int| 0 <= j < i ==> !occurs(items@, key@, j),
        {
            if items[i].0 == *key {
                return Some(i);
            }
        }
        None
    }

    pub fn put(&mut self, key: String, data: T)
        ensures
            final(self)@ == old(self)@.insert(key@, data),
    {
        proof {
            use_type_invariant(&*self);
        }
        let ghost before = self.items@;
        let mut items: Vec<(String, T)> = Vec::new();
        std::mem::swap(&mut items, &mut self.items);
        let ghost k = key@;
        let at = Self::position(&items, &key);
        let ghost slot: int = match at {
            Some(i) => i as int,
            None => before.len() as int,
        };
        match at {
            Some(i) => {
                items.set(i, (key, data));
            },
            None => {
                items.push((key, data));
            },
        }
        proof {
            let after = items@;
            assert forall|i: int, j: int| 0 <= i < j < after.len() implies (
            #[trigger] after[i]).0@ != (#[trigger] after[j]).0@ by {
                assert(at is None ==> !occurs(before, k, i) && !occurs(before, k, j));
                if i != slot && j != slot {
                    assert(before[i].0@ != before[j].0@);
                } else if at is Some {
                    assert(before[i].0@ != before[j].0@);
                }
            }
            assert(occurs(after, k, slot));
            lemma_occurs_once(after, k, slot);
            assert forall|q: Seq<char>| q != k implies #[trigger] as_map(after).contains_key(q)
                == as_map(before).contains_key(q) && (as_map(before).contains_key(q)
                ==> as_map(after)[q] == as_map(before)[q]) by {
                if as_map(before).contains_key(q) {
                    let i = choose|i: int| occurs(before, q, i);
                    assert(occurs(after, q, i));
                    lemma_occurs_once(before, q, i);
                    lemma_occurs_once(after, q, i);
                }
                if as_map(after).contains_key(q) {
                    let i = choose|i: int| occurs(after, q, i);
                    assert(occurs(before, q, i));
                }
            }
            assert(as_map(after) =~= as_map(before).insert(k, data));
        }
        self.items = items;
    }

    pub fn delete(&mut self, key: &String)
        ensures
            final(self)@ == old(self)@.remove(key@),
    {
        proof {
            use_type_invariant(&*self);
        }
        let ghost before = self.items@;
        let mut items: Vec<(String, T)> = Vec::new();
        std::mem::swap(&mut items, &mut self.items);
        let ghost k = key@;
        let at = Self::position(&items, key);
        match at {
            Some(i) => {
                items.remove(i);
                proof {
                    let after = items@;
                    let s = i as int;
                    assert forall|a: int, b: int| 0 <= a < b < after.len() implies (
                    #[trigger] after[a]).0@ != (#[trigger] after[b]).0@ by {
                        let a0 = if a < s { a } else { a + 1 };
                        let b0 = if b < s { b } else { b + 1 };
                        assert(before[a0].0@ != before[b0].0@);
                    }
                    assert forall|q: Seq<char>| #[trigger]
                        as_map(after).contains_key(q) == (as_map(before).contains_key(q) && q != k)
                        && (as_map(after).contains_key(q) ==> as_map(after)[q] == as_map(
                        before,
                    )[q]) by {
                        if as_map(before).contains_key(q) && q != k {
                            let a = choose|a: int| occurs(before, q, a);
                            let a1 = if a < s { a } else { a - 1 };
                            assert(occurs(after, q, a1));
                            lemma_occurs_once(before, q, a);
                            lemma_occurs_once(after, q, a1);
                        }
                        if as_map(after).contains_key(q) {
                            let a1 = choose|a: int| occurs(after, q, a);
                            let a = if a1 < s { a1 } else { a1 + 1 };
                            assert(occurs(before, q, a));
                            if q == k {
                                assert(before[s].0@ == before[a].0@);
                            }
                        }
                    }
                    assert(as_map(after) =~= as_map(before).remove(k));
                }
            },
            None => {
                assert(as_map(items@) =~= as_map(before).remove(k));
            },
        }
        self.items = items;
    }
}

impl<T: Command> State for KvStore<T> {
    type Command = LogCmd<T>;

    type Key = String;

    type Item = T;

    open spec fn admits(state: Map<Seq<char>, T>, cmd: LogCmd<T>) -> bool {
        true
    }

    open spec fn next(state: Map<Seq<char>, T>, cmd: LogCmd<T>) -> Map<Seq<char>, T> {
        match cmd {
            LogCmd::Put { key, data } => state.insert(key@, data),
            LogCmd::Delete { key } => state.remove(key@),
        }
    }

    open spec fn finds(state: Map<Seq<char>, T>, key: String, item: Option<T>) -> bool {
        item == if state.contains_key(key@) {
            Some(state[key@])
        } else {
            None
        }
    }

    /// Only a value that is put starts the heartbeat anew.
    open spec fn renews(cmd: LogCmd<T>) -> bool {
        cmd is Put
    }

    fn renews_heartbeat(cmd: &LogCmd<T>) -> (r: bool) {
        match cmd {
            LogCmd::Put { .. } => true,
            LogCmd::Delete { .. } => false,
        }
    }

    fn accepts(&self, cmd: &LogCmd<T>) -> (r: bool) {
        true
    }

    fn apply(&mut self, cmd: LogCmd<T>) {
        match cmd {
            LogCmd::Put { key, data } => self.put(key, data),
            LogCmd::Delete { key } => self.delete(&key),
        }
    }

    fn get(&self, key: String) -> (r: Option<T>) {
        proof {
            use_type_invariant(self);
        }
        match Self::position(&self.items, &key) {
            Some(i) => {
                proof {
                    lemma_occurs_once(self.items@, key@, i as int);
                }
                Some(self.items[i].1.duplicate())
            },
            None => None,
        }
    }
}

impl<T: Command> KvStore<T> {
    /// A store with the same values under the same keys.
    pub fn duplicate(&self) -> (r: Self)
        ensures
            r@ == self@,
    {
        proof {
            use_type_invariant(self);
        }
        let mut items: Vec<(String, T)> = Vec::new();
        for i in 0..self.items.len()
            invariant
                items@ == self.items@.take(i as int),
        {
            items.push((self.items[i].0.clone(), self.items[i].1.duplicate()));
            assert(items@ =~= self.items@.take(i as int + 1));
        }
        assert(items@ =~= self.items@);
        KvStore { items }
    }
}

/// How a node with a store describes itself.
#[derive(Debug)]
pub struct RaftDebugState<T> {
    pub state: String,
    pub leader_id: Option<NodeId>,
    pub node_id: NodeId,
    pub session_key: u128,
    pub cluster_size: usize,
    pub peers: Vec<NodeId>,
    pub online_peers: Vec<NodeId>,
    pub voted_for: Option<NodeId>,
    pub current_term: TermIndex,
    pub last_log_index: LogIndex,
    pub commit_index: LogIndex,
    pub last_applied: LogIndex,
    pub current_state: KvStore<T>,
}

impl<S: Role, T: Command> RaftWorker<S, KvStore<T>> {
    /// Whether `dump` describes the node, its role and its store.
    pub open spec fn shows(&self, dump: RaftDebugState<T>) -> bool {
        let inner = self.inner;
        &&& self.state.reads(dump.state@)
        &&& dump.leader_id == inner.leader_id
        &&& dump.node_id == inner.node_id
        &&& dump.session_key == inner.session_key
        &&& dump.cluster_size == inner.cluster_size
        &&& dump.peers@ == inner.peers@
        &&& dump.online_peers@.no_duplicates()
        &&& forall|id: NodeId| #[trigger] dump.online_peers@.contains(id) <==> inner.is_online(id)
        &&& dump.voted_for == inner.storage@.voted_for
        &&& dump.current_term == inner.storage@.term
        &&& dump.last_log_index == inner.storage@.log.len()
        &&& dump.commit_index == inner.commit_index
        &&& dump.last_applied == inner.last_applied
        &&& dump.current_state@ == inner.current_state@
    }

    pub fn debug_state(&self) -> (r: RaftDebugState<T>)
        ensures
            self.shows(r),
    {
        let dump = self.state_dump();
        RaftDebugState {
            state: dump.state,
            leader_id: dump.leader_id,
            node_id: dump.node_id,
            session_key: dump.session_key,
            cluster_size: dump.cluster_size,
            peers: dump.peers,
            online_peers: dump.online_peers,
            voted_for: dump.voted_for,
            current_term: dump.current_term,
            last_log_index: dump.last_log_index,
            commit_index: dump.commit_index,
            last_applied: dump.last_applied,
            current_state: self.inner.current_state.duplicate(),
        }
    }
}

/// What the user of a store asks.
#[derive(Debug)]
pub enum KvRequest<T> {
    Get(String),
    Put(String, T),
    Delete(String),
    Debug,
}

/// The request to the cluster that a request to the store comes down to.
pub open spec fn cluster_request<T>(req: KvRequest<T>) -> ClientRequest<LogCmd<T>, String> {
    match req {
        KvRequest::Get(key) => ClientRequest::Get(key),
        KvRequest::Put(key, data) => ClientRequest::Apply(LogCmd::Put { key, data }),
        KvRequest::Delete(key) => ClientRequest::Apply(LogCmd::Delete { key }),
        KvRequest::Debug => ClientRequest::Debug,
    }
}

pub fn to_cluster_request<T>(req: KvRequest<T>) -> (r: ClientRequest<LogCmd<T>, String>)
    ensures
        r == cluster_request(req),
{
    match req {
        KvRequest::Get(key) => ClientRequest::Get(key),
        KvRequest::Put(key, data) => ClientRequest::Apply(LogCmd::Put { key, data }),
        KvRequest::Delete(key) => ClientRequest::Apply(LogCmd::Delete { key }),
        KvRequest::Debug => ClientRequest::Debug,
    }
}

impl<C: Debug, R: Debug, T: Command> RaftWorker<Leader<C, R>, KvStore<T>> {
    /// Answers a request to the store, or starts to replicate what it asks. After a
    /// value was put the heartbeat starts anew, since the peers were just contacted.
    pub fn handle_kv_request(&mut self, req: KvRequest<T>, waiter: Waiter<C, R>) -> (r:
        ClientOutcome<KvStore<T>, C, R>)
        requires
            old(self).wf(),
            req is Put || req is Delete ==> old(self).inner.storage@.log.len() < u64::MAX,
        ensures
            final(self).wf(),
            r.reset_heartbeat == (req is Put),
            match req {
                KvRequest::Put(key, data) => {
                    &&& final(self).logged(*old(self), LogCmd::Put { key, data }, waiter, r.calls@)
                    &&& r.reply is None
                },
                KvRequest::Delete(key) => {
                    &&& final(self).logged(*old(self), LogCmd::Delete { key }, waiter, r.calls@)
                    &&& r.reply is None
                },
                KvRequest::Get(key) => {
                    let state = old(self).inner.current_state@;
                    &&& *final(self) == *old(self)
                    &&& r.calls@.len() == 0
                    &&& r.reply matches Some((to, Ok(ClientResponse::Get(item))))
                    &&& to == waiter
                    &&& item == if state.contains_key(key@) {
                        Some(state[key@])
                    } else {
                        None
                    }
                },
                KvRequest::Debug => {
                    &&& *final(self) == *old(self)
                    &&& r.calls@.len() == 0
                    &&& r.reply matches Some((to, Ok(ClientResponse::Debug(dump))))
                    &&& to == waiter
                    &&& old(self).shown_in(*dump)
                },
            },
    {
        self.handle_client_request(to_cluster_request(req), waiter)
    }
}

} // verus!
