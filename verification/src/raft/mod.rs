//! The Raft library: messages, the log in local storage, and the worker that
//! follows, campaigns and leads.

pub mod client;
pub mod cluster;
pub mod config;
pub mod errors;
pub mod kv;
pub mod laws;
pub mod node;
pub mod persistence;
pub mod rpc_server;
pub mod storage;
pub mod worker;

use self::errors::ClientError;

use vstd::prelude::*;

verus! {

pub type LogIndex = u64;

pub type TermIndex = u64;

pub type NodeId = u64;

/// What can be replicated: a value of which an equal copy can be made.
pub trait Command: Sized {
    fn duplicate(&self) -> (r: Self)
        ensures
            r == *self,
    ;
}

/// A state machine that commands are applied to, in the order of the log.
pub trait State: View + Sized {
    type Command: Command;

    type Key;

    type Item;

    /// Whether the command can be applied at all in the given state.
    spec fn admits(state: Self::V, cmd: Self::Command) -> bool;

    /// The state that the command leads to.
    spec fn next(state: Self::V, cmd: Self::Command) -> Self::V;

    /// Whether `item` is what the state holds for `key`.
    spec fn finds(state: Self::V, key: Self::Key, item: Option<Self::Item>) -> bool;

    /// Whether a leader that takes in the command starts its heartbeat anew.
    spec fn renews(cmd: Self::Command) -> bool;

    fn renews_heartbeat(cmd: &Self::Command) -> (r: bool)
        ensures
            r == Self::renews(*cmd),
    ;

    fn accepts(&self, cmd: &Self::Command) -> (r: bool)
        ensures
            r == Self::admits(self@, *cmd),
    ;

    fn apply(&mut self, cmd: Self::Command)
        requires
            Self::admits(old(self)@, cmd),
        ensures
            final(self)@ == Self::next(old(self)@, cmd),
    ;

    fn get(&self, key: Self::Key) -> (r: Option<Self::Item>)
        ensures
            Self::finds(self@, key, r),
    ;
}

#[derive(Debug, Clone)]
pub struct LogEntry<Cmd> {
    pub cmd: Cmd,
    pub term: TermIndex,
    pub idx: LogIndex,
}

impl<Cmd: Command> Command for LogEntry<Cmd> {
    fn duplicate(&self) -> (r: Self) {
        LogEntry { cmd: self.cmd.duplicate(), term: self.term, idx: self.idx }
    }
}

/// A message from one node to another.
#[derive(Debug)]
pub enum RpcRequest<Cmd, Key> {
    AppendEntries(AppendEntriesRequest<Cmd>),
    RequestVote(RequestVoteRequest),
    ForwardClientRequest(ClientRequest<Cmd, Key>),
}

#[derive(Debug)]
pub enum RpcResponse<Item> {
    AppendEntries(AppendEntriesResponse),
    RequestVote(RequestVoteResponse),
    ForwardClientRequest(Result<ClientResponse<Item>, ClientError>),
}

/// What the user of a node asks of the cluster.
#[derive(Debug)]
pub enum ClientRequest<Cmd, Key> {
    Apply(Cmd),
    Get(Key),
    Debug,
}

#[derive(Debug)]
pub enum ClientResponse<Item> {
    Ack,
    Get(Option<Item>),
    GetCurrentState(Vec<(String, Item)>),
    Debug(Box<RaftStateDump>),
}

#[derive(Debug)]
pub struct AppendEntriesRequest<Cmd> {
    pub term: TermIndex,
    pub leader_id: NodeId,
    pub prev_log_index: LogIndex,
    pub prev_log_term: TermIndex,
    pub entries: Vec<LogEntry<Cmd>>,
    pub leader_commit: LogIndex,
}

pub struct AppendEntriesView<Cmd> {
    pub term: TermIndex,
    pub leader_id: NodeId,
    pub prev_log_index: LogIndex,
    pub prev_log_term: TermIndex,
    pub entries: Seq<LogEntry<Cmd>>,
    pub leader_commit: LogIndex,
}

impl<Cmd> View for AppendEntriesRequest<Cmd> {
    type V = AppendEntriesView<Cmd>;

    open spec fn view(&self) -> AppendEntriesView<Cmd> {
        AppendEntriesView {
            term: self.term,
            leader_id: self.leader_id,
            prev_log_index: self.prev_log_index,
            prev_log_term: self.prev_log_term,
            entries: self.entries@,
            leader_commit: self.leader_commit,
        }
    }
}

#[derive(Debug, Clone, Copy, PartialEq, Eq, Structural)]
pub struct RequestVoteRequest {
    pub term: TermIndex,
    pub candidate: NodeId,
    pub last_log_index: LogIndex,
    pub last_log_term: TermIndex,
}

#[derive(Debug, Clone, Copy, PartialEq, Eq, Structural)]
pub struct RequestVoteResponse {
    pub term: TermIndex,
    pub vote_granted: bool,
}

#[derive(Debug, Clone, Copy, PartialEq, Eq, Structural)]
pub struct AppendEntriesResponse {
    pub term: TermIndex,
    pub success: bool,
}

/// How a node describes itself.
#[derive(Debug, Clone)]
pub struct RaftStateDump {
    pub state: String,
    pub leader_id: Option<NodeId>,
    pub node_id: NodeId,
    pub session_key: u128,
    pub cluster_size: usize,
    pub peers: Vec<NodeId>,
    pub online_peers: Vec<NodeId>,
    pub voted_for: Option<NodeId>,
    pub current_term: TermIndex,
    pub last_log_index: LogIndex,
    pub commit_index: LogIndex,
    pub last_applied: LogIndex,
}

} // verus!
