//! Raft in the browser: the decisions of the nodes of a cluster, of the server that
//! introduces them to each other, and of the programs that run on them.

pub mod benchmark;
pub mod filtering;
pub mod init;
pub mod introducer;
pub mod raft;
pub mod raft_init;
pub mod ringbuf;
pub mod text;
pub mod todo;
pub mod todo_state;
pub mod webrtc_rpc;
