# WRaft

A Raft cluster of browser windows, written and proved in Verus.

- `src/raft` is the Raft library: messages, the log in local storage, and a worker that
  follows, campaigns and leads. A `State` is plugged into it. `raft/laws.rs` states what
  each step of a node keeps; `raft/cluster` states what holds of a whole cluster, of
  every history of steps, losses and restarts.
- `src/webrtc_rpc` makes connections between nodes and numbers the requests on them.
- `src/introducer` decides what the introducer, which tells the nodes of each other,
  does with a message.
- `src/ringbuf` is the ring buffer of the open requests.
- `src/todo`, `src/todo_state`, `src/benchmark`, `src/init` and `src/raft_init` are the
  decisions of the pages.
- `app` holds the introducer's sockets and the browser's side: timers, channels, data
  channels, local storage and views.

A node is moved on by events: `RaftWorkerState::next` takes an event and returns the next
node and the effects to carry out, and `settle` commits and applies what is due.

## What is trusted

Four functions call other crates, and their contracts are taken as they stand: the peers
in local storage are written and read with `bincode` and `base64`
(`raft::config::encode_ids`, `raft::config::decode_ids`), and `rand` chooses election
timeouts and session keys (`raft::config::random_between`,
`init::generate_session_key`). A fifth, `raft::worker::describe::debug_text`, prints with
`format!` those who wait for a leader's answer; nothing is claimed of its result.

## What is promised of a cluster

Whatever messages get lost, come late or come twice, and whichever nodes stop and start
again with what they stored:

- a term has at most one leader (`law_one_leader_per_term`);
- logs with an entry of one term at one index agree up to there (`law_logs_match`);
- what a leader acknowledges, a majority has stored (`law_committed_by_a_majority`);
- every later leader has it too (`law_leaders_are_complete`);
- so all nodes apply the same commands in the same order (`law_same_order_everywhere`).
