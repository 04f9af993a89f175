//! Introductions: how the nodes of a session find each other.
//!
//! The messages between the nodes and the introducer, a server that knows who is
//! online, and what the introducer does with them.

pub mod server;

use std::collections::HashSet;
use vstd::prelude::*;
use vstd::std_specs::iter::IteratorSpec;

verus! {

/// A message between a node and the introducer.
#[derive(Debug)]
pub enum Command {
    Join(Join),
    SessionStatus(Session),
    Offer(Offer),
    Answer(Offer),
    IceCandidate(IceCandidate),
}

/// A node wants to be part of a session.
#[derive(Debug, Clone, Copy, PartialEq, Eq, Structural)]
pub struct Join {
    pub node_id: u64,
    pub session_id: u128,
}

/// The nodes of a session that are online.
#[derive(Debug)]
pub struct Session {
    pub session_id: u128,
    pub online: HashSet<u64>,
}

/// A node offers another one a connection, or answers to such an offer.
#[derive(Debug, PartialEq, Eq)]
pub struct Offer {
    pub session_id: u128,
    pub node_id: u64,
    pub target_id: u64,
    pub sdp_data: String,
}

/// A way to reach a node, for another one.
#[derive(Debug, PartialEq, Eq)]
pub struct IceCandidate {
    pub session_id: u128,
    pub node_id: u64,
    pub target_id: u64,
    pub candidate: String,
    pub sdp_mid: Option<String>,
}

/// The members of a set, in a set of their own.
pub fn copy_set(s: &HashSet<u64>) -> (r: HashSet<u64>)
    ensures
        r@ == s@,
{
    let mut r: HashSet<u64> = HashSet::new();
    let all = members(s);
    assert(all@.take(0).to_set() =~= Set::<u64>::empty());
    for i in 0..all.len()
        invariant
            r@ == all@.take(i as int).to_set(),
    {
        r.insert(all[i]);
        assert(all@.take(i as int + 1) =~= all@.take(i as int).push(all@[i as int]));
        proof {
            lemma_push_to_set(all@.take(i as int), all@[i as int]);
        }
    }
    assert(all@.take(all@.len() as int) =~= all@);
    r
}

pub proof fn lemma_push_to_set(s: Seq<u64>, x: u64)
    ensures
        s.push(x).to_set() == s.to_set().insert(x),
{
    let t = s.push(x);
    assert forall|y: u64| #[trigger] t.to_set().contains(y) <==> s.to_set().insert(x).contains(
        y,
    ) by {
        if s.contains(y) {
            let j = choose|j: int| 0 <= j < s.len() && s[j] == y;
            assert(t[j] == y);
        }
        if y == x {
            assert(t[s.len() as int] == y);
        }
    }
    assert(t.to_set() =~= s.to_set().insert(x));
}

/// The members of a set, each once, in no particular order.
pub fn members(s: &HashSet<u64>) -> (r: Vec<u64>)
    ensures
        r@.no_duplicates(),
        r@.to_set() == s@,
{
    let mut r: Vec<u64> = Vec::new();
    let it = s.iter();
    let ghost all = it.remaining().unref();
    for k in walk: it
        invariant
            walk.seq().unref() == all,
            r@ == all.take(walk.index() as int),
    {
        r.push(*k);
        assert(r@ =~= all.take(walk.index() as int + 1));
    }
    assert(r@ =~= all);
    r
}

} // verus!
