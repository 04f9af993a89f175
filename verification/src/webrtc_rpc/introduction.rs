//! How a node gets its connections to the other nodes of a session, with the help of
//! the introducer.

use super::error::Error;
use crate::introducer::{members, Command, IceCandidate, Join, Offer, Session};
use crate::text::{law_numeral_injective, law_numeral_is_plain, numeral, push_numeral};
use std::collections::{HashMap, HashSet};
use vstd::prelude::*;

verus! {

/// What the accepting side sends first on a new data channel.
pub open spec fn ack() -> Seq<char> {
    "ACK"@
}

/// How long an offer waits for an answer before it is sent again.
pub const OFFER_RETRY_SECS: u64 = 5;

/// The introductions of a node. `P` is a connection that is being set up.
pub struct State<P> {
    node_id: u64,
    session_id: u128,
    peers: HashMap<u64, P>,
    online: HashSet<u64>,
}

pub struct StateView<P> {
    pub node_id: u64,
    pub session_id: u128,
    /// The connections that are being set up.
    pub peers: Map<u64, P>,
    /// The nodes that there is a connection with, or that one is being set up with.
    pub online: Set<u64>,
}

impl<P> View for State<P> {
    type V = StateView<P>;

    closed spec fn view(&self) -> StateView<P> {
        StateView {
            node_id: self.node_id,
            session_id: self.session_id,
            peers: self.peers@,
            online: self.online@,
        }
    }
}

/// What comes after an offer was sent.
#[derive(Debug, Clone, Copy, PartialEq, Eq, Structural)]
pub enum OfferStep {
    /// The channel is open: hand the peer over.
    HandOver,
    /// The other node did not answer in time: send the offer again.
    OfferAgain,
}

/// An offer is repeated until the channel is open.
pub fn offer_step(opened: bool) -> (r: OfferStep)
    ensures
        r == if opened {
            OfferStep::HandOver
        } else {
            OfferStep::OfferAgain
        },
{
    if opened {
        OfferStep::HandOver
    } else {
        OfferStep::OfferAgain
    }
}

/// Whether a node introduces itself to another one of its session: of two nodes it is
/// the one with the lower id.
pub open spec fn introduces(node_id: u64, peer_id: u64) -> bool {
    peer_id > node_id
}

/// Of two nodes exactly one introduces itself to the other.
pub proof fn law_one_side_introduces(a: u64, b: u64)
    requires
        a != b,
    ensures
        introduces(a, b) != introduces(b, a),
{
}

/// The node with the lower id introduces itself.
pub proof fn law_lower_id_introduces(a: u64, b: u64)
    ensures
        introduces(a, b) <==> a < b,
{
}

/// The name of the data channel that a node opens to another one.
pub open spec fn channel_name(session_id: u128, node_id: u64, peer_id: u64) -> Seq<char> {
    "data-0x"@ + numeral(session_id as nat, 16) + "-0x"@ + numeral(node_id as nat, 16) + "-0x"@
        + numeral(peer_id as nat, 16)
}

/// What a message from the introducer leads to.
pub enum Step {
    /// Introduce this node to these.
    Introduce(Vec<u64>),
    /// Set up a connection for the offer and answer it.
    Accept(Offer),
    /// Complete the connection with the answer.
    Complete(Offer),
    /// Add the candidate to the connection.
    AddCandidate(IceCandidate),
}

impl<P> State<P> {
    pub fn new(node_id: u64, session_id: u128) -> (r: Self)
        ensures
            r@ == (StateView::<P> {
                node_id,
                session_id,
                peers: Map::empty(),
                online: Set::empty(),
            }),
    {
        State { node_id, session_id, peers: HashMap::new(), online: HashSet::new() }
    }

    /// A connection to a node is being set up.
    pub fn insert_peer(&mut self, peer_id: u64, pc: P)
        ensures
            final(self)@ == (StateView {
                peers: old(self)@.peers.insert(peer_id, pc),
                online: old(self)@.online.insert(peer_id),
                ..old(self)@
            }),
    {
        self.peers.insert(peer_id, pc);
        self.online.insert(peer_id);
    }

    /// Whether a connection to a node is being set up.
    pub fn is_pending(&self, peer_id: u64) -> (r: bool)
        ensures
            r == self@.peers.contains_key(peer_id),
    {
        self.peers.contains_key(&peer_id)
    }

    /// A connection is ready: it is handed out.
    pub fn send_peer(&mut self, peer_id: u64) -> (r: P)
        requires
            old(self)@.peers.contains_key(peer_id),
        ensures
            r == old(self)@.peers[peer_id],
            final(self)@ == (StateView {
                peers: old(self)@.peers.remove(peer_id),
                ..old(self)@
            }),
    {
        self.peers.remove(&peer_id).unwrap()
    }

    /// A connection that was handed out is lost.
    pub fn peer_done(&mut self, peer_id: u64)
        ensures
            final(self)@ == (StateView {
                online: old(self)@.online.remove(peer_id),
                ..old(self)@
            }),
    {
        self.online.remove(&peer_id);
    }

    /// What to do with a message from the introducer, which never joins a session.
    pub fn handle_message(&self, command: Command) -> (r: Step)
        requires
            !(command is Join),
        ensures
            match command {
                Command::SessionStatus(session) => {
                    &&& r matches Step::Introduce(ids)
                    &&& ids@.no_duplicates()
                    &&& forall|p: u64| #[trigger] ids@.contains(p) <==> self.lacks(session.online@, p)
                },
                Command::Offer(offer) => r == Step::Accept(offer),
                Command::Answer(answer) => r == Step::Complete(answer),
                Command::IceCandidate(candidate) => r == Step::AddCandidate(candidate),
                Command::Join(_) => false,
            },
    {
        match command {
            Command::SessionStatus(session) => Step::Introduce(
                self.handle_session_update(&session),
            ),
            Command::Offer(offer) => Step::Accept(offer),
            Command::Answer(answer) => Step::Complete(answer),
            Command::IceCandidate(candidate) => Step::AddCandidate(candidate),
            Command::Join(_) => Step::Introduce(Vec::new()),
        }
    }

    /// Whether the node introduces itself to `p` when it hears that `online` are online.
    pub open spec fn lacks(&self, online: Set<u64>, p: u64) -> bool {
        &&& online.contains(p)
        &&& introduces(self@.node_id, p)
        &&& !self@.online.contains(p)
    }

    /// The nodes that this node introduces itself to, each once.
    pub fn handle_session_update(&self, session: &Session) -> (r: Vec<u64>)
        ensures
            r@.no_duplicates(),
            forall|p: u64| #[trigger] r@.contains(p) <==> self.lacks(session.online@, p),
    {
        let all = members(&session.online);
        let mut r: Vec<u64> = Vec::new();
        for i in 0..all.len()
            invariant
                all@.no_duplicates(),
                all@.to_set() == session.online@,
                r@.no_duplicates(),
                forall|p: u64| #[trigger]
                    r@.contains(p) <==> self.lacks(session.online@, p) && all@.take(
                        i as int,
                    ).contains(p),
        {
            let p = all[i];
            let ghost before = r@;
            proof {
                assert(all@.to_set().contains(p));
                assert(all@.take(i as int + 1) =~= all@.take(i as int).push(p));
                assert(!all@.take(i as int).contains(p));
                crate::introducer::lemma_push_to_set(all@.take(i as int), p);
                crate::introducer::lemma_push_to_set(before, p);
            }
            let ghost seen = all@.take(i as int);
            assert forall|q: u64| seen.push(p).contains(q) <==> seen.contains(q) || q == p by {
                assert(seen.push(p).to_set().contains(q) == seen.to_set().insert(p).contains(q));
            }
            assert forall|q: u64| before.push(p).contains(q) <==> before.contains(q) || q == p by {
                assert(before.push(p).to_set().contains(q) == before.to_set().insert(p).contains(q));
            }
            if p > self.node_id && !self.online.contains(&p) {
                assert(!before.contains(p));
                r.push(p);
            }
            assert forall|q: u64| #[trigger] r@.contains(q) <==> self.lacks(session.online@, q)
                && all@.take(i as int + 1).contains(q) by {
                assert(all@.take(i as int + 1).contains(q) == seen.push(p).contains(q));
                assert(r@ == before || r@ == before.push(p));
                assert(before.contains(q) <==> self.lacks(session.online@, q) && seen.contains(q));
            }
        }
        assert(all@.take(all@.len() as int) =~= all@);
        assert forall|p: u64| self.lacks(session.online@, p) implies #[trigger] r@.contains(p) by {
            assert(all@.to_set().contains(p));
        }
        r
    }

    /// The name of the data channel to a node.
    pub fn data_channel_name(&self, peer_id: u64) -> (r: String)
        ensures
            r@ == channel_name(self@.session_id, self@.node_id, peer_id),
    {
        let mut name = "data-0x".to_owned();
        push_numeral(&mut name, self.session_id, 16);
        name.append("-0x");
        push_numeral(&mut name, self.node_id as u128, 16);
        name.append("-0x");
        push_numeral(&mut name, peer_id as u128, 16);
        name
    }

    /// The connection that an answer is for. An answer to a connection that is set up
    /// already is an error.
    pub fn handle_answer<J, E>(&self, answer: &Offer) -> (r: Result<&P, Error<J, E>>)
        ensures
            match r {
                Ok(pc) => self@.peers.contains_key(answer.node_id) && *pc
                    == self@.peers[answer.node_id],
                Err(err) => {
                    &&& !self@.peers.contains_key(answer.node_id)
                    &&& err == Error::<J, E>::AlreadyInitialized(answer.node_id)
                },
            },
    {
        match self.peers.get(&answer.node_id) {
            Some(pc) => Ok(pc),
            None => Err(Error::AlreadyInitialized(answer.node_id)),
        }
    }

    /// The connection that a candidate is for. There is none if it is set up already,
    /// which happens and is no error.
    pub fn handle_ice_candidate(&self, candidate: &IceCandidate) -> (r: Option<&P>)
        ensures
            match r {
                Some(pc) => self@.peers.contains_key(candidate.node_id) && *pc
                    == self@.peers[candidate.node_id],
                None => !self@.peers.contains_key(candidate.node_id),
            },
    {
        self.peers.get(&candidate.node_id)
    }

    /// The offer to a node.
    pub fn send_offer(&self, peer_id: u64, sdp_data: String) -> (r: Command)
        ensures
            r == Command::Offer(
                Offer {
                    session_id: self@.session_id,
                    node_id: self@.node_id,
                    target_id: peer_id,
                    sdp_data,
                },
            ),
    {
        Command::Offer(
            Offer {
                session_id: self.session_id,
                node_id: self.node_id,
                target_id: peer_id,
                sdp_data,
            },
        )
    }

    /// The answer to the offer of a node.
    pub fn send_answer(&self, peer_id: u64, answer_sdp: String) -> (r: Command)
        ensures
            r == Command::Answer(
                Offer {
                    session_id: self@.session_id,
                    node_id: self@.node_id,
                    target_id: peer_id,
                    sdp_data: answer_sdp,
                },
            ),
    {
        Command::Answer(
            Offer {
                session_id: self.session_id,
                node_id: self.node_id,
                target_id: peer_id,
                sdp_data: answer_sdp,
            },
        )
    }

    /// A way to reach this node, for another one.
    pub fn send_candidate(
        &self,
        peer_id: u64,
        candidate: String,
        sdp_mid: Option<String>,
    ) -> (r: Command)
        ensures
            r == Command::IceCandidate(
                IceCandidate {
                    session_id: self@.session_id,
                    node_id: self@.node_id,
                    target_id: peer_id,
                    candidate,
                    sdp_mid,
                },
            ),
    {
        Command::IceCandidate(
            IceCandidate {
                session_id: self.session_id,
                node_id: self.node_id,
                target_id: peer_id,
                candidate,
                sdp_mid,
            },
        )
    }
}

/// A node that hears who is online introduces itself to each of them that has a higher
/// id and that it has no connection with yet, also none that is being set up, and to
/// nobody else. So of two nodes that are new to each other, and hear of each other,
/// exactly one does.
pub proof fn law_nodes_meet<P>(a: State<P>, b: State<P>, online: Set<u64>)
    requires
        a@.node_id != b@.node_id,
        online.contains(a@.node_id),
        online.contains(b@.node_id),
        !a@.online.contains(b@.node_id),
        !b@.online.contains(a@.node_id),
    ensures
        a.lacks(online, b@.node_id) <==> a@.node_id < b@.node_id,
        b.lacks(online, a@.node_id) <==> b@.node_id < a@.node_id,
        forall|p: u64| #[trigger]
            a.lacks(online, p) <==> online.contains(p) && p > a@.node_id && !a@.online.contains(p),
{
}

/// The name of a data channel tells its session and both ends, so that no two channels
/// share one.
pub proof fn law_channel_names_differ(
    s: u128,
    a: u64,
    b: u64,
    t: u128,
    c: u64,
    d: u64,
)
    requires
        channel_name(s, a, b) == channel_name(t, c, d),
    ensures
        s == t,
        a == c,
        b == d,
{
    reveal_strlit("data-0x");
    reveal_strlit("-0x");
    let x = channel_name(s, a, b).skip(7);
    let y = channel_name(t, c, d).skip(7);
    let ra = numeral(a as nat, 16) + "-0x"@ + numeral(b as nat, 16);
    let rc = numeral(c as nat, 16) + "-0x"@ + numeral(d as nat, 16);
    assert(x =~= numeral(s as nat, 16) + "-0x"@ + ra);
    assert(y =~= numeral(t as nat, 16) + "-0x"@ + rc);
    lemma_numeral_then_mark(s as nat, ra, t as nat, rc);
    lemma_numeral_then_mark(a as nat, numeral(b as nat, 16), c as nat, numeral(d as nat, 16));
    law_numeral_injective(b as nat, d as nat, 16);
}

proof fn lemma_numeral_then_mark(a: nat, x: Seq<char>, b: nat, y: Seq<char>)
    requires
        numeral(a, 16) + "-0x"@ + x == numeral(b, 16) + "-0x"@ + y,
    ensures
        a == b,
        x == y,
{
    reveal_strlit("-0x");
    let p = numeral(a, 16);
    let q = numeral(b, 16);
    let s = p + "-0x"@ + x;
    let t = q + "-0x"@ + y;
    assert(s[p.len() as int] == '-');
    assert(t[q.len() as int] == '-');
    if p.len() < q.len() {
        assert(t[p.len() as int] == q[p.len() as int]);
        law_numeral_is_plain(b, 16, p.len() as int);
    } else if q.len() < p.len() {
        assert(s[q.len() as int] == p[q.len() as int]);
        law_numeral_is_plain(a, 16, q.len() as int);
    }
    assert(p =~= s.take(p.len() as int));
    assert(q =~= t.take(q.len() as int));
    law_numeral_injective(a, b, 16);
    assert(x =~= s.skip(p.len() as int + 3));
    assert(y =~= t.skip(q.len() as int + 3));
}

/// The message with which a node joins a session.
pub fn send_join_command(node_id: u64, session_id: u128) -> (r: Command)
    ensures
        r == Command::Join(Join { node_id, session_id }),
{
    Command::Join(Join { node_id, session_id })
}

/// Whether the first message on a data channel, if it is a text, says that the channel
/// is ready.
pub fn is_ack(msg: &Option<String>) -> (r: bool)
    ensures
        r == (msg matches Some(text) && text@ == ack()),
{
    match msg {
        Some(text) => *text == "ACK".to_owned(),
        None => false,
    }
}

} // verus!
