//! Introductions between nodes that go by names.

use vstd::prelude::*;

verus! {

/// How many nodes are introduced to each other.
pub const CLUSTER_SIZE: usize = 3;

/// Whether a text comes before another one, character by character.
pub open spec fn precedes(a: Seq<char>, b: Seq<char>) -> bool
    decreases a.len(),
{
    if b.len() == 0 {
        false
    } else if a.len() == 0 {
        true
    } else if a[0] == b[0] {
        precedes(a.skip(1), b.skip(1))
    } else {
        a[0] < b[0]
    }
}

fn comes_before(a: &str, b: &str) -> (r: bool)
    ensures
        r == precedes(a@, b@),
{
    let m = a.unicode_len();
    let n = b.unicode_len();
    let mut i: usize = 0;
    assert(a@.skip(0) =~= a@);
    assert(b@.skip(0) =~= b@);
    while i < m && i < n && a.get_char(i) == b.get_char(i)
        invariant
            m == a@.len(),
            n == b@.len(),
            i <= m,
            i <= n,
            precedes(a@.skip(i as int), b@.skip(i as int)) == precedes(a@, b@),
        decreases m - i,
    {
        assert(a@.skip(i as int).skip(1) =~= a@.skip(i + 1));
        assert(b@.skip(i as int).skip(1) =~= b@.skip(i + 1));
        i = i + 1;
    }
    if i == n {
        false
    } else if i == m {
        true
    } else {
        a.get_char(i) < b.get_char(i)
    }
}

/// Of two different names exactly one comes before the other, so exactly one of two
/// nodes introduces itself.
pub proof fn law_names_are_ordered(a: Seq<char>, b: Seq<char>)
    requires
        a != b,
    ensures
        precedes(a, b) != precedes(b, a),
    decreases a.len(),
{
    if a.len() > 0 && b.len() > 0 && a[0] == b[0] {
        if a.skip(1) == b.skip(1) {
            assert(a =~= seq![a[0]] + a.skip(1));
            assert(b =~= seq![b[0]] + b.skip(1));
        }
        law_names_are_ordered(a.skip(1), b.skip(1));
    } else if a.len() == 0 && b.len() == 0 {
        assert(a =~= b);
    }
}

/// Names are ordered as in a dictionary: the first character in which they differ
/// decides, and a name comes before every longer one that begins with it.
pub proof fn law_names_as_in_a_dictionary(
    common: Seq<char>,
    c: char,
    x: Seq<char>,
    d: char,
    y: Seq<char>,
)
    requires
        c != d,
    ensures
        precedes(common + seq![c] + x, common + seq![d] + y) <==> c < d,
        precedes(common, common + seq![c] + x),
        !precedes(common + seq![c] + x, common),
        !precedes(common, common),
    decreases common.len(),
{
    let a = common + seq![c] + x;
    let b = common + seq![d] + y;
    if common.len() > 0 {
        let rest = common.skip(1);
        law_names_as_in_a_dictionary(rest, c, x, d, y);
        assert(a.skip(1) =~= rest + seq![c] + x);
        assert(b.skip(1) =~= rest + seq![d] + y);
    } else {
        assert(a[0] == c);
        assert(b[0] == d);
    }
}

/// A node wants to be part of a session.
#[derive(Debug)]
pub struct Join {
    pub node_id: String,
    pub session_id: String,
}

/// A node offers another one a connection, or answers to such an offer.
#[derive(Debug)]
pub struct Offer {
    pub session_id: String,
    pub node_id: String,
    pub target_id: String,
    pub sdp_data: String,
}

/// Who is online in a session.
#[derive(Debug)]
pub struct Session {
    pub session_id: String,
    pub online: Vec<String>,
}

/// A way to reach a node.
#[derive(Debug)]
pub struct IceCandidate {
    pub session_id: String,
    pub node_id: String,
    pub target_id: String,
    pub candidate: String,
    pub sdp_mid: Option<String>,
}

/// What nodes and the introducer tell each other.
#[derive(Debug)]
pub enum Command {
    Join(Join),
    SessionStatus(Session),
    Offer(Offer),
    Answer(Offer),
    IceCandidate(IceCandidate),
}

/// What a message from the introducer leads to.
#[derive(Debug)]
pub enum Step {
    /// Introduce this node to those at these positions among the nodes online.
    Introduce(Vec<String>, Vec<usize>),
    /// Set up a connection for the offer and answer it.
    Accept(Offer),
    /// Complete the connection with the answer.
    Complete(Offer),
    /// Add the candidate to the connection.
    AddCandidate(IceCandidate),
}

/// Why a message could not be handled.
#[derive(Debug)]
pub enum Error {
    String(String),
}

impl Error {
    pub open spec fn spec_message(&self) -> Seq<char> {
        match *self {
            Error::String(msg) => msg@,
        }
    }

    /// The error in words.
    pub fn message(&self) -> (r: String)
        ensures
            r@ == self.spec_message(),
    {
        match self {
            Error::String(msg) => msg.clone(),
        }
    }
}

/// The introductions of a node. `P` is a connection.
pub struct State<P> {
    node_id: String,
    session_id: String,
    peers: Vec<(String, P)>,
}

pub struct StateView<P> {
    pub node_id: Seq<char>,
    pub session_id: Seq<char>,
    /// The connections, in the order in which they were set up; the last one to a
    /// node counts.
    pub peers: Seq<(Seq<char>, P)>,
}

impl<P> View for State<P> {
    type V = StateView<P>;

    closed spec fn view(&self) -> StateView<P> {
        StateView {
            node_id: self.node_id@,
            session_id: self.session_id@,
            peers: self.peers@.map_values(|p: (String, P)| (p.0@, p.1)),
        }
    }
}

/// The connection to a node.
pub open spec fn connection<P>(peers: Seq<(Seq<char>, P)>, name: Seq<char>) -> Option<P>
    decreases peers.len(),
{
    if peers.len() == 0 {
        None
    } else if peers.last().0 == name {
        Some(peers.last().1)
    } else {
        connection(peers.drop_last(), name)
    }
}

/// Whether the node introduces itself to another one that it hears of.
pub open spec fn lacks<P>(v: StateView<P>, name: Seq<char>) -> bool {
    precedes(v.node_id, name) && connection(v.peers, name) is None
}

/// The last connection to a node that was set up counts, and those to other nodes are not
/// touched by it; without one there is none.
pub proof fn law_last_connection_counts<P>(
    peers: Seq<(Seq<char>, P)>,
    name: Seq<char>,
    pc: P,
    other: Seq<char>,
)
    ensures
        connection(peers.push((name, pc)), name) == Some(pc),
        other != name ==> connection(peers.push((name, pc)), other) == connection(peers, other),
        connection(Seq::<(Seq<char>, P)>::empty(), name) is None,
{
    assert(peers.push((name, pc)).drop_last() =~= peers);
}

/// Of two nodes that have no connection, and hear of each other, exactly one introduces
/// itself: the one whose name comes first. To a node that it is setting up a connection
/// with, a node does not introduce itself again.
pub proof fn law_named_nodes_meet<P>(a: StateView<P>, b: StateView<P>, pc: P)
    requires
        a.node_id != b.node_id,
        forall|i: int| 0 <= i < a.peers.len() ==> (#[trigger] a.peers[i]).0 != b.node_id,
        forall|i: int| 0 <= i < b.peers.len() ==> (#[trigger] b.peers[i]).0 != a.node_id,
    ensures
        lacks(a, b.node_id) != lacks(b, a.node_id),
        lacks(a, b.node_id) <==> precedes(a.node_id, b.node_id),
        !lacks(StateView { peers: a.peers.push((b.node_id, pc)), ..a }, b.node_id),
{
    law_names_are_ordered(a.node_id, b.node_id);
    lemma_no_connection(a.peers, b.node_id);
    lemma_no_connection(b.peers, a.node_id);
}

proof fn lemma_no_connection<P>(peers: Seq<(Seq<char>, P)>, name: Seq<char>)
    requires
        forall|i: int| 0 <= i < peers.len() ==> (#[trigger] peers[i]).0 != name,
    ensures
        connection(peers, name) is None,
    decreases peers.len(),
{
    if peers.len() > 0 {
        let init = peers.drop_last();
        assert forall|i: int| 0 <= i < init.len() implies (#[trigger] init[i]).0 != name by {
            assert(init[i] == peers[i]);
        }
        lemma_no_connection(init, name);
    }
}

/// Whether `r` are the positions of those, among the nodes online, that the node
/// introduces itself to, in ascending order.
pub open spec fn are_introductions<P>(
    v: StateView<P>,
    online: Seq<String>,
    r: Seq<usize>,
) -> bool {
    &&& forall|k: int| 0 <= k < r.len() ==> 0 <= #[trigger] r[k] < online.len()
    &&& forall|j: int, k: int| 0 <= j < k < r.len() ==> #[trigger] r[j] < #[trigger] r[k]
    &&& forall|i: usize|
        i < online.len() ==> (#[trigger] r.contains(i) <==> lacks(v, online[i as int]@))
}

impl<P> State<P> {
    pub fn new(node_id: String, session_id: String) -> (r: Self)
        ensures
            r@ == (StateView::<P> {
                node_id: node_id@,
                session_id: session_id@,
                peers: Seq::empty(),
            }),
    {
        let r = State { node_id, session_id, peers: Vec::new() };
        assert(r@.peers =~= Seq::<(Seq<char>, P)>::empty());
        r
    }

    /// A connection to a node is being set up.
    pub fn insert_peer(&mut self, peer_id: String, pc: P)
        ensures
            final(self)@ == (StateView { peers: old(self)@.peers.push((peer_id@, pc)), ..old(self)@
            }),
    {
        let ghost name = peer_id@;
        self.peers.push((peer_id, pc));
        assert(self@.peers =~= old(self)@.peers.push((name, pc)));
    }

    fn find(&self, name: &str) -> (r: Option<&P>)
        ensures
            match r {
                Some(pc) => connection(self@.peers, name@) == Some(*pc),
                None => connection(self@.peers, name@) is None,
            },
    {
        let wanted = name.to_owned();
        let mut i = self.peers.len();
        assert(self@.peers.take(i as int) =~= self@.peers);
        while i > 0
            invariant
                i <= self.peers@.len(),
                wanted@ == name@,
                connection(self@.peers.take(i as int), name@) == connection(self@.peers, name@),
            decreases i,
        {
            assert(self@.peers.take(i as int).drop_last() =~= self@.peers.take(i - 1));
            assert(self@.peers.take(i as int).last() == self@.peers[i - 1]);
            if self.peers[i - 1].0 == wanted {
                return Some(&self.peers[i - 1].1);
            }
            i = i - 1;
        }
        None
    }

    /// Whether the node introduces itself to another one that is online.
    pub fn is_introducer_to(&self, name: &String) -> (r: bool)
        ensures
            r == lacks(self@, name@),
    {
        comes_before(self.node_id.as_str(), name.as_str()) && self.find(name.as_str()).is_none()
    }

    /// The positions of those, among the nodes online, that this node introduces itself
    /// to.
    pub fn handle_session_update(&self, online: &Vec<String>) -> (r: Vec<usize>)
        ensures
            are_introductions(self@, online@, r@),
    {
        let mut r: Vec<usize> = Vec::new();
        for i in 0..online.len()
            invariant
                forall|k: int| 0 <= k < r@.len() ==> 0 <= #[trigger] r@[k] < i,
                forall|j: int, k: int|
                    0 <= j < k < r@.len() ==> #[trigger] r@[j] < #[trigger] r@[k],
                forall|j: usize|
                    j < i ==> (#[trigger] r@.contains(j) <==> lacks(self@, online@[j as int]@)),
        {
            let ghost before = r@;
            assert(!before.contains(i));
            if self.is_introducer_to(&online[i]) {
                r.push(i);
                assert(r@[before.len() as int] == i);
            }
            assert forall|j: usize| j < i + 1 implies (#[trigger] r@.contains(j) <==> lacks(
                self@,
                online@[j as int]@,
            )) by {
                if before.contains(j) {
                    let k = choose|k: int| 0 <= k < before.len() && before[k] == j;
                    assert(r@[k] == j);
                }
                if j < i && r@.contains(j) {
                    let k = choose|k: int| 0 <= k < r@.len() && r@[k] == j;
                    assert(before[k] == j);
                }
            }
        }
        r
    }

    /// What to do with a message from the introducer, which never joins a session.
    pub fn handle_message(&self, command: Command) -> (r: Step)
        requires
            !(command is Join),
        ensures
            match command {
                Command::SessionStatus(session) => {
                    r matches Step::Introduce(online, positions) && online == session.online
                        && are_introductions(self@, online@, positions@)
                },
                Command::Offer(offer) => r == Step::Accept(offer),
                Command::Answer(answer) => r == Step::Complete(answer),
                Command::IceCandidate(candidate) => r == Step::AddCandidate(candidate),
                Command::Join(_) => false,
            },
    {
        match command {
            Command::SessionStatus(session) => {
                let positions = self.handle_session_update(&session.online);
                Step::Introduce(session.online, positions)
            },
            Command::Offer(offer) => Step::Accept(offer),
            Command::Answer(answer) => Step::Complete(answer),
            Command::IceCandidate(candidate) => Step::AddCandidate(candidate),
            Command::Join(_) => Step::Introduce(Vec::new(), Vec::new()),
        }
    }

    /// The connection that an answer or a candidate is for.
    pub fn connection_for(&self, node_id: &str) -> (r: Result<&P, Error>)
        ensures
            match r {
                Ok(pc) => connection(self@.peers, node_id@) == Some(*pc),
                Err(err) => {
                    &&& connection(self@.peers, node_id@) is None
                    &&& err.spec_message() == "No connection found for "@ + node_id@
                },
            },
    {
        match self.find(node_id) {
            Some(pc) => Ok(pc),
            None => {
                let mut msg = "No connection found for ".to_owned();
                msg.append(node_id);
                Err(Error::String(msg))
            },
        }
    }

    /// The name of the data channel to a node.
    pub fn data_channel_name(&self, peer_id: &str) -> (r: String)
        ensures
            r@ == "data-"@ + self@.session_id + "-"@ + self@.node_id + "-"@ + peer_id@,
    {
        let mut name = "data-".to_owned();
        name.append(self.session_id.as_str());
        name.append("-");
        name.append(self.node_id.as_str());
        name.append("-");
        name.append(peer_id);
        name
    }

    /// An offer to a node, or the answer to its offer.
    pub fn offer(&self, target_id: String, sdp_data: String) -> (r: Offer)
        ensures
            r.session_id@ == self@.session_id,
            r.node_id@ == self@.node_id,
            r.target_id == target_id,
            r.sdp_data == sdp_data,
    {
        Offer {
            session_id: self.session_id.clone(),
            node_id: self.node_id.clone(),
            target_id,
            sdp_data,
        }
    }

    /// Tells a node of a way to reach this one.
    pub fn candidate(
        &self,
        target_id: String,
        candidate: String,
        sdp_mid: Option<String>,
    ) -> (r: IceCandidate)
        ensures
            r.session_id@ == self@.session_id,
            r.node_id@ == self@.node_id,
            r.target_id == target_id,
            r.candidate == candidate,
            r.sdp_mid == sdp_mid,
    {
        IceCandidate {
            session_id: self.session_id.clone(),
            node_id: self.node_id.clone(),
            target_id,
            candidate,
            sdp_mid,
        }
    }

    /// The message with which the node joins its session.
    pub fn join(&self) -> (r: Join)
        ensures
            r.session_id@ == self@.session_id,
            r.node_id@ == self@.node_id,
    {
        Join { session_id: self.session_id.clone(), node_id: self.node_id.clone() }
    }
}

/// What a node asks another one, and what it answers.
#[derive(Debug, Clone, Copy, PartialEq, Eq, Structural)]
pub enum RpcMessage {
    Ping,
    Pong,
}

/// The answer of a node, whatever it was asked.
pub fn ping(_req: RpcMessage) -> (r: RpcMessage)
    ensures
        r == RpcMessage::Pong,
{
    RpcMessage::Pong
}

} // verus!
