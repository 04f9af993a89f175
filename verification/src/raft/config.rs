//! Who the members of a cluster are: node ids, the peers in local storage, and the
//! wait for the peers when a cluster starts for the first time.

use super::errors::Error;
use super::NodeId;
use crate::text::{decimal, law_numeral_injective, push_decimal};
use rand::Rng;
use std::collections::hash_map::DefaultHasher;
use std::hash::Hasher;
use vstd::arithmetic::power::pow;
use vstd::bytes::{spec_u128_to_le_bytes, u128_to_le_bytes};
use vstd::prelude::*;
use vstd::std_specs::hash::DefaultHasherAdditionalSpecFns;
use vstd::string::StringSliceAdditionalSpecFns;

verus! {

/// The id of the node on a host in a session: the hash of the host's name, a byte that
/// ends it, and the session key.
pub open spec fn node_id_of(hostname: &str, session_key: u128) -> NodeId {
    DefaultHasher::spec_finish(
        seq![hostname.spec_bytes(), seq![0xffu8], spec_u128_to_le_bytes(session_key)],
    )
}

pub fn generate_node_id(hostname: &str, session_key: u128) -> (r: NodeId)
    ensures
        r == node_id_of(hostname, session_key),
{
    let mut h = DefaultHasher::new();
    h.write(hostname.as_bytes());
    let end: [u8; 1] = [0xff];
    h.write(&end);
    let key = u128_to_le_bytes(session_key);
    h.write(key.as_slice());
    assert(end@ =~= seq![0xffu8]);
    assert(h@ =~= seq![
        hostname.spec_bytes(),
        seq![0xffu8],
        spec_u128_to_le_bytes(session_key),
    ]);
    h.finish()
}

pub open spec fn spec_peer_configuration_key(session_key: u128) -> Seq<char> {
    "peer-configuration-"@ + decimal(session_key as nat)
}

/// The key of local storage under which the peers of a session are kept.
pub fn peer_configuration_key(session_key: u128) -> (r: String)
    ensures
        r@ == spec_peer_configuration_key(session_key),
{
    let mut key = "peer-configuration-".to_owned();
    push_decimal(&mut key, session_key);
    key
}

/// The peers of different sessions are kept apart.
pub proof fn law_sessions_have_their_own_peers(s: u128, t: u128)
    requires
        s != t,
    ensures
        spec_peer_configuration_key(s) != spec_peer_configuration_key(t),
{
    let head = "peer-configuration-"@;
    if spec_peer_configuration_key(s) == spec_peer_configuration_key(t) {
        assert(spec_peer_configuration_key(s).skip(head.len() as int) =~= decimal(s as nat));
        assert(spec_peer_configuration_key(t).skip(head.len() as int) =~= decimal(t as nat));
        law_numeral_injective(s as nat, t as nat, 10);
    }
}

/// The byte at position `k` of a number, the lowest first.
pub open spec fn byte_of(n: int, k: nat) -> u8 {
    ((n / pow(256, k)) % 256) as u8
}

/// The ids behind their count, each as eight bytes, the lowest first.
pub open spec fn id_bytes(ids: Seq<NodeId>) -> Seq<u8> {
    Seq::new(
        8 * (ids.len() + 1),
        |i: int|
            byte_of(
                if i < 8 {
                    ids.len() as int
                } else {
                    ids[i / 8 - 1] as int
                },
                (i % 8) as nat,
            ),
    )
}

/// The digits of base 64, as in the standard alphabet.
pub open spec fn base64_digit(d: int) -> char {
    if d < 26 {
        ('A' as int + d) as char
    } else if d < 52 {
        ('a' as int + d - 26) as char
    } else if d < 62 {
        ('0' as int + d - 52) as char
    } else if d == 62 {
        '+'
    } else {
        '/'
    }
}

/// The bytes in base 64: six bits to a digit, zeros after the end of the bits, and
/// padding to a multiple of four.
pub open spec fn base64_text(bytes: Seq<u8>) -> Seq<char> {
    Seq::new(
        (bytes.len() + 2) / 3 * 4,
        |k: int|
            if 6 * k < 8 * bytes.len() {
                let first = bytes[6 * k / 8] as int;
                let second = if 6 * k / 8 + 1 < bytes.len() {
                    bytes[6 * k / 8 + 1] as int
                } else {
                    0
                };
                base64_digit((256 * first + second) / pow(2, (10 - 6 * k % 8) as nat) % 64)
            } else {
                '='
            },
    )
}

/// The ids that a text from local storage encodes, if it is well formed.
pub uninterp spec fn stored_ids(text: Seq<char>) -> Option<Seq<NodeId>>;

/// Calls `bincode::serialize_into` on a `base64::write::EncoderStringWriter` with the
/// standard alphabet. Claimed: bincode writes the number of the ids and then each of
/// them as eight bytes, the lowest first; base64 writes these bytes in base 64 with
/// padding; and `decode_ids` gives the ids back.
#[verifier::external_body]
fn encode_ids(ids: &Vec<NodeId>) -> (r: String)
    ensures
        r@ == base64_text(id_bytes(ids@)),
        stored_ids(r@) == Some(ids@),
{
    let mut buf = base64::write::EncoderStringWriter::new(base64::STANDARD);
    bincode::serialize_into(&mut buf, ids).unwrap();
    buf.into_inner()
}

/// Calls `bincode::deserialize_from` on a `base64::read::DecoderReader` with the
/// standard alphabet. Claimed: whether there is a result, and which, depends on the
/// text alone.
#[verifier::external_body]
fn decode_ids(text: &str) -> (r: Option<Vec<NodeId>>)
    ensures
        match r {
            Some(ids) => stored_ids(text@) == Some(ids@),
            None => stored_ids(text@) is None,
        },
{
    let mut data = std::io::Cursor::new(text);
    let buf = base64::read::DecoderReader::new(&mut data, base64::STANDARD);
    bincode::deserialize_from(buf).ok()
}

/// What was found of an earlier run in local storage.
#[derive(Debug)]
pub enum PeerConfiguration {
    /// Nothing: the cluster starts for the first time.
    Absent,
    Peers(Vec<NodeId>),
    /// A text that is not what this library writes.
    Corrupt,
}

/// Reads the peers from what local storage has under the key of the session.
pub fn load_peer_configuration(stored: Option<String>) -> (r: PeerConfiguration)
    ensures
        match stored {
            None => r is Absent,
            Some(text) => match stored_ids(text@) {
                Some(ids) => r matches PeerConfiguration::Peers(peers) && peers@ == ids,
                None => r is Corrupt,
            },
        },
{
    match stored {
        None => PeerConfiguration::Absent,
        Some(text) => match decode_ids(text.as_str()) {
            Some(peers) => PeerConfiguration::Peers(peers),
            None => PeerConfiguration::Corrupt,
        },
    }
}

/// The key and the text under which local storage keeps the peers.
pub fn store_peer_configuration(session_key: u128, peers: &Vec<NodeId>) -> (r: (String, String))
    ensures
        r.0@ == spec_peer_configuration_key(session_key),
        r.1@ == base64_text(id_bytes(peers@)),
        stored_ids(r.1@) == Some(peers@),
{
    (peer_configuration_key(session_key), encode_ids(peers))
}

/// The bounds of an election timeout, in milliseconds; the upper one is not reached.
pub const MIN_ELECTION_TIMEOUT_MILLIS: u64 = 500;

pub const MAX_ELECTION_TIMEOUT_MILLIS: u64 = 1000;

/// Calls `gen_range` of `rand` on the generator of the thread. Claimed: the result lies
/// in the range; which it is, is left to chance.
#[verifier::external_body]
fn random_between(low: u64, high: u64) -> (r: u64)
    requires
        low < high,
    ensures
        low <= r < high,
{
    rand::thread_rng().gen_range(low..high)
}

/// A time to wait for a sign of life from a leader, in milliseconds.
pub fn election_timeout() -> (r: u64)
    ensures
        MIN_ELECTION_TIMEOUT_MILLIS <= r < MAX_ELECTION_TIMEOUT_MILLIS,
{
    random_between(MIN_ELECTION_TIMEOUT_MILLIS, MAX_ELECTION_TIMEOUT_MILLIS)
}

/// The start of a node: with the peers of an earlier run, or with a wait for them.
#[derive(Debug)]
pub enum Bootstrap {
    Rejoin(Vec<NodeId>),
    Wait(Gathering),
}

/// The peers that got connected so far when a cluster starts for the first time.
#[derive(Debug)]
pub struct Gathering {
    target_size: usize,
    servers: usize,
    peers: Vec<NodeId>,
}

impl Gathering {
    /// How many connections the cluster waits for.
    pub closed spec fn target(&self) -> usize {
        self.target_size
    }

    /// How many connections there are, where a peer counts each time.
    pub closed spec fn connections(&self) -> usize {
        self.servers
    }

    pub closed spec fn members(&self) -> Seq<NodeId> {
        self.peers@
    }

    pub open spec fn wf(&self) -> bool {
        &&& self.members().no_duplicates()
        &&& self.members().len() <= self.connections() <= self.target()
    }

    /// Whether the cluster can start.
    pub fn is_complete(&self) -> (r: bool)
        ensures
            r == (self.connections() >= self.target()),
    {
        self.servers >= self.target_size
    }

    /// A peer got connected, or there will be no more of them.
    pub fn next<J>(&mut self, peer: Option<NodeId>) -> (r: Result<(), Error<J>>)
        requires
            old(self).wf(),
            old(self).connections() < old(self).target(),
        ensures
            final(self).wf(),
            final(self).target() == old(self).target(),
            match peer {
                Some(id) => {
                    &&& r is Ok
                    &&& final(self).connections() == old(self).connections() + 1
                    &&& final(self).members() == if old(self).members().contains(id) {
                        old(self).members()
                    } else {
                        old(self).members().push(id)
                    }
                },
                None => {
                    &&& r matches Err(err) && err is NotEnoughPeers
                    &&& *final(self) == *old(self)
                },
            },
    {
        let id = match peer {
            Some(id) => id,
            None => {
                return Err(Error::NotEnoughPeers);
            },
        };
        let mut known = false;
        for i in 0..self.peers.len()
            invariant
                known == self.peers@.take(i as int).contains(id),
        {
            proof {
                let a = self.peers@.take(i as int);
                let b = self.peers@.take(i as int + 1);
                if a.contains(id) {
                    let j = choose|j: int| 0 <= j < a.len() && a[j] == id;
                    assert(b[j] == id);
                }
                if b.contains(id) && b[i as int] != id {
                    let j = choose|j: int| 0 <= j < b.len() && b[j] == id;
                    assert(a[j] == id);
                }
            }
            if self.peers[i] == id {
                assert(self.peers@.take(i as int + 1)[i as int] == id);
                known = true;
            }
        }
        assert(self.peers@.take(self.peers@.len() as int) =~= self.peers@);
        self.servers = self.servers + 1;
        if !known {
            self.peers.push(id);
        }
        Ok(())
    }

    /// The peers of the cluster, each once.
    pub fn finish(self) -> (r: Vec<NodeId>)
        ensures
            r@ == self.members(),
    {
        self.peers
    }
}

/// How a node starts. A first start waits for one connection less than the cluster
/// has members.
pub fn bootstrap(stored: Option<Vec<NodeId>>, cluster_size: usize) -> (r: Bootstrap)
    requires
        stored is None ==> cluster_size >= 1,
    ensures
        match stored {
            Some(peers) => r == Bootstrap::Rejoin(peers),
            None => {
                &&& r matches Bootstrap::Wait(g)
                &&& g.wf()
                &&& g.target() == cluster_size - 1
                &&& g.connections() == 0
                &&& g.members().len() == 0
            },
        },
{
    match stored {
        // The cluster is already running.
        Some(peers) => Bootstrap::Rejoin(peers),
        None => Bootstrap::Wait(
            Gathering { target_size: cluster_size - 1, servers: 0, peers: Vec::new() },
        ),
    }
}

} // verus!
