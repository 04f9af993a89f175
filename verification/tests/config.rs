use std::collections::hash_map::DefaultHasher;
use std::hash::{Hash, Hasher};
use wraft::raft::client::{debug, do_client_request, get, send, send_request, Lookup, Outcome};
use wraft::raft::config::{
    bootstrap, election_timeout, generate_node_id, load_peer_configuration, peer_configuration_key,
    store_peer_configuration, Bootstrap, PeerConfiguration,
};
use wraft::raft::errors::{ClientError, Error, Thrown};
use wraft::raft::rpc_server::handle;
use wraft::raft::{ClientRequest, ClientResponse, RpcResponse};
use wraft::webrtc_rpc::transport;

#[test]
fn node_ids_are_hashes_of_host_and_session() {
    for (host, key) in [("wraft0.eevans.co", 1u128), ("", 0), ("h\u{e4}st", u128::MAX)] {
        let mut h = DefaultHasher::new();
        host.hash(&mut h);
        key.hash(&mut h);
        assert_eq!(generate_node_id(host, key), h.finish());
    }
    assert_ne!(generate_node_id("a", 1), generate_node_id("b", 1));
    assert_ne!(generate_node_id("a", 1), generate_node_id("a", 2));
}

#[test]
fn peers_are_stored_and_found_again() {
    assert_eq!(peer_configuration_key(255), "peer-configuration-255");
    for peers in [vec![], vec![1u64], vec![7, u64::MAX, 0, 1 << 40]] {
        let (key, text) = store_peer_configuration(3, &peers);
        assert_eq!(key, "peer-configuration-3");
        match load_peer_configuration(Some(text)) {
            PeerConfiguration::Peers(found) => assert_eq!(found, peers),
            other => panic!("{:?}", other),
        }
    }
    assert!(matches!(load_peer_configuration(None), PeerConfiguration::Absent));
}

#[test]
fn stored_peers_have_a_fixed_form() {
    assert_eq!(store_peer_configuration(0, &vec![]).1, "AAAAAAAAAAA=");
    assert_eq!(store_peer_configuration(0, &vec![1]).1, "AQAAAAAAAAABAAAAAAAAAA==");
    assert_eq!(
        store_peer_configuration(0, &vec![0xfbff, 2]).1,
        "AgAAAAAAAAD/+wAAAAAAAAIAAAAAAAAA"
    );
}

#[test]
fn corrupt_peers_are_noticed() {
    for text in ["?", "AQ", "AQAAAAAAAAA="] {
        let found = load_peer_configuration(Some(text.to_string()));
        assert!(matches!(found, PeerConfiguration::Corrupt), "{}", text);
    }
}

#[test]
fn election_timeouts_vary_within_bounds() {
    let all: Vec<u64> = (0..200).map(|_| election_timeout()).collect();
    assert!(all.iter().all(|t| (500..1000).contains(t)));
    assert!(all.iter().any(|t| *t != all[0]));
}

#[test]
fn a_first_start_waits_for_the_others() {
    let mut g = match bootstrap(None, 3) {
        Bootstrap::Wait(g) => g,
        other => panic!("{:?}", other),
    };
    assert!(!g.is_complete());
    assert!(g.next::<()>(Some(5)).is_ok());
    assert!(!g.is_complete());
    assert!(g.next::<()>(Some(6)).is_ok());
    assert!(g.is_complete());
    assert_eq!(g.finish(), vec![5, 6]);
}

#[test]
fn a_peer_that_connects_twice_counts_twice_and_is_kept_once() {
    let mut g = match bootstrap(None, 3) {
        Bootstrap::Wait(g) => g,
        other => panic!("{:?}", other),
    };
    assert!(g.next::<()>(Some(5)).is_ok());
    assert!(g.next::<()>(Some(5)).is_ok());
    assert!(g.is_complete());
    assert_eq!(g.finish(), vec![5]);
}

#[test]
fn a_start_without_enough_peers_fails() {
    let mut g = match bootstrap(None, 2) {
        Bootstrap::Wait(g) => g,
        other => panic!("{:?}", other),
    };
    assert!(matches!(g.next::<()>(None), Err(Error::NotEnoughPeers)));
}

#[test]
fn a_later_start_rejoins() {
    assert!(matches!(bootstrap(Some(vec![1, 2]), 0), Bootstrap::Rejoin(p) if p == vec![1, 2]));
}

#[test]
fn client_requests_come_to_an_end() {
    let ok: Outcome<String> = Outcome::Answered(Ok(ClientResponse::Ack));
    assert!(matches!(do_client_request(ok), Ok(ClientResponse::Ack)));
    assert!(matches!(do_client_request::<String>(Outcome::NotSent), Err(ClientError::Unavailable)));
    assert!(matches!(do_client_request::<String>(Outcome::Dropped), Err(ClientError::Unavailable)));
    assert!(matches!(do_client_request::<String>(Outcome::TimedOut), Err(ClientError::Timeout)));
    assert_eq!(send::<String>(Outcome::Answered(Ok(ClientResponse::Ack))), Ok(()));
    assert_eq!(send::<String>(Outcome::TimedOut), Err(ClientError::Timeout));
    assert_eq!(send::<String>(Outcome::Answered(Err(ClientError::Unavailable))), Err(ClientError::Unavailable));
    assert_eq!(get(Lookup::Found(Some(3))), Ok(Some(3)));
    assert_eq!(get::<i32>(Lookup::Found(None)), Ok(None));
    assert_eq!(get::<i32>(Lookup::NotSent), Err(ClientError::Unavailable));
    assert_eq!(get::<i32>(Lookup::Dropped), Err(ClientError::Unavailable));
    assert!(matches!(debug::<String>(Outcome::TimedOut), Err(ClientError::Timeout)));
    assert!(matches!(send_request::<u8, u8>(4), ClientRequest::Apply(4)));
}

#[test]
fn a_dropped_request_is_unavailable() {
    let resp: Option<Result<RpcResponse<String>, transport::Error>> = None;
    assert!(matches!(handle(resp), Err(transport::Error::Unavailable)));
    let resp: Option<Result<RpcResponse<String>, transport::Error>> =
        Some(Ok(RpcResponse::ForwardClientRequest(Ok(ClientResponse::Ack))));
    assert!(matches!(handle(resp), Ok(RpcResponse::ForwardClientRequest(Ok(ClientResponse::Ack)))));
}

#[test]
fn thrown_values_are_described() {
    let msg = |t| match Error::<()>::from_js(t) {
        Error::Js(msg) => msg,
        _ => unreachable!(),
    };
    assert_eq!(msg(Thrown::Text("oh no".to_string())), "oh no");
    assert_eq!(
        msg(Thrown::Event { kind: "close".to_string(), target: "None".to_string() }),
        "error on event with type close and target None"
    );
    assert_eq!(msg(Thrown::Other("JsValue(1)".to_string())), "JS error: JsValue(1)");
    let err: Error<u8> = Error::from(3);
    assert!(matches!(err, Error::Persistence(3)));
}
