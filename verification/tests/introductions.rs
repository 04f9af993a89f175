use std::collections::HashSet;
use wraft::introducer::server::{
    ids_after, is_forwarded, process_message, Action, Channels, Error,
};
use wraft::introducer::{copy_set, members, Command, IceCandidate, Join, Offer, Session};
use wraft::webrtc_rpc::error;
use wraft::webrtc_rpc::introduction::{
    is_ack, offer_step, send_join_command, OfferStep, State, Step,
};
use wraft::webrtc_rpc::named;

fn offer(session_id: u128, node_id: u64, target_id: u64) -> Offer {
    Offer { session_id, node_id, target_id, sdp_data: "sdp".to_string() }
}

fn candidate(session_id: u128, node_id: u64, target_id: u64) -> IceCandidate {
    IceCandidate { session_id, node_id, target_id, candidate: "c".to_string(), sdp_mid: None }
}

fn set(ids: &[u64]) -> HashSet<u64> {
    ids.iter().copied().collect()
}

fn online(r: Result<(&u8, Command), Error<()>>) -> (u8, HashSet<u64>) {
    match r {
        Ok((tx, Command::SessionStatus(session))) => (*tx, session.online),
        _ => panic!("no announcement"),
    }
}

#[test]
fn presence_is_announced() {
    let mut ch: Channels<u8> = Channels::new();
    assert!(ch.get_messages(1).is_none());
    assert!(!ch.is_known(1));
    ch.ensure_session(1, 11);
    ch.ensure_session(1, 12);
    assert_eq!(ch.get_messages(1), Some(&11));
    assert_eq!(online(ch.joined(5, 1)), (11, set(&[5])));
    assert_eq!(online(ch.joined(6, 1)), (11, set(&[5, 6])));
    assert!(ch.is_known(1));
    assert_eq!(online(ch.broadcast_session_info(1)), (11, set(&[5, 6])));
    assert_eq!(online(ch.left(5, 1)), (11, set(&[6])));
}

#[test]
fn unknown_sessions_are_not_found() {
    let mut ch: Channels<u8> = Channels::new();
    match ch.broadcast::<()>(0xab, Command::Offer(offer(0xab, 1, 2))) {
        Err(Error::SessionNotFound(text)) => assert_eq!(text, "000000000000000000000000000000ab"),
        _ => panic!("found"),
    }
    assert!(matches!(ch.joined::<()>(1, 2), Err(Error::SessionNotFound(_))));
    assert!(ch.is_known(2));
    ch.ensure_session(3, 9);
    match ch.broadcast::<()>(3, Command::Offer(offer(3, 1, 2))) {
        Ok((9, Command::Offer(o))) => assert_eq!(o, offer(3, 1, 2)),
        _ => panic!("not handed on"),
    }
}

#[test]
fn messages_lead_to_actions() {
    let a = process_message(Command::Join(Join { node_id: 4, session_id: 7 }));
    assert!(matches!(a, Action::Join(4, 7)));
    assert_eq!(a.info(), Some((4, 7)));
    let a = process_message(Command::Offer(offer(7, 1, 2)));
    assert!(matches!(a, Action::Broadcast(7, Command::Offer(_))));
    assert_eq!(a.info(), None);
    let a = process_message(Command::Answer(offer(8, 1, 2)));
    assert!(matches!(a, Action::Broadcast(8, Command::Answer(_))));
    let a = process_message(Command::IceCandidate(candidate(9, 1, 2)));
    assert!(matches!(a, Action::Broadcast(9, Command::IceCandidate(_))));
    assert_eq!(ids_after::<()>(None, Ok(Some((1, 2)))), Some((1, 2)));
    assert_eq!(ids_after::<()>(None, Ok(None)), None);
    assert_eq!(ids_after::<()>(Some((1, 2)), Ok(None)), Some((1, 2)));
    assert_eq!(ids_after::<()>(Some((1, 2)), Ok(Some((3, 4)))), Some((3, 4)));
    assert_eq!(ids_after(Some((1, 2)), Err(Error::RustError(()))), Some((1, 2)));
}

#[test]
fn a_node_is_gone_after_its_socket_closes() {
    let mut c: Channels<u8> = Channels::new();
    c.ensure_session(7, 1);
    assert!(c.joined::<()>(3, 7).is_ok());
    assert!(c.joined::<()>(4, 7).is_ok());
    let mut ids = None;
    for cmd in [
        Command::Join(Join { node_id: 4, session_id: 7 }),
        Command::Offer(offer(7, 4, 3)),
        Command::Answer(offer(7, 4, 3)),
        Command::IceCandidate(candidate(7, 4, 3)),
    ] {
        ids = ids_after::<()>(ids, Ok(process_message(cmd).info()));
    }
    let (node_id, session_id) = ids.unwrap();
    match c.left::<()>(node_id, session_id) {
        Ok((_, Command::SessionStatus(s))) => assert_eq!(s.online, set(&[3])),
        _ => panic!("nothing announced"),
    }
}

#[test]
fn messages_are_forwarded_to_their_target() {
    let status = Command::SessionStatus(Session { session_id: 1, online: set(&[1]) });
    assert!(is_forwarded(&status, 5, 1));
    for cmd in [
        Command::Offer(offer(1, 2, 5)),
        Command::Answer(offer(1, 2, 5)),
        Command::IceCandidate(candidate(1, 2, 5)),
    ] {
        assert!(is_forwarded(&cmd, 5, 1));
        assert!(!is_forwarded(&cmd, 6, 1));
        assert!(!is_forwarded(&cmd, 5, 2));
    }
}

#[test]
fn sets_are_copied() {
    let s = set(&[3, 1, 2]);
    assert_eq!(copy_set(&s), s);
    let mut m = members(&s);
    m.sort();
    assert_eq!(m, vec![1, 2, 3]);
}

#[test]
fn a_node_introduces_itself_to_higher_ids() {
    let mut s: State<&str> = State::new(10, 0xbeef);
    s.insert_peer(30, "pc");
    let session = Session { session_id: 0xbeef, online: set(&[5, 10, 20, 30, 40]) };
    let mut ids = match s.handle_message(Command::SessionStatus(session)) {
        Step::Introduce(ids) => ids,
        _ => panic!("no introductions"),
    };
    ids.sort();
    assert_eq!(ids, vec![20, 40]);
    // A lost peer is introduced again.
    assert_eq!(s.send_peer(30), "pc");
    s.peer_done(30);
    let session = Session { session_id: 0xbeef, online: set(&[30]) };
    assert_eq!(s.handle_session_update(&session), vec![30]);
    assert_eq!(s.data_channel_name(255), format!("data-{:#x}-{:#x}-{:#x}", 0xbeef, 10, 255));
}

#[test]
fn answers_and_candidates_find_their_connection() {
    let mut s: State<&str> = State::new(1, 2);
    s.insert_peer(7, "pc");
    assert!(s.is_pending(7));
    assert_eq!(*s.handle_answer::<(), ()>(&offer(2, 7, 1)).unwrap(), "pc");
    assert_eq!(s.handle_ice_candidate(&candidate(2, 7, 1)), Some(&"pc"));
    assert!(matches!(s.handle_answer::<(), ()>(&offer(2, 8, 1)), Err(error::Error::AlreadyInitialized(8))));
    assert_eq!(s.handle_ice_candidate(&candidate(2, 8, 1)), None);
    s.send_peer(7);
    assert!(!s.is_pending(7));
}

#[test]
fn commands_name_sender_and_target() {
    let s: State<()> = State::new(1, 2);
    assert!(matches!(s.send_offer(9, "x".to_string()),
        Command::Offer(Offer { session_id: 2, node_id: 1, target_id: 9, .. })));
    assert!(matches!(s.send_answer(9, "x".to_string()),
        Command::Answer(Offer { session_id: 2, node_id: 1, target_id: 9, .. })));
    assert!(matches!(s.send_candidate(9, "x".to_string(), None),
        Command::IceCandidate(IceCandidate { session_id: 2, node_id: 1, target_id: 9, .. })));
    assert!(matches!(send_join_command(1, 2), Command::Join(Join { node_id: 1, session_id: 2 })));
    assert!(matches!(s.handle_message(Command::Offer(offer(2, 3, 1))), Step::Accept(_)));
    assert!(matches!(s.handle_message(Command::Answer(offer(2, 3, 1))), Step::Complete(_)));
    assert!(matches!(s.handle_message(Command::IceCandidate(candidate(2, 3, 1))), Step::AddCandidate(_)));
}

#[test]
fn a_channel_is_ready_on_ack() {
    assert!(is_ack(&Some("ACK".to_string())));
    assert!(!is_ack(&Some("ack".to_string())));
    assert!(!is_ack(&None));
    assert_eq!(offer_step(true), OfferStep::HandOver);
    assert_eq!(offer_step(false), OfferStep::OfferAgain);
}

#[test]
fn named_nodes_are_introduced_in_order() {
    let mut s: named::State<u8> = named::State::new("b".to_string(), "s".to_string());
    s.insert_peer("d".to_string(), 4);
    let names: Vec<String> = ["a", "b", "ba", "c", "d", "B"].iter().map(|n| n.to_string()).collect();
    assert_eq!(s.handle_session_update(&names), vec![2, 3]);
    for a in ["", "a", "ab", "b", "\u{e9}", "\u{10000}", "\u{ffff}"] {
        for b in ["", "a", "ab", "b", "\u{e9}", "\u{10000}", "\u{ffff}"] {
            let s: named::State<u8> = named::State::new(a.to_string(), String::new());
            assert_eq!(s.is_introducer_to(&b.to_string()), b > a, "{:?} {:?}", a, b);
        }
    }
}

#[test]
fn named_nodes_find_their_connections() {
    let mut s: named::State<u8> = named::State::new("me".to_string(), "s".to_string());
    s.insert_peer("x".to_string(), 1);
    s.insert_peer("x".to_string(), 2);
    assert_eq!(*s.connection_for("x").unwrap(), 2);
    assert_eq!(s.connection_for("y").unwrap_err().message(), "No connection found for y");
    assert_eq!(s.data_channel_name("x"), "data-s-me-x");
    let o = s.offer("x".to_string(), "sdp".to_string());
    assert_eq!((o.session_id.as_str(), o.node_id.as_str(), o.target_id.as_str()), ("s", "me", "x"));
    assert_eq!(s.join().node_id, "me");
}

#[test]
fn named_nodes_handle_messages() {
    let s: named::State<u8> = named::State::new("b".to_string(), "s".to_string());
    let online = vec!["c".to_string(), "a".to_string(), "d".to_string()];
    let status = named::Session { session_id: "s".to_string(), online };
    match s.handle_message(named::Command::SessionStatus(status)) {
        named::Step::Introduce(online, positions) => {
            assert_eq!(online.len(), 3);
            assert_eq!(positions, vec![0, 2]);
        }
        step => panic!("{:?}", step),
    }
    let o = s.offer("x".to_string(), "sdp".to_string());
    assert!(matches!(s.handle_message(named::Command::Offer(o)), named::Step::Accept(_)));
    let o = s.offer("x".to_string(), "sdp".to_string());
    assert!(matches!(s.handle_message(named::Command::Answer(o)), named::Step::Complete(_)));
    let c = s.candidate("x".to_string(), "here".to_string(), Some("0".to_string()));
    assert_eq!((c.session_id.as_str(), c.node_id.as_str(), c.target_id.as_str()), ("s", "b", "x"));
    assert_eq!((c.candidate.as_str(), c.sdp_mid.as_deref()), ("here", Some("0")));
    assert!(matches!(
        s.handle_message(named::Command::IceCandidate(c)),
        named::Step::AddCandidate(_)
    ));
}

#[test]
fn named_nodes_answer_a_ping() {
    assert_eq!(named::ping(named::RpcMessage::Ping), named::RpcMessage::Pong);
}
