use wraft::webrtc_rpc::transport::{
    answer, incoming, Client, Error, Handover, Incoming, Message, RequestManager, CHANNEL_SIZE,
    MAX_IN_FLIGHT_REQUESTS, REQUEST_TIMEOUT_MILLIS,
};

type Msg = Message<&'static str, u32>;

fn open(m: &mut RequestManager<u32>, req: &'static str, tx: u32) -> usize {
    match m.handle_request::<&'static str, u32>(req, tx) {
        Ok(Message::Request { idx, req: r }) => {
            assert_eq!(r, req);
            idx
        }
        _ => panic!("not opened"),
    }
}

fn response(idx: usize, resp: u32) -> Msg {
    Message::Response { idx, resp: Ok(resp) }
}

#[test]
fn limits_are_as_documented() {
    assert_eq!(CHANNEL_SIZE, 1024);
    assert_eq!(MAX_IN_FLIGHT_REQUESTS, 1024);
    assert_eq!(REQUEST_TIMEOUT_MILLIS, 500);
}

#[test]
fn responses_go_to_their_requests_once() {
    let mut m = RequestManager::new();
    let a = open(&mut m, "a", 10);
    let b = open(&mut m, "b", 20);
    assert_ne!(a, b);
    assert!(matches!(m.handle_response(response(b, 2)), Some((20, Ok(2)))));
    assert!(matches!(m.handle_response(response(a, 1)), Some((10, Ok(1)))));
    assert!(m.handle_response(response(a, 1)).is_none());
    assert!(m.handle_timeout(b).is_none());
    let req: Msg = Message::Request { idx: a, req: "x" };
    assert!(m.handle_response(req).is_none());
}

#[test]
fn requests_time_out() {
    let mut m = RequestManager::new();
    let a = open(&mut m, "a", 10);
    assert!(matches!(m.handle_timeout(a), Some((10, Error::RequestTimeout))));
    // A late response goes nowhere, not even to a new request.
    let b = open(&mut m, "b", 20);
    assert!(m.handle_response(response(a, 1)).is_none());
    assert!(matches!(m.handle_response(response(b, 2)), Some((20, Ok(2)))));
}

#[test]
fn there_is_a_limit_to_open_requests() {
    let mut m = RequestManager::new();
    for i in 0..1024 {
        assert_eq!(open(&mut m, "x", i), i as usize);
    }
    match m.handle_request::<&'static str, u32>("y", 7777) {
        Err((7777, Error::TooManyInFlightRequests)) => (),
        _ => panic!("one too many"),
    }
    // It is the oldest one that has to be answered.
    assert!(m.handle_timeout(5).is_some());
    assert!(m.handle_request::<&'static str, u32>("y", 1).is_err());
    assert!(m.handle_timeout(0).is_some());
    assert_eq!(open(&mut m, "z", 2), 1024);
    assert!(!m.is_spent());
}

#[test]
fn a_request_that_cannot_be_sent_is_closed() {
    let mut m = RequestManager::new();
    let a = open(&mut m, "a", 10);
    let (tx, err) = m.handle_send_error(a, Error::from_js(None, "JsValue(x)".to_string()));
    assert_eq!(tx, 10);
    assert_eq!(err.message(), "JavaScript error: JsValue(x)");
    assert!(m.handle_timeout(a).is_none());
}

#[test]
fn clients_notice_that_they_are_disconnected() {
    let mut c = Client::new(3);
    assert_eq!(c.node_id(), 3);
    assert!(c.is_connected());
    assert_eq!(c.call(Some(Handover::Answered(Ok(5)))).unwrap(), 5);
    assert!(matches!(c.call::<u8>(Some(Handover::Dropped)), Err(Error::Disconnected)));
    assert!(c.is_connected());
    assert!(matches!(c.call::<u8>(Some(Handover::Refused)), Err(Error::Disconnected)));
    assert!(!c.is_connected());
    assert!(matches!(c.call::<u8>(None), Err(Error::Disconnected)));
}

#[test]
fn messages_are_told_apart() {
    let m: Msg = Message::Request { idx: 4, req: "r" };
    assert!(matches!(incoming(m), Incoming::Serve { idx: 4, req: "r" }));
    assert!(matches!(incoming(response(4, 1)), Incoming::Deliver(Message::Response { idx: 4, .. })));
    let m: Msg = answer(9, Err(Error::Unavailable));
    assert!(matches!(m, Message::Response { idx: 9, resp: Err(Error::Unavailable) }));
}

#[test]
fn errors_speak() {
    assert_eq!(Error::RequestTimeout.message(), "request timeout");
    assert_eq!(Error::TooManyInFlightRequests.message(), "too many in-flight requests");
    assert_eq!(Error::Disconnected.message(), "data channel has been disconnected");
    assert_eq!(Error::Unavailable.message(), "rpc server is unavailable");
    assert_eq!(Error::Js("x".to_string()).message(), "x");
    let err = Error::from_js(Some("boom".to_string()), "ignored".to_string());
    assert_eq!(err.message(), "JavaScript error: boom");
}

#[test]
fn closing_the_oldest_request_makes_room() {
    let mut m = RequestManager::new();
    for i in 0..MAX_IN_FLIGHT_REQUESTS as u32 {
        assert_eq!(open(&mut m, "r", i), i as usize);
    }
    assert!(matches!(
        m.handle_request::<&'static str, u32>("r", 1),
        Err((1, Error::TooManyInFlightRequests))
    ));
    assert!(m.handle_timeout(5).is_some());
    assert!(m.handle_request::<&'static str, u32>("r", 1).is_err());
    assert!(m.handle_timeout(0).is_some());
    assert_eq!(open(&mut m, "r", 1), MAX_IN_FLIGHT_REQUESTS);
}
