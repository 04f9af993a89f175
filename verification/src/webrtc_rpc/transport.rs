//! Requests and responses over one data channel.

use crate::ringbuf::{self, RingBuf};
use vstd::prelude::*;

verus! {

/// How many messages a channel between the parts of a transport holds.
pub const CHANNEL_SIZE: usize = 1024;

/// How far apart the oldest open request and a new one may be.
pub const MAX_IN_FLIGHT_REQUESTS: usize = 1024;

/// How long a request waits for its response.
pub const REQUEST_TIMEOUT_MILLIS: u64 = 500;

/// Why a request to a peer got no response.
#[derive(Debug)]
pub enum Error {
    Js(String),
    RequestTimeout,
    TooManyInFlightRequests,
    Disconnected,
    Unavailable,
}

impl Error {
    /// The error for a JavaScript value that was thrown, given as the string that it
    /// is or as it prints for debugging.
    pub fn from_js(text: Option<String>, debug: String) -> (r: Self)
        ensures
            r matches Error::Js(msg) && msg@ == "JavaScript error: "@ + match text {
                Some(text) => text@,
                None => debug@,
            },
    {
        let mut msg = "JavaScript error: ".to_owned();
        match text {
            Some(text) => msg.append(text.as_str()),
            None => msg.append(debug.as_str()),
        }
        Error::Js(msg)
    }

    /// The error in words.
    pub open spec fn spec_message(&self) -> Seq<char> {
        match *self {
            Error::Js(err) => err@,
            Error::RequestTimeout => "request timeout"@,
            Error::TooManyInFlightRequests => "too many in-flight requests"@,
            Error::Disconnected => "data channel has been disconnected"@,
            Error::Unavailable => "rpc server is unavailable"@,
        }
    }

    pub fn message(&self) -> (r: String)
        ensures
            r@ == self.spec_message(),
    {
        match self {
            Error::Js(err) => err.clone(),
            Error::RequestTimeout => "request timeout".to_owned(),
            Error::TooManyInFlightRequests => "too many in-flight requests".to_owned(),
            Error::Disconnected => "data channel has been disconnected".to_owned(),
            Error::Unavailable => "rpc server is unavailable".to_owned(),
        }
    }
}

/// What goes over a data channel. A response carries the index of its request.
#[derive(Debug)]
pub enum Message<Req, Resp> {
    Request { idx: usize, req: Req },
    Response { idx: usize, resp: Result<Resp, Error> },
}

/// The own requests on a data channel that are still open. `Tx` is where the response
/// to a request goes.
pub struct RequestManager<Tx> {
    in_flight: RingBuf<Tx>,
}

impl<Tx> View for RequestManager<Tx> {
    type V = Map<usize, Tx>;

    /// The open requests, by their indices.
    closed spec fn view(&self) -> Map<usize, Tx> {
        self.in_flight@
    }
}

impl<Tx> RequestManager<Tx> {
    pub closed spec fn wf(&self) -> bool {
        self.in_flight.wf() && self.in_flight.spec_capacity() == MAX_IN_FLIGHT_REQUESTS
    }

    /// The index that the next request gets.
    pub closed spec fn next_index(&self) -> usize {
        self.in_flight.next_index()
    }

    /// The index of the oldest open request, or the next index where there is none.
    pub closed spec fn oldest(&self) -> usize {
        self.in_flight.oldest()
    }

    pub fn new() -> (r: Self)
        ensures
            r.wf(),
            r@ == Map::<usize, Tx>::empty(),
            r.next_index() == 0,
            r.oldest() == 0,
    {
        RequestManager { in_flight: RingBuf::with_capacity(MAX_IN_FLIGHT_REQUESTS) }
    }

    /// Whether there is no index left for another request.
    pub fn is_spent(&self) -> (r: bool)
        ensures
            r == (self.next_index() == usize::MAX),
    {
        self.in_flight.is_spent()
    }

    /// Opens a request. Returns the message to send, or the error that goes back at
    /// once because too many requests are open.
    pub fn handle_request<Req, Resp>(&mut self, req: Req, tx: Tx) -> (r: Result<
        Message<Req, Resp>,
        (Tx, Error),
    >)
        requires
            old(self).wf(),
            old(self).next_index() < usize::MAX,
        ensures
            final(self).wf(),
            final(self).oldest() == old(self).oldest(),
            match r {
                Ok(msg) => {
                    let idx = old(self).next_index();
                    &&& idx - old(self).oldest() < MAX_IN_FLIGHT_REQUESTS
                    &&& msg == Message::<Req, Resp>::Request { idx, req }
                    &&& final(self).next_index() == idx + 1
                    &&& !old(self)@.contains_key(idx)
                    &&& final(self)@ == old(self)@.insert(idx, tx)
                },
                Err((to, err)) => {
                    &&& old(self).next_index() - old(self).oldest() >= MAX_IN_FLIGHT_REQUESTS
                    &&& to == tx
                    &&& err is TooManyInFlightRequests
                    &&& *final(self) == *old(self)
                },
            },
    {
        proof {
            self.in_flight.law_window();
        }
        match self.in_flight.add(tx) {
            Ok(idx) => Ok(Message::Request { idx, req }),
            Err(ringbuf::Error::Overflow(tx)) => Err((tx, Error::TooManyInFlightRequests)),
        }
    }

    /// A request could not be sent after all: it is closed with the error.
    pub fn handle_send_error(&mut self, idx: usize, err: Error) -> (r: (Tx, Error))
        requires
            old(self).wf(),
            old(self)@.contains_key(idx),
        ensures
            final(self).wf(),
            final(self).next_index() == old(self).next_index(),
            final(self)@ == old(self)@.remove(idx),
            r == (old(self)@[idx], err),
    {
        (self.in_flight.remove(idx).unwrap(), err)
    }

    /// Takes in what came over the channel. Returns the response and where it goes,
    /// if its request is still open.
    pub fn handle_response<Req, Resp>(&mut self, msg: Message<Req, Resp>) -> (r: Option<
        (Tx, Result<Resp, Error>),
    >)
        requires
            old(self).wf(),
        ensures
            final(self).wf(),
            final(self).next_index() == old(self).next_index(),
            match msg {
                Message::Response { idx, resp } => {
                    &&& final(self)@ == old(self)@.remove(idx)
                    &&& r == if old(self)@.contains_key(idx) {
                        Some((old(self)@[idx], resp))
                    } else {
                        None
                    }
                },
                Message::Request { .. } => r is None && *final(self) == *old(self),
            },
    {
        match msg {
            Message::Response { idx, resp } => match self.in_flight.remove(idx) {
                Some(tx) => Some((tx, resp)),
                None => None,
            },
            Message::Request { .. } => None,
        }
    }

    /// The time for a request is up. Returns the error and where it goes, if the
    /// request is still open.
    pub fn handle_timeout(&mut self, idx: usize) -> (r: Option<(Tx, Error)>)
        requires
            old(self).wf(),
        ensures
            final(self).wf(),
            final(self).next_index() == old(self).next_index(),
            final(self)@ == old(self)@.remove(idx),
            match r {
                Some((tx, err)) => {
                    &&& old(self)@.contains_key(idx)
                    &&& tx == old(self)@[idx]
                    &&& err is RequestTimeout
                },
                None => !old(self)@.contains_key(idx),
            },
    {
        match self.in_flight.remove(idx) {
            Some(tx) => Some((tx, Error::RequestTimeout)),
            None => None,
        }
    }

    /// The open requests have indices that were given out already, so that a new
    /// request never gets the index of an open one; they are less than the limit apart;
    /// and the oldest index is that of an open request unless there is none, so that
    /// there is room again once that one is closed.
    pub proof fn law_open_indices(&self)
        requires
            self.wf(),
        ensures
            forall|i: usize| #[trigger]
                self@.contains_key(i) ==> self.oldest() <= i < self.next_index(),
            self.oldest() <= self.next_index() <= self.oldest() + MAX_IN_FLIGHT_REQUESTS,
            self.oldest() < self.next_index() ==> self@.contains_key(self.oldest()),
    {
        self.in_flight.law_window();
    }
}

/// The response to a request goes where its caller waits, and a second response to it,
/// or its timeout, goes nowhere.
pub proof fn law_answered_once<Tx>(open: Map<usize, Tx>, idx: usize, tx: Tx)
    requires
        !open.contains_key(idx),
    ensures
        open.insert(idx, tx)[idx] == tx,
        !open.insert(idx, tx).remove(idx).contains_key(idx),
        open.insert(idx, tx).remove(idx) == open,
{
    assert(open.insert(idx, tx).remove(idx) =~= open);
}

/// One end of a data channel, as its user sees it.
#[derive(Debug)]
pub struct Client {
    node_id: u64,
    connected: bool,
}

/// What became of handing a request to a data channel.
#[derive(Debug)]
pub enum Handover<Resp> {
    /// The channel does not take requests any more.
    Refused,
    /// The channel was closed before there was a response.
    Dropped,
    Answered(Result<Resp, Error>),
}

impl Client {
    pub closed spec fn spec_node_id(&self) -> u64 {
        self.node_id
    }

    pub closed spec fn spec_is_connected(&self) -> bool {
        self.connected
    }

    pub fn new(node_id: u64) -> (r: Self)
        ensures
            r.spec_node_id() == node_id,
            r.spec_is_connected(),
    {
        Client { node_id, connected: true }
    }

    pub fn node_id(&self) -> (r: u64)
        ensures
            r == self.spec_node_id(),
    {
        self.node_id
    }

    pub fn is_connected(&self) -> (r: bool)
        ensures
            r == self.spec_is_connected(),
    {
        self.connected
    }

    /// The outcome of a call. `handover` is what became of the request, or `None` if
    /// it was not handed over because the client knows that it is disconnected.
    pub fn call<Resp>(&mut self, handover: Option<Handover<Resp>>) -> (r: Result<Resp, Error>)
        requires
            handover is Some == old(self).spec_is_connected(),
        ensures
            final(self).spec_node_id() == old(self).spec_node_id(),
            final(self).spec_is_connected() == (handover matches Some(h) && !(h is Refused)),
            match handover {
                Some(Handover::Answered(res)) => r == res,
                _ => r matches Err(err) && err is Disconnected,
            },
    {
        match handover {
            None => Err(Error::Disconnected),
            Some(Handover::Refused) => {
                self.connected = false;
                Err(Error::Disconnected)
            },
            Some(Handover::Dropped) => Err(Error::Disconnected),
            Some(Handover::Answered(res)) => res,
        }
    }
}

/// What a server does with a message from the other side.
pub enum Incoming<Req, Resp> {
    /// Hand the request to the handler, and send its response under this index.
    Serve { idx: usize, req: Req },
    /// Pass the response on to the own requests.
    Deliver(Message<Req, Resp>),
}

/// Tells the requests of the other side from the responses to own requests.
pub fn incoming<Req, Resp>(msg: Message<Req, Resp>) -> (r: Incoming<Req, Resp>)
    ensures
        match msg {
            Message::Request { idx, req } => r == Incoming::<Req, Resp>::Serve { idx, req },
            Message::Response { .. } => r == Incoming::Deliver(msg),
        },
{
    match msg {
        Message::Request { idx, req } => Incoming::Serve { idx, req },
        Message::Response { idx, resp } => Incoming::Deliver(Message::Response { idx, resp }),
    }
}

/// The message that answers the request with index `idx`.
pub fn answer<Req, Resp>(idx: usize, resp: Result<Resp, Error>) -> (r: Message<Req, Resp>)
    ensures
        r == (Message::<Req, Resp>::Response { idx, resp }),
{
    Message::Response { idx, resp }
}

} // verus!
