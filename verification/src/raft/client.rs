//! What the user of a node learns of its requests.

use super::errors::ClientError;
use super::worker::ClientResult;
use super::{ClientRequest, ClientResponse, RaftStateDump};
use vstd::prelude::*;

verus! {

/// How long a client request may take.
pub const CLIENT_REQUEST_TIMEOUT_MILLIS: u64 = 2000;

/// What became of a client request.
#[derive(Debug)]
pub enum Outcome<Item> {
    /// The node does not take requests any more.
    NotSent,
    /// The node dropped the request.
    Dropped,
    Answered(ClientResult<Item>),
    /// There was no answer in time.
    TimedOut,
}

pub open spec fn spec_client_result<Item>(outcome: Outcome<Item>) -> ClientResult<Item> {
    match outcome {
        Outcome::Answered(res) => res,
        Outcome::TimedOut => Err(ClientError::Timeout),
        _ => Err(ClientError::Unavailable),
    }
}

/// An answer reaches whoever asked as it is. Without one, a request that took too long
/// has timed out; one that did not get that far found no cluster.
pub proof fn law_answers_come_through<Item>(answer: ClientResult<Item>)
    ensures
        spec_client_result(Outcome::Answered(answer)) == answer,
        spec_client_result(Outcome::<Item>::TimedOut) == ClientResult::<Item>::Err(
            ClientError::Timeout,
        ),
        spec_client_result(Outcome::<Item>::NotSent) == ClientResult::<Item>::Err(
            ClientError::Unavailable,
        ),
        spec_client_result(Outcome::<Item>::Dropped) == ClientResult::<Item>::Err(
            ClientError::Unavailable,
        ),
{
}

/// What a client request comes to.
pub fn do_client_request<Item>(outcome: Outcome<Item>) -> (r: ClientResult<Item>)
    ensures
        r == spec_client_result(outcome),
{
    match outcome {
        Outcome::NotSent => Err(ClientError::Unavailable),
        Outcome::Answered(Ok(resp)) => Ok(resp),
        Outcome::Answered(Err(err)) => Err(err),
        Outcome::Dropped => Err(ClientError::Unavailable),
        Outcome::TimedOut => Err(ClientError::Timeout),
    }
}

/// The request that has a command applied.
pub fn send_request<Cmd, Key>(val: Cmd) -> (r: ClientRequest<Cmd, Key>)
    ensures
        r == ClientRequest::<Cmd, Key>::Apply(val),
{
    ClientRequest::Apply(val)
}

/// What the sender of a command learns: whether it was applied.
pub fn send<Item>(outcome: Outcome<Item>) -> (r: Result<(), ClientError>)
    ensures
        r == match spec_client_result(outcome) {
            Ok(_) => Ok(()),
            Err(err) => Err(err),
        },
{
    match do_client_request(outcome) {
        Ok(_) => Ok(()),
        Err(err) => Err(err),
    }
}

/// What became of a question to the state machine of the own node.
#[derive(Debug)]
pub enum Lookup<Item> {
    NotSent,
    Dropped,
    Found(Option<Item>),
}

/// What the one who asked learns.
pub fn get<Item>(lookup: Lookup<Item>) -> (r: Result<Option<Item>, ClientError>)
    ensures
        r == match lookup {
            Lookup::Found(item) => Ok(item),
            _ => Err(ClientError::Unavailable),
        },
{
    match lookup {
        Lookup::Found(item) => Ok(item),
        Lookup::NotSent => Err(ClientError::Unavailable),
        Lookup::Dropped => Err(ClientError::Unavailable),
    }
}

/// How the node describes itself, for one who asked.
pub fn debug<Item>(outcome: Outcome<Item>) -> (r: Result<Box<RaftStateDump>, ClientError>)
    requires
        spec_client_result(outcome) matches Ok(resp) ==> resp is Debug,
    ensures
        match spec_client_result(outcome) {
            Ok(ClientResponse::Debug(dump)) => r == Ok::<Box<RaftStateDump>, ClientError>(dump),
            Ok(_) => false,
            Err(err) => r == Err::<Box<RaftStateDump>, ClientError>(err),
        },
{
    match do_client_request(outcome) {
        Ok(ClientResponse::Debug(dump)) => Ok(dump),
        Ok(_) => Err(ClientError::Unavailable),
        Err(err) => Err(err),
    }
}

} // verus!
