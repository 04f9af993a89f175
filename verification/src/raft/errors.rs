//! What can go wrong for the user of the library.

use crate::webrtc_rpc::transport;
use vstd::prelude::*;

verus! {

/// Why a client request got no answer.
#[derive(Debug, Clone, Copy, PartialEq, Eq, Structural)]
pub enum ClientError {
    Unavailable,
    Timeout,
}

/// Why a node could not be started or could not do its work. `J` is what the
/// encoding of log entries fails with.
#[derive(Debug)]
pub enum Error<J> {
    Js(String),
    Transport(transport::Error),
    NotEnoughPeers,
    Persistence(J),
    NotLeader,
    CommandTimeout,
}

impl<J> From<J> for Error<J> {
    fn from(err: J) -> (r: Self) {
        Error::Persistence(err)
    }
}

impl<J> vstd::std_specs::convert::FromSpecImpl<J> for Error<J> {
    open spec fn obeys_from_spec() -> bool {
        true
    }

    open spec fn from_spec(err: J) -> Error<J> {
        Error::Persistence(err)
    }
}

/// What is known of a JavaScript value that was thrown.
#[derive(Debug)]
pub enum Thrown {
    /// It is a string.
    Text(String),
    /// It is an event, of a type and with a target as it prints for debugging.
    Event { kind: String, target: String },
    /// It is something else, which prints for debugging like this.
    Other(String),
}

/// How a thrown value is described to the user.
pub open spec fn thrown_message(thrown: Thrown) -> Seq<char> {
    match thrown {
        Thrown::Text(text) => text@,
        Thrown::Event { kind, target } => "error on event with type "@ + kind@ + " and target "@
            + target@,
        Thrown::Other(debug) => "JS error: "@ + debug@,
    }
}

/// A string that was thrown is told as it is; of an event the type and the target are
/// told, and of anything else how it prints.
pub proof fn law_thrown_is_told(text: String, kind: String, target: String)
    ensures
        thrown_message(Thrown::Text(text)) == text@,
        thrown_message(Thrown::Event { kind, target }) == "error on event with type "@ + kind@
            + " and target "@ + target@,
        thrown_message(Thrown::Other(text)) == "JS error: "@ + text@,
{
}

impl<J> Error<J> {
    /// The error for a JavaScript value that was thrown.
    pub fn from_js(thrown: Thrown) -> (r: Self)
        ensures
            r matches Error::Js(msg) && msg@ == thrown_message(thrown),
    {
        let msg = match thrown {
            Thrown::Text(text) => text,
            Thrown::Event { kind, target } => {
                let mut msg = "error on event with type ".to_owned();
                msg.append(kind.as_str());
                msg.append(" and target ");
                msg.append(target.as_str());
                msg
            },
            Thrown::Other(debug) => {
                let mut msg = "JS error: ".to_owned();
                msg.append(debug.as_str());
                msg
            },
        };
        Error::Js(msg)
    }
}

} // verus!
