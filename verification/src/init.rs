//! The page on which the user starts a cluster or joins one.

use crate::text::{
    key_text, law_key_text_parses_back, parse_number, parsed, session_key_text,
};
use rand::Rng;
use vstd::prelude::*;

verus! {

#[derive(Debug)]
pub enum Msg {
    UpdateSessionKey(String),
    StartCluster,
    JoinCluster,
    ClearStorage,
}

/// What the page does after a message, besides being drawn again.
#[derive(Debug, Clone, Copy, PartialEq, Eq, Structural)]
pub enum Effect {
    Nothing,
    /// Start a node in the session with this key.
    Start(u128),
    /// Tell the user that the key is not one.
    InvalidKey,
    ClearStorage,
}

/// The key of a new session. Calls `gen` of `rand` on the generator of the thread.
/// Nothing is claimed of the result: it is left to chance.
#[verifier::external_body]
pub(crate) fn generate_session_key() -> (r: u128) {
    rand::thread_rng().gen()
}

/// The session key that the user typed in, if it is a hexadecimal number.
pub open spec fn typed_key(text: Seq<char>) -> Option<nat> {
    parsed(text, 16, u128::MAX as nat)
}

/// Reads a session key.
pub fn parse_session_key(text: &str) -> (r: Option<u128>)
    ensures
        match r {
            Some(key) => typed_key(text@) == Some(key as nat),
            None => typed_key(text@) is None,
        },
        forall|key: u128| text@ == #[trigger] key_text(key) ==> r == Some(key),
{
    proof {
        assert forall|key: u128| text@ == #[trigger] key_text(key) implies typed_key(text@) == Some(
            key as nat,
        ) by {
            law_shown_key_is_read(key);
        }
    }
    parse_number(text, 16, u128::MAX)
}

pub struct ClusterInit {
    session_key: String,
}

impl View for ClusterInit {
    type V = Seq<char>;

    /// What the user typed in.
    closed spec fn view(&self) -> Seq<char> {
        self.session_key@
    }
}

impl ClusterInit {
    pub fn new() -> (r: Self)
        ensures
            r@.len() == 0,
    {
        ClusterInit { session_key: String::new() }
    }

    pub fn session_key(&self) -> (r: &String)
        ensures
            r@ == self@,
    {
        &self.session_key
    }

    /// What a message does to the page, where a new cluster gets the key `fresh`.
    pub open spec fn updated(self, msg: Msg, fresh: u128, post: Self, r: (bool, Effect)) -> bool {
        &&& post@ == match msg {
            Msg::UpdateSessionKey(key) => key@,
            _ => self@,
        }
        &&& r == match msg {
            Msg::UpdateSessionKey(_) => (true, Effect::Nothing),
            Msg::StartCluster => (true, Effect::Start(fresh)),
            Msg::JoinCluster => match typed_key(self@) {
                Some(key) => (true, Effect::Start(key as u128)),
                None => (false, Effect::InvalidKey),
            },
            Msg::ClearStorage => (false, Effect::ClearStorage),
        }
    }

    /// Takes in a message. Returns whether the page is drawn again, and what else is
    /// to be done.
    pub fn update(&mut self, msg: Msg) -> (r: (bool, Effect))
        ensures
            exists|fresh: u128| #[trigger] old(self).updated(msg, fresh, *final(self), r),
    {
        let fresh = match &msg {
            Msg::StartCluster => generate_session_key(),
            _ => 0,
        };
        self.update_with(msg, fresh)
    }

    /// Takes in a message, with the key for a new cluster.
    pub fn update_with(&mut self, msg: Msg, fresh: u128) -> (r: (bool, Effect))
        ensures
            old(self).updated(msg, fresh, *final(self), r),
    {
        match msg {
            Msg::UpdateSessionKey(key) => {
                self.session_key = key;
                (true, Effect::Nothing)
            },
            Msg::StartCluster => (true, Effect::Start(fresh)),
            Msg::JoinCluster => match parse_session_key(self.session_key.as_str()) {
                Some(key) => (true, Effect::Start(key)),
                None => (false, Effect::InvalidKey),
            },
            Msg::ClearStorage => (false, Effect::ClearStorage),
        }
    }
}

/// Every session key, typed in as it is shown, is read as that key.
pub proof fn law_shown_key_is_read(key: u128)
    ensures
        typed_key(key_text(key)) == Some(key as nat),
{
    law_key_text_parses_back(key);
}

/// A user who types in a key as it is shown, and joins, gets into the session with
/// exactly that key, whatever was typed before.
pub proof fn law_shown_key_joins(
    page: ClusterInit,
    text: String,
    key: u128,
    typed: ClusterInit,
    after_typing: (bool, Effect),
    joined: ClusterInit,
    after_joining: (bool, Effect),
    fresh: u128,
)
    requires
        text@ == key_text(key),
        page.updated(Msg::UpdateSessionKey(text), fresh, typed, after_typing),
        typed.updated(Msg::JoinCluster, fresh, joined, after_joining),
    ensures
        typed@ == key_text(key),
        after_typing == (true, Effect::Nothing),
        joined@ == key_text(key),
        after_joining == (true, Effect::Start(key)),
{
    law_shown_key_is_read(key);
}

/// Whoever starts a cluster gets into a session with the new key. Whoever joins with
/// something that is no key is told so, and the page stays; to clear local storage does
/// nothing else.
pub proof fn law_page_does_as_told(
    page: ClusterInit,
    msg: Msg,
    fresh: u128,
    post: ClusterInit,
    r: (bool, Effect),
)
    requires
        page.updated(msg, fresh, post, r),
    ensures
        msg is StartCluster ==> r == (true, Effect::Start(fresh)),
        msg is JoinCluster ==> match typed_key(page@) {
            Some(key) => key <= u128::MAX && r == (true, Effect::Start(key as u128)),
            None => r == (false, Effect::InvalidKey),
        },
        msg is ClearStorage ==> r == (false, Effect::ClearStorage),
        !(msg is UpdateSessionKey) ==> post@ == page@,
{
}

/// The page that is shown while the cluster waits for its members.
pub struct ClusterWaiting {
    pub session_key: u128,
}

impl ClusterWaiting {
    /// Whether the page is drawn again when it is given this key.
    pub fn change(&self, session_key: u128) -> (r: bool)
        ensures
            r == (session_key != self.session_key),
    {
        session_key != self.session_key
    }

    pub fn message(&self) -> (r: String)
        ensures
            r@ == "Session key is "@ + key_text(self.session_key),
    {
        let mut msg = "Session key is ".to_owned();
        msg.append(session_key_text(self.session_key).as_str());
        msg
    }
}

/// The message that a key press stands for: the Enter key joins the cluster.
pub fn on_key(key: String) -> (r: Option<Msg>)
    ensures
        r == if key@ == "Enter"@ {
            Some(Msg::JoinCluster)
        } else {
            None
        },
{
    if key == "Enter".to_owned() {
        Some(Msg::JoinCluster)
    } else {
        None
    }
}

} // verus!
