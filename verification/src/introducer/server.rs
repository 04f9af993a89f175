//! The introducer: it announces who is online in a session, and hands on what nodes
//! have to say to each other.

use super::{copy_set, Command, Join, Session};
use crate::text::{key_text, session_key_text};
use std::collections::{HashMap, HashSet};
use vstd::prelude::*;

verus! {

/// Why a message could not be handed on. `E` is what sockets and channels fail with.
#[derive(Debug)]
pub enum Error<E> {
    SessionNotFound(String),
    RustError(E),
}

/// The sessions of an introducer. `Tx` is the channel on which all nodes of a session
/// listen.
pub struct Channels<Tx> {
    messages: HashMap<u128, Tx>,
    online: HashMap<u128, HashSet<u64>>,
}

pub struct ChannelsView<Tx> {
    /// The channels of the sessions.
    pub messages: Map<u128, Tx>,
    /// Who is online, for each session that anybody ever joined.
    pub online: Map<u128, Set<u64>>,
}

impl<Tx> View for Channels<Tx> {
    type V = ChannelsView<Tx>;

    closed spec fn view(&self) -> ChannelsView<Tx> {
        ChannelsView {
            messages: self.messages@,
            online: self.online@.map_values(|s: HashSet<u64>| s@),
        }
    }
}

/// Who is online in a session.
pub open spec fn online_in(online: Map<u128, Set<u64>>, session_id: u128) -> Set<u64> {
    if online.contains_key(session_id) {
        online[session_id]
    } else {
        Set::empty()
    }
}

/// Whether `cmd` tells the nodes of a session who is online.
pub open spec fn announces(cmd: Command, session_id: u128, online: Set<u64>) -> bool {
    &&& cmd matches Command::SessionStatus(session)
    &&& session.session_id == session_id
    &&& session.online@ == online
}

impl<Tx> Channels<Tx> {
    pub fn new() -> (r: Self)
        ensures
            r@.messages == Map::<u128, Tx>::empty(),
            r@.online == Map::<u128, Set<u64>>::empty(),
    {
        let r = Channels { messages: HashMap::new(), online: HashMap::new() };
        assert(r@.online =~= Map::<u128, Set<u64>>::empty());
        r
    }

    /// The channel of a session.
    pub fn get_messages(&self, session_id: u128) -> (r: Option<&Tx>)
        ensures
            match r {
                Some(tx) => self@.messages.contains_key(session_id) && *tx
                    == self@.messages[session_id],
                None => !self@.messages.contains_key(session_id),
            },
    {
        self.messages.get(&session_id)
    }

    /// Makes a channel known for a session, unless it has one.
    pub fn ensure_session(&mut self, session_id: u128, tx: Tx)
        ensures
            final(self)@.online == old(self)@.online,
            final(self)@.messages == if old(self)@.messages.contains_key(session_id) {
                old(self)@.messages
            } else {
                old(self)@.messages.insert(session_id, tx)
            },
    {
        if self.messages.contains_key(&session_id) {
            return;
        }
        self.messages.insert(session_id, tx);
    }

    /// A node is online. Returns the announcement and the channel that it goes to.
    pub fn joined<E>(&mut self, node_id: u64, session_id: u128) -> (r: Result<
        (&Tx, Command),
        Error<E>,
    >)
        ensures
            final(self)@.messages == old(self)@.messages,
            final(self)@.online == old(self)@.online.insert(
                session_id,
                online_in(old(self)@.online, session_id).insert(node_id),
            ),
            final(self).announced(session_id, r),
    {
        let mut here = match self.online.remove(&session_id) {
            Some(here) => here,
            None => HashSet::new(),
        };
        here.insert(node_id);
        let ghost now = here@;
        self.online.insert(session_id, here);
        assert(self@.online =~= old(self)@.online.insert(session_id, now));
        assert(now =~= online_in(old(self)@.online, session_id).insert(node_id));
        self.broadcast_session_info(session_id)
    }

    /// A node went offline. Returns the announcement and the channel that it goes to.
    pub fn left<E>(&mut self, node_id: u64, session_id: u128) -> (r: Result<
        (&Tx, Command),
        Error<E>,
    >)
        requires
            old(self)@.online.contains_key(session_id),
        ensures
            final(self)@.messages == old(self)@.messages,
            final(self)@.online == old(self)@.online.insert(
                session_id,
                old(self)@.online[session_id].remove(node_id),
            ),
            final(self).announced(session_id, r),
    {
        assert(self.online@.contains_key(session_id));
        let mut here = self.online.remove(&session_id).unwrap();
        here.remove(&node_id);
        let ghost now = here@;
        self.online.insert(session_id, here);
        assert(self@.online =~= old(self)@.online.insert(session_id, now));
        self.broadcast_session_info(session_id)
    }

    /// Whether anybody ever joined the session.
    pub fn is_known(&self, session_id: u128) -> (r: bool)
        ensures
            r == self@.online.contains_key(session_id),
    {
        self.online.contains_key(&session_id)
    }

    /// The channel that a message for a session goes to.
    pub fn broadcast<E>(&self, session_id: u128, command: Command) -> (r: Result<
        (&Tx, Command),
        Error<E>,
    >)
        ensures
            match r {
                Ok((tx, cmd)) => {
                    &&& self@.messages.contains_key(session_id)
                    &&& *tx == self@.messages[session_id]
                    &&& cmd == command
                },
                Err(err) => {
                    &&& !self@.messages.contains_key(session_id)
                    &&& err matches Error::SessionNotFound(text)
                    &&& text@ == key_text(session_id)
                },
            },
    {
        match self.messages.get(&session_id) {
            Some(tx) => Ok((tx, command)),
            None => Err(Error::SessionNotFound(session_key_text(session_id))),
        }
    }

    /// Whether `r` announces who is online in a session that has a channel, or says
    /// that it has none.
    pub open spec fn announced<E>(&self, session_id: u128, r: Result<(&Tx, Command), Error<E>>) -> bool {
        match r {
            Ok((tx, cmd)) => {
                &&& self@.messages.contains_key(session_id)
                &&& *tx == self@.messages[session_id]
                &&& announces(cmd, session_id, self@.online[session_id])
            },
            Err(err) => {
                &&& !self@.messages.contains_key(session_id)
                &&& err matches Error::SessionNotFound(text)
                &&& text@ == key_text(session_id)
            },
        }
    }

    pub fn broadcast_session_info<E>(&self, session_id: u128) -> (r: Result<
        (&Tx, Command),
        Error<E>,
    >)
        requires
            self@.online.contains_key(session_id),
        ensures
            self.announced(session_id, r),
    {
        assert(self.online@.contains_key(session_id));
        let here = self.online.get(&session_id).unwrap();
        let status = Session { session_id, online: copy_set(here) };
        self.broadcast(session_id, Command::SessionStatus(status))
    }
}

/// What the introducer does with a message from a node.
#[derive(Debug)]
pub enum Action {
    /// The node joins a session.
    Join(u64, u128),
    /// The message goes to all nodes of a session.
    Broadcast(u128, Command),
}

impl Action {
    /// The node and the session that the message makes known.
    pub fn info(&self) -> (r: Option<(u64, u128)>)
        ensures
            r == match *self {
                Action::Join(node_id, session_id) => Some((node_id, session_id)),
                Action::Broadcast(_, _) => None,
            },
    {
        match self {
            Action::Join(node_id, session_id) => Some((*node_id, *session_id)),
            Action::Broadcast(_, _) => None,
        }
    }
}

/// What a message from a node asks for; only the introducer says who is online.
pub fn process_message(cmd: Command) -> (r: Action)
    requires
        !(cmd is SessionStatus),
    ensures
        r == match cmd {
            Command::Join(join) => Action::Join(join.node_id, join.session_id),
            Command::Offer(offer) => Action::Broadcast(offer.session_id, cmd),
            Command::Answer(answer) => Action::Broadcast(answer.session_id, cmd),
            Command::IceCandidate(candidate) => Action::Broadcast(candidate.session_id, cmd),
            Command::SessionStatus(session) => Action::Broadcast(session.session_id, cmd),
        },
{
    match cmd {
        Command::Join(join) => Action::Join(join.node_id, join.session_id),
        Command::Offer(offer) => Action::Broadcast(offer.session_id, Command::Offer(offer)),
        Command::Answer(answer) => Action::Broadcast(answer.session_id, Command::Answer(answer)),
        Command::IceCandidate(candidate) => Action::Broadcast(
            candidate.session_id,
            Command::IceCandidate(candidate),
        ),
        Command::SessionStatus(session) => Action::Broadcast(
            session.session_id,
            Command::SessionStatus(session),
        ),
    }
}

/// Whether a message on the channel of a session concerns a node: who is online
/// concerns everyone, the rest only the one it is meant for.
pub open spec fn concerns(cmd: Command, node_id: u64, session_id: u128) -> bool {
    match cmd {
        Command::SessionStatus(_) => true,
        Command::Offer(offer) => offer.session_id == session_id && offer.target_id == node_id,
        Command::Answer(answer) => answer.session_id == session_id && answer.target_id == node_id,
        Command::IceCandidate(candidate) => candidate.session_id == session_id
            && candidate.target_id == node_id,
        Command::Join(_) => false,
    }
}

/// Whether a message on the channel of a session is sent on to a node.
pub fn is_forwarded(cmd: &Command, node_id: u64, session_id: u128) -> (r: bool)
    requires
        !(cmd is Join),
    ensures
        r == concerns(*cmd, node_id, session_id),
{
    match cmd {
        Command::SessionStatus(_) => true,
        Command::Offer(offer) => offer.session_id == session_id && offer.target_id == node_id,
        Command::Answer(answer) => answer.session_id == session_id && answer.target_id == node_id,
        Command::IceCandidate(candidate) => {
            candidate.session_id == session_id && candidate.target_id == node_id
        },
        Command::Join(_) => false,
    }
}

/// The node and the session that a message makes known.
pub open spec fn made_known(cmd: Command) -> Option<(u64, u128)> {
    match cmd {
        Command::Join(join) => Some((join.node_id, join.session_id)),
        _ => None,
    }
}

/// Who is on the other end of a socket, after a message was handled.
pub open spec fn known_after<E>(
    ids: Option<(u64, u128)>,
    handled: Result<Option<(u64, u128)>, Error<E>>,
) -> Option<(u64, u128)> {
    match handled {
        Ok(Some(info)) => Some(info),
        Ok(None) => ids,
        Err(_) => ids,
    }
}

/// Who is on the other end of a socket, after a message was handled: the node that the
/// message made known, or who it was before. Only that node can be announced as gone
/// when the socket closes.
pub fn ids_after<E>(
    ids: Option<(u64, u128)>,
    handled: Result<Option<(u64, u128)>, Error<E>>,
) -> (r: Option<(u64, u128)>)
    ensures
        r == match handled {
            Ok(Some(info)) => Some(info),
            Ok(None) => ids,
            Err(_) => ids,
        },
{
    match handled {
        Ok(Some(info)) => Some(info),
        Ok(None) => ids,
        Err(_) => ids,
    }
}

/// Who is on the other end of a socket, after all these messages were handled in order.
pub open spec fn known_after_all<E>(
    ids: Option<(u64, u128)>,
    handled: Seq<Result<Option<(u64, u128)>, Error<E>>>,
) -> Option<(u64, u128)>
    decreases handled.len(),
{
    if handled.len() == 0 {
        ids
    } else {
        known_after(known_after_all(ids, handled.drop_last()), handled.last())
    }
}

/// Whether the messages were handled so: each failed, or made known what it says.
pub open spec fn were_handled<E>(
    cmds: Seq<Command>,
    handled: Seq<Result<Option<(u64, u128)>, Error<E>>>,
) -> bool {
    &&& cmds.len() == handled.len()
    &&& forall|i: int|
        0 <= i < cmds.len() ==> ((#[trigger] handled[i]) matches Ok(info) ==> info == made_known(
            cmds[i],
        ))
}

/// Who joined is remembered, whatever else the node sends before its socket closes.
pub proof fn law_joined_is_remembered<E>(
    ids: (u64, u128),
    cmds: Seq<Command>,
    handled: Seq<Result<Option<(u64, u128)>, Error<E>>>,
)
    requires
        were_handled(cmds, handled),
        forall|i: int| 0 <= i < cmds.len() ==> !(#[trigger] cmds[i] is Join),
    ensures
        known_after_all(Some(ids), handled) == Some(ids),
    decreases handled.len(),
{
    if handled.len() > 0 {
        let n = handled.len() - 1;
        assert(!(cmds[n] is Join));
        assert forall|i: int| 0 <= i < n implies ((#[trigger] handled.drop_last()[i]) matches Ok(
            info,
        ) ==> info == made_known(cmds.drop_last()[i])) by {
            assert(handled.drop_last()[i] == handled[i]);
        }
        law_joined_is_remembered(ids, cmds.drop_last(), handled.drop_last());
    }
}

/// A node that joined, sent whatever else and closed its socket is not online any more:
/// the introducer knows whom to announce as gone, and then it is gone.
pub proof fn law_gone_after_close<E>(
    join: Join,
    cmds: Seq<Command>,
    handled: Seq<Result<Option<(u64, u128)>, Error<E>>>,
    online: Map<u128, Set<u64>>,
)
    requires
        were_handled(cmds, handled),
        forall|i: int| 0 <= i < cmds.len() ==> !(#[trigger] cmds[i] is Join),
    ensures
        ({
            let first = Result::<Option<(u64, u128)>, Error<E>>::Ok(
                made_known(Command::Join(join)),
            );
            let ids = known_after_all(None, seq![first] + handled);
            let left = online.insert(
                join.session_id,
                online_in(online, join.session_id).remove(join.node_id),
            );
            &&& ids == Some((join.node_id, join.session_id))
            &&& !online_in(left, join.session_id).contains(join.node_id)
        }),
{
    let first = Result::<Option<(u64, u128)>, Error<E>>::Ok(made_known(Command::Join(join)));
    let ids = (join.node_id, join.session_id);
    lemma_known_in_two_parts(None, seq![first], handled);
    assert(seq![first].drop_last() =~= Seq::empty());
    assert(known_after_all(None, seq![first]) == Some(ids)) by {
        assert(known_after_all(None, Seq::<Result<Option<(u64, u128)>, Error<E>>>::empty())
            == None::<(u64, u128)>);
    }
    law_joined_is_remembered(ids, cmds, handled);
}

proof fn lemma_known_in_two_parts<E>(
    ids: Option<(u64, u128)>,
    a: Seq<Result<Option<(u64, u128)>, Error<E>>>,
    b: Seq<Result<Option<(u64, u128)>, Error<E>>>,
)
    ensures
        known_after_all(ids, a + b) == known_after_all(known_after_all(ids, a), b),
    decreases b.len(),
{
    if b.len() == 0 {
        assert(a + b =~= a);
    } else {
        assert((a + b).drop_last() =~= a + b.drop_last());
        lemma_known_in_two_parts(ids, a, b.drop_last());
    }
}

/// An offer, an answer or a candidate reaches exactly one node of a session.
pub proof fn law_forwarded_to_the_target_only(
    cmd: Command,
    session_id: u128,
    node_id: u64,
    other: u64,
)
    requires
        !(cmd is SessionStatus),
        concerns(cmd, node_id, session_id),
        concerns(cmd, other, session_id),
    ensures
        node_id == other,
{
}

/// A node that joins and leaves again is gone, and nobody else is.
pub proof fn law_join_and_leave(online: Map<u128, Set<u64>>, session_id: u128, node_id: u64)
    ensures
        ({
            let joined = online.insert(session_id, online_in(online, session_id).insert(node_id));
            let left = joined.insert(session_id, joined[session_id].remove(node_id));
            &&& joined[session_id].contains(node_id)
            &&& online_in(left, session_id) == online_in(online, session_id).remove(node_id)
            &&& forall|s: u128| s != session_id ==> #[trigger] online_in(left, s) == online_in(
                online,
                s,
            )
        }),
{
    let here = online_in(online, session_id);
    assert(here.insert(node_id).remove(node_id) =~= here.remove(node_id));
}

/// An offer, an answer or a candidate reaches the node that it is meant for in its
/// session, and no other; who is online concerns everyone.
pub proof fn law_messages_reach_their_target(cmd: Command, node_id: u64, session_id: u128)
    ensures
        match cmd {
            Command::SessionStatus(_) => concerns(cmd, node_id, session_id),
            Command::Offer(m) => concerns(cmd, node_id, session_id) <==> m.target_id == node_id
                && m.session_id == session_id,
            Command::Answer(m) => concerns(cmd, node_id, session_id) <==> m.target_id == node_id
                && m.session_id == session_id,
            Command::IceCandidate(m) => concerns(cmd, node_id, session_id) <==> m.target_id
                == node_id && m.session_id == session_id,
            Command::Join(_) => !concerns(cmd, node_id, session_id),
        },
{
}

/// Whoever is online in a session was online before or just joined; in a session that
/// nobody ever joined, nobody is. An announcement goes to the channel of its session and
/// names exactly those who are online; without a channel the session is not found.
pub proof fn law_announcement_tells_who_is_online<Tx, E>(
    channels: Channels<Tx>,
    session_id: u128,
    r: Result<(&Tx, Command), Error<E>>,
    node_id: u64,
)
    requires
        channels@.online.contains_key(session_id),
        channels.announced(session_id, r),
    ensures
        r is Ok <==> channels@.messages.contains_key(session_id),
        r matches Ok((tx, Command::SessionStatus(session))) ==> {
            &&& *tx == channels@.messages[session_id]
            &&& session.session_id == session_id
            &&& session.online@.contains(node_id) <==> online_in(
                channels@.online,
                session_id,
            ).contains(node_id)
        },
        r matches Ok((_, cmd)) ==> cmd is SessionStatus,
        r matches Err(err) ==> (err matches Error::SessionNotFound(text) && text@ == key_text(
            session_id,
        )),
        online_in(channels@.online, session_id) == channels@.online[session_id],
        forall|s: u128|
            !(#[trigger] channels@.online.contains_key(s)) ==> online_in(channels@.online, s)
                == Set::<u64>::empty(),
{
}

/// Only a node that joins makes itself known; whoever was known stays so when a message
/// fails or makes nobody known.
pub proof fn law_who_is_known<E>(
    cmd: Command,
    ids: Option<(u64, u128)>,
    info: (u64, u128),
    err: Error<E>,
)
    ensures
        made_known(cmd) is Some <==> cmd is Join,
        cmd matches Command::Join(join) ==> made_known(cmd) == Some(
            (join.node_id, join.session_id),
        ),
        known_after(ids, Ok::<_, Error<E>>(Some(info))) == Some(info),
        known_after(ids, Ok::<_, Error<E>>(None)) == ids,
        known_after(ids, Err::<Option<(u64, u128)>, _>(err)) == ids,
{
}

} // verus!
