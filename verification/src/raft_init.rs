//! A page that sets up a cluster and then runs a program on it.

use crate::filtering::{
    lemma_filter_complete, lemma_filter_distinct, lemma_filter_passes, lemma_filter_within,
};
use crate::init::{generate_session_key, law_shown_key_is_read, parse_session_key, typed_key};
use crate::text::{decimal, key_text, push_decimal, session_key_text};
use vstd::prelude::*;

verus! {

/// How many nodes a cluster has.
pub const CLUSTER_SIZE: usize = 3;

/// A node that is handed to a program once.
pub struct RaftWrapper<R>(Option<R>);

impl<R> View for RaftWrapper<R> {
    type V = Option<R>;

    closed spec fn view(&self) -> Option<R> {
        self.0
    }
}

impl<R> RaftWrapper<R> {
    pub fn new(raft: R) -> (r: Self)
        ensures
            r@ == Some(raft),
    {
        RaftWrapper(Some(raft))
    }

    pub fn take(&mut self) -> (r: Option<R>)
        ensures
            r == old(self)@,
            final(self)@ is None,
    {
        self.0.take()
    }
}

#[derive(Debug)]
pub enum Msg<R> {
    UpdateSessionKey(String),
    StartCluster,
    JoinCluster,
    ClearStorage,
    ClusterStarted(R),
}

/// Where the setup of a cluster is.
#[derive(Debug)]
pub enum State<R> {
    Setup,
    Waiting(u128),
    Running(R),
}

/// What the page does after a message, besides being drawn again.
#[derive(Debug, Clone, Copy, PartialEq, Eq, Structural)]
pub enum Effect {
    Nothing,
    /// Start a node in the session with this key.
    Start(u128),
    /// Tell the user that the key is not one.
    InvalidKey,
    /// Clear local storage, and tell the user.
    ClearStorage,
}

pub struct Model<R> {
    pub session_key: String,
    pub state: State<R>,
}

impl<R> Model<R> {
    /// The page at its start, in a given session or in none yet.
    pub fn create(session_key: Option<u128>) -> (r: (Self, Effect))
        ensures
            r.0.session_key@.len() == 0,
            match session_key {
                Some(key) => r.0.state == State::<R>::Waiting(key) && r.1 == Effect::Start(key),
                None => r.0.state is Setup && r.1 == Effect::Nothing,
            },
    {
        match session_key {
            Some(key) => (
                Model { session_key: String::new(), state: State::Waiting(key) },
                Effect::Start(key),
            ),
            None => (Model { session_key: String::new(), state: State::Setup }, Effect::Nothing),
        }
    }

    /// What a message does to the page, where a new cluster gets the key `fresh`.
    pub open spec fn updated(
        self,
        msg: Msg<R>,
        fresh: u128,
        post: Self,
        r: (bool, Effect),
    ) -> bool {
        &&& post.session_key@ == match msg {
            Msg::UpdateSessionKey(key) => key@,
            _ => self.session_key@,
        }
        &&& post.state == match msg {
            Msg::StartCluster => State::Waiting(fresh),
            Msg::JoinCluster => match typed_key(self.session_key@) {
                Some(key) => State::Waiting(key as u128),
                None => self.state,
            },
            Msg::ClusterStarted(raft) => State::Running(raft),
            _ => self.state,
        }
        &&& r == match msg {
            Msg::StartCluster => (true, Effect::Start(fresh)),
            Msg::JoinCluster => match typed_key(self.session_key@) {
                Some(key) => (true, Effect::Start(key as u128)),
                None => (false, Effect::InvalidKey),
            },
            Msg::ClearStorage => (true, Effect::ClearStorage),
            _ => (true, Effect::Nothing),
        }
    }

    /// Takes in a message. Returns whether the page is drawn again, and what else is
    /// to be done.
    pub fn update(&mut self, msg: Msg<R>) -> (r: (bool, Effect))
        ensures
            exists|fresh: u128| #[trigger] old(self).updated(msg, fresh, *final(self), r),
    {
        let fresh = match &msg {
            Msg::StartCluster => generate_session_key(),
            _ => 0,
        };
        self.update_with(msg, fresh)
    }

    /// Takes in a message, with the key for a new cluster.
    pub fn update_with(&mut self, msg: Msg<R>, fresh: u128) -> (r: (bool, Effect))
        ensures
            old(self).updated(msg, fresh, *final(self), r),
    {
        match msg {
            Msg::UpdateSessionKey(key) => {
                self.session_key = key;
                (true, Effect::Nothing)
            },
            Msg::StartCluster => {
                self.state = State::Waiting(fresh);
                (true, Effect::Start(fresh))
            },
            Msg::JoinCluster => match parse_session_key(self.session_key.as_str()) {
                Some(key) => {
                    self.state = State::Waiting(key);
                    (true, Effect::Start(key))
                },
                None => (false, Effect::InvalidKey),
            },
            Msg::ClearStorage => (true, Effect::ClearStorage),
            Msg::ClusterStarted(raft) => {
                self.state = State::Running(raft);
                (true, Effect::Nothing)
            },
        }
    }
}

/// A user who types in a key as it is shown, and joins, waits in the session with
/// exactly that key, whatever the page was at before.
pub proof fn law_shown_key_joins<R>(
    page: Model<R>,
    text: String,
    key: u128,
    typed: Model<R>,
    after_typing: (bool, Effect),
    joined: Model<R>,
    after_joining: (bool, Effect),
    fresh: u128,
)
    requires
        text@ == key_text(key),
        page.updated(Msg::UpdateSessionKey(text), fresh, typed, after_typing),
        typed.updated(Msg::JoinCluster, fresh, joined, after_joining),
    ensures
        typed.session_key@ == key_text(key),
        typed.state == page.state,
        after_typing == (true, Effect::Nothing),
        joined.state == State::<R>::Waiting(key),
        after_joining == (true, Effect::Start(key)),
{
    law_shown_key_is_read(key);
}

/// Whoever starts a cluster waits in a session with the new key. Whoever joins with
/// something that is no key is told so, and nothing changes. Once the node is there the
/// program runs with it; to clear local storage changes nothing of the page.
pub proof fn law_page_does_as_told<R>(
    page: Model<R>,
    msg: Msg<R>,
    fresh: u128,
    post: Model<R>,
    r: (bool, Effect),
)
    requires
        page.updated(msg, fresh, post, r),
    ensures
        msg is StartCluster ==> post.state == State::<R>::Waiting(fresh) && r == (
            true,
            Effect::Start(fresh),
        ),
        msg is JoinCluster ==> match typed_key(page.session_key@) {
            Some(key) => {
                &&& key <= u128::MAX
                &&& post.state == State::<R>::Waiting(key as u128)
                &&& r == (true, Effect::Start(key as u128))
            },
            None => post.state == page.state && r == (false, Effect::InvalidKey),
        },
        msg matches Msg::ClusterStarted(raft) ==> post.state == State::Running(raft) && r == (
            true,
            Effect::Nothing,
        ),
        msg is ClearStorage ==> post.state == page.state && r == (true, Effect::ClearStorage),
        msg matches Msg::UpdateSessionKey(key) ==> post.session_key@ == key@ && post.state
            == page.state,
        !(msg is UpdateSessionKey) ==> post.session_key@ == page.session_key@,
{
}

/// What the button says that clears local storage.
pub fn clear_storage_label(items: u32) -> (r: String)
    ensures
        r@ == "Clear local storage (currently "@ + decimal(items as nat) + " item(s))"@,
{
    let mut label = "Clear local storage (currently ".to_owned();
    push_decimal(&mut label, items as u128);
    label.append(" item(s))");
    label
}

/// What is shown of the session while the cluster waits for its members.
pub fn waiting_message(session_key: u128) -> (r: String)
    ensures
        r@ == "Cluster ID is "@ + key_text(session_key),
{
    let mut msg = "Cluster ID is ".to_owned();
    msg.append(session_key_text(session_key).as_str());
    msg
}

/// Where the first dot of a host name is.
pub open spec fn first_dot(hostname: Seq<char>) -> Option<int>
    decreases hostname.len(),
{
    if hostname.len() == 0 {
        None
    } else if hostname[0] == '.' {
        Some(0)
    } else {
        match first_dot(hostname.skip(1)) {
            Some(i) => Some(i + 1),
            None => None,
        }
    }
}

/// The part of a host name before the first dot, and the part behind it.
pub open spec fn host_parts(hostname: Seq<char>) -> (Seq<char>, Seq<char>) {
    match first_dot(hostname) {
        Some(i) => (hostname.take(i), hostname.skip(i + 1)),
        None => (hostname, Seq::empty()),
    }
}

/// A host name is taken apart at its first dot, whatever dots come behind it; one
/// without a dot has no domain.
pub proof fn law_host_parts(host: Seq<char>, domain: Seq<char>)
    requires
        forall|i: int| 0 <= i < host.len() ==> #[trigger] host[i] != '.',
    ensures
        host_parts(host + seq!['.'] + domain) == (host, domain),
        host_parts(host) == (host, Seq::<char>::empty()),
{
    lemma_first_dot(host, seq!['.'] + domain);
    lemma_first_dot(host, Seq::empty());
    let name = host + seq!['.'] + domain;
    assert(host + (seq!['.'] + domain) =~= name);
    assert(host + Seq::<char>::empty() =~= host);
    assert(name.take(host.len() as int) =~= host);
    assert(name.skip(host.len() as int + 1) =~= domain);
}

proof fn lemma_first_dot(host: Seq<char>, rest: Seq<char>)
    requires
        forall|i: int| 0 <= i < host.len() ==> #[trigger] host[i] != '.',
        rest.len() == 0 || rest[0] == '.',
    ensures
        first_dot(host + rest) == if rest.len() == 0 {
            None
        } else {
            Some(host.len() as int)
        },
    decreases host.len(),
{
    if host.len() > 0 {
        let tail = host.skip(1);
        assert forall|i: int| 0 <= i < tail.len() implies #[trigger] tail[i] != '.' by {
            assert(tail[i] == host[i + 1]);
        }
        lemma_first_dot(tail, rest);
        assert((host + rest).skip(1) =~= tail + rest);
    }
}

fn split_host(hostname: &str) -> (r: (String, String))
    ensures
        (r.0@, r.1@) == host_parts(hostname@),
{
    let len = hostname.unicode_len();
    let mut i: usize = 0;
    assert(hostname@.skip(0) =~= hostname@);
    while i < len && hostname.get_char(i) != '.'
        invariant
            i <= len == hostname@.len(),
            match first_dot(hostname@.skip(i as int)) {
                Some(j) => first_dot(hostname@) == Some(i + j),
                None => first_dot(hostname@) is None,
            },
        decreases len - i,
    {
        assert(hostname@.skip(i as int).skip(1) =~= hostname@.skip(i + 1));
        i = i + 1;
    }
    if i < len {
        assert(hostname@.subrange(0, i as int) =~= hostname@.take(i as int));
        assert(hostname@.subrange(i + 1, len as int) =~= hostname@.skip(i + 1));
        (
            hostname.substring_char(0, i).to_owned(),
            hostname.substring_char(i + 1, len).to_owned(),
        )
    } else {
        let none = String::new();
        assert(none@ =~= Seq::<char>::empty());
        (hostname.to_owned(), none)
    }
}

/// The address of the page of another member of a cluster.
pub open spec fn member_url(
    member: Seq<char>,
    domain: Seq<char>,
    path: Seq<char>,
    session_key: u128,
) -> Seq<char> {
    "https://"@ + member + "."@ + domain + path + "#"@ + key_text(session_key)
}

/// The hosts on which the members of a cluster run.
pub open spec fn all_members() -> Seq<Seq<char>> {
    seq!["wraft0"@, "wraft1"@, "wraft2"@]
}

/// A button that opens the page of another member: its address and what it says.
#[derive(Debug)]
pub struct MemberLink {
    pub url: String,
    pub label: String,
}

pub open spec fn links_to(
    link: MemberLink,
    member: Seq<char>,
    hostname: Seq<char>,
    path: Seq<char>,
    session_key: u128,
) -> bool {
    &&& link.url@ == member_url(member, host_parts(hostname).1, path, session_key)
    &&& link.label@ == "Open "@ + member
}

fn member_link(member: &str, domain: &str, path: &str, session_key: u128) -> (r: MemberLink)
    ensures
        r.url@ == member_url(member@, domain@, path@, session_key),
        r.label@ == "Open "@ + member@,
{
    let mut url = "https://".to_owned();
    url.append(member);
    url.append(".");
    url.append(domain);
    url.append(path);
    url.append("#");
    url.append(session_key_text(session_key).as_str());
    let mut label = "Open ".to_owned();
    label.append(member);
    MemberLink { url, label }
}

/// The members that a host links to: all but itself.
pub open spec fn others(hostname: Seq<char>) -> Seq<Seq<char>> {
    all_members().filter(|m: Seq<char>| m != host_parts(hostname).0)
}

/// A host links to each of the three members of a cluster but itself, once, and to
/// nobody else.
pub proof fn law_links_lead_to_the_others(hostname: Seq<char>, member: Seq<char>)
    ensures
        others(hostname).no_duplicates(),
        others(hostname).contains(member) <==> {
            &&& member == "wraft0"@ || member == "wraft1"@ || member == "wraft2"@
            &&& member != host_parts(hostname).0
        },
{
    let members = all_members();
    let other = |m: Seq<char>| m != host_parts(hostname).0;
    reveal_strlit("wraft0");
    reveal_strlit("wraft1");
    reveal_strlit("wraft2");
    assert("wraft0"@[5] != "wraft1"@[5]);
    assert("wraft0"@[5] != "wraft2"@[5]);
    assert("wraft1"@[5] != "wraft2"@[5]);
    assert(members.no_duplicates());
    assert(members[0] == "wraft0"@ && members[1] == "wraft1"@ && members[2] == "wraft2"@);
    lemma_filter_distinct(members, other);
    if others(hostname).contains(member) {
        let i = choose|i: int| 0 <= i < others(hostname).len() && others(hostname)[i] == member;
        lemma_filter_within(members, other, i);
        lemma_filter_passes(members, other, i);
    }
    if members.contains(member) && other(member) {
        lemma_filter_complete(members, other, member);
    }
}

/// The link to a member opens its page, on the same domain and under the same path, and
/// hands over the session key, which the page there reads as the same key.
pub proof fn law_link_hands_the_key_over(
    link: MemberLink,
    member: Seq<char>,
    host: Seq<char>,
    domain: Seq<char>,
    path: Seq<char>,
    session_key: u128,
)
    requires
        forall|i: int| 0 <= i < host.len() ==> #[trigger] host[i] != '.',
        links_to(link, member, host + seq!['.'] + domain, path, session_key),
    ensures
        link.label@ == "Open "@ + member,
        link.url@ == "https://"@ + member + "."@ + domain + path + "#"@ + key_text(session_key),
        typed_key(link.url@.skip(link.url@.len() - key_text(session_key).len())) == Some(
            session_key as nat,
        ),
{
    law_host_parts(host, domain);
    law_shown_key_is_read(session_key);
    assert(link.url@.skip(link.url@.len() - key_text(session_key).len()) =~= key_text(session_key));
}

/// The links to the other members of the cluster.
pub fn other_cluster_members(hostname: &str, path: &str, session_key: u128) -> (r: Vec<MemberLink>)
    ensures
        r@.len() == others(hostname@).len(),
        forall|i: int|
            0 <= i < r@.len() ==> links_to(
                #[trigger] r@[i],
                others(hostname@)[i],
                hostname@,
                path@,
                session_key,
            ),
{
    let (me, domain) = split_host(hostname);
    let all_targets: [&'static str; 3] = ["wraft0", "wraft1", "wraft2"];
    let ghost members = all_members();
    let ghost not_me = |m: Seq<char>| m != host_parts(hostname@).0;
    let mut r: Vec<MemberLink> = Vec::new();
    proof {
        reveal(Seq::filter);
        assert(members.take(0).filter(not_me) =~= Seq::<Seq<char>>::empty());
    }
    for i in 0..3usize
        invariant
            members == all_members(),
            not_me == (|m: Seq<char>| m != host_parts(hostname@).0),
            me@ == host_parts(hostname@).0,
            domain@ == host_parts(hostname@).1,
            all_targets@.len() == 3,
            forall|j: int| 0 <= j < 3 ==> (#[trigger] all_targets@[j])@ == members[j],
            r@.len() == members.take(i as int).filter(not_me).len(),
            forall|k: int|
                0 <= k < r@.len() ==> links_to(
                    #[trigger] r@[k],
                    members.take(i as int).filter(not_me)[k],
                    hostname@,
                    path@,
                    session_key,
                ),
    {
        let t = all_targets[i];
        let ghost before = r@;
        proof {
            reveal(Seq::filter);
            assert(members.take(i as int + 1).drop_last() =~= members.take(i as int));
            assert(t@ == members[i as int]);
        }
        if t.to_owned() != me {
            r.push(member_link(t, domain.as_str(), path, session_key));
        }
        assert forall|k: int| 0 <= k < r@.len() implies links_to(
            #[trigger] r@[k],
            members.take(i as int + 1).filter(not_me)[k],
            hostname@,
            path@,
            session_key,
        ) by {
            if k < before.len() {
                assert(r@[k] == before[k]);
            }
        }
    }
    assert(members.take(3) =~= members);
    r
}

} // verus!
