//! What holds of the nodes of a cluster together.
//!
//! A cluster is modelled as its nodes, the messages that were ever sent between them,
//! and a record of its elections. Messages may get lost, arrive late, more than once
//! and in any order; nodes may stop and start again with what they stored.

pub mod completeness;

use super::laws::{
    law_calls_carry_the_log, law_candidate_counts, law_entries_taken, law_leader_only_appends,
    law_leader_was_elected, law_log_changes, law_one_vote_per_term, law_same_member,
    law_term_never_falls, law_vote_is_stored,
};
use super::node::{Effects, Event, RaftWorkerState, Settled};
use super::storage::{after_term, entry_at, numbered, term_at};
use super::worker::{
    accepts_entries, batch, entries_request, fits, has_previous, last_entry_of,
    known_commit, lemma_consecutive_mergeable, merged, merged_one, quorum_of, state_after, RaftWorkerInner,
};
use super::{
    AppendEntriesResponse, AppendEntriesView, LogEntry, LogIndex, NodeId, RequestVoteRequest,
    RpcRequest, RpcResponse, State, TermIndex,
};
use vstd::prelude::*;
use vstd::set_lib::{lemma_len_subset, lemma_set_disjoint_lens};

verus! {

/// Whether two logs have the same first `n` entries.
pub open spec fn agree<T>(a: Seq<LogEntry<T>>, b: Seq<LogEntry<T>>, n: int) -> bool {
    &&& 0 <= n <= a.len()
    &&& n <= b.len()
    &&& forall|i: int| 0 <= i < n ==> a[i] == #[trigger] b[i]
}

/// Whether each entry of the log came, together with all before it, from the leader of
/// the entry's term.
pub open spec fn backed<T>(
    log: Seq<LogEntry<T>>,
    chronicle: Map<TermIndex, Seq<LogEntry<T>>>,
) -> bool {
    forall|k: int|
        #![trigger log[k]]
        0 <= k < log.len() ==> {
            &&& chronicle.contains_key(log[k].term)
            &&& agree(log, chronicle[log[k].term], k + 1)
        }
}

/// Logs that have entries of one term at one index agree up to that index.
proof fn lemma_backed_agree<T>(
    a: Seq<LogEntry<T>>,
    b: Seq<LogEntry<T>>,
    chronicle: Map<TermIndex, Seq<LogEntry<T>>>,
    k: int,
)
    requires
        backed(a, chronicle),
        backed(b, chronicle),
        0 <= k < a.len(),
        k < b.len(),
        a[k].term == b[k].term,
    ensures
        agree(a, b, k + 1),
{
    let c = chronicle[a[k].term];
    assert(agree(a, c, k + 1));
    assert(agree(b, c, k + 1));
    assert forall|i: int| 0 <= i < k + 1 implies a[i] == #[trigger] b[i] by {
        assert(a[i] == c[i]);
        assert(b[i] == c[i]);
    }
}

proof fn lemma_backed_prefix<T>(
    log: Seq<LogEntry<T>>,
    chronicle: Map<TermIndex, Seq<LogEntry<T>>>,
    n: int,
)
    requires
        backed(log, chronicle),
        0 <= n <= log.len(),
    ensures
        backed(log.take(n), chronicle),
{
    let s = log.take(n);
    assert forall|k: int| #![trigger s[k]] 0 <= k < s.len() implies {
        &&& chronicle.contains_key(s[k].term)
        &&& agree(s, chronicle[s[k].term], k + 1)
    } by {
        assert(s[k] == log[k]);
        let c = chronicle[log[k].term];
        assert(agree(log, c, k + 1));
        assert forall|i: int| 0 <= i < k + 1 implies s[i] == #[trigger] c[i] by {
            assert(log[i] == c[i]);
        }
    }
}

/// What becomes of a log that takes over entries of a leader's log: it was there
/// already, or the log now is the leader's up to the last of them.
proof fn lemma_taken_over<T>(
    log: Seq<LogEntry<T>>,
    led: Seq<LogEntry<T>>,
    chronicle: Map<TermIndex, Seq<LogEntry<T>>>,
    prev: int,
    entries: Seq<LogEntry<T>>,
)
    requires
        backed(log, chronicle),
        backed(led, chronicle),
        numbered(led),
        0 <= prev,
        prev + entries.len() <= led.len(),
        entries == led.subrange(prev, prev + entries.len()),
        agree(log, led, prev),
    ensures
        ({
            let end = prev + entries.len();
            ||| merged(log, entries) == log && agree(log, led, end)
            ||| merged(log, entries) == led.take(end) && !agree(log, led, end)
        }),
    decreases entries.len(),
{
    if entries.len() > 0 {
        let init = entries.drop_last();
        let mid = prev + init.len();
        assert(init =~= led.subrange(prev, mid));
        lemma_taken_over(log, led, chronicle, prev, init);
        let now = merged(log, init);
        let e = entries.last();
        assert(e == led[mid]);
        assert(e.idx == mid + 1);
        assert(now.len() >= mid);
        assert(now.take(mid) =~= led.take(mid));
        if now.len() > mid {
            assert(now == log);
            if log[mid].term == e.term {
                lemma_backed_agree(log, led, chronicle, mid);
            } else {
                assert(merged_one(now, e) =~= led.take(mid + 1));
            }
        } else {
            assert(now =~= led.take(mid));
            assert(merged_one(now, e) =~= led.take(mid + 1));
        }
    }
}

/// A log that has the entry before a leader's entries agrees with the leader up to
/// there.
proof fn lemma_previous_agrees<T>(
    log: Seq<LogEntry<T>>,
    led: Seq<LogEntry<T>>,
    chronicle: Map<TermIndex, Seq<LogEntry<T>>>,
    prev: LogIndex,
)
    requires
        backed(log, chronicle),
        backed(led, chronicle),
        prev <= led.len(),
        has_previous(log, prev, term_at(led, prev as int)),
    ensures
        agree(log, led, prev as int),
{
    if prev > 0 {
        lemma_backed_agree(log, led, chronicle, prev - 1);
    }
}

/// Entries that a leader sent, and the last index that an answer speaks for.
pub type SentEntries<T> = (LogIndex, AppendEntriesView<T>);

/// What a node answered to a leader's entries.
pub type Answer<T> = (NodeId, AppendEntriesView<T>, AppendEntriesResponse);

/// A vote that a node gave in answer to a request.
pub type Ballot = (NodeId, RequestVoteRequest);

pub struct Cluster<M: State, C, R> {
    pub nodes: Map<NodeId, RaftWorkerState<M, C, R>>,
    /// The state machine that every node starts with.
    pub initial: M::V,
    /// The requests for votes that were ever sent.
    pub campaigns: Set<RequestVoteRequest>,
    /// The votes that were ever given.
    pub ballots: Set<Ballot>,
    /// The logs of the voters when they gave their votes, for the votes that were given
    /// before their term had a leader.
    pub voter_logs: Map<Ballot, Seq<LogEntry<M::Command>>>,
    /// Whose votes the candidates have counted in their current elections.
    pub counted: Map<NodeId, Set<NodeId>>,
    /// The entries that were ever sent.
    pub sent: Set<SentEntries<M::Command>>,
    /// The answers that were ever given to them.
    pub answers: Set<Answer<M::Command>>,
    /// The leader of each term that had one.
    pub elected: Map<TermIndex, NodeId>,
    /// The log of the leader of each term, as it was when it last led.
    pub chronicle: Map<TermIndex, Seq<LogEntry<M::Command>>>,
    /// How much of it the leader of each term has committed.
    pub committed: Map<TermIndex, LogIndex>,
}

/// One thing that happens in a cluster.
pub enum Move<M: State, C, R> {
    /// A node reacts to an event. For a vote, `ballot` is the vote; for an answer to
    /// entries, `about` are the entries; for entries, `last` is what they were sent
    /// with.
    React {
        node: NodeId,
        ev: Event<M, C, R>,
        post: RaftWorkerState<M, C, R>,
        eff: Effects<M, C, R>,
        ballot: Ballot,
        about: AppendEntriesView<M::Command>,
        last: LogIndex,
    },
    /// A node commits and applies what is due.
    Settle { node: NodeId, post: RaftWorkerState<M, C, R>, settled: Settled<M, C, R> },
    /// A node starts again with what it stored.
    Restart { node: NodeId, post: RaftWorkerState<M, C, R> },
    /// A node loses a connection or gets it back.
    Reconnect { node: NodeId, post: RaftWorkerState<M, C, R> },
}

impl<M: State, C, R> Move<M, C, R> {
    pub open spec fn node(&self) -> NodeId {
        match *self {
            Move::React { node, .. } => node,
            Move::Settle { node, .. } => node,
            Move::Restart { node, .. } => node,
            Move::Reconnect { node, .. } => node,
        }
    }

    pub open spec fn post(&self) -> RaftWorkerState<M, C, R> {
        match *self {
            Move::React { post, .. } => post,
            Move::Settle { post, .. } => post,
            Move::Restart { post, .. } => post,
            Move::Reconnect { post, .. } => post,
        }
    }
}

impl<M: State, C, R> Cluster<M, C, R> {
    /// Whether the event can reach the node: a message must have been sent, a vote
    /// must have been given in the node's current election and not be counted yet.
    pub open spec fn reaches(
        &self,
        node: NodeId,
        ev: Event<M, C, R>,
        ballot: Ballot,
        about: AppendEntriesView<M::Command>,
        last: LogIndex,
    ) -> bool {
        match ev {
            Event::Rpc(RpcRequest::RequestVote(q), _) => self.campaigns.contains(q),
            Event::Rpc(RpcRequest::AppendEntries(q), _) => self.sent.contains((last, q@)),
            Event::Vote => {
                &&& self.ballots.contains(ballot)
                &&& ballot.1.candidate == node
                &&& ballot.1.term == self.nodes[node].stored().term
                &&& !self.counted[node].contains(ballot.0)
            },
            Event::Response(peer, idx, Ok(RpcResponse::AppendEntries(resp))) => {
                &&& self.sent.contains((idx, about))
                &&& self.answers.contains((peer, about, resp))
            },
            _ => true,
        }
    }

    /// The entries that the effects send.
    pub open spec fn sends(eff: Effects<M, C, R>) -> Set<SentEntries<M::Command>> {
        Set::new(
            |x: SentEntries<M::Command>|
                exists|k: int|
                    0 <= k < eff.calls@.len() && x == (
                        (#[trigger] eff.calls@[k]).last_entry,
                        eff.calls@[k].req@,
                    ),
        )
    }

    /// The cluster after a node reacted to an event.
    pub open spec fn reacted(
        self,
        node: NodeId,
        ev: Event<M, C, R>,
        post: RaftWorkerState<M, C, R>,
        eff: Effects<M, C, R>,
        ballot: Ballot,
    ) -> Self {
        let campaigns = match eff.vote_request {
            Some((_, req)) => self.campaigns.insert(req),
            None => self.campaigns,
        };
        let vote = match eff.vote_request {
            Some((_, req)) => Some(req),
            None => if eff.grants() {
                ev.campaign()
            } else {
                None
            },
        };
        let ballots = match vote {
            Some(q) => self.ballots.insert((node, q)),
            None => self.ballots,
        };
        let voter_logs = match vote {
            Some(q) => if self.voter_logs.contains_key((node, q)) || self.elected.contains_key(
                q.term,
            ) {
                self.voter_logs
            } else {
                self.voter_logs.insert((node, q), self.nodes[node].stored().log)
            },
            None => self.voter_logs,
        };
        let counted = if eff.vote_request is Some {
            self.counted.insert(node, Set::empty().insert(node))
        } else if ev is Vote {
            self.counted.insert(node, self.counted[node].insert(ballot.0))
        } else {
            self.counted
        };
        let answers = match ev.entries() {
            Some(q) => self.answers.insert((node, q, eff.verdict())),
            None => self.answers,
        };
        let term = post.stored().term;
        Cluster {
            nodes: self.nodes.insert(node, post),
            initial: self.initial,
            campaigns,
            ballots,
            voter_logs,
            counted,
            sent: self.sent.union(Self::sends(eff)),
            answers,
            elected: if post is Leader {
                self.elected.insert(term, node)
            } else {
                self.elected
            },
            chronicle: if post is Leader {
                self.chronicle.insert(term, post.stored().log)
            } else {
                self.chronicle
            },
            committed: if post is Leader && !self.committed.contains_key(term) {
                self.committed.insert(term, 0)
            } else {
                self.committed
            },
        }
    }

    /// Whether the cluster moves on to `next`.
    pub open spec fn moves(self, mv: Move<M, C, R>, next: Self) -> bool {
        let pre = self.nodes[mv.node()];
        &&& self.nodes.contains_key(mv.node())
        &&& mv.post().wf()
        &&& match mv {
            Move::React { node, ev, post, eff, ballot, about, last } => {
                &&& self.reaches(node, ev, ballot, about, last)
                &&& pre.takes(ev)
                &&& pre.steps(ev, post, eff)
                &&& next == self.reacted(node, ev, post, eff, ballot)
            },
            Move::Settle { node, post, settled } => {
                &&& pre.settles(post, settled)
                &&& next == (Cluster {
                    nodes: self.nodes.insert(node, post),
                    committed: if post is Leader && post.inner().commit_index
                        > pre.inner().commit_index {
                        self.committed.insert(post.stored().term, post.inner().commit_index)
                    } else {
                        self.committed
                    },
                    ..self
                })
            },
            Move::Restart { node, post } => {
                &&& post is Follower
                &&& post.same_member(pre)
                &&& post.stored() == pre.stored()
                &&& post.inner().commit_index == 0
                &&& post.inner().last_applied == 0
                &&& post.inner().current_state@ == self.initial
                &&& next == (Cluster { nodes: self.nodes.insert(node, post), ..self })
            },
            Move::Reconnect { node, post } => {
                &&& match (pre, post) {
                    (RaftWorkerState::Follower(_), RaftWorkerState::Follower(_)) => true,
                    (RaftWorkerState::Candidate(a), RaftWorkerState::Candidate(b)) => a.state
                        == b.state,
                    (RaftWorkerState::Leader(a), RaftWorkerState::Leader(b)) => a.state == b.state,
                    _ => false,
                }
                &&& post.inner() == (RaftWorkerInner {
                    peer_clients: post.inner().peer_clients,
                    ..pre.inner()
                })
                &&& next == (Cluster { nodes: self.nodes.insert(node, post), ..self })
            },
        }
    }

    /// Whether the nodes know who they are and who the others are.
    pub open spec fn introduced(&self) -> bool {
        &&& self.nodes.dom().finite()
        &&& forall|i: NodeId| #[trigger] self.nodes.contains_key(i) ==> self.knows_itself(i)
    }

    pub open spec fn knows_itself(&self, i: NodeId) -> bool {
        let inner = self.nodes[i].inner();
        &&& self.nodes[i].wf()
        &&& inner.node_id == i
        &&& inner.cluster_size == self.nodes.dom().len()
        &&& inner.peers@.to_set() == self.nodes.dom().remove(i)
    }

    /// Whether the cluster has just started for the first time.
    pub open spec fn starts(&self) -> bool {
        &&& self.introduced()
        &&& forall|i: NodeId| #[trigger] self.nodes.contains_key(i) ==> self.is_fresh(i)
        &&& self.campaigns == Set::<RequestVoteRequest>::empty()
        &&& self.ballots == Set::<Ballot>::empty()
        &&& self.voter_logs == Map::<Ballot, Seq<LogEntry<M::Command>>>::empty()
        &&& self.counted == Map::<NodeId, Set<NodeId>>::empty()
        &&& self.sent == Set::<SentEntries<M::Command>>::empty()
        &&& self.answers == Set::<Answer<M::Command>>::empty()
        &&& self.elected == Map::<TermIndex, NodeId>::empty()
        &&& self.chronicle == Map::<TermIndex, Seq<LogEntry<M::Command>>>::empty()
        &&& self.committed == Map::<TermIndex, LogIndex>::empty()
    }

    pub open spec fn is_fresh(&self, i: NodeId) -> bool {
        let node = self.nodes[i];
        &&& node is Follower
        &&& node.stored().log.len() == 0
        &&& node.inner().commit_index == 0
        &&& node.inner().last_applied == 0
        &&& node.inner().current_state@ == self.initial
    }
}

/// Whether `h` is what a cluster goes through, from its first start on, by the moves
/// `ms`.
pub open spec fn is_history<M: State, C, R>(
    h: Seq<Cluster<M, C, R>>,
    ms: Seq<Move<M, C, R>>,
) -> bool {
    &&& h.len() == ms.len() + 1
    &&& h[0].starts()
    &&& forall|k: int| 0 <= k < ms.len() ==> h[k].moves(#[trigger] ms[k], h[k + 1])
}

impl<M: State, C, R> Cluster<M, C, R> {
    /// Whether node `v` voted for `candidate` in `term`.
    pub open spec fn voted(&self, v: NodeId, candidate: NodeId, term: TermIndex) -> bool {
        exists|q: RequestVoteRequest| #[trigger]
            self.ballots.contains((v, q)) && q.term == term && q.candidate == candidate
    }

    /// Votes are in the storage of those who gave them, unless they went on to a later
    /// term; and nobody gave two candidates of a term a vote.
    spec fn votes_kept(&self) -> bool {
        &&& forall|v: NodeId, q: RequestVoteRequest| #[trigger]
            self.ballots.contains((v, q)) ==> {
                &&& self.nodes.contains_key(v)
                &&& {
                    ||| self.nodes[v].stored().term > q.term
                    ||| {
                        &&& self.nodes[v].stored().term == q.term
                        &&& self.nodes[v].stored().voted_for == Some(q.candidate)
                    }
                }
            }
        &&& forall|v: NodeId, q: RequestVoteRequest, w: RequestVoteRequest|
            #![trigger self.ballots.contains((v, q)), self.ballots.contains((v, w))]
            self.ballots.contains((v, q)) && self.ballots.contains((v, w)) && q.term == w.term
                ==> q.candidate == w.candidate
    }

    /// What a candidate counts are votes for it.
    spec fn counts_votes(&self) -> bool {
        forall|i: NodeId| #[trigger]
            self.nodes.contains_key(i) && self.nodes[i] is Candidate ==> self.counts(i)
    }

    spec fn counts(&self, i: NodeId) -> bool {
        &&& self.counted.contains_key(i)
        &&& self.counted[i].finite()
        &&& self.counted[i].len() == (self.nodes[i]->Candidate_0).state.votes
        &&& forall|v: NodeId| #[trigger]
            self.counted[i].contains(v) ==> self.voted(v, i, self.nodes[i].stored().term)
    }

    /// The leader of each term had the votes of a majority.
    spec fn elected_rightly(&self) -> bool {
        &&& forall|t: TermIndex| #[trigger] self.elected.contains_key(t) ==> self.won(t)
        &&& forall|i: NodeId| #[trigger]
            self.nodes.contains_key(i) && self.nodes[i] is Leader ==> self.leads(i)
    }

    spec fn won(&self, t: TermIndex) -> bool {
        let l = self.elected[t];
        &&& self.nodes.contains_key(l)
        &&& self.nodes[l].stored().term >= t
        &&& self.nodes[l].stored().term == t ==> !(self.nodes[l] is Candidate)
        &&& exists|voters: Set<NodeId>| #[trigger] self.is_majority_for(voters, l, t)
    }

    spec fn is_majority_for(&self, voters: Set<NodeId>, l: NodeId, t: TermIndex) -> bool {
        &&& voters.finite()
        &&& 2 * voters.len() > self.nodes.dom().len()
        &&& forall|v: NodeId| #[trigger] voters.contains(v) ==> self.voted(v, l, t)
    }

    spec fn leads(&self, i: NodeId) -> bool {
        let t = self.nodes[i].stored().term;
        self.elected.contains_key(t) && self.elected[t] == i
    }

    spec fn elections_ok(&self) -> bool {
        &&& self.introduced()
        &&& self.votes_kept()
        &&& self.counts_votes()
        &&& self.elected_rightly()
    }
}

/// Two majorities of one cluster have a member in common.
pub proof fn law_majorities_meet(all: Set<NodeId>, a: Set<NodeId>, b: Set<NodeId>)
    requires
        all.finite(),
        a.subset_of(all),
        b.subset_of(all),
        2 * a.len() > all.len(),
        2 * b.len() > all.len(),
    ensures
        exists|v: NodeId| a.contains(v) && b.contains(v),
{
    lemma_len_subset(a, all);
    lemma_len_subset(b, all);
    if a.disjoint(b) {
        lemma_set_disjoint_lens(a, b);
        lemma_len_subset(a + b, all);
    }
}

impl<M: State, C, R> Cluster<M, C, R> {
    proof fn lemma_elections_start(self)
        requires
            self.starts(),
        ensures
            self.elections_ok(),
    {
        assert forall|i: NodeId| #[trigger]
            self.nodes.contains_key(i) implies self.nodes[i] is Follower by {
            assert(self.is_fresh(i));
        }
    }

    proof fn lemma_introduced(self, mv: Move<M, C, R>, next: Self)
        requires
            self.introduced(),
            self.moves(mv, next),
        ensures
            next.introduced(),
            next.nodes.dom() == self.nodes.dom(),
    {
        assert(self.knows_itself(mv.node()));
        let pre = self.nodes[mv.node()];
        if let Move::React { node, ev, post, eff, ballot, about, last } = mv {
            law_same_member(pre, ev, post, eff);
        }
        assert(mv.post().same_member(pre));
        assert(next.nodes.dom() =~= self.nodes.dom());
        assert forall|i: NodeId| #[trigger] next.nodes.contains_key(i) implies next.knows_itself(
            i,
        ) by {
            assert(self.nodes.contains_key(i));
            assert(self.knows_itself(i));
        }
    }

    proof fn lemma_votes_kept(self, mv: Move<M, C, R>, next: Self)
        requires
            self.introduced(),
            self.votes_kept(),
            self.moves(mv, next),
        ensures
            next.votes_kept(),
            self.ballots.subset_of(next.ballots),
    {
        let i = mv.node();
        let pre = self.nodes[i];
        let post = mv.post();
        assert(self.knows_itself(i));
        if let Move::React { node, ev, post, eff, ballot, about, last } = mv {
            law_term_never_falls(pre, ev, post, eff);
            law_candidate_counts(pre, ev, post, eff);
            if post.stored().term == pre.stored().term && pre.stored().voted_for is Some {
                law_one_vote_per_term(pre, ev, post, eff);
            }
            if eff.grants() {
                law_vote_is_stored(pre, ev, post, eff);
            }
        }
        assert(pre.stored().term <= post.stored().term);
        assert(post.stored().term == pre.stored().term && pre.stored().voted_for is Some
            ==> post.stored().voted_for == pre.stored().voted_for);
        assert forall|v: NodeId, q: RequestVoteRequest| #[trigger]
            next.ballots.contains((v, q)) implies {
            &&& next.nodes.contains_key(v)
            &&& {
                ||| next.nodes[v].stored().term > q.term
                ||| {
                    &&& next.nodes[v].stored().term == q.term
                    &&& next.nodes[v].stored().voted_for == Some(q.candidate)
                }
            }
        } by {
            if self.ballots.contains((v, q)) {
            } else {
                assert(v == i);
            }
        }
        assert forall|v: NodeId, q: RequestVoteRequest, w: RequestVoteRequest|
            #![trigger next.ballots.contains((v, q)), next.ballots.contains((v, w))]
            next.ballots.contains((v, q)) && next.ballots.contains((v, w)) && q.term
                == w.term implies q.candidate == w.candidate by {
            assert(self.ballots.contains((v, q)) || v == i);
            assert(self.ballots.contains((v, w)) || v == i);
        }
    }

    proof fn lemma_voted_kept(self, next: Self, v: NodeId, candidate: NodeId, term: TermIndex)
        requires
            self.ballots.subset_of(next.ballots),
            self.voted(v, candidate, term),
        ensures
            next.voted(v, candidate, term),
    {
        let q = choose|q: RequestVoteRequest| #[trigger]
            self.ballots.contains((v, q)) && q.term == term && q.candidate == candidate;
        assert(next.ballots.contains((v, q)));
    }

    proof fn lemma_counts_votes(self, mv: Move<M, C, R>, next: Self)
        requires
            self.introduced(),
            self.votes_kept(),
            self.counts_votes(),
            self.moves(mv, next),
        ensures
            next.counts_votes(),
    {
        let n = mv.node();
        let pre = self.nodes[n];
        let post = mv.post();
        assert(self.knows_itself(n));
        self.lemma_votes_kept(mv, next);
        assert forall|i: NodeId| #[trigger]
            next.nodes.contains_key(i) && next.nodes[i] is Candidate implies next.counts(i) by {
            assert(self.nodes.contains_key(i));
            if i != n {
                assert(self.counts(i));
                assert(next.counted[i] == self.counted[i]);
            } else {
                if let Move::React { node, ev, post, eff, ballot, about, last } = mv {
                    law_candidate_counts(pre, ev, post, eff);
                    if eff.vote_request is Some {
                        let req = (eff.vote_request->0).1;
                        assert(next.ballots.contains((n, req)));
                        assert(next.voted(n, n, post.stored().term));
                    } else {
                        assert(self.counts(n));
                        if ev is Vote {
                            assert(self.voted(ballot.0, n, pre.stored().term));
                        }
                    }
                } else {
                    assert(self.counts(n));
                }
            }
            assert forall|v: NodeId| #[trigger] next.counted[i].contains(v) implies next.voted(
                v,
                i,
                next.nodes[i].stored().term,
            ) by {
                if self.voted(v, i, next.nodes[i].stored().term) {
                    self.lemma_voted_kept(next, v, i, next.nodes[i].stored().term);
                }
            }
        }
    }

    /// A node that wins an election is the first leader of its term.
    proof fn lemma_first_leader(self, n: NodeId, voter: NodeId)
        requires
            self.elections_ok(),
            self.nodes.contains_key(n),
            self.nodes[n] is Candidate,
            self.voted(voter, n, self.nodes[n].stored().term),
            !self.counted[n].contains(voter),
            (self.nodes[n]->Candidate_0).state.votes + 1 >= quorum_of(
                self.nodes[n].inner().cluster_size,
            ),
        ensures
            !self.elected.contains_key(self.nodes[n].stored().term),
            self.is_majority_for(
                self.counted[n].insert(voter),
                n,
                self.nodes[n].stored().term,
            ),
    {
        let t = self.nodes[n].stored().term;
        assert(self.knows_itself(n));
        assert(self.counts(n));
        let mine = self.counted[n].insert(voter);
        assert(self.is_majority_for(mine, n, t));
        if self.elected.contains_key(t) {
            assert(self.won(t));
            let l = self.elected[t];
            let theirs = choose|voters: Set<NodeId>| #[trigger] self.is_majority_for(voters, l, t);
            self.lemma_voters_are_members(mine, n, t);
            self.lemma_voters_are_members(theirs, l, t);
            law_majorities_meet(self.nodes.dom(), mine, theirs);
            let v = choose|v: NodeId| mine.contains(v) && theirs.contains(v);
            assert(self.voted(v, n, t));
            assert(self.voted(v, l, t));
            let q = choose|q: RequestVoteRequest| #[trigger]
                self.ballots.contains((v, q)) && q.term == t && q.candidate == n;
            let w = choose|w: RequestVoteRequest| #[trigger]
                self.ballots.contains((v, w)) && w.term == t && w.candidate == l;
            assert(self.ballots.contains((v, q)) && self.ballots.contains((v, w)));
        }
    }

    proof fn lemma_voters_are_members(self, voters: Set<NodeId>, l: NodeId, t: TermIndex)
        requires
            self.votes_kept(),
            self.is_majority_for(voters, l, t),
        ensures
            voters.subset_of(self.nodes.dom()),
    {
        assert forall|v: NodeId| voters.contains(v) implies self.nodes.dom().contains(v) by {
            assert(self.voted(v, l, t));
            let q = choose|q: RequestVoteRequest| #[trigger]
                self.ballots.contains((v, q)) && q.term == t && q.candidate == l;
            assert(self.ballots.contains((v, q)));
        }
    }

    proof fn lemma_majority_kept(self, next: Self, voters: Set<NodeId>, l: NodeId, t: TermIndex)
        requires
            self.ballots.subset_of(next.ballots),
            self.nodes.dom() == next.nodes.dom(),
            self.is_majority_for(voters, l, t),
        ensures
            next.is_majority_for(voters, l, t),
    {
        assert forall|v: NodeId| #[trigger] voters.contains(v) implies next.voted(v, l, t) by {
            self.lemma_voted_kept(next, v, l, t);
        }
    }

    /// The leaders of a term stay what they are: a move adds at most the first leader
    /// of a term.
    proof fn lemma_elected(self, mv: Move<M, C, R>, next: Self)
        requires
            self.elections_ok(),
            self.moves(mv, next),
        ensures
            next.elections_ok(),
            self.elected.submap_of(next.elected),
            next.elected.dom() == self.elected.dom() || (mv.post() is Leader && next.elected.dom()
                == self.elected.dom().insert(mv.post().stored().term)
                && !self.elected.contains_key(mv.post().stored().term)
                && !(self.nodes[mv.node()] is Leader)),
            self.nodes[mv.node()] is Leader ==> self.elected.contains_key(
                self.nodes[mv.node()].stored().term,
            ) && self.elected[self.nodes[mv.node()].stored().term] == mv.node(),
    {
        let n = mv.node();
        let pre = self.nodes[n];
        let post = mv.post();
        let t = post.stored().term;
        self.lemma_introduced(mv, next);
        self.lemma_votes_kept(mv, next);
        self.lemma_counts_votes(mv, next);
        assert(self.knows_itself(n));
        if pre is Leader {
            assert(self.leads(n));
        }
        let ghost wins = false;
        if let Move::React { node, ev, post, eff, ballot, about, last } = mv {
            law_term_never_falls(pre, ev, post, eff);
            law_candidate_counts(pre, ev, post, eff);
            if post is Leader {
                if pre is Leader {
                    law_leader_only_appends(pre, ev, post, eff);
                    assert(next.elected =~= self.elected);
                } else {
                    law_leader_was_elected(pre, ev, post, eff);
                    assert(self.voted(ballot.0, n, pre.stored().term));
                    self.lemma_first_leader(n, ballot.0);
                    self.lemma_majority_kept(next, self.counted[n].insert(ballot.0), n, t);
                }
            }
        } else {
            assert(next.elected == self.elected);
        }
        assert forall|u: TermIndex| #[trigger] next.elected.contains_key(u) implies next.won(u) by {
            if self.elected.contains_key(u) {
                assert(self.won(u));
                let l = self.elected[u];
                assert(next.elected[u] == l);
                let voters = choose|voters: Set<NodeId>| #[trigger]
                    self.is_majority_for(voters, l, u);
                self.lemma_majority_kept(next, voters, l, u);
            }
        }
        assert forall|i: NodeId| #[trigger]
            next.nodes.contains_key(i) && next.nodes[i] is Leader implies next.leads(i) by {
            if i != n {
                assert(self.nodes.contains_key(i));
                assert(self.leads(i));
            }
        }
    }
}

/// Whether every leader's log in `a` is a prefix of what it is in `b`.
spec fn grown<T>(
    a: Map<TermIndex, Seq<LogEntry<T>>>,
    b: Map<TermIndex, Seq<LogEntry<T>>>,
) -> bool {
    forall|t: TermIndex| #[trigger]
        a.contains_key(t) ==> b.contains_key(t) && agree(a[t], b[t], a[t].len() as int)
}

proof fn lemma_backed_grown<T>(
    log: Seq<LogEntry<T>>,
    a: Map<TermIndex, Seq<LogEntry<T>>>,
    b: Map<TermIndex, Seq<LogEntry<T>>>,
)
    requires
        backed(log, a),
        grown(a, b),
    ensures
        backed(log, b),
{
    assert forall|k: int| #![trigger log[k]] 0 <= k < log.len() implies {
        &&& b.contains_key(log[k].term)
        &&& agree(log, b[log[k].term], k + 1)
    } by {
        let t = log[k].term;
        assert(a.contains_key(t));
        assert(agree(log, a[t], k + 1));
        assert forall|i: int| 0 <= i < k + 1 implies log[i] == #[trigger] b[t][i] by {
            assert(log[i] == a[t][i]);
        }
    }
}

impl<M: State, C, R> Cluster<M, C, R> {
    /// Every log consists of entries that the leaders of their terms logged, and so
    /// does what leaders sent.
    spec fn logs_ok(&self) -> bool {
        &&& self.chronicle.dom() == self.elected.dom()
        &&& forall|t: TermIndex| #[trigger]
            self.chronicle.contains_key(t) ==> backed(self.chronicle[t], self.chronicle)
                && numbered(self.chronicle[t])
        &&& forall|i: NodeId| #[trigger]
            self.nodes.contains_key(i) ==> backed(self.nodes[i].stored().log, self.chronicle)
        &&& forall|i: NodeId| #[trigger]
            self.nodes.contains_key(i) && self.nodes[i] is Leader
                ==> self.chronicle[self.nodes[i].stored().term] == self.nodes[i].stored().log
        &&& forall|x: SentEntries<M::Command>| #[trigger]
            self.sent.contains(x) ==> self.from_leader(x)
    }

    /// Whether the entries are those of their term's leader.
    spec fn from_leader(&self, x: SentEntries<M::Command>) -> bool {
        let q = x.1;
        let led = self.chronicle[q.term];
        let prev = q.prev_log_index as int;
        &&& self.chronicle.contains_key(q.term)
        &&& q.leader_id == self.elected[q.term]
        &&& prev + q.entries.len() <= led.len()
        &&& q.entries == led.subrange(prev, prev + q.entries.len())
        &&& q.prev_log_term == term_at(led, prev)
        &&& x.0 == prev + q.entries.len()
    }

    proof fn lemma_logs_start(self)
        requires
            self.starts(),
        ensures
            self.logs_ok(),
    {
        assert(self.chronicle.dom() =~= self.elected.dom());
        assert forall|i: NodeId| #[trigger] self.nodes.contains_key(i) implies backed(
            self.nodes[i].stored().log,
            self.chronicle,
        ) && self.nodes[i] is Follower by {
            assert(self.is_fresh(i));
        }
    }

    /// What becomes of the log of a node that takes entries from a leader.
    proof fn lemma_log_after_entries(
        self,
        n: NodeId,
        ev: Event<M, C, R>,
        post: RaftWorkerState<M, C, R>,
        eff: Effects<M, C, R>,
        last: LogIndex,
    )
        requires
            self.logs_ok(),
            self.nodes.contains_key(n),
            self.nodes[n].wf(),
            self.nodes[n].takes(ev),
            self.nodes[n].steps(ev, post, eff),
            ev.entries() is Some,
            self.sent.contains((last, ev.entries()->0)),
        ensures
            ({
                let q = ev.entries()->0;
                let log = self.nodes[n].stored().log;
                let led = self.chronicle[q.term];
                ||| !eff.verdict().success && post.stored().log == log
                    && post.inner().commit_index == self.nodes[n].inner().commit_index
                ||| {
                    &&& post is Follower
                    &&& eff.verdict().success
                    &&& eff.verdict().term == q.term
                    &&& post.stored().term == q.term
                    &&& {
                        ||| post.stored().log == log && agree(log, led, last as int)
                        ||| post.stored().log == led.take(last as int) && !agree(
                            log,
                            led,
                            last as int,
                        )
                    }
                    &&& post.inner().commit_index == if known_commit(q)
                        > self.nodes[n].inner().commit_index {
                        known_commit(q)
                    } else {
                        self.nodes[n].inner().commit_index
                    }
                    &&& known_commit(q) <= last
                }
            }),
    {
        let pre = self.nodes[n];
        let q = ev.entries()->0;
        law_entries_taken(pre, ev, post, eff);
        assert(self.from_leader((last, q)));
        let v = after_term(pre.stored(), q.term);
        if post is Follower && accepts_entries(v, q) {
            let led = self.chronicle[q.term];
            lemma_previous_agrees(v.log, led, self.chronicle, q.prev_log_index);
            lemma_taken_over(v.log, led, self.chronicle, q.prev_log_index as int, q.entries);
        }
    }

    proof fn lemma_sent(
        self,
        post: RaftWorkerState<M, C, R>,
        next: LogIndex,
        x: SentEntries<M::Command>,
    )
        requires
            post is Leader,
            post.wf(),
            self.chronicle.contains_key(post.stored().term),
            self.chronicle[post.stored().term] == post.stored().log,
            self.elected[post.stored().term] == post.inner().node_id,
            1 <= next <= post.stored().log.len() + 1,
            x.1 == entries_request(
                post.stored(),
                post.inner().node_id,
                post.inner().commit_index,
                next,
            ),
            x.0 == last_entry_of(post.stored().log, next),
        ensures
            self.from_leader(x),
    {
        let log = post.stored().log;
        let n = batch(log, next).len() as int;
        assert(batch(log, next) =~= log.subrange(next - 1, next - 1 + n));
    }

    proof fn lemma_logs(self, mv: Move<M, C, R>, next: Self)
        requires
            self.elections_ok(),
            self.logs_ok(),
            self.moves(mv, next),
        ensures
            next.logs_ok(),
            grown(self.chronicle, next.chronicle),
    {
        let n = mv.node();
        let pre = self.nodes[n];
        let post = mv.post();
        let t = post.stored().term;
        self.lemma_elected(mv, next);
        assert(self.knows_itself(n));
        assert(next.knows_itself(n)) by {
            assert(next.nodes.contains_key(n));
        }
        assert(next.chronicle.dom() =~= next.elected.dom());
        if let Move::React { node, ev, post, eff, ballot, about, last } = mv {
            if post is Leader {
                if pre is Leader {
                    law_leader_only_appends(pre, ev, post, eff);
                } else {
                    law_leader_was_elected(pre, ev, post, eff);
                    assert(next.elected.contains_key(t));
                    assert(!self.elected.contains_key(t));
                }
            }
        }
        assert(grown(self.chronicle, next.chronicle));
        assert(backed(post.stored().log, next.chronicle)) by {
            lemma_backed_grown(pre.stored().log, self.chronicle, next.chronicle);
            if let Move::React { node, ev, post, eff, ballot, about, last } = mv {
                if ev.entries() is Some {
                    self.lemma_log_after_entries(n, ev, post, eff, last);
                    let led = self.chronicle[(ev.entries()->0).term];
                    assert(self.from_leader((last, ev.entries()->0)));
                    lemma_backed_grown(led, self.chronicle, next.chronicle);
                    lemma_backed_prefix(led, next.chronicle, last as int);
                } else {
                    law_log_changes(pre, ev, post, eff);
                }
            }
        }
        assert forall|u: TermIndex| #[trigger] next.chronicle.contains_key(u) implies backed(
            next.chronicle[u],
            next.chronicle,
        ) && numbered(next.chronicle[u]) by {
            if self.chronicle.contains_key(u) {
                lemma_backed_grown(self.chronicle[u], self.chronicle, next.chronicle);
            }
        }
        assert forall|i: NodeId| #[trigger] next.nodes.contains_key(i) implies backed(
            next.nodes[i].stored().log,
            next.chronicle,
        ) by {
            if i != n {
                assert(self.nodes.contains_key(i));
                lemma_backed_grown(self.nodes[i].stored().log, self.chronicle, next.chronicle);
            }
        }
        assert forall|i: NodeId| #[trigger]
            next.nodes.contains_key(i)
                && next.nodes[i] is Leader implies next.chronicle[next.nodes[i].stored().term]
            == next.nodes[i].stored().log by {
            assert(self.nodes.contains_key(i));
            assert(next.leads(i));
            if i != n {
                assert(self.leads(i));
            }
        }
        assert forall|x: SentEntries<M::Command>| #[trigger]
            next.sent.contains(x) implies next.from_leader(x) by {
            if self.sent.contains(x) {
                assert(self.from_leader(x));
                let u = x.1.term;
                let led = self.chronicle[u];
                let prev = x.1.prev_log_index as int;
                let end = prev + x.1.entries.len();
                assert(agree(led, next.chronicle[u], led.len() as int));
                assert(next.chronicle[u].subrange(prev, end) =~= led.subrange(prev, end));
                assert(next.elected[u] == self.elected[u]);
            } else if let Move::React { node, ev, post, eff, ballot, about, last } = mv {
                let k = choose|k: int|
                    0 <= k < eff.calls@.len() && x == (
                        (#[trigger] eff.calls@[k]).last_entry,
                        eff.calls@[k].req@,
                    );
                law_calls_carry_the_log(pre, ev, post, eff, k);
                let at = choose|at: LogIndex|
                    1 <= at <= post.stored().log.len() + 1 && eff.calls@[k].req@
                        == #[trigger] entries_request(
                        post.stored(),
                        post.inner().node_id,
                        post.inner().commit_index,
                        at,
                    ) && eff.calls@[k].last_entry == last_entry_of(post.stored().log, at);
                assert(next.leads(n));
                next.lemma_sent(post, at, x);
            }
        }
    }
}

impl<M: State, C, R> Cluster<M, C, R> {
    /// Whether the leader of every later term has what the leader of an earlier term
    /// has committed.
    pub open spec fn leaders_complete(&self) -> bool {
        forall|a: TermIndex, b: TermIndex|
            #![trigger self.chronicle.contains_key(a), self.chronicle.contains_key(b)]
            self.chronicle.contains_key(a) && self.chronicle.contains_key(b) && a < b ==> agree(
                self.chronicle[a],
                self.chronicle[b],
                self.committed[a] as int,
            )
    }

    /// How much of a node's log is committed, as far as it goes.
    spec fn reach(&self, i: NodeId) -> int {
        let inner = self.nodes[i].inner();
        if inner.commit_index < inner.storage@.log.len() {
            inner.commit_index as int
        } else {
            inner.storage@.log.len() as int
        }
    }

    /// What a node takes for committed, the leader of some term up to its own has
    /// committed.
    spec fn commits_ok(&self) -> bool {
        &&& self.committed.dom() == self.elected.dom()
        &&& forall|t: TermIndex| #[trigger]
            self.committed.contains_key(t) ==> self.committed[t] <= self.chronicle[t].len()
        &&& forall|i: NodeId| #[trigger] self.nodes.contains_key(i) ==> self.covered(i)
        &&& forall|i: NodeId| #[trigger]
            self.nodes.contains_key(i) && self.nodes[i] is Leader
                ==> self.committed[self.nodes[i].stored().term]
                <= self.nodes[i].inner().commit_index
        &&& forall|x: SentEntries<M::Command>| #[trigger]
            self.sent.contains(x) ==> self.vouched(x.1.leader_commit, x.1.term)
        &&& forall|i: NodeId| #[trigger] self.nodes.contains_key(i) ==> self.applied_ok(i)
    }

    spec fn backs(&self, c: LogIndex, term: TermIndex, t: TermIndex) -> bool {
        self.committed.contains_key(t) && t <= term && c <= self.committed[t]
    }

    spec fn vouched(&self, c: LogIndex, term: TermIndex) -> bool {
        c == 0 || exists|t: TermIndex| #[trigger] self.backs(c, term, t)
    }

    spec fn covered(&self, i: NodeId) -> bool {
        let inner = self.nodes[i].inner();
        inner.commit_index == 0 || exists|t: TermIndex| #[trigger]
            self.backs(inner.commit_index, inner.storage@.term, t) && agree(
                inner.storage@.log,
                self.chronicle[t],
                self.reach(i),
            )
    }

    /// The state machine of a node is where the applied part of its log leads.
    spec fn applied_ok(&self, i: NodeId) -> bool {
        let inner = self.nodes[i].inner();
        &&& inner.last_applied <= self.reach(i)
        &&& inner.current_state@ == state_after::<M>(
            self.initial,
            inner.storage@.log.take(inner.last_applied as int),
        )
    }

    proof fn lemma_commits_start(self)
        requires
            self.starts(),
        ensures
            self.commits_ok(),
    {
        assert(self.committed.dom() =~= self.elected.dom());
        assert forall|i: NodeId| #[trigger] self.nodes.contains_key(i) implies self.covered(i)
            && self.applied_ok(i) && self.nodes[i] is Follower by {
            assert(self.is_fresh(i));
        }
    }
}

/// To run through entries in two parts leads where the whole leads.
proof fn lemma_state_after_concat<M: State>(
    state: M::V,
    a: Seq<LogEntry<M::Command>>,
    b: Seq<LogEntry<M::Command>>,
)
    ensures
        state_after::<M>(state, a + b) == state_after::<M>(state_after::<M>(state, a), b),
    decreases b.len(),
{
    if b.len() == 0 {
        assert(a + b =~= a);
    } else {
        assert((a + b).drop_last() =~= a + b.drop_last());
        lemma_state_after_concat::<M>(state, a, b.drop_last());
    }
}

/// Applying what is committed keeps the state machine where the applied part of the
/// log leads.
pub proof fn law_applied_in_order<M: State>(
    initial: M::V,
    pre: RaftWorkerInner<M>,
    post: RaftWorkerInner<M>,
    r: Result<(), LogIndex>,
)
    requires
        pre.wf(),
        post.applied_log(pre, r),
        pre.last_applied <= pre.storage@.log.len(),
        pre.current_state@ == state_after::<M>(
            initial,
            pre.storage@.log.take(pre.last_applied as int),
        ),
    ensures
        pre.last_applied <= post.last_applied <= post.storage@.log.len(),
        post.last_applied <= pre.last_applied || post.last_applied <= pre.commit_index,
        post.current_state@ == state_after::<M>(
            initial,
            post.storage@.log.take(post.last_applied as int),
        ),
{
    let entries = pre.unapplied();
    let n = match r {
        Ok(()) => entries.len() as int,
        Err(idx) => choose|n: int|
            {
                &&& #[trigger] post.applied_of(pre, n)
                &&& n < entries.len()
                &&& idx == entries[n].idx
                &&& !M::admits(post.current_state@, entries[n].cmd)
            },
    };
    assert(post.applied_of(pre, n));
    let log = pre.storage@.log;
    let from = pre.last_applied as int;
    assert(entries.take(n) =~= log.subrange(from, from + n));
    if n > 0 {
        assert(entries[n - 1] == log[from + n - 1]);
    }
    lemma_state_after_concat::<M>(initial, log.take(from), entries.take(n));
    assert(log.take(from) + entries.take(n) =~= log.take(from + n));
}

proof fn lemma_agree_through<T>(
    a: Seq<LogEntry<T>>,
    b: Seq<LogEntry<T>>,
    c: Seq<LogEntry<T>>,
    m: int,
    n: int,
    k: int,
)
    requires
        agree(a, b, m),
        agree(b, c, n),
        0 <= k <= m,
        k <= n,
    ensures
        agree(a, c, k),
{
    assert forall|i: int| 0 <= i < k implies a[i] == #[trigger] c[i] by {
        assert(a[i] == b[i]);
        assert(b[i] == c[i]);
    }
}

impl<M: State, C, R> Cluster<M, C, R> {
    /// The leader of a term has what a leader of a term up to that has committed.
    proof fn lemma_leader_has(self, c: LogIndex, term: TermIndex, t: TermIndex)
        requires
            self.elections_ok(),
            self.logs_ok(),
            self.commits_ok(),
            self.leaders_complete(),
            self.chronicle.contains_key(term),
            self.backs(c, term, t),
        ensures
            agree(self.chronicle[t], self.chronicle[term], c as int),
    {
        assert(self.chronicle.contains_key(t));
        if t < term {
            assert(agree(self.chronicle[t], self.chronicle[term], self.committed[t] as int));
        }
    }

    /// What vouched for a commit index goes on doing so.
    proof fn lemma_backs_kept(self, next: Self, c: LogIndex, term: TermIndex, t: TermIndex)
        requires
            self.backs(c, term, t),
            forall|u: TermIndex| #[trigger]
                self.committed.contains_key(u) ==> next.committed.contains_key(u)
                    && self.committed[u] <= next.committed[u],
        ensures
            next.backs(c, term, t),
    {
    }

    /// A node that takes entries keeps what it has committed and applied.
    proof fn lemma_commits_after_entries(
        self,
        n: NodeId,
        ev: Event<M, C, R>,
        post: RaftWorkerState<M, C, R>,
        eff: Effects<M, C, R>,
        last: LogIndex,
        mv: Move<M, C, R>,
        next: Self,
    )
        requires
            self.elections_ok(),
            self.logs_ok(),
            self.commits_ok(),
            self.leaders_complete(),
            self.moves(mv, next),
            mv matches Move::React { node: mn, ev: me, post: mp, eff: mf, last: ml, .. } && mn == n
                && me == ev && mp == post && mf == eff && ml == last,
            ev.entries() is Some,
            post is Follower,
            eff.verdict().success,
        ensures
            next.covered(n),
            next.applied_ok(n),
    {
        let q = ev.entries()->0;
        let pre = self.nodes[n];
        let log = pre.stored().log;
        let log2 = post.stored().log;
        let led = self.chronicle[q.term];
        let c = pre.inner().commit_index;
        let c2 = post.inner().commit_index;
        assert(self.knows_itself(n));
        self.lemma_log_after_entries(n, ev, post, eff, last);
        law_term_never_falls(pre, ev, post, eff);
        assert(self.from_leader((last, q)));
        assert(self.vouched(q.leader_commit, q.term));
        assert(next.chronicle == self.chronicle);
        assert(next.committed == self.committed);
        assert(next.nodes[n] == post);
        assert(self.covered(n));
        assert(self.applied_ok(n));
        let la = pre.inner().last_applied as int;
        // The log keeps its committed part.
        if c > 0 {
            let t = choose|t: TermIndex| #[trigger]
                self.backs(c, pre.stored().term, t) && agree(
                    log,
                    self.chronicle[t],
                    self.reach(n),
                );
            assert(self.backs(c, q.term, t));
            self.lemma_leader_has(c, q.term, t);
            lemma_agree_through(
                log,
                self.chronicle[t],
                led,
                self.reach(n),
                c as int,
                self.reach(n),
            );
            let k = if c < log2.len() {
                c as int
            } else {
                log2.len() as int
            };
            if log2 == log {
                assert(agree(log2, self.chronicle[t], k));
            } else {
                assert(log2 =~= led.take(last as int));
                assert forall|i: int| 0 <= i < k implies log2[i]
                    == #[trigger] self.chronicle[t][i] by {
                    assert(led[i] == self.chronicle[t][i]);
                }
                assert(agree(log2, self.chronicle[t], k));
                if la > last {
                    assert(agree(log, led, last as int));
                }
            }
            assert(la <= log2.len());
            assert(log2.take(la) =~= log.take(la));
            assert(next.backs(c, post.stored().term, t));
            if c2 == c {
                assert(next.reach(n) == k);
                assert(next.covered(n));
            }
        } else {
            assert(la == 0);
            assert(log2.take(0) =~= log.take(0));
        }
        if c2 != c {
            let t = choose|t: TermIndex| #[trigger] self.backs(q.leader_commit, q.term, t);
            assert(self.backs(c2, q.term, t));
            self.lemma_leader_has(c2, q.term, t);
            assert(agree(log2, led, last as int));
            let k = next.reach(n);
            assert(agree(log2, led, k));
            assert forall|i: int| 0 <= i < k implies log2[i]
                == #[trigger] self.chronicle[t][i] by {
                assert(log2[i] == led[i]);
                assert(self.chronicle[t][i] == led[i]);
            }
            assert(next.backs(c2, post.stored().term, t));
        }
    }

    proof fn lemma_commits(self, mv: Move<M, C, R>, next: Self)
        requires
            self.elections_ok(),
            self.logs_ok(),
            self.commits_ok(),
            self.leaders_complete(),
            self.moves(mv, next),
        ensures
            next.commits_ok(),
            forall|t: TermIndex| #[trigger]
                self.committed.contains_key(t) ==> next.committed.contains_key(t)
                    && self.committed[t] <= next.committed[t],
    {
        let n = mv.node();
        let pre = self.nodes[n];
        let post = mv.post();
        let term = post.stored().term;
        self.lemma_elected(mv, next);
        self.lemma_logs(mv, next);
        assert(self.knows_itself(n));
        assert(self.covered(n));
        assert(self.applied_ok(n));
        assert(next.committed.dom() =~= next.elected.dom());
        assert(pre is Leader ==> self.committed.contains_key(pre.stored().term));
        if let Move::Settle { node, post, settled } = mv {
            if post.inner().commit_index > pre.inner().commit_index {
                assert(pre is Leader);
                assert((pre->Leader_0).committable(post.inner().commit_index));
            }
        }
        if let Move::React { node, ev, post, eff, ballot, about, last } = mv {
            law_term_never_falls(pre, ev, post, eff);
            if pre is Leader && post is Leader {
                law_leader_only_appends(pre, ev, post, eff);
            }
            if ev.entries() is None {
                law_log_changes(pre, ev, post, eff);
            } else {
                self.lemma_log_after_entries(n, ev, post, eff, last);
            }
            if post is Leader && !(pre is Leader) {
                law_leader_was_elected(pre, ev, post, eff);
            }
        }
        assert forall|t: TermIndex| #[trigger] self.committed.contains_key(t) implies next.committed.contains_key(t)
            && self.committed[t] <= next.committed[t] by {}
        assert forall|t: TermIndex| #[trigger] next.committed.contains_key(t) implies next.committed[t]
            <= next.chronicle[t].len() by {
            if self.committed.contains_key(t) {
                assert(self.chronicle.contains_key(t));
                assert(next.chronicle.contains_key(t));
            }
        }
        assert(next.covered(n) && next.applied_ok(n)) by {
            self.lemma_commits_of_mover(mv, next);
        }
        assert forall|i: NodeId| #[trigger] next.nodes.contains_key(i) implies next.covered(i)
            && next.applied_ok(i) by {
            if i != n {
                assert(self.nodes.contains_key(i));
                assert(self.covered(i) && self.applied_ok(i));
                let inner = self.nodes[i].inner();
                assert(next.reach(i) == self.reach(i));
                if inner.commit_index > 0 {
                    let t = choose|t: TermIndex| #[trigger]
                        self.backs(inner.commit_index, inner.storage@.term, t) && agree(
                            inner.storage@.log,
                            self.chronicle[t],
                            self.reach(i),
                        );
                    self.lemma_backs_kept(next, inner.commit_index, inner.storage@.term, t);
                    assert(self.chronicle.contains_key(t));
                    lemma_agree_through(
                        inner.storage@.log,
                        self.chronicle[t],
                        next.chronicle[t],
                        self.reach(i),
                        self.chronicle[t].len() as int,
                        self.reach(i),
                    );
                }
            }
        }
        assert forall|i: NodeId| #[trigger]
            next.nodes.contains_key(i)
                && next.nodes[i] is Leader implies next.committed[next.nodes[i].stored().term]
            <= next.nodes[i].inner().commit_index by {
            assert(self.nodes.contains_key(i));
            assert(next.leads(i));
            if i != n {
                assert(self.leads(i));
                if post is Leader {
                    assert(next.leads(n));
                }
            }
        }
        assert forall|x: SentEntries<M::Command>| #[trigger]
            next.sent.contains(x) implies next.vouched(x.1.leader_commit, x.1.term) by {
            if self.sent.contains(x) {
                assert(self.vouched(x.1.leader_commit, x.1.term));
                if x.1.leader_commit > 0 {
                    let t = choose|t: TermIndex| #[trigger]
                        self.backs(x.1.leader_commit, x.1.term, t);
                    self.lemma_backs_kept(next, x.1.leader_commit, x.1.term, t);
                }
            } else if let Move::React { node, ev, post, eff, ballot, about, last } = mv {
                let k = choose|k: int|
                    0 <= k < eff.calls@.len() && x == (
                        (#[trigger] eff.calls@[k]).last_entry,
                        eff.calls@[k].req@,
                    );
                law_calls_carry_the_log(pre, ev, post, eff, k);
                assert(next.covered(n));
            }
        }
    }

    proof fn lemma_commits_of_mover(self, mv: Move<M, C, R>, next: Self)
        requires
            self.elections_ok(),
            self.logs_ok(),
            self.commits_ok(),
            self.leaders_complete(),
            self.moves(mv, next),
            grown(self.chronicle, next.chronicle),
            forall|t: TermIndex| #[trigger]
                self.committed.contains_key(t) ==> next.committed.contains_key(t)
                    && self.committed[t] <= next.committed[t],
        ensures
            next.covered(mv.node()),
            next.applied_ok(mv.node()),
    {
        let n = mv.node();
        let pre = self.nodes[n];
        let post = mv.post();
        let c = pre.inner().commit_index;
        let log = pre.stored().log;
        assert(self.knows_itself(n));
        assert(self.covered(n));
        assert(self.applied_ok(n));
        let mut settled_here = false;
        if let Move::Restart { node, post } = mv {
            assert(post.stored().log.take(0) =~= Seq::<LogEntry<M::Command>>::empty());
            settled_here = true;
        }
        if let Move::React { node, ev, post, eff, ballot, about, last } = mv {
            law_term_never_falls(pre, ev, post, eff);
            if ev.entries() is Some {
                self.lemma_log_after_entries(n, ev, post, eff, last);
                if post is Follower && eff.verdict().success {
                    self.lemma_commits_after_entries(n, ev, post, eff, last, mv, next);
                    settled_here = true;
                }
            } else {
                law_log_changes(pre, ev, post, eff);
            }
        }
        if !settled_here {
            self.lemma_commits_of_longer_log(mv, next);
        }
    }

    /// A node whose log stayed or got longer at its end keeps what it has committed and
    /// applied.
    proof fn lemma_commits_of_longer_log(self, mv: Move<M, C, R>, next: Self)
        requires
            self.elections_ok(),
            self.logs_ok(),
            self.commits_ok(),
            self.leaders_complete(),
            self.moves(mv, next),
            grown(self.chronicle, next.chronicle),
            forall|t: TermIndex| #[trigger]
                self.committed.contains_key(t) ==> next.committed.contains_key(t)
                    && self.committed[t] <= next.committed[t],
            !(mv is Restart),
            self.nodes[mv.node()].stored().term <= mv.post().stored().term,
            mv is React ==> {
                &&& mv.post().inner().commit_index == self.nodes[mv.node()].inner().commit_index
                &&& mv.post().inner().last_applied == self.nodes[mv.node()].inner().last_applied
                &&& mv.post().inner().current_state == self.nodes[mv.node()].inner().current_state
            },
            mv.post().stored().log == self.nodes[mv.node()].stored().log || (
            self.nodes[mv.node()] is Leader && self.nodes[mv.node()].stored().log.is_prefix_of(
                mv.post().stored().log,
            )),
        ensures
            next.covered(mv.node()),
            next.applied_ok(mv.node()),
    {
        let n = mv.node();
        let pre = self.nodes[n];
        let post = mv.post();
        let c = pre.inner().commit_index;
        let log = pre.stored().log;
        assert(self.knows_itself(n));
        assert(self.covered(n));
        assert(self.applied_ok(n));
        assert(log.is_prefix_of(post.stored().log));
        if c > 0 {
            let t = choose|t: TermIndex| #[trigger]
                self.backs(c, pre.stored().term, t) && agree(
                    log,
                    self.chronicle[t],
                    self.reach(n),
                );
            self.lemma_backs_kept(next, c, post.stored().term, t);
            assert(self.chronicle.contains_key(t));
            lemma_agree_through(
                log,
                self.chronicle[t],
                next.chronicle[t],
                self.reach(n),
                self.chronicle[t].len() as int,
                self.reach(n),
            );
            if pre is Leader {
                assert(self.leads(n));
                self.lemma_leader_has(c, pre.stored().term, t);
                assert(c <= log.len());
            }
            if post.inner().commit_index == c {
                assert(agree(post.stored().log, next.chronicle[t], next.reach(n)));
            }
        }
        if let Move::Settle { node, post, settled } = mv {
            let due = RaftWorkerInner { commit_index: post.inner().commit_index, ..pre.inner() };
            law_applied_in_order::<M>(self.initial, due, post.inner(), settled.applied);
            if post.inner().commit_index > c {
                assert(self.leads(n));
                assert((pre->Leader_0).committable(post.inner().commit_index));
                let t = post.stored().term;
                assert(next.backs(post.inner().commit_index, t, t));
                assert(agree(post.stored().log, next.chronicle[t], next.reach(n)));
            }
        } else {
            let la = pre.inner().last_applied as int;
            assert(post.stored().log.take(la) =~= log.take(la));
        }
    }
}

proof fn lemma_history<M: State, C, R>(
    h: Seq<Cluster<M, C, R>>,
    ms: Seq<Move<M, C, R>>,
    k: int,
)
    requires
        is_history(h, ms),
        0 <= k < h.len(),
    ensures
        h[k].elections_ok(),
        h[k].logs_ok(),
    decreases k,
{
    if k == 0 {
        h[0].lemma_elections_start();
        h[0].lemma_logs_start();
    } else {
        lemma_history(h, ms, k - 1);
        assert(h[k - 1].moves(ms[k - 1], h[k]));
        h[k - 1].lemma_elected(ms[k - 1], h[k]);
        h[k - 1].lemma_logs(ms[k - 1], h[k]);
    }
}

/// The record of elections and of the leaders' logs only grows.
proof fn lemma_record_grows<M: State, C, R>(
    h: Seq<Cluster<M, C, R>>,
    ms: Seq<Move<M, C, R>>,
    a: int,
    b: int,
)
    requires
        is_history(h, ms),
        0 <= a <= b < h.len(),
    ensures
        h[a].elected.submap_of(h[b].elected),
        grown(h[a].chronicle, h[b].chronicle),
    decreases b,
{
    if a < b {
        lemma_record_grows(h, ms, a, b - 1);
        lemma_history(h, ms, b - 1);
        assert(h[b - 1].moves(ms[b - 1], h[b]));
        h[b - 1].lemma_elected(ms[b - 1], h[b]);
        h[b - 1].lemma_logs(ms[b - 1], h[b]);
        let x = h[a].chronicle;
        let y = h[b - 1].chronicle;
        let z = h[b].chronicle;
        assert forall|t: TermIndex| #[trigger] x.contains_key(t) implies z.contains_key(t) && agree(
            x[t],
            z[t],
            x[t].len() as int,
        ) by {
            assert(y.contains_key(t));
            lemma_agree_through(x[t], y[t], z[t], x[t].len() as int, y[t].len() as int, x[t].len() as int);
        }
    }
}

/// A term has at most one leader, ever.
pub proof fn law_one_leader_per_term<M: State, C, R>(
    h: Seq<Cluster<M, C, R>>,
    ms: Seq<Move<M, C, R>>,
    a: int,
    i: NodeId,
    b: int,
    j: NodeId,
)
    requires
        is_history(h, ms),
        0 <= a <= b < h.len(),
        h[a].nodes.contains_key(i),
        h[b].nodes.contains_key(j),
        h[a].nodes[i] is Leader,
        h[b].nodes[j] is Leader,
        h[a].nodes[i].stored().term == h[b].nodes[j].stored().term,
    ensures
        i == j,
{
    lemma_history(h, ms, a);
    lemma_history(h, ms, b);
    lemma_record_grows(h, ms, a, b);
    assert(h[a].leads(i));
    assert(h[b].leads(j));
    let t = h[a].nodes[i].stored().term;
    assert(h[b].elected[t] == h[a].elected[t]);
}

/// If two logs have an entry of the same term at the same index, at the same time or
/// not, they have the same entries up to that index.
pub proof fn law_logs_match<M: State, C, R>(
    h: Seq<Cluster<M, C, R>>,
    ms: Seq<Move<M, C, R>>,
    a: int,
    i: NodeId,
    b: int,
    j: NodeId,
    idx: LogIndex,
)
    requires
        is_history(h, ms),
        0 <= a <= b < h.len(),
        h[a].nodes.contains_key(i),
        h[b].nodes.contains_key(j),
        entry_at(h[a].nodes[i].stored().log, idx as int) is Some,
        entry_at(h[b].nodes[j].stored().log, idx as int) is Some,
        term_at(h[a].nodes[i].stored().log, idx as int) == term_at(
            h[b].nodes[j].stored().log,
            idx as int,
        ),
    ensures
        agree(h[a].nodes[i].stored().log, h[b].nodes[j].stored().log, idx as int),
{
    lemma_history(h, ms, a);
    lemma_history(h, ms, b);
    lemma_record_grows(h, ms, a, b);
    lemma_backed_grown(h[a].nodes[i].stored().log, h[a].chronicle, h[b].chronicle);
    lemma_backed_agree(
        h[a].nodes[i].stored().log,
        h[b].nodes[j].stored().log,
        h[b].chronicle,
        idx - 1,
    );
}

/// Entries that a leader of the cluster sent always fit the log of the node that they
/// reach: it can take them, whenever that is.
pub proof fn law_sent_entries_fit<M: State, C, R>(
    h: Seq<Cluster<M, C, R>>,
    ms: Seq<Move<M, C, R>>,
    k: int,
    i: NodeId,
    last: LogIndex,
    req: RpcRequest<M::Command, M::Key>,
)
    requires
        is_history(h, ms),
        0 <= k < h.len(),
        h[k].nodes.contains_key(i),
        req matches RpcRequest::AppendEntries(q) && h[k].sent.contains((last, q@)),
    ensures
        fits(h[k].nodes[i].inner(), req),
{
    lemma_history(h, ms, k);
    let q = req->AppendEntries_0@;
    let log = h[k].nodes[i].stored().log;
    let led = h[k].chronicle[q.term];
    assert(h[k].from_leader((last, q)));
    if accepts_entries(h[k].nodes[i].stored(), q) {
        assert forall|m: int| 0 <= m < q.entries.len() implies (#[trigger] q.entries[m]).idx
            == q.prev_log_index + 1 + m by {
            assert(q.entries[m] == led[q.prev_log_index + m]);
        }
        lemma_consecutive_mergeable(log, q.prev_log_index as int, q.entries);
    }
}

/// A leader can take every answer of a peer to what was sent, however late it comes.
pub proof fn law_answers_can_be_taken<M: State, C, R>(
    h: Seq<Cluster<M, C, R>>,
    ms: Seq<Move<M, C, R>>,
    k: int,
    i: NodeId,
    ev: Event<M, C, R>,
    ballot: Ballot,
    about: AppendEntriesView<M::Command>,
    last: LogIndex,
)
    requires
        is_history(h, ms),
        0 <= k < h.len(),
        h[k].nodes.contains_key(i),
        h[k].nodes[i] is Leader,
        h[k].nodes[i].stored().log.len() < u64::MAX,
        h[k].reaches(i, ev, ballot, about, last),
        ev matches Event::Response(peer, _, Ok(RpcResponse::AppendEntries(_))) && peer != i
            && h[k].nodes.contains_key(peer),
    ensures
        h[k].nodes[i].takes(ev),
{
    lemma_history(h, ms, k);
    lemma_progress_history(h, ms, k);
    let s = h[k];
    if let Event::Response(peer, idx, Ok(RpcResponse::AppendEntries(resp))) = ev {
        assert(s.knows_itself(i));
        assert(s.nodes[i].inner().peers@.to_set().contains(peer));
        assert(s.from_leader((idx, about)));
        assert(s.answers.contains((peer, about, resp)));
    }
}

/// A node that accepts entries has the leader's log up to the last of them.
pub proof fn law_accepted_entries_are_stored<M: State, C, R>(
    h: Seq<Cluster<M, C, R>>,
    ms: Seq<Move<M, C, R>>,
    k: int,
)
    requires
        is_history(h, ms),
        0 <= k < ms.len(),
        ms[k] matches Move::React { ev, eff, .. } && ev.entries() is Some && eff.verdict().success,
    ensures
        ms[k] matches Move::React { node, ev, .. } && {
            let q = ev.entries()->0;
            &&& h[k].chronicle.contains_key(q.term)
            &&& agree(
                h[k + 1].nodes[node].stored().log,
                h[k].chronicle[q.term],
                q.prev_log_index + q.entries.len(),
            )
        },
{
    lemma_history(h, ms, k);
    assert(h[k].moves(ms[k], h[k + 1]));
    if let Move::React { node, ev, post, eff, ballot, about, last } = ms[k] {
        assert(h[k].knows_itself(node));
        h[k].lemma_log_after_entries(node, ev, post, eff, last);
        assert(h[k].from_leader((last, ev.entries()->0)));
    }
}

/// Whether at no time a leader lacks what an earlier one has committed.
spec fn is_orderly<M: State, C, R>(h: Seq<Cluster<M, C, R>>) -> bool {
    forall|k: int| 0 <= k < h.len() ==> (#[trigger] h[k]).leaders_complete()
}

proof fn lemma_orderly_history<M: State, C, R>(
    h: Seq<Cluster<M, C, R>>,
    ms: Seq<Move<M, C, R>>,
    k: int,
)
    requires
        is_history(h, ms),
        is_orderly(h),
        0 <= k < h.len(),
    ensures
        h[k].commits_ok(),
    decreases k,
{
    if k == 0 {
        h[0].lemma_commits_start();
    } else {
        lemma_orderly_history(h, ms, k - 1);
        lemma_history(h, ms, k - 1);
        assert(h[k - 1].moves(ms[k - 1], h[k]));
        assert(h[k - 1].leaders_complete());
        h[k - 1].lemma_commits(ms[k - 1], h[k]);
    }
}

proof fn lemma_commits_grow<M: State, C, R>(
    h: Seq<Cluster<M, C, R>>,
    ms: Seq<Move<M, C, R>>,
    a: int,
    b: int,
)
    requires
        is_history(h, ms),
        is_orderly(h),
        0 <= a <= b < h.len(),
    ensures
        forall|t: TermIndex| #[trigger]
            h[a].committed.contains_key(t) ==> h[b].committed.contains_key(t) && h[a].committed[t]
                <= h[b].committed[t],
        h[a].initial == h[b].initial,
    decreases b,
{
    if a < b {
        lemma_commits_grow(h, ms, a, b - 1);
        lemma_orderly_history(h, ms, b - 1);
        lemma_history(h, ms, b - 1);
        assert(h[b - 1].moves(ms[b - 1], h[b]));
        assert(h[b - 1].leaders_complete());
        h[b - 1].lemma_commits(ms[b - 1], h[b]);
    }
}

impl<M: State, C, R> Cluster<M, C, R> {
    /// The entries that a node has applied, in order.
    pub open spec fn applied(&self, i: NodeId) -> Seq<LogEntry<M::Command>> {
        self.nodes[i].stored().log.take(self.nodes[i].inner().last_applied as int)
    }
}

/// With complete leaders, of what two nodes have applied one is the beginning of the
/// other.
proof fn lemma_same_order<M: State, C, R>(
    h: Seq<Cluster<M, C, R>>,
    ms: Seq<Move<M, C, R>>,
    a: int,
    i: NodeId,
    b: int,
    j: NodeId,
)
    requires
        is_history(h, ms),
        is_orderly(h),
        0 <= a <= b < h.len(),
        h[a].nodes.contains_key(i),
        h[b].nodes.contains_key(j),
    ensures
        h[a].applied(i).is_prefix_of(h[b].applied(j)) || h[b].applied(j).is_prefix_of(
            h[a].applied(i),
        ),
        h[a].nodes[i].inner().current_state@ == state_after::<M>(h[0].initial, h[a].applied(i)),
        h[b].nodes[j].inner().current_state@ == state_after::<M>(h[0].initial, h[b].applied(j)),
{
    lemma_orderly_history(h, ms, a);
    lemma_orderly_history(h, ms, b);
    lemma_history(h, ms, b);
    lemma_commits_grow(h, ms, 0, a);
    lemma_commits_grow(h, ms, a, b);
    lemma_record_grows(h, ms, a, b);
    assert(h[a].covered(i) && h[a].applied_ok(i));
    assert(h[b].covered(j) && h[b].applied_ok(j));
    let x = h[a].nodes[i].inner();
    let y = h[b].nodes[j].inner();
    let m = x.last_applied as int;
    let n = y.last_applied as int;
    let xlog = x.storage@.log;
    let ylog = y.storage@.log;
    if m > 0 && n > 0 {
        let t = choose|t: TermIndex| #[trigger]
            h[a].backs(x.commit_index, x.storage@.term, t) && agree(
                xlog,
                h[a].chronicle[t],
                h[a].reach(i),
            );
        let u = choose|u: TermIndex| #[trigger]
            h[b].backs(y.commit_index, y.storage@.term, u) && agree(
                ylog,
                h[b].chronicle[u],
                h[b].reach(j),
            );
        let led = h[b].chronicle;
        assert(h[a].committed.contains_key(t));
        assert(h[a].chronicle.contains_key(t)) by {
            lemma_history(h, ms, a);
        }
        assert(led.contains_key(t) && led.contains_key(u));
        lemma_agree_through(
            xlog,
            h[a].chronicle[t],
            led[t],
            h[a].reach(i),
            h[a].chronicle[t].len() as int,
            m,
        );
        let k = if m < n {
            m
        } else {
            n
        };
        assert(h[b].leaders_complete());
        assert forall|p: int| 0 <= p < k implies #[trigger] xlog[p] == ylog[p] by {
            assert(xlog[p] == led[t][p]);
            assert(ylog[p] == led[u][p]);
            if t < u {
                assert(agree(led[t], led[u], h[b].committed[t] as int));
                assert(led[t][p] == led[u][p]);
            } else if u < t {
                assert(agree(led[u], led[t], h[b].committed[u] as int));
                assert(led[u][p] == led[t][p]);
            }
        }
        assert(xlog.take(m).take(k) =~= ylog.take(n).take(k));
        if m <= n {
            assert(xlog.take(m) =~= ylog.take(n).take(m));
        } else {
            assert(ylog.take(n) =~= xlog.take(m).take(n));
        }
    } else {
        if m == 0 {
            assert(xlog.take(0) =~= ylog.take(n).take(0));
        } else {
            assert(ylog.take(0) =~= xlog.take(m).take(0));
        }
    }
}

impl<M: State, C, R> Cluster<M, C, R> {
    /// Whether node `p` accepted entries of the leader of term `t` up to index `idx`.
    pub open spec fn accepted(&self, p: NodeId, t: TermIndex, idx: LogIndex) -> bool {
        exists|q: AppendEntriesView<M::Command>, resp: AppendEntriesResponse| #[trigger]
            self.answers.contains((p, q, resp)) && resp.success && q.term == t && idx
                <= q.prev_log_index + q.entries.len()
    }

    /// What a leader takes a peer to have, the peer accepted from it.
    spec fn progress_ok(&self) -> bool {
        &&& forall|p: NodeId, q: AppendEntriesView<M::Command>, resp: AppendEntriesResponse|
            #[trigger]
            self.answers.contains((p, q, resp)) && resp.success ==> resp.term == q.term
        &&& forall|i: NodeId| #[trigger]
            self.nodes.contains_key(i) && self.nodes[i] is Leader ==> self.progress_of(i)
    }

    spec fn progress_of(&self, i: NodeId) -> bool {
        let matched = (self.nodes[i]->Leader_0).state.match_indices@;
        forall|p: NodeId| #[trigger]
            matched.contains_key(p) ==> matched[p] == 0 || self.accepted(
                p,
                self.nodes[i].stored().term,
                matched[p],
            )
    }

    proof fn lemma_progress_start(self)
        requires
            self.starts(),
        ensures
            self.progress_ok(),
    {
        assert forall|i: NodeId| #[trigger]
            self.nodes.contains_key(i) implies self.nodes[i] is Follower by {
            assert(self.is_fresh(i));
        }
    }

    proof fn lemma_accepted_kept(self, next: Self, p: NodeId, t: TermIndex, idx: LogIndex)
        requires
            self.answers.subset_of(next.answers),
            self.accepted(p, t, idx),
        ensures
            next.accepted(p, t, idx),
    {
        let (q, resp) = choose|q: AppendEntriesView<M::Command>, resp: AppendEntriesResponse|
            #[trigger]
            self.answers.contains((p, q, resp)) && resp.success && q.term == t && idx
                <= q.prev_log_index + q.entries.len();
        assert(next.answers.contains((p, q, resp)));
    }

    proof fn lemma_progress(self, mv: Move<M, C, R>, next: Self)
        requires
            self.elections_ok(),
            self.logs_ok(),
            self.progress_ok(),
            self.moves(mv, next),
        ensures
            next.progress_ok(),
    {
        let n = mv.node();
        let pre = self.nodes[n];
        let post = mv.post();
        assert(self.knows_itself(n));
        assert(self.answers.subset_of(next.answers));
        if let Move::React { node, ev, post, eff, ballot, about, last } = mv {
            if ev.entries() is Some {
                self.lemma_log_after_entries(n, ev, post, eff, last);
            }
        }
        assert forall|i: NodeId| #[trigger]
            next.nodes.contains_key(i)
                && next.nodes[i] is Leader implies next.progress_of(i) by {
            assert(self.nodes.contains_key(i));
            let term = next.nodes[i].stored().term;
            let matched = (next.nodes[i]->Leader_0).state.match_indices@;
            assert forall|p: NodeId| #[trigger] matched.contains_key(p) implies matched[p] == 0
                || next.accepted(p, term, matched[p]) by {
                if self.nodes[i] is Leader {
                    assert(self.progress_of(i));
                    let before = (self.nodes[i]->Leader_0).state.match_indices@;
                    if let Move::React { node, ev, post, eff, ballot, about, last } = mv {
                        if i == n {
                            law_leader_only_appends(pre, ev, post, eff);
                            if let Event::Response(peer, idx, res) = ev {
                                if p == peer && matched[p] == idx && before[p] != idx {
                                    assert(self.from_leader((idx, about)));
                                    assert(res matches Ok(RpcResponse::AppendEntries(resp))
                                        && next.answers.contains((peer, about, resp)));
                                    assert(next.accepted(p, term, idx));
                                }
                            }
                        }
                    }
                    if before.contains_key(p) && self.accepted(p, term, before[p]) {
                        self.lemma_accepted_kept(next, p, term, before[p]);
                    }
                } else {
                    assert(i == n);
                    if let Move::React { node, ev, post, eff, ballot, about, last } = mv {
                        law_leader_was_elected(pre, ev, post, eff);
                    }
                }
            }
        }
    }
}

proof fn lemma_progress_history<M: State, C, R>(
    h: Seq<Cluster<M, C, R>>,
    ms: Seq<Move<M, C, R>>,
    k: int,
)
    requires
        is_history(h, ms),
        0 <= k < h.len(),
    ensures
        h[k].progress_ok(),
    decreases k,
{
    if k == 0 {
        h[0].lemma_progress_start();
    } else {
        lemma_progress_history(h, ms, k - 1);
        lemma_history(h, ms, k - 1);
        assert(h[k - 1].moves(ms[k - 1], h[k]));
        h[k - 1].lemma_progress(ms[k - 1], h[k]);
    }
}

proof fn lemma_filter_set(s: Seq<NodeId>, pred: spec_fn(NodeId) -> bool)
    requires
        s.no_duplicates(),
    ensures
        s.filter(pred).no_duplicates(),
        forall|p: NodeId| #[trigger] s.filter(pred).contains(p) ==> s.contains(p) && pred(p),
    decreases s.len(),
{
    reveal(Seq::filter);
    if s.len() > 0 {
        let init = s.drop_last();
        lemma_filter_set(init, pred);
        let f = init.filter(pred);
        assert(forall|p: NodeId| init.contains(p) ==> s.contains(p));
        if pred(s.last()) {
            assert(!f.contains(s.last())) by {
                if f.contains(s.last()) {
                    assert(init.contains(s.last()));
                }
            }
            let g = s.filter(pred);
            assert forall|p: NodeId| #[trigger] g.contains(p) implies s.contains(p) && pred(p) by {
                let j = choose|j: int| 0 <= j < g.len() && g[j] == p;
                if j < f.len() {
                    assert(f[j] == p);
                    assert(f.contains(p));
                }
            }
        }
    }
}

/// What a leader commits, and so acknowledges to its clients, a majority of the nodes
/// has: the leader and peers that accepted its log up to there.
pub proof fn law_committed_by_a_majority<M: State, C, R>(
    h: Seq<Cluster<M, C, R>>,
    ms: Seq<Move<M, C, R>>,
    k: int,
    idx: LogIndex,
)
    requires
        is_history(h, ms),
        0 <= k < ms.len(),
        ms[k] is Settle,
        h[k].nodes[ms[k].node()].inner().commit_index < idx
            <= h[k + 1].nodes[ms[k].node()].inner().commit_index,
    ensures
        h[k].nodes[ms[k].node()] is Leader,
        exists|peers: Set<NodeId>|
            {
                &&& #[trigger] peers.finite()
                &&& peers.subset_of(h[k].nodes.dom().remove(ms[k].node()))
                &&& 2 * (peers.len() + 1) > h[k].nodes.dom().len()
                &&& forall|p: NodeId| #[trigger]
                    peers.contains(p) ==> h[k].accepted(
                        p,
                        h[k].nodes[ms[k].node()].stored().term,
                        idx,
                    )
            },
{
    lemma_history(h, ms, k);
    lemma_progress_history(h, ms, k);
    let s = h[k];
    let n = ms[k].node();
    assert(s.moves(ms[k], h[k + 1]));
    assert(s.knows_itself(n));
    assert(s.nodes[n] is Leader);
    let w = s.nodes[n]->Leader_0;
    let top = h[k + 1].nodes[n].inner().commit_index;
    assert(w.committable(top));
    assert(s.progress_of(n));
    let matched = w.state.match_indices@;
    let has = |p: NodeId| matched[p] >= top;
    let found = w.inner.peers@.filter(has);
    lemma_filter_set(w.inner.peers@, has);
    found.unique_seq_to_set();
    let peers = found.to_set();
    assert forall|p: NodeId| #[trigger] peers.contains(p) implies s.accepted(
        p,
        s.nodes[n].stored().term,
        idx,
    ) && s.nodes.dom().remove(n).contains(p) by {
        assert(found.contains(p));
        assert(w.inner.peers@.contains(p));
        assert(w.inner.peers@.to_set().contains(p));
        assert(matched.contains_key(p));
        let (q, resp) = choose|q: AppendEntriesView<M::Command>, resp: AppendEntriesResponse|
            #[trigger]
            s.answers.contains((p, q, resp)) && resp.success && q.term == w.inner.storage@.term
                && matched[p] <= q.prev_log_index + q.entries.len();
        assert(s.answers.contains((p, q, resp)));
    }
    assert(peers.finite());
}

} // verus!
