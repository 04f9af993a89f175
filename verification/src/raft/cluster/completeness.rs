//! Why every leader has what earlier leaders have committed, and so all nodes apply the
//! same commands in the same order.
//!
//! Nobody ever votes for a candidate whose log is behind the own one, so one of those
//! who elect a leader has what a majority had, and the leader has it too.

use super::super::laws::{
    law_candidate_counts, law_leader_only_appends, law_leader_was_elected, law_log_changes,
    law_term_never_falls, law_vote_is_stored,
};
use super::super::storage::term_at;
use super::super::worker::{is_up_to_date, state_after, vote_request};
use super::super::{
    AppendEntriesResponse, AppendEntriesView, LogEntry, LogIndex, NodeId, RequestVoteRequest, State,
    TermIndex,
};
use super::{
    agree, backed, grown, is_history, is_orderly, law_majorities_meet, lemma_agree_through,
    lemma_backed_grown, lemma_filter_set, lemma_history, lemma_progress_history, lemma_same_order, Ballot, Cluster, Move,
};
use vstd::prelude::*;

verus! {

/// Whether the terms in a log never fall.
spec fn ascending<T>(log: Seq<LogEntry<T>>) -> bool {
    forall|i: int, j: int|
        0 <= i <= j < log.len() ==> (#[trigger] log[i]).term <= (#[trigger] log[j]).term
}

spec fn up_to<T>(log: Seq<LogEntry<T>>, t: int) -> bool {
    forall|i: int| 0 <= i < log.len() ==> (#[trigger] log[i]).term <= t
}

/// Whether leaders' logs got longer by entries of their own terms only.
spec fn extended<T>(
    a: Map<TermIndex, Seq<LogEntry<T>>>,
    b: Map<TermIndex, Seq<LogEntry<T>>>,
) -> bool {
    &&& grown(a, b)
    &&& forall|t: TermIndex, k: int|
        #![trigger a.contains_key(t), b[t][k]]
        a.contains_key(t) && a[t].len() <= k < b[t].len() ==> b[t][k].term == t
}

impl<M: State, C, R> Cluster<M, C, R> {
    /// The votes that elected leaders went to candidates whose logs were not behind those
    /// of the voters.
    spec fn votes_were_due(&self) -> bool {
        forall|b: Ballot| #[trigger]
            self.voter_logs.contains_key(b) ==> is_up_to_date(b.1, self.voter_logs[b])
    }

    spec fn terms_ok(&self) -> bool {
        &&& forall|t: TermIndex| #[trigger]
            self.chronicle.contains_key(t) ==> ascending(self.chronicle[t]) && up_to(
                self.chronicle[t],
                t as int,
            )
        &&& forall|i: NodeId| #[trigger] self.nodes.contains_key(i) ==> self.node_terms_ok(i)
        &&& forall|b: Ballot| #[trigger]
            self.voter_logs.contains_key(b) ==> {
                &&& self.ballots.contains(b)
                &&& ascending(self.voter_logs[b])
                &&& backed(self.voter_logs[b], self.chronicle)
            }
    }

    spec fn node_terms_ok(&self, i: NodeId) -> bool {
        let v = self.nodes[i].stored();
        &&& ascending(v.log)
        &&& up_to(v.log, v.term as int)
        &&& self.nodes[i] is Candidate ==> up_to(v.log, v.term - 1)
    }

    /// The leader of the request's term, if it is the sender, started with the log that
    /// the request describes.
    spec fn origin(&self, q: RequestVoteRequest) -> bool {
        let led = self.chronicle[q.term];
        &&& q.last_log_index <= led.len()
        &&& q.last_log_term == term_at(led, q.last_log_index as int)
        &&& forall|k: int|
            0 <= k < q.last_log_index ==> (#[trigger] led[k]).term < q.term
    }

    spec fn campaign_ok(&self, q: RequestVoteRequest) -> bool {
        let node = self.nodes[q.candidate];
        &&& self.nodes.contains_key(q.candidate)
        &&& node.stored().term >= q.term
        &&& node is Candidate && node.stored().term == q.term ==> q == vote_request(
            node.stored(),
            q.candidate,
        )
        &&& self.elected.contains_key(q.term) && self.elected[q.term] == q.candidate
            ==> self.origin(q)
    }

    spec fn campaigns_ok(&self) -> bool {
        &&& forall|b: Ballot| #[trigger]
            self.ballots.contains(b) ==> self.campaigns.contains(b.1)
        &&& forall|q: RequestVoteRequest| #[trigger]
            self.campaigns.contains(q) ==> self.campaign_ok(q)
    }

    proof fn lemma_terms_start(self)
        requires
            self.starts(),
        ensures
            self.terms_ok(),
            self.campaigns_ok(),
    {
        assert forall|i: NodeId| #[trigger]
            self.nodes.contains_key(i) implies self.node_terms_ok(i) by {
            assert(self.is_fresh(i));
        }
    }

    proof fn lemma_votes_due(self, mv: Move<M, C, R>, next: Self)
        requires
            self.elections_ok(),
            self.votes_were_due(),
            self.moves(mv, next),
        ensures
            next.votes_were_due(),
    {
        let n = mv.node();
        let pre = self.nodes[n];
        assert(self.knows_itself(n));
        if let Move::React { node, ev, post, eff, ballot, about, last } = mv {
            law_candidate_counts(pre, ev, post, eff);
            if eff.grants() {
                law_vote_is_stored(pre, ev, post, eff);
            }
        }
        assert forall|b: Ballot| #[trigger] next.voter_logs.contains_key(b) implies is_up_to_date(
            b.1,
            next.voter_logs[b],
        ) by {
            if self.voter_logs.contains_key(b) {
                assert(next.voter_logs[b] == self.voter_logs[b]);
            }
        }
    }

    proof fn lemma_extended(self, mv: Move<M, C, R>, next: Self)
        requires
            self.elections_ok(),
            self.logs_ok(),
            self.moves(mv, next),
        ensures
            extended(self.chronicle, next.chronicle),
    {
        let n = mv.node();
        let pre = self.nodes[n];
        self.lemma_elected(mv, next);
        self.lemma_logs(mv, next);
        assert(self.knows_itself(n));
        if let Move::React { node, ev, post, eff, ballot, about, last } = mv {
            if post is Leader {
                if pre is Leader {
                    law_leader_only_appends(pre, ev, post, eff);
                    if ev.entries() is None {
                        law_log_changes(pre, ev, post, eff);
                    } else {
                        self.lemma_log_after_entries(n, ev, post, eff, last);
                    }
                } else {
                    law_leader_was_elected(pre, ev, post, eff);
                }
            }
        }
    }

    proof fn lemma_terms(self, mv: Move<M, C, R>, next: Self)
        requires
            self.elections_ok(),
            self.logs_ok(),
            self.terms_ok(),
            self.moves(mv, next),
        ensures
            next.terms_ok(),
    {
        let n = mv.node();
        let pre = self.nodes[n];
        let post = mv.post();
        self.lemma_elected(mv, next);
        self.lemma_logs(mv, next);
        assert(self.knows_itself(n));
        assert(self.node_terms_ok(n));
        assert(next.node_terms_ok(n)) by {
            if let Move::React { node, ev, post, eff, ballot, about, last } = mv {
                law_term_never_falls(pre, ev, post, eff);
                law_candidate_counts(pre, ev, post, eff);
                if ev.entries() is Some {
                    self.lemma_log_after_entries(n, ev, post, eff, last);
                    let q = ev.entries()->0;
                    assert(self.from_leader((last, q)));
                    let led = self.chronicle[q.term];
                    assert(ascending(led) && up_to(led, q.term as int));
                    if post.stored().log == led.take(last as int) {
                        let log = led.take(last as int);
                        assert forall|i: int, j: int|
                            0 <= i <= j < log.len() implies (#[trigger] log[i]).term <= (
                        #[trigger] log[j]).term by {
                            assert(log[i] == led[i] && log[j] == led[j]);
                        }
                        assert forall|i: int| 0 <= i < log.len() implies (#[trigger] log[i]).term
                            <= q.term by {
                            assert(log[i] == led[i]);
                        }
                    }
                } else {
                    law_log_changes(pre, ev, post, eff);
                }
            }
        }
        assert forall|i: NodeId| #[trigger]
            next.nodes.contains_key(i) implies next.node_terms_ok(i) by {
            if i != n {
                assert(self.nodes.contains_key(i));
                assert(self.node_terms_ok(i));
            }
        }
        assert forall|b: Ballot| #[trigger] next.voter_logs.contains_key(b) implies {
            &&& next.ballots.contains(b)
            &&& ascending(next.voter_logs[b])
            &&& backed(next.voter_logs[b], next.chronicle)
        } by {
            if self.voter_logs.contains_key(b) {
                assert(next.voter_logs[b] == self.voter_logs[b]);
                lemma_backed_grown(self.voter_logs[b], self.chronicle, next.chronicle);
            } else {
                lemma_backed_grown(pre.stored().log, self.chronicle, next.chronicle);
            }
        }
    }

    proof fn lemma_campaigns(self, mv: Move<M, C, R>, next: Self)
        requires
            self.elections_ok(),
            self.logs_ok(),
            self.terms_ok(),
            self.campaigns_ok(),
            self.moves(mv, next),
        ensures
            next.campaigns_ok(),
    {
        let n = mv.node();
        let pre = self.nodes[n];
        let post = mv.post();
        self.lemma_elected(mv, next);
        self.lemma_logs(mv, next);
        self.lemma_extended(mv, next);
        assert(self.knows_itself(n));
        assert(self.node_terms_ok(n));
        if let Move::React { node, ev, post, eff, ballot, about, last } = mv {
            law_term_never_falls(pre, ev, post, eff);
            law_candidate_counts(pre, ev, post, eff);
            if ev.entries() is Some {
                self.lemma_log_after_entries(n, ev, post, eff, last);
            } else {
                law_log_changes(pre, ev, post, eff);
            }
            if post is Leader && !(pre is Leader) {
                law_leader_was_elected(pre, ev, post, eff);
            }
            if eff.grants() {
                law_vote_is_stored(pre, ev, post, eff);
            }
        }
        assert forall|q: RequestVoteRequest| #[trigger]
            next.campaigns.contains(q) implies next.campaign_ok(q) by {
            if self.campaigns.contains(q) {
                assert(self.campaign_ok(q));
                let c = q.candidate;
                if next.elected.contains_key(q.term) && next.elected[q.term] == c {
                    if self.elected.contains_key(q.term) {
                        assert(self.elected[q.term] == next.elected[q.term]);
                        let led = self.chronicle[q.term];
                        let led2 = next.chronicle[q.term];
                        assert(self.chronicle.contains_key(q.term));
                        assert(agree(led, led2, led.len() as int));
                        assert forall|k: int| 0 <= k < q.last_log_index implies (
                        #[trigger] led2[k]).term < q.term by {
                            assert(led[k] == led2[k]);
                        }
                        assert(next.origin(q));
                    } else {
                        assert(c == n);
                        assert(next.chronicle[q.term] == pre.stored().log);
                        assert(next.origin(q));
                    }
                }
            } else {
                assert(q.candidate == n);
                if self.elected.contains_key(q.term) {
                    assert(self.won(q.term));
                }
            }
        }
    }
}

impl<M: State, C, R> Cluster<M, C, R> {
    /// Whether node `p` had the log of the leader of term `a` up to `idx` at some time:
    /// it led in that term, or accepted so much from the leader.
    pub open spec fn held(&self, p: NodeId, a: TermIndex, idx: LogIndex) -> bool {
        &&& self.chronicle.contains_key(a)
        &&& idx <= self.chronicle[a].len()
        &&& self.accepted(p, a, idx) || self.elected[a] == p
    }

    /// Whether a leader of a term between `a` and `bound` lacks what the leader of `a`
    /// had up to `idx`.
    spec fn broken(&self, a: TermIndex, idx: LogIndex, bound: int) -> bool {
        exists|c: TermIndex|
            a < c < bound && #[trigger] self.chronicle.contains_key(c) && !agree(
                self.chronicle[a],
                self.chronicle[c],
                idx as int,
            )
    }

    /// Nodes and voters still have what they once had of a leader's log, unless a later
    /// leader did not have it.
    spec fn holdings_ok(&self) -> bool {
        &&& forall|p: NodeId, q: AppendEntriesView<M::Command>, resp: AppendEntriesResponse|
            #[trigger]
            self.answers.contains((p, q, resp)) && resp.success ==> {
                &&& self.nodes.contains_key(p)
                &&& self.nodes[p].stored().term >= q.term
                &&& self.chronicle.contains_key(q.term)
                &&& q.prev_log_index + q.entries.len() <= self.chronicle[q.term].len()
            }
        &&& forall|p: NodeId, a: TermIndex, idx: LogIndex| #[trigger]
            self.held(p, a, idx) ==> self.keeps(p, a, idx)
        &&& forall|b: Ballot, a: TermIndex, idx: LogIndex|
            #![trigger self.voter_logs.contains_key(b), self.held(b.0, a, idx)]
            self.voter_logs.contains_key(b) && a < b.1.term && self.held(b.0, a, idx) ==> agree(
                self.voter_logs[b],
                self.chronicle[a],
                idx as int,
            ) || self.broken(a, idx, b.1.term as int)
    }

    spec fn keeps(&self, p: NodeId, a: TermIndex, idx: LogIndex) -> bool {
        &&& self.nodes.contains_key(p)
        &&& a <= self.nodes[p].stored().term
        &&& agree(self.nodes[p].stored().log, self.chronicle[a], idx as int) || self.broken(
            a,
            idx,
            self.nodes[p].stored().term + 1,
        )
    }

    proof fn lemma_holdings_start(self)
        requires
            self.starts(),
        ensures
            self.holdings_ok(),
    {
    }

    proof fn lemma_broken_kept(self, next: Self, a: TermIndex, idx: LogIndex, bound: int)
        requires
            self.terms_ok(),
            extended(self.chronicle, next.chronicle),
            self.chronicle.contains_key(a),
            idx <= self.chronicle[a].len(),
            self.broken(a, idx, bound),
        ensures
            next.broken(a, idx, bound),
    {
        let c = choose|c: TermIndex|
            a < c < bound && #[trigger] self.chronicle.contains_key(c) && !agree(
                self.chronicle[a],
                self.chronicle[c],
                idx as int,
            );
        let x = self.chronicle[a];
        let y = self.chronicle[c];
        let x2 = next.chronicle[a];
        let y2 = next.chronicle[c];
        assert(next.chronicle.contains_key(c));
        assert(agree(x, x2, x.len() as int));
        assert(agree(y, y2, y.len() as int));
        if agree(x2, y2, idx as int) {
            if idx <= y.len() {
                assert forall|i: int| 0 <= i < idx implies x[i] == #[trigger] y[i] by {
                    assert(x[i] == x2[i]);
                    assert(x2[i] == y2[i]);
                    assert(y[i] == y2[i]);
                }
                assert(agree(x, y, idx as int));
            } else {
                let k = y.len() as int;
                assert(y2[k].term == c);
                assert(x2[k] == y2[k]);
                assert(x[k] == x2[k]);
                assert(up_to(x, a as int));
                assert(x[k].term <= a);
            }
            assert(false);
        }
    }

    proof fn lemma_accepted_bound(self, p: NodeId, a: TermIndex, idx: LogIndex)
        requires
            self.holdings_ok(),
            self.accepted(p, a, idx),
        ensures
            self.nodes.contains_key(p),
            self.nodes[p].stored().term >= a,
            self.chronicle.contains_key(a),
            idx <= self.chronicle[a].len(),
    {
        let (q, resp) = choose|q: AppendEntriesView<M::Command>, resp: AppendEntriesResponse|
            #[trigger]
            self.answers.contains((p, q, resp)) && resp.success && q.term == a && idx
                <= q.prev_log_index + q.entries.len();
        assert(self.answers.contains((p, q, resp)));
    }

    /// What a move can add to the holdings: only those of the node that moved, in the
    /// term that it is in then.
    proof fn lemma_new_holdings(
        self,
        mv: Move<M, C, R>,
        next: Self,
        p: NodeId,
        a: TermIndex,
        idx: LogIndex,
    )
        requires
            self.elections_ok(),
            self.logs_ok(),
            self.holdings_ok(),
            self.moves(mv, next),
            next.held(p, a, idx),
            !self.held(p, a, idx),
        ensures
            p == mv.node(),
            a == mv.post().stored().term,
            mv matches Move::React { ev, post, eff, last, .. } && {
                ||| post is Leader && next.chronicle[a] == post.stored().log
                ||| ev.entries() is Some && eff.verdict().success && post is Follower
                    && (ev.entries()->0).term == a && idx <= last
            },
    {
        let n = mv.node();
        self.lemma_elected(mv, next);
        self.lemma_logs(mv, next);
        assert(self.knows_itself(n));
        if next.accepted(p, a, idx) {
            let (q, resp) = choose|q: AppendEntriesView<M::Command>, resp: AppendEntriesResponse|
                #[trigger]
                next.answers.contains((p, q, resp)) && resp.success && q.term == a && idx
                    <= q.prev_log_index + q.entries.len();
            if self.answers.contains((p, q, resp)) {
                assert(self.accepted(p, a, idx));
                self.lemma_accepted_bound(p, a, idx);
                assert(self.held(p, a, idx));
            } else if let Move::React { node, ev, post, eff, ballot, about, last } = mv {
                self.lemma_log_after_entries(n, ev, post, eff, last);
                assert(self.from_leader((last, q)));
            }
        } else {
            assert(next.elected[a] == p);
        }
    }

    proof fn lemma_holdings(self, mv: Move<M, C, R>, next: Self)
        requires
            self.elections_ok(),
            self.logs_ok(),
            self.terms_ok(),
            self.holdings_ok(),
            self.moves(mv, next),
        ensures
            next.holdings_ok(),
    {
        let n = mv.node();
        let pre = self.nodes[n];
        let post = mv.post();
        self.lemma_elected(mv, next);
        self.lemma_logs(mv, next);
        self.lemma_extended(mv, next);
        self.lemma_votes_kept(mv, next);
        assert(self.knows_itself(n));
        if let Move::React { node, ev, post, eff, ballot, about, last } = mv {
            law_term_never_falls(pre, ev, post, eff);
            law_candidate_counts(pre, ev, post, eff);
            if ev.entries() is Some {
                self.lemma_log_after_entries(n, ev, post, eff, last);
                assert(self.from_leader((last, ev.entries()->0)));
            }
            if eff.grants() {
                law_vote_is_stored(pre, ev, post, eff);
            }
        }
        assert forall|p: NodeId, q: AppendEntriesView<M::Command>, resp: AppendEntriesResponse|
            #[trigger]
            next.answers.contains((p, q, resp)) && resp.success implies {
            &&& next.nodes.contains_key(p)
            &&& next.nodes[p].stored().term >= q.term
            &&& next.chronicle.contains_key(q.term)
            &&& q.prev_log_index + q.entries.len() <= next.chronicle[q.term].len()
        } by {
            if self.answers.contains((p, q, resp)) {
                assert(self.chronicle.contains_key(q.term));
                assert(agree(
                    self.chronicle[q.term],
                    next.chronicle[q.term],
                    self.chronicle[q.term].len() as int,
                ));
            } else {
                assert(p == n);
            }
        }
        assert forall|p: NodeId, a: TermIndex, idx: LogIndex| #[trigger]
            next.held(p, a, idx) implies next.keeps(p, a, idx) by {
            if self.held(p, a, idx) {
                assert(self.keeps(p, a, idx));
                self.lemma_holding_kept(mv, next, p, a, idx);
            } else {
                self.lemma_new_holdings(mv, next, p, a, idx);
                if let Move::React { node, ev, post, eff, ballot, about, last } = mv {
                    if post is Follower {
                        let led = self.chronicle[a];
                        assert(next.chronicle[a] == led);
                        assert(agree(post.stored().log, led, idx as int));
                    }
                }
            }
        }
        assert forall|b: Ballot, a: TermIndex, idx: LogIndex|
            #![trigger next.voter_logs.contains_key(b), next.held(b.0, a, idx)]
            next.voter_logs.contains_key(b) && a < b.1.term && next.held(b.0, a, idx) implies agree(
            next.voter_logs[b],
            next.chronicle[a],
            idx as int,
        ) || next.broken(a, idx, b.1.term as int) by {
            if self.voter_logs.contains_key(b) {
                assert(next.voter_logs[b] == self.voter_logs[b]);
                assert(self.ballots.contains((b.0, b.1)));
                if !self.held(b.0, a, idx) {
                    self.lemma_new_holdings(mv, next, b.0, a, idx);
                }
                assert(self.held(b.0, a, idx));
                self.lemma_old_view_kept(next, self.voter_logs[b], a, idx, b.1.term as int);
            } else {
                assert(b.0 == n);
                if !self.held(n, a, idx) {
                    self.lemma_new_holdings(mv, next, n, a, idx);
                }
                assert(self.keeps(n, a, idx));
                if self.broken(a, idx, pre.stored().term + 1) {
                    let c = choose|c: TermIndex|
                        a < c < pre.stored().term + 1 && #[trigger] self.chronicle.contains_key(c)
                            && !agree(self.chronicle[a], self.chronicle[c], idx as int);
                    assert(self.elected.contains_key(c));
                    assert(c != b.1.term);
                    assert(self.broken(a, idx, b.1.term as int));
                }
                self.lemma_old_view_kept(next, pre.stored().log, a, idx, b.1.term as int);
            }
        }
    }

    /// What a log has of a leader's log it still has, and what is broken stays broken.
    proof fn lemma_old_view_kept(
        self,
        next: Self,
        log: Seq<LogEntry<M::Command>>,
        a: TermIndex,
        idx: LogIndex,
        bound: int,
    )
        requires
            self.terms_ok(),
            extended(self.chronicle, next.chronicle),
            self.chronicle.contains_key(a),
            idx <= self.chronicle[a].len(),
            agree(log, self.chronicle[a], idx as int) || self.broken(a, idx, bound),
        ensures
            agree(log, next.chronicle[a], idx as int) || next.broken(a, idx, bound),
    {
        if self.broken(a, idx, bound) {
            self.lemma_broken_kept(next, a, idx, bound);
        } else {
            lemma_agree_through(
                log,
                self.chronicle[a],
                next.chronicle[a],
                idx as int,
                self.chronicle[a].len() as int,
                idx as int,
            );
        }
    }

    proof fn lemma_broken_wider(self, a: TermIndex, idx: LogIndex, bound: int, wider: int)
        requires
            self.broken(a, idx, bound),
            bound <= wider,
        ensures
            self.broken(a, idx, wider),
    {
        let c = choose|c: TermIndex|
            a < c < bound && #[trigger] self.chronicle.contains_key(c) && !agree(
                self.chronicle[a],
                self.chronicle[c],
                idx as int,
            );
        assert(self.chronicle.contains_key(c));
    }

    proof fn lemma_holding_kept(
        self,
        mv: Move<M, C, R>,
        next: Self,
        p: NodeId,
        a: TermIndex,
        idx: LogIndex,
    )
        requires
            self.elections_ok(),
            self.logs_ok(),
            self.terms_ok(),
            self.moves(mv, next),
            extended(self.chronicle, next.chronicle),
            self.held(p, a, idx),
            self.keeps(p, a, idx),
        ensures
            next.keeps(p, a, idx),
    {
        let n = mv.node();
        let pre = self.nodes[p];
        let post = next.nodes[p];
        let log = pre.stored().log;
        let log2 = post.stored().log;
        let old = self.chronicle[a];
        assert(self.knows_itself(n));
        assert(next.nodes.contains_key(p));
        self.lemma_old_view_kept(next, log, a, idx, pre.stored().term + 1);
        if p == n {
            if let Move::React { node, ev, post, eff, ballot, about, last } = mv {
                law_term_never_falls(pre, ev, post, eff);
                if ev.entries() is Some {
                    self.lemma_log_after_entries(n, ev, post, eff, last);
                    let q = ev.entries()->0;
                    let led = self.chronicle[q.term];
                    assert(self.from_leader((last, q)));
                    if post is Follower && eff.verdict().success && log2 != log {
                        assert(next.chronicle == self.chronicle);
                        assert(a <= q.term);
                        if !self.broken(a, idx, pre.stored().term + 1) {
                            if a < q.term && !agree(old, led, idx as int) {
                                assert(self.chronicle.contains_key(q.term));
                                assert(next.chronicle.contains_key(q.term));
                                assert(next.broken(a, idx, q.term + 1));
                            } else {
                                assert(agree(log, old, idx as int));
                                lemma_agree_through(
                                    log,
                                    old,
                                    led,
                                    idx as int,
                                    idx as int,
                                    idx as int,
                                );
                                if idx > last {
                                    assert(agree(log, led, last as int));
                                }
                                assert(log2 =~= led.take(last as int));
                                assert forall|i: int| 0 <= i < idx implies log2[i]
                                    == #[trigger] old[i] by {
                                    assert(log[i] == old[i]);
                                    assert(log[i] == led[i]);
                                }
                                assert(agree(log2, old, idx as int));
                            }
                        }
                    }
                } else {
                    law_log_changes(pre, ev, post, eff);
                    if agree(log, next.chronicle[a], idx as int) {
                        assert(agree(log2, next.chronicle[a], idx as int));
                    }
                }
            }
        }
        if next.broken(a, idx, pre.stored().term + 1) {
            next.lemma_broken_wider(
                a,
                idx,
                pre.stored().term + 1,
                post.stored().term + 1,
            );
        }
    }
}

impl<M: State, C, R> Cluster<M, C, R> {
    /// Whether node `v` voted for the leader of term `b` before it was elected.
    spec fn elector(&self, v: NodeId, b: TermIndex) -> bool {
        exists|q: RequestVoteRequest| #[trigger]
            self.voter_logs.contains_key((v, q)) && q.term == b && q.candidate == self.elected[b]
    }

    spec fn are_electors(&self, voters: Set<NodeId>, b: TermIndex) -> bool {
        &&& voters.finite()
        &&& 2 * voters.len() > self.nodes.dom().len()
        &&& forall|v: NodeId| #[trigger] voters.contains(v) ==> self.elector(v, b)
    }

    /// Every leader has its electors, and a vote in a term without a leader is on
    /// record.
    spec fn electors_ok(&self) -> bool {
        &&& forall|b: Ballot| #[trigger]
            self.ballots.contains(b) ==> self.elected.contains_key(b.1.term)
                || self.voter_logs.contains_key(b)
        &&& forall|b: TermIndex| #[trigger]
            self.elected.contains_key(b) ==> exists|voters: Set<NodeId>| #[trigger]
                self.are_electors(voters, b)
    }

    proof fn lemma_electors_start(self)
        requires
            self.starts(),
        ensures
            self.electors_ok(),
    {
    }

    proof fn lemma_electors(self, mv: Move<M, C, R>, next: Self)
        requires
            self.elections_ok(),
            self.electors_ok(),
            self.moves(mv, next),
        ensures
            next.electors_ok(),
    {
        let n = mv.node();
        let pre = self.nodes[n];
        self.lemma_elected(mv, next);
        self.lemma_introduced(mv, next);
        assert(self.knows_itself(n));
        assert forall|b: TermIndex| #[trigger] next.elected.contains_key(b) implies exists|
            voters: Set<NodeId>,
        | #[trigger] next.are_electors(voters, b) by {
            if self.elected.contains_key(b) {
                let voters = choose|voters: Set<NodeId>| #[trigger] self.are_electors(voters, b);
                assert forall|v: NodeId| #[trigger] voters.contains(v) implies next.elector(
                    v,
                    b,
                ) by {
                    assert(self.elector(v, b));
                    let q = choose|q: RequestVoteRequest| #[trigger]
                        self.voter_logs.contains_key((v, q)) && q.term == b && q.candidate
                            == self.elected[b];
                    assert(next.voter_logs.contains_key((v, q)));
                }
                assert(next.are_electors(voters, b));
            } else if let Move::React { node, ev, post, eff, ballot, about, last } = mv {
                law_leader_was_elected(pre, ev, post, eff);
                assert(self.voted(ballot.0, n, b));
                self.lemma_first_leader(n, ballot.0);
                let voters = self.counted[n].insert(ballot.0);
                assert forall|v: NodeId| #[trigger] voters.contains(v) implies next.elector(
                    v,
                    b,
                ) by {
                    assert(self.voted(v, n, b));
                    let q = choose|q: RequestVoteRequest| #[trigger]
                        self.ballots.contains((v, q)) && q.term == b && q.candidate == n;
                    assert(self.ballots.contains((v, q)));
                    assert(self.voter_logs.contains_key((v, q)));
                    assert(next.voter_logs.contains_key((v, q)));
                }
                assert(next.are_electors(voters, b));
            }
        }
    }

    /// Whether the leader of term `a` logged the entry `idx` in its term and a majority
    /// had its log up to there.
    pub open spec fn chosen(&self, a: TermIndex, idx: LogIndex) -> bool {
        &&& self.chronicle.contains_key(a)
        &&& 1 <= idx <= self.chronicle[a].len()
        &&& self.chronicle[a][idx - 1].term == a
        &&& exists|holders: Set<NodeId>| #[trigger] self.are_holders(holders, a, idx)
    }

    pub open spec fn are_holders(&self, holders: Set<NodeId>, a: TermIndex, idx: LogIndex) -> bool {
        &&& holders.finite()
        &&& 2 * holders.len() > self.nodes.dom().len()
        &&& forall|p: NodeId| #[trigger] holders.contains(p) ==> self.held(p, a, idx)
    }

    /// What is chosen, every later leader has.
    proof fn lemma_chosen_kept_by_leaders(self, a: TermIndex, idx: LogIndex, b: TermIndex)
        requires
            self.elections_ok(),
            self.logs_ok(),
            self.terms_ok(),
            self.campaigns_ok(),
            self.holdings_ok(),
            self.electors_ok(),
            self.votes_were_due(),
            self.chosen(a, idx),
            self.chronicle.contains_key(b),
            a < b,
        ensures
            agree(self.chronicle[a], self.chronicle[b], idx as int),
        decreases b,
    {
        let holders = choose|holders: Set<NodeId>| #[trigger] self.are_holders(holders, a, idx);
        assert(self.elected.contains_key(b));
        let voters = choose|voters: Set<NodeId>| #[trigger] self.are_electors(voters, b);
        let all = self.nodes.dom();
        assert(holders.subset_of(all)) by {
            assert forall|p: NodeId| holders.contains(p) implies all.contains(p) by {
                assert(self.held(p, a, idx));
                assert(self.keeps(p, a, idx));
            }
        }
        assert(voters.subset_of(all)) by {
            assert forall|v: NodeId| voters.contains(v) implies all.contains(v) by {
                assert(self.elector(v, b));
                let q = choose|q: RequestVoteRequest| #[trigger]
                    self.voter_logs.contains_key((v, q)) && q.term == b && q.candidate
                        == self.elected[b];
                assert(self.voter_logs.contains_key((v, q)));
                assert(self.ballots.contains((v, q)));
            }
        }
        law_majorities_meet(all, holders, voters);
        let v = choose|v: NodeId| holders.contains(v) && voters.contains(v);
        assert(self.held(v, a, idx));
        assert(self.elector(v, b));
        let q = choose|q: RequestVoteRequest| #[trigger]
            self.voter_logs.contains_key((v, q)) && q.term == b && q.candidate == self.elected[b];
        let ballot: Ballot = (v, q);
        let seen = self.voter_logs[ballot];
        let first = self.chronicle[a];
        let led = self.chronicle[b];
        assert(self.voter_logs.contains_key(ballot) && self.held(ballot.0, a, idx));
        if self.broken(a, idx, b as int) {
            let c = choose|c: TermIndex|
                a < c < b as int && #[trigger] self.chronicle.contains_key(c) && !agree(
                    self.chronicle[a],
                    self.chronicle[c],
                    idx as int,
                );
            self.lemma_chosen_kept_by_leaders(a, idx, c);
            assert(false);
        }
        assert(agree(seen, first, idx as int));
        assert(self.ballots.contains(ballot));
        assert(self.campaigns.contains(q));
        assert(self.campaign_ok(q));
        assert(self.origin(q));
        assert(is_up_to_date(q, seen));
        let end = seen.len() - 1;
        assert(seen[idx - 1] == first[idx - 1]);
        assert(ascending(seen));
        assert(seen[end].term >= a);
        let at = q.last_log_index as int;
        assert(at >= 1) by {
            if at == 0 {
                assert(q.last_log_term == 0);
            }
        }
        let t = led[at - 1].term;
        assert(t == q.last_log_term);
        assert(backed(led, self.chronicle));
        assert(agree(led, self.chronicle[t], at));
        if q.last_log_term == seen[end].term {
            assert(backed(seen, self.chronicle));
            assert(agree(seen, self.chronicle[t], end + 1));
            assert forall|i: int| 0 <= i < idx implies first[i] == #[trigger] led[i] by {
                assert(seen[i] == first[i]);
                assert(seen[i] == self.chronicle[t][i]);
                assert(led[i] == self.chronicle[t][i]);
            }
        } else {
            assert(a < t < b);
            assert(self.chronicle.contains_key(t));
            self.lemma_chosen_kept_by_leaders(a, idx, t);
            let mid = self.chronicle[t];
            if at <= idx {
                assert(first[at - 1] == mid[at - 1]);
                assert(led[at - 1] == mid[at - 1]);
                assert(up_to(first, a as int));
                assert(false);
            }
            assert forall|i: int| 0 <= i < idx implies first[i] == #[trigger] led[i] by {
                assert(first[i] == mid[i]);
                assert(led[i] == mid[i]);
            }
        }
    }

    /// What a leader has committed is chosen.
    spec fn commits_chosen(&self) -> bool {
        forall|a: TermIndex| #[trigger]
            self.committed.contains_key(a) ==> self.committed[a] == 0 || self.chosen(
                a,
                self.committed[a],
            )
    }

    proof fn lemma_chosen_stays(self, next: Self, a: TermIndex, idx: LogIndex)
        requires
            grown(self.chronicle, next.chronicle),
            self.elected.submap_of(next.elected),
            self.elected.dom() == self.chronicle.dom(),
            self.answers.subset_of(next.answers),
            self.nodes.dom() == next.nodes.dom(),
            self.chosen(a, idx),
        ensures
            next.chosen(a, idx),
    {
        let holders = choose|holders: Set<NodeId>| #[trigger] self.are_holders(holders, a, idx);
        let x = self.chronicle[a];
        let y = next.chronicle[a];
        assert(self.chronicle.contains_key(a) && next.chronicle.contains_key(a));
        assert(agree(x, y, x.len() as int));
        assert(x[idx - 1] == y[idx - 1]);
        assert(self.elected.contains_key(a));
        assert(next.elected.contains_key(a));
        assert(next.elected[a] == self.elected[a]);
        assert forall|p: NodeId| #[trigger] holders.contains(p) implies next.held(p, a, idx) by {
            assert(self.held(p, a, idx));
            if self.accepted(p, a, idx) {
                self.lemma_accepted_kept(next, p, a, idx);
            }
        }
        assert(next.are_holders(holders, a, idx));
    }

    proof fn lemma_commits_chosen(self, mv: Move<M, C, R>, next: Self)
        requires
            self.elections_ok(),
            self.logs_ok(),
            self.progress_ok(),
            self.commits_chosen(),
            self.moves(mv, next),
        ensures
            next.commits_chosen(),
    {
        let n = mv.node();
        let pre = self.nodes[n];
        let post = mv.post();
        self.lemma_elected(mv, next);
        self.lemma_introduced(mv, next);
        self.lemma_logs(mv, next);
        assert(self.knows_itself(n));
        assert(self.answers.subset_of(next.answers));
        assert forall|a: TermIndex| #[trigger] next.committed.contains_key(a) implies next.committed[a]
            == 0 || next.chosen(a, next.committed[a]) by {
            if self.committed.contains_key(a) && next.committed[a] == self.committed[a] {
                if self.committed[a] != 0 {
                    self.lemma_chosen_stays(next, a, self.committed[a]);
                }
            } else if let Move::Settle { node, post, settled } = mv {
                let idx = post.inner().commit_index;
                assert(a == post.stored().term && next.committed[a] == idx);
                let w = pre->Leader_0;
                assert(w.committable(idx));
                assert(self.leads(n));
                assert(self.progress_of(n));
                let matched = w.state.match_indices@;
                let has = |p: NodeId| matched[p] >= idx;
                let found = w.inner.peers@.filter(has);
                lemma_filter_set(w.inner.peers@, has);
                found.unique_seq_to_set();
                let peers = found.to_set();
                assert(!peers.contains(n)) by {
                    if found.contains(n) {
                        assert(w.inner.peers@.to_set().contains(n));
                    }
                }
                let holders = peers.insert(n);
                assert forall|p: NodeId| #[trigger] holders.contains(p) implies next.held(
                    p,
                    a,
                    idx,
                ) by {
                    if p != n {
                        assert(found.contains(p));
                        assert(w.inner.peers@.to_set().contains(p));
                        assert(matched.contains_key(p));
                        let (q, resp) = choose|
                            q: AppendEntriesView<M::Command>,
                            resp: AppendEntriesResponse,
                        | #[trigger]
                            self.answers.contains((p, q, resp)) && resp.success && q.term == a
                                && matched[p] <= q.prev_log_index + q.entries.len();
                        assert(next.answers.contains((p, q, resp)));
                        assert(next.accepted(p, a, idx));
                    }
                }
                assert(next.are_holders(holders, a, idx));
            }
        }
    }
}

proof fn lemma_restricted_history<M: State, C, R>(
    h: Seq<Cluster<M, C, R>>,
    ms: Seq<Move<M, C, R>>,
    k: int,
)
    requires
        is_history(h, ms),
        0 <= k < h.len(),
    ensures
        h[k].terms_ok(),
        h[k].campaigns_ok(),
        h[k].holdings_ok(),
        h[k].electors_ok(),
        h[k].commits_chosen(),
        h[k].votes_were_due(),
    decreases k,
{
    if k == 0 {
        h[0].lemma_terms_start();
        h[0].lemma_holdings_start();
        h[0].lemma_electors_start();
    } else {
        let mv = ms[k - 1];
        lemma_restricted_history(h, ms, k - 1);
        lemma_history(h, ms, k - 1);
        lemma_progress_history(h, ms, k - 1);
        assert(h[k - 1].moves(mv, h[k]));
        h[k - 1].lemma_terms(mv, h[k]);
        h[k - 1].lemma_campaigns(mv, h[k]);
        h[k - 1].lemma_holdings(mv, h[k]);
        h[k - 1].lemma_electors(mv, h[k]);
        h[k - 1].lemma_commits_chosen(mv, h[k]);
        h[k - 1].lemma_votes_due(mv, h[k]);
    }
}

/// Every leader has what the leaders of earlier terms have committed.
pub proof fn law_leaders_are_complete<M: State, C, R>(
    h: Seq<Cluster<M, C, R>>,
    ms: Seq<Move<M, C, R>>,
    k: int,
)
    requires
        is_history(h, ms),
        0 <= k < h.len(),
    ensures
        h[k].leaders_complete(),
{
    lemma_restricted_history(h, ms, k);
    lemma_history(h, ms, k);
    let s = h[k];
    assert forall|a: TermIndex, b: TermIndex|
        #![trigger s.chronicle.contains_key(a), s.chronicle.contains_key(b)]
        s.chronicle.contains_key(a) && s.chronicle.contains_key(b) && a < b implies agree(
        s.chronicle[a],
        s.chronicle[b],
        s.committed[a] as int,
    ) by {
        lemma_committed_terms(h, ms, k);
        if s.committed[a] != 0 {
            s.lemma_chosen_kept_by_leaders(a, s.committed[a], b);
        }
    }
}

/// All nodes apply the same commands in the same order: of what two nodes have applied,
/// at the same time or not, one is the beginning of the other, and their state machines
/// are where it leads.
pub proof fn law_same_order_everywhere<M: State, C, R>(
    h: Seq<Cluster<M, C, R>>,
    ms: Seq<Move<M, C, R>>,
    a: int,
    i: NodeId,
    b: int,
    j: NodeId,
)
    requires
        is_history(h, ms),
        0 <= a <= b < h.len(),
        h[a].nodes.contains_key(i),
        h[b].nodes.contains_key(j),
    ensures
        h[a].applied(i).is_prefix_of(h[b].applied(j)) || h[b].applied(j).is_prefix_of(
            h[a].applied(i),
        ),
        h[a].nodes[i].inner().current_state@ == state_after::<M>(h[0].initial, h[a].applied(i)),
        h[b].nodes[j].inner().current_state@ == state_after::<M>(h[0].initial, h[b].applied(j)),
{
    assert forall|k: int| 0 <= k < h.len() implies (#[trigger] h[k]).leaders_complete() by {
        law_leaders_are_complete(h, ms, k);
    }
    assert(is_orderly(h));
    lemma_same_order(h, ms, a, i, b, j);
}

proof fn lemma_committed_terms<M: State, C, R>(
    h: Seq<Cluster<M, C, R>>,
    ms: Seq<Move<M, C, R>>,
    k: int,
)
    requires
        is_history(h, ms),
        0 <= k < h.len(),
    ensures
        h[k].committed.dom() == h[k].chronicle.dom(),
    decreases k,
{
    if k == 0 {
        assert(h[0].committed.dom() =~= h[0].chronicle.dom());
    } else {
        lemma_committed_terms(h, ms, k - 1);
        lemma_history(h, ms, k - 1);
        let mv = ms[k - 1];
        let n = mv.node();
        assert(h[k - 1].moves(mv, h[k]));
        h[k - 1].lemma_elected(mv, h[k]);
        assert(h[k - 1].knows_itself(n));
        assert(h[k].committed.dom() =~= h[k].chronicle.dom());
    }
}

} // verus!
