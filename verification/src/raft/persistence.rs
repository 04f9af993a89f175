//! The persistent state of a node that goes by a name.
//!
//! It keeps less than [`super::storage::Storage`]: the term and the vote survive a
//! restart, the length of the log does not.

use super::storage::{performed, Item, Write, WriteView};
use super::{Command, LogEntry, LogIndex, TermIndex};
use crate::text::{
    decimal, law_numeral_injective, law_parsed_numeral, parse_number, parsed, push_decimal,
};
use vstd::prelude::*;

verus! {

pub open spec fn current_term_key(session_key: Seq<char>) -> Seq<char> {
    "current-term-"@ + session_key
}

pub open spec fn voted_for_key(session_key: Seq<char>) -> Seq<char> {
    "voted-for-"@ + session_key
}

pub open spec fn log_key(session_key: Seq<char>, idx: nat) -> Seq<char> {
    "log-"@ + session_key + "-"@ + decimal(idx)
}

/// The write that stores a term.
pub open spec fn term_write<T>(session_key: Seq<char>, term: TermIndex) -> WriteView<T> {
    WriteView::Put(current_term_key(session_key), decimal(term as nat))
}

/// The write that stores a vote, or that there is none.
pub open spec fn vote_write<T>(session_key: Seq<char>, vote: Option<Seq<char>>) -> WriteView<T> {
    match vote {
        Some(name) => WriteView::Put(voted_for_key(session_key), name),
        None => WriteView::Remove(voted_for_key(session_key)),
    }
}

#[derive(Debug)]
pub struct PersistentState<T> {
    session_key: String,
    current_term: TermIndex,
    voted_for: Option<String>,
    log: Vec<LogEntry<T>>,
    writes: Vec<Write<T>>,
}

/// A persistent state: the term, the vote and the entries that were logged since the
/// start.
pub struct PersistentView<T> {
    pub session_key: Seq<char>,
    pub term: TermIndex,
    pub voted_for: Option<Seq<char>>,
    pub log: Seq<LogEntry<T>>,
    pub pending: Seq<WriteView<T>>,
}

pub open spec fn text_of(s: Option<String>) -> Option<Seq<char>> {
    match s {
        Some(s) => Some(s@),
        None => None,
    }
}

impl<T> View for PersistentState<T> {
    type V = PersistentView<T>;

    closed spec fn view(&self) -> PersistentView<T> {
        PersistentView {
            session_key: self.session_key@,
            term: self.current_term,
            voted_for: text_of(self.voted_for),
            log: self.log@,
            pending: self.writes@.map_values(|w: Write<T>| w@),
        }
    }
}

/// The state after a restart that found `term` and `vote` in local storage. Both are
/// stored again.
pub open spec fn restored<T>(
    session_key: Seq<char>,
    term: Option<nat>,
    vote: Option<Seq<char>>,
) -> PersistentView<T> {
    let term_writes = match term {
        Some(n) => seq![term_write::<T>(session_key, n as u64)],
        None => Seq::empty(),
    };
    PersistentView {
        session_key,
        term: match term {
            Some(n) => n as u64,
            None => 0,
        },
        voted_for: vote,
        log: Seq::empty(),
        pending: match vote {
            Some(_) => term_writes.push(vote_write(session_key, vote)),
            None => term_writes,
        },
    }
}

impl<T: Command> PersistentState<T> {
    pub open spec fn wf(&self) -> bool {
        self@.log.len() <= u64::MAX
    }

    /// Starts from what local storage has under the keys of the term and the vote.
    /// `None` where the term is not a number.
    pub fn new(session_key: &str, term: Option<String>, vote: Option<String>) -> (r: Option<Self>)
        ensures
            match (term, r) {
                (Some(text), None) => parsed(text@, 10, u64::MAX as nat) is None,
                (Some(text), Some(s)) => {
                    &&& parsed(text@, 10, u64::MAX as nat) matches Some(n)
                    &&& s@ == restored::<T>(session_key@, Some(n), text_of(vote))
                },
                (None, Some(s)) => s@ == restored::<T>(session_key@, None, text_of(vote)),
                (None, None) => false,
            },
            r matches Some(s) ==> s.wf(),
    {
        let mut state = PersistentState {
            session_key: session_key.to_owned(),
            current_term: 0,
            voted_for: None,
            log: Vec::new(),
            writes: Vec::new(),
        };
        assert(state@.pending =~= Seq::<WriteView<T>>::empty());
        match term {
            Some(text) => match parse_number(text.as_str(), 10, u64::MAX as u128) {
                Some(n) => {
                    state.set_current_term(n as u64);
                    assert(state@.pending =~= seq![term_write::<T>(session_key@, n as u64)]);
                },
                None => {
                    return None;
                },
            },
            None => {},
        }
        match vote {
            Some(name) => {
                state.set_voted_for(Some(name));
            },
            None => {},
        }
        assert(state@.log =~= Seq::<LogEntry<T>>::empty());
        Some(state)
    }

    pub fn last_log_index(&self) -> (r: LogIndex)
        requires
            self.wf(),
        ensures
            r == self@.log.len(),
    {
        self.log.len() as u64
    }

    /// The term of the last entry; zero where there is none.
    pub fn last_log_term(&self) -> (r: TermIndex)
        requires
            self.wf(),
        ensures
            r == if self@.log.len() > 0 {
                self@.log.last().term
            } else {
                0
            },
    {
        if self.log.len() > 0 {
            self.log[self.log.len() - 1].term
        } else {
            0
        }
    }

    /// Goes on to a later term, without a vote. Returns whether the term is later.
    pub fn update_term(&mut self, term: TermIndex) -> (r: bool)
        ensures
            r == (old(self)@.term < term),
            final(self)@ == if r {
                PersistentView {
                    term,
                    voted_for: None,
                    pending: old(self)@.pending.push(vote_write(old(self)@.session_key, None)).push(
                        term_write(old(self)@.session_key, term),
                    ),
                    ..old(self)@
                }
            } else {
                old(self)@
            },
    {
        if self.current_term < term {
            self.set_voted_for(None);
            self.set_current_term(term);
            true
        } else {
            false
        }
    }

    pub fn increment_term(&mut self)
        requires
            old(self)@.term < u64::MAX,
        ensures
            final(self)@ == (PersistentView {
                term: (old(self)@.term + 1) as u64,
                voted_for: None,
                pending: old(self)@.pending.push(vote_write(old(self)@.session_key, None)).push(
                    term_write(old(self)@.session_key, (old(self)@.term + 1) as u64),
                ),
                ..old(self)@
            }),
    {
        self.set_voted_for(None);
        self.set_current_term(self.current_term + 1);
    }

    /// Adds an entry behind the last one.
    pub fn append_log(&mut self, entry: LogEntry<T>)
        requires
            old(self).wf(),
            old(self)@.log.len() < u64::MAX,
        ensures
            final(self).wf(),
            final(self)@ == (PersistentView {
                log: old(self)@.log.push(entry),
                pending: old(self)@.pending.push(
                    WriteView::PutEntry(
                        log_key(old(self)@.session_key, (old(self)@.log.len() + 1) as nat),
                        entry,
                    ),
                ),
                ..old(self)@
            }),
    {
        let mut key = "log-".to_owned();
        key.append(self.session_key.as_str());
        key.append("-");
        push_decimal(&mut key, self.log.len() as u128 + 1);
        self.writes.push(Write::PutEntry { key, entry: entry.duplicate() });
        self.log.push(entry);
        assert(self@.pending =~= old(self)@.pending.push(
            WriteView::PutEntry(
                log_key(old(self)@.session_key, (old(self)@.log.len() + 1) as nat),
                entry,
            ),
        ));
    }

    pub fn current_term(&self) -> (r: TermIndex)
        ensures
            r == self@.term,
    {
        self.current_term
    }

    fn set_current_term(&mut self, term: TermIndex)
        ensures
            final(self)@ == (PersistentView {
                term,
                pending: old(self)@.pending.push(term_write(old(self)@.session_key, term)),
                ..old(self)@
            }),
    {
        self.current_term = term;
        let mut key = "current-term-".to_owned();
        key.append(self.session_key.as_str());
        let mut value = String::new();
        push_decimal(&mut value, term as u128);
        self.writes.push(Write::Put { key, value });
        assert(self@.pending =~= old(self)@.pending.push(
            term_write(old(self)@.session_key, term),
        ));
    }

    pub fn voted_for(&self) -> (r: &Option<String>)
        ensures
            text_of(*r) == self@.voted_for,
    {
        &self.voted_for
    }

    pub fn set_voted_for(&mut self, val: Option<String>)
        ensures
            final(self)@ == (PersistentView {
                voted_for: text_of(val),
                pending: old(self)@.pending.push(
                    vote_write(old(self)@.session_key, text_of(val)),
                ),
                ..old(self)@
            }),
    {
        let mut key = "voted-for-".to_owned();
        key.append(self.session_key.as_str());
        match &val {
            Some(name) => {
                self.writes.push(Write::Put { key, value: name.clone() });
            },
            None => {
                self.writes.push(Write::Remove { key });
            },
        }
        self.voted_for = val;
        assert(self@.pending =~= old(self)@.pending.push(
            vote_write(old(self)@.session_key, text_of(val)),
        ));
    }

    /// Hands out the writes that local storage has yet to see.
    pub fn take_writes(&mut self) -> (r: Vec<Write<T>>)
        ensures
            r@.map_values(|w: Write<T>| w@) == old(self)@.pending,
            final(self)@ == (PersistentView { pending: Seq::empty(), ..old(self)@ }),
    {
        let mut r: Vec<Write<T>> = Vec::new();
        std::mem::swap(&mut r, &mut self.writes);
        assert(self@.pending =~= Seq::<WriteView<T>>::empty());
        r
    }
}

/// The keys of a node are all different.
pub proof fn law_keys_differ(s: Seq<char>, i: nat, j: nat)
    ensures
        current_term_key(s) != voted_for_key(s),
        log_key(s, i) != current_term_key(s),
        log_key(s, i) != voted_for_key(s),
        i != j ==> log_key(s, i) != log_key(s, j),
{
    reveal_strlit("current-term-");
    reveal_strlit("voted-for-");
    reveal_strlit("log-");
    assert(current_term_key(s)[0] == 'c');
    assert(voted_for_key(s)[0] == 'v');
    assert(log_key(s, i)[0] == 'l');
    if log_key(s, i) == log_key(s, j) {
        let head = "log-"@ + s + "-"@;
        assert(log_key(s, i).skip(head.len() as int) =~= decimal(i));
        assert(log_key(s, j).skip(head.len() as int) =~= decimal(j));
        law_numeral_injective(i, j, 10);
    }
}

/// A term and a vote that were written are what a restart finds: the term as a number
/// under its key, and the vote, or that there is none, under its own.
pub proof fn law_term_and_vote_survive<T>(
    m: Map<Seq<char>, Item<T>>,
    s: Seq<char>,
    term: TermIndex,
    vote: Option<Seq<char>>,
)
    ensures
        ({
            let after = performed(
                performed(m, vote_write::<T>(s, vote)),
                term_write::<T>(s, term),
            );
            let text = decimal(term as nat);
            let again = restored::<T>(s, parsed(text, 10, u64::MAX as nat), vote);
            &&& after.contains_pair("current-term-"@ + s, Item::<T>::Text(text))
            &&& match vote {
                Some(name) => after.contains_pair("voted-for-"@ + s, Item::<T>::Text(name)),
                None => !after.contains_key("voted-for-"@ + s),
            }
            &&& again.session_key == s
            &&& again.term == term
            &&& again.voted_for == vote
            &&& again.log.len() == 0
        }),
{
    law_keys_differ(s, 0, 0);
    law_parsed_numeral(term as nat, 10, u64::MAX as nat);
}

/// A restart that finds nothing starts in term zero, without a vote or a log, and has
/// nothing to write; what it finds it writes again.
pub proof fn law_restart_writes_again<T>(s: Seq<char>, term: TermIndex, vote: Seq<char>)
    ensures
        ({
            let fresh = restored::<T>(s, None, None);
            &&& fresh.term == 0
            &&& fresh.voted_for is None
            &&& fresh.log.len() == 0
            &&& fresh.pending.len() == 0
        }),
        restored::<T>(s, Some(term as nat), Some(vote)).pending == seq![
            WriteView::<T>::Put("current-term-"@ + s, decimal(term as nat)),
            WriteView::<T>::Put("voted-for-"@ + s, vote),
        ],
{
    assert(restored::<T>(s, Some(term as nat), Some(vote)).pending =~= seq![
        WriteView::<T>::Put("current-term-"@ + s, decimal(term as nat)),
        WriteView::<T>::Put("voted-for-"@ + s, vote),
    ]);
}

} // verus!
