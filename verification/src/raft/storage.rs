//! What a node must remember across restarts: its term, its vote and its log.
//!
//! The log is kept in memory; each change leaves the writes behind that carry it
//! into the browser's local storage.

use super::{Command, LogEntry, LogIndex, NodeId, TermIndex};
use crate::text::{
    decimal, law_numeral_injective, law_parsed_numeral, lemma_numeral_then_dash, parse_number,
    parsed, push_decimal,
};
use vstd::prelude::*;

verus! {

/// One change to local storage.
#[derive(Debug, Clone)]
pub enum Write<T> {
    Put { key: String, value: String },
    PutEntry { key: String, entry: LogEntry<T> },
    Remove { key: String },
}

/// What a key of local storage holds: a text, or an encoded log entry.
pub enum Item<T> {
    Text(Seq<char>),
    Entry(LogEntry<T>),
}

pub enum WriteView<T> {
    Put(Seq<char>, Seq<char>),
    PutEntry(Seq<char>, LogEntry<T>),
    Remove(Seq<char>),
}

impl<T> WriteView<T> {
    pub open spec fn key(&self) -> Seq<char> {
        match *self {
            WriteView::Put(key, _) => key,
            WriteView::PutEntry(key, _) => key,
            WriteView::Remove(key) => key,
        }
    }
}

impl<T> View for Write<T> {
    type V = WriteView<T>;

    open spec fn view(&self) -> WriteView<T> {
        match *self {
            Write::Put { key, value } => WriteView::Put(key@, value@),
            Write::PutEntry { key, entry } => WriteView::PutEntry(key@, entry),
            Write::Remove { key } => WriteView::Remove(key@),
        }
    }
}

/// Local storage after one write.
pub open spec fn performed<T>(m: Map<Seq<char>, Item<T>>, w: WriteView<T>) -> Map<
    Seq<char>,
    Item<T>,
> {
    match w {
        WriteView::Put(key, value) => m.insert(key, Item::Text(value)),
        WriteView::PutEntry(key, entry) => m.insert(key, Item::Entry(entry)),
        WriteView::Remove(key) => m.remove(key),
    }
}

/// Local storage after a run of writes.
pub open spec fn replayed<T>(m: Map<Seq<char>, Item<T>>, ws: Seq<WriteView<T>>) -> Map<
    Seq<char>,
    Item<T>,
>
    decreases ws.len(),
{
    if ws.len() == 0 {
        m
    } else {
        performed(replayed(m, ws.drop_last()), ws.last())
    }
}

/// The persistent state of a node.
pub struct StorageView<T> {
    pub term: TermIndex,
    pub voted_for: Option<NodeId>,
    pub log: Seq<LogEntry<T>>,
}

/// The entries of a log of which all were found.
pub open spec fn entries_of<T>(found: Seq<Option<LogEntry<T>>>) -> Seq<LogEntry<T>> {
    found.map_values(|e: Option<LogEntry<T>>| e->0)
}

/// Whether every entry was found, and under its own index.
pub open spec fn is_whole<T>(found: Seq<Option<LogEntry<T>>>) -> bool {
    &&& forall|i: int| 0 <= i < found.len() ==> (#[trigger] found[i]) is Some
    &&& numbered(entries_of(found))
}

/// Entries are numbered from one, without gaps.
pub open spec fn numbered<T>(log: Seq<LogEntry<T>>) -> bool {
    &&& log.len() <= u64::MAX
    &&& forall|i: int| 0 <= i < log.len() ==> (#[trigger] log[i]).idx == i + 1
}

/// The entry with index `idx`, where the log has it.
pub open spec fn entry_at<T>(log: Seq<LogEntry<T>>, idx: int) -> Option<LogEntry<T>> {
    if 1 <= idx <= log.len() {
        Some(log[idx - 1])
    } else {
        None
    }
}

/// The term of the entry with index `idx`; zero where there is none.
pub open spec fn term_at<T>(log: Seq<LogEntry<T>>, idx: int) -> TermIndex {
    match entry_at(log, idx) {
        Some(entry) => entry.term,
        None => 0,
    }
}

/// The entries of the log with indices from `first` to `last`.
pub open spec fn entries_between<T>(log: Seq<LogEntry<T>>, first: int, last: int) -> Seq<
    LogEntry<T>,
> {
    let lo = if first < 1 {
        0
    } else {
        first - 1
    };
    let hi = if last > log.len() {
        log.len() as int
    } else {
        last
    };
    if lo < hi {
        log.subrange(lo, hi)
    } else {
        Seq::empty()
    }
}

pub open spec fn current_term_key(session_key: u128) -> Seq<char> {
    "current-term-"@ + decimal(session_key as nat)
}

pub open spec fn voted_for_key(session_key: u128) -> Seq<char> {
    "voted-for-"@ + decimal(session_key as nat)
}

pub open spec fn last_log_index_key(session_key: u128) -> Seq<char> {
    "last-log-index-"@ + decimal(session_key as nat)
}

pub open spec fn log_key(session_key: u128, idx: nat) -> Seq<char> {
    "log-"@ + decimal(session_key as nat) + "-"@ + decimal(idx)
}

/// Whether the key is one of the session's.
pub open spec fn is_own_key(session_key: u128, key: Seq<char>) -> bool {
    ||| key == current_term_key(session_key)
    ||| key == voted_for_key(session_key)
    ||| key == last_log_index_key(session_key)
    ||| exists|idx: nat| key == #[trigger] log_key(session_key, idx)
}

/// Whether the writes are to keys of the session only.
pub open spec fn own_writes<T>(session_key: u128, ws: Seq<WriteView<T>>) -> bool {
    forall|i: int| 0 <= i < ws.len() ==> is_own_key(session_key, (#[trigger] ws[i]).key())
}

/// The writes with which a session moves on to a term, without a vote in it.
pub open spec fn term_writes<T>(session_key: u128, term: TermIndex) -> Seq<WriteView<T>> {
    seq![
        WriteView::Remove(voted_for_key(session_key)),
        WriteView::Put(current_term_key(session_key), decimal(term as nat)),
    ]
}

/// The writes that add an entry to the log of a session.
pub open spec fn append_writes<T>(session_key: u128, entry: LogEntry<T>) -> Seq<WriteView<T>> {
    seq![
        WriteView::Put(last_log_index_key(session_key), decimal(entry.idx as nat)),
        WriteView::PutEntry(log_key(session_key, entry.idx as nat), entry),
    ]
}

/// The writes that cut the log of a session before the entry and add it.
pub open spec fn overwrite_writes<T>(session_key: u128, entry: LogEntry<T>) -> Seq<WriteView<T>> {
    seq![
        WriteView::Put(last_log_index_key(session_key), decimal((entry.idx - 1) as nat)),
    ] + append_writes(session_key, entry)
}

/// The number in a stored text; zero where nothing is stored.
pub open spec fn stored_number(text: Option<Seq<char>>) -> Option<nat> {
    match text {
        Some(s) => parsed(s, 10, u64::MAX as nat),
        None => Some(0),
    }
}

/// The state that the stored texts and entries describe.
pub open spec fn restored<T>(
    term: Option<Seq<char>>,
    vote: Option<Seq<char>>,
    last: Option<Seq<char>>,
    log: Seq<LogEntry<T>>,
) -> Option<StorageView<T>> {
    match (stored_number(term), stored_number(vote), stored_number(last)) {
        (Some(t), Some(v), Some(n)) => if n == log.len() && numbered(log) {
            Some(
                StorageView {
                    term: t as u64,
                    voted_for: if vote is Some {
                        Some(v as u64)
                    } else {
                        None
                    },
                    log,
                },
            )
        } else {
            None
        },
        _ => None,
    }
}

/// Whether `key` is absent or holds a text, and which.
pub open spec fn reads<T>(m: Map<Seq<char>, Item<T>>, key: Seq<char>, text: Option<Seq<char>>) -> bool {
    match text {
        Some(s) => m.contains_key(key) && m[key] == Item::<T>::Text(s),
        None => !m.contains_key(key),
    }
}

/// Whether the log's entries are stored under their keys.
pub open spec fn stores_log<T>(
    m: Map<Seq<char>, Item<T>>,
    session_key: u128,
    log: Seq<LogEntry<T>>,
) -> bool {
    forall|i: int|
        0 <= i < log.len() ==> {
            let key = #[trigger] log_key(session_key, (i + 1) as nat);
            m.contains_key(key) && m[key] == Item::Entry(log[i])
        }
}

/// Whether a restart that reads local storage `m` comes back with the state `v`.
pub open spec fn holds<T>(m: Map<Seq<char>, Item<T>>, session_key: u128, v: StorageView<T>) -> bool {
    exists|term: Option<Seq<char>>, vote: Option<Seq<char>>, last: Option<Seq<char>>|
        #![trigger restored(term, vote, last, v.log)]
        {
            &&& reads(m, current_term_key(session_key), term)
            &&& reads(m, voted_for_key(session_key), vote)
            &&& reads(m, last_log_index_key(session_key), last)
            &&& stores_log(m, session_key, v.log)
            &&& restored(term, vote, last, v.log) == Some(v)
        }
}

#[derive(Debug)]
pub struct Storage<T> {
    session_key: u128,
    current_term: TermIndex,
    voted_for: Option<NodeId>,
    log: Vec<Option<LogEntry<T>>>,
    writes: Vec<Write<T>>,
}

impl<T> View for Storage<T> {
    type V = StorageView<T>;

    closed spec fn view(&self) -> StorageView<T> {
        StorageView {
            term: self.current_term,
            voted_for: self.voted_for,
            log: entries_of(self.log@),
        }
    }
}

impl<T> Storage<T> {
    pub closed spec fn session(&self) -> u128 {
        self.session_key
    }

    /// The writes that local storage has yet to see.
    pub closed spec fn pending(&self) -> Seq<WriteView<T>> {
        self.writes@.map_values(|w: Write<T>| w@)
    }

    /// What was found of the log: for each index up to the last, the entry, or that it
    /// is missing.
    pub closed spec fn found(&self) -> Seq<Option<LogEntry<T>>> {
        self.log@
    }

    /// Whether the log is whole.
    pub open spec fn wf(&self) -> bool {
        &&& self@.log == entries_of(self.found())
        &&& is_whole(self.found())
    }

    /// Whether an index is outside the log, or its entry was found.
    pub open spec fn is_readable(&self, idx: int) -> bool {
        1 <= idx <= self.found().len() ==> self.found()[idx - 1] is Some
    }

    /// Whether the writes that were added since `before` turn any local storage that
    /// held its state into one that holds this state, and touch no key but those of the
    /// session.
    pub open spec fn follows(&self, before: Storage<T>) -> bool {
        &&& self.session() == before.session()
        &&& before.pending().is_prefix_of(self.pending())
        &&& own_writes(self.session(), self.pending().skip(before.pending().len() as int))
        &&& forall|m: Map<Seq<char>, Item<T>>| #[trigger]
            holds(m, before.session(), before@) ==> holds(
                replayed(m, self.pending().skip(before.pending().len() as int)),
                before.session(),
                self@,
            )
    }
}

impl<T> Storage<T> {
    pub proof fn lemma_follows_itself(self)
        ensures
            self.follows(self),
    {
        assert forall|m: Map<Seq<char>, Item<T>>| #[trigger]
            holds(m, self.session(), self@) implies holds(
            replayed(m, self.pending().skip(self.pending().len() as int)),
            self.session(),
            self@,
        ) by {
            assert(self.pending().skip(self.pending().len() as int).len() == 0);
        }
    }

    pub proof fn lemma_follows_transitive(self, middle: Storage<T>, first: Storage<T>)
        requires
            self.follows(middle),
            middle.follows(first),
        ensures
            self.follows(first),
    {
        let a = first.pending();
        let b = middle.pending();
        let c = self.pending();
        assert forall|m: Map<Seq<char>, Item<T>>| #[trigger]
            holds(m, first.session(), first@) implies holds(
            replayed(m, c.skip(a.len() as int)),
            first.session(),
            self@,
        ) by {
            lemma_replayed_concat(m, b.skip(a.len() as int), c.skip(b.len() as int));
            assert(c.skip(a.len() as int) =~= b.skip(a.len() as int) + c.skip(b.len() as int));
        }
        assert(a =~= c.take(a.len() as int));
        let added = c.skip(a.len() as int);
        assert forall|i: int| 0 <= i < added.len() implies is_own_key(
            self.session(),
            (#[trigger] added[i]).key(),
        ) by {
            if a.len() + i < b.len() {
                assert(added[i] == b.skip(a.len() as int)[i]);
            } else {
                assert(added[i] == c.skip(b.len() as int)[a.len() + i - b.len()]);
            }
        }
    }
}

proof fn lemma_replayed_concat<T>(
    m: Map<Seq<char>, Item<T>>,
    a: Seq<WriteView<T>>,
    b: Seq<WriteView<T>>,
)
    ensures
        replayed(m, a + b) == replayed(replayed(m, a), b),
    decreases b.len(),
{
    if b.len() == 0 {
        assert(a + b =~= a);
    } else {
        assert((a + b).drop_last() =~= a + b.drop_last());
        lemma_replayed_concat(m, a, b.drop_last());
    }
}

proof fn lemma_replayed_one<T>(m: Map<Seq<char>, Item<T>>, w: WriteView<T>)
    ensures
        replayed(m, seq![w]) == performed(m, w),
{
    assert(seq![w].drop_last() =~= Seq::<WriteView<T>>::empty());
    assert(replayed(m, Seq::<WriteView<T>>::empty()) == m);
}

/// The keys of a session are all different.
pub proof fn law_keys_distinct(s: u128, i: nat, j: nat)
    ensures
        current_term_key(s) != voted_for_key(s),
        current_term_key(s) != last_log_index_key(s),
        voted_for_key(s) != last_log_index_key(s),
        log_key(s, i) != current_term_key(s),
        log_key(s, i) != voted_for_key(s),
        log_key(s, i) != last_log_index_key(s),
        i != j ==> log_key(s, i) != log_key(s, j),
{
    reveal_strlit("current-term-");
    reveal_strlit("voted-for-");
    reveal_strlit("last-log-index-");
    reveal_strlit("log-");
    reveal_strlit("-");
    assert(current_term_key(s)[0] == 'c');
    assert(voted_for_key(s)[0] == 'v');
    assert(last_log_index_key(s)[0] == 'l');
    assert(last_log_index_key(s)[1] == 'a');
    assert(log_key(s, i)[0] == 'l');
    assert(log_key(s, i)[1] == 'o');
    if log_key(s, i) == log_key(s, j) {
        let head = "log-"@ + decimal(s as nat) + "-"@;
        assert(log_key(s, i).skip(head.len() as int) =~= decimal(i));
        assert(log_key(s, j).skip(head.len() as int) =~= decimal(j));
        law_numeral_injective(i, j, 10);
    }
}

/// Different sessions have no key in common.
pub proof fn law_sessions_apart(s: u128, t: u128, key: Seq<char>)
    requires
        s != t,
        is_own_key(s, key),
    ensures
        !is_own_key(t, key),
{
    if is_own_key(t, key) {
        reveal_strlit("current-term-");
        reveal_strlit("voted-for-");
        reveal_strlit("last-log-index-");
        reveal_strlit("log-");
        reveal_strlit("-");
        if key[0] == 'c' {
            let head = "current-term-"@;
            assert(current_term_key(s).skip(head.len() as int) =~= decimal(s as nat));
            assert(current_term_key(t).skip(head.len() as int) =~= decimal(t as nat));
        } else if key[0] == 'v' {
            let head = "voted-for-"@;
            assert(voted_for_key(s).skip(head.len() as int) =~= decimal(s as nat));
            assert(voted_for_key(t).skip(head.len() as int) =~= decimal(t as nat));
        } else if key[1] == 'a' {
            let head = "last-log-index-"@;
            assert(last_log_index_key(s).skip(head.len() as int) =~= decimal(s as nat));
            assert(last_log_index_key(t).skip(head.len() as int) =~= decimal(t as nat));
        } else {
            let i = choose|i: nat| key == #[trigger] log_key(s, i);
            let j = choose|j: nat| key == #[trigger] log_key(t, j);
            lemma_log_keys_apart(s, i, t, j);
        }
        law_numeral_injective(s as nat, t as nat, 10);
    }
}

/// What a session writes leaves every other key of local storage as it is.
pub proof fn law_other_keys_untouched<T>(
    m: Map<Seq<char>, Item<T>>,
    s: u128,
    ws: Seq<WriteView<T>>,
    key: Seq<char>,
)
    requires
        own_writes(s, ws),
        !is_own_key(s, key),
    ensures
        replayed(m, ws).contains_key(key) == m.contains_key(key),
        m.contains_key(key) ==> replayed(m, ws)[key] == m[key],
    decreases ws.len(),
{
    if ws.len() > 0 {
        let init = ws.drop_last();
        assert forall|i: int| 0 <= i < init.len() implies is_own_key(
            s,
            (#[trigger] init[i]).key(),
        ) by {
            assert(init[i] == ws[i]);
        }
        law_other_keys_untouched(m, s, init, key);
        assert(is_own_key(s, ws[ws.len() - 1].key()));
    }
}

/// Sessions that share one local storage do not disturb each other: what it holds of a
/// session, it still holds after the writes of another one.
pub proof fn law_sessions_undisturbed<T>(
    m: Map<Seq<char>, Item<T>>,
    s: u128,
    ws: Seq<WriteView<T>>,
    t: u128,
    v: StorageView<T>,
)
    requires
        own_writes(s, ws),
        s != t,
        holds(m, t, v),
    ensures
        holds(replayed(m, ws), t, v),
{
    let (term, vote, last) = lemma_texts_read(m, t, v);
    let n = replayed(m, ws);
    assert forall|key: Seq<char>| #[trigger] is_own_key(t, key) implies n.contains_key(key)
        == m.contains_key(key) && (m.contains_key(key) ==> n[key] == m[key]) by {
        law_sessions_apart(t, s, key);
        law_other_keys_untouched(m, s, ws, key);
    }
    assert(is_own_key(t, current_term_key(t)));
    assert(is_own_key(t, voted_for_key(t)));
    assert(is_own_key(t, last_log_index_key(t)));
    assert forall|i: int| 0 <= i < v.log.len() implies {
        let key = #[trigger] log_key(t, (i + 1) as nat);
        n.contains_key(key) && n[key] == Item::Entry(v.log[i])
    } by {
        assert(is_own_key(t, log_key(t, (i + 1) as nat)));
    }
    assert(restored(term, vote, last, v.log) == Some(v));
}

proof fn lemma_log_keys_apart(s: u128, i: nat, t: u128, j: nat)
    requires
        log_key(s, i) == log_key(t, j),
    ensures
        s == t,
        i == j,
{
    reveal_strlit("log-");
    reveal_strlit("-");
    let head = "log-"@;
    assert("-"@ =~= seq!['-']);
    assert(log_key(s, i).skip(head.len() as int) =~= decimal(s as nat) + seq!['-'] + decimal(i));
    assert(log_key(t, j).skip(head.len() as int) =~= decimal(t as nat) + seq!['-'] + decimal(j));
    lemma_numeral_then_dash(s as nat, decimal(i), t as nat, decimal(j));
    law_numeral_injective(i, j, 10);
}

proof fn lemma_stores_log_kept<T>(
    m: Map<Seq<char>, Item<T>>,
    n: Map<Seq<char>, Item<T>>,
    s: u128,
    log: Seq<LogEntry<T>>,
    shorter: Seq<LogEntry<T>>,
)
    requires
        stores_log(m, s, log),
        shorter.is_prefix_of(log),
        forall|i: int| 1 <= i <= shorter.len() ==> {
            let key = #[trigger] log_key(s, i as nat);
            m.contains_key(key) ==> n.contains_key(key) && n[key] == m[key]
        },
    ensures
        stores_log(n, s, shorter),
{
    assert forall|i: int| 0 <= i < shorter.len() implies {
        let key = #[trigger] log_key(s, (i + 1) as nat);
        n.contains_key(key) && n[key] == Item::Entry(shorter[i])
    } by {
        assert(shorter[i] == log[i]);
        let k = i + 1;
        assert(log_key(s, k as nat) == log_key(s, (i + 1) as nat));
    }
}

/// The texts that a restart would read.
proof fn lemma_texts_read<T>(m: Map<Seq<char>, Item<T>>, s: u128, v: StorageView<T>) -> (r: (
    Option<Seq<char>>,
    Option<Seq<char>>,
    Option<Seq<char>>,
))
    requires
        holds(m, s, v),
    ensures
        reads(m, current_term_key(s), r.0),
        reads(m, voted_for_key(s), r.1),
        reads(m, last_log_index_key(s), r.2),
        stores_log(m, s, v.log),
        restored(r.0, r.1, r.2, v.log) == Some(v),
{
    choose|term: Option<Seq<char>>, vote: Option<Seq<char>>, last: Option<Seq<char>>|
        #![trigger restored(term, vote, last, v.log)]
        {
            &&& reads(m, current_term_key(s), term)
            &&& reads(m, voted_for_key(s), vote)
            &&& reads(m, last_log_index_key(s), last)
            &&& stores_log(m, s, v.log)
            &&& restored(term, vote, last, v.log) == Some(v)
        }
}

/// A write to a key outside the log leaves the log as it is.
proof fn lemma_log_untouched<T>(
    m: Map<Seq<char>, Item<T>>,
    s: u128,
    log: Seq<LogEntry<T>>,
    shorter: Seq<LogEntry<T>>,
    w: WriteView<T>,
)
    requires
        stores_log(m, s, log),
        shorter.is_prefix_of(log),
        match w {
            WriteView::Put(key, _) => key == current_term_key(s) || key == voted_for_key(s) || key
                == last_log_index_key(s),
            WriteView::Remove(key) => key == voted_for_key(s),
            WriteView::PutEntry(_, _) => false,
        },
    ensures
        stores_log(performed(m, w), s, shorter),
{
    let n = performed(m, w);
    assert forall|i: int| 1 <= i <= shorter.len() implies {
        let k = #[trigger] log_key(s, i as nat);
        m.contains_key(k) ==> n.contains_key(k) && n[k] == m[k]
    } by {
        law_keys_distinct(s, i as nat, 0);
    }
    lemma_stores_log_kept(m, n, s, log, shorter);
}

proof fn lemma_term_written<T>(m: Map<Seq<char>, Item<T>>, s: u128, v: StorageView<T>, t: u64)
    requires
        holds(m, s, v),
    ensures
        holds(
            performed(m, WriteView::Put(current_term_key(s), decimal(t as nat))),
            s,
            StorageView { term: t, ..v },
        ),
{
    let (term, vote, last) = lemma_texts_read(m, s, v);
    let w = WriteView::Put(current_term_key(s), decimal(t as nat));
    law_keys_distinct(s, 0, 0);
    law_parsed_numeral(t as nat, 10, u64::MAX as nat);
    lemma_log_untouched(m, s, v.log, v.log, w);
    assert(restored(Some(decimal(t as nat)), vote, last, v.log) == Some(
        StorageView { term: t, ..v },
    ));
}

proof fn lemma_vote_written<T>(m: Map<Seq<char>, Item<T>>, s: u128, v: StorageView<T>, c: u64)
    requires
        holds(m, s, v),
    ensures
        holds(
            performed(m, WriteView::Put(voted_for_key(s), decimal(c as nat))),
            s,
            StorageView { voted_for: Some(c), ..v },
        ),
{
    let (term, vote, last) = lemma_texts_read(m, s, v);
    let w = WriteView::Put(voted_for_key(s), decimal(c as nat));
    law_keys_distinct(s, 0, 0);
    law_parsed_numeral(c as nat, 10, u64::MAX as nat);
    lemma_log_untouched(m, s, v.log, v.log, w);
    assert(restored(term, Some(decimal(c as nat)), last, v.log) == Some(
        StorageView { voted_for: Some(c), ..v },
    ));
}

proof fn lemma_vote_removed<T>(m: Map<Seq<char>, Item<T>>, s: u128, v: StorageView<T>)
    requires
        holds(m, s, v),
    ensures
        holds(
            performed(m, WriteView::Remove(voted_for_key(s))),
            s,
            StorageView { voted_for: None, ..v },
        ),
{
    let (term, vote, last) = lemma_texts_read(m, s, v);
    let w = WriteView::Remove(voted_for_key(s));
    law_keys_distinct(s, 0, 0);
    lemma_log_untouched(m, s, v.log, v.log, w);
    assert(restored(term, None, last, v.log) == Some(StorageView { voted_for: None, ..v }));
}

proof fn lemma_log_cut<T>(m: Map<Seq<char>, Item<T>>, s: u128, v: StorageView<T>, len: nat)
    requires
        holds(m, s, v),
        len <= v.log.len(),
    ensures
        holds(
            performed(m, WriteView::Put(last_log_index_key(s), decimal(len))),
            s,
            StorageView { log: v.log.take(len as int), ..v },
        ),
{
    let (term, vote, last) = lemma_texts_read(m, s, v);
    let w = WriteView::Put(last_log_index_key(s), decimal(len));
    law_keys_distinct(s, 0, 0);
    law_parsed_numeral(len, 10, u64::MAX as nat);
    lemma_log_untouched(m, s, v.log, v.log.take(len as int), w);
    assert(restored(term, vote, Some(decimal(len)), v.log.take(len as int)) == Some(
        StorageView { log: v.log.take(len as int), ..v },
    ));
}

proof fn lemma_entry_appended<T>(
    m: Map<Seq<char>, Item<T>>,
    s: u128,
    v: StorageView<T>,
    e: LogEntry<T>,
)
    requires
        holds(m, s, v),
        e.idx == v.log.len() + 1,
    ensures
        holds(
            performed(
                performed(m, WriteView::Put(last_log_index_key(s), decimal(e.idx as nat))),
                WriteView::PutEntry(log_key(s, e.idx as nat), e),
            ),
            s,
            StorageView { log: v.log.push(e), ..v },
        ),
{
    let (term, vote, last) = lemma_texts_read(m, s, v);
    let m1 = performed(m, WriteView::Put(last_log_index_key(s), decimal(e.idx as nat)));
    let n = performed(m1, WriteView::PutEntry(log_key(s, e.idx as nat), e));
    let log = v.log.push(e);
    law_keys_distinct(s, e.idx as nat, 0);
    law_parsed_numeral(e.idx as nat, 10, u64::MAX as nat);
    assert forall|i: int| 0 <= i < log.len() implies {
        let key = #[trigger] log_key(s, (i + 1) as nat);
        n.contains_key(key) && n[key] == Item::Entry(log[i])
    } by {
        law_keys_distinct(s, (i + 1) as nat, e.idx as nat);
    }
    assert(restored(term, vote, Some(decimal(e.idx as nat)), log) == Some(
        StorageView { log, ..v },
    ));
}

/// What a restart reads from a local storage that holds `v` is `v`.
pub proof fn law_restart_restores<T>(
    m: Map<Seq<char>, Item<T>>,
    s: u128,
    v: StorageView<T>,
    term: Option<Seq<char>>,
    vote: Option<Seq<char>>,
    last: Option<Seq<char>>,
    log: Seq<LogEntry<T>>,
)
    requires
        holds(m, s, v),
        reads(m, current_term_key(s), term),
        reads(m, voted_for_key(s), vote),
        reads(m, last_log_index_key(s), last),
        stores_log(m, s, log),
        stored_number(last) == Some(log.len()),
    ensures
        restored(term, vote, last, log) == Some(v),
{
    let (term1, vote1, last1) = lemma_texts_read(m, s, v);
    assert(log =~= v.log) by {
        assert forall|i: int| 0 <= i < log.len() implies log[i] == v.log[i] by {
            let key = log_key(s, (i + 1) as nat);
            assert(m[key] == Item::Entry(log[i]));
            assert(m[key] == Item::Entry(v.log[i]));
        }
    }
}

/// Of a local storage without a key of the session, whatever else it has, the session
/// comes back without term, vote or log.
pub proof fn law_empty_storage_holds_nothing<T>(m: Map<Seq<char>, Item<T>>, s: u128)
    requires
        forall|key: Seq<char>| #[trigger] m.contains_key(key) ==> !is_own_key(s, key),
    ensures
        holds(m, s, StorageView { term: 0, voted_for: None, log: Seq::<LogEntry<T>>::empty() }),
{
    assert(is_own_key(s, current_term_key(s)));
    assert(is_own_key(s, voted_for_key(s)));
    assert(is_own_key(s, last_log_index_key(s)));
    assert(restored(None, None, None, Seq::<LogEntry<T>>::empty()) == Some(
        StorageView { term: 0, voted_for: None, log: Seq::<LogEntry<T>>::empty() },
    ));
}

/// A local storage holds one state of a session only.
pub proof fn law_holds_one_state<T>(
    m: Map<Seq<char>, Item<T>>,
    s: u128,
    v: StorageView<T>,
    w: StorageView<T>,
)
    requires
        holds(m, s, v),
        holds(m, s, w),
    ensures
        v == w,
{
    let (term, vote, last) = lemma_texts_read(m, s, w);
    law_restart_restores(m, s, v, term, vote, last, w.log);
}

/// Where the state of a session is in local storage: the term, the vote, if there is one,
/// and the length of the log as decimal numbers, and each entry of the log under its
/// index. A local storage with these holds that state.
pub proof fn law_where_the_state_is<T>(
    m: Map<Seq<char>, Item<T>>,
    s: u128,
    v: StorageView<T>,
)
    requires
        v.log.len() <= u64::MAX,
        forall|i: int| 0 <= i < v.log.len() ==> (#[trigger] v.log[i]).idx == i + 1,
        m.contains_pair("current-term-"@ + decimal(s as nat), Item::Text(decimal(v.term as nat))),
        match v.voted_for {
            Some(id) => m.contains_pair(
                "voted-for-"@ + decimal(s as nat),
                Item::Text(decimal(id as nat)),
            ),
            None => !m.contains_key("voted-for-"@ + decimal(s as nat)),
        },
        m.contains_pair("last-log-index-"@ + decimal(s as nat), Item::Text(decimal(v.log.len()))),
        forall|i: int|
            0 <= i < v.log.len() ==> m.contains_pair(
                "log-"@ + decimal(s as nat) + "-"@ + decimal((i + 1) as nat),
                Item::Entry(#[trigger] v.log[i]),
            ),
    ensures
        holds(m, s, v),
{
    let term = Some(decimal(v.term as nat));
    let vote = match v.voted_for {
        Some(id) => Some(decimal(id as nat)),
        None => None,
    };
    let last = Some(decimal(v.log.len()));
    law_parsed_numeral(v.term as nat, 10, u64::MAX as nat);
    law_parsed_numeral(v.log.len(), 10, u64::MAX as nat);
    if let Some(id) = v.voted_for {
        law_parsed_numeral(id as nat, 10, u64::MAX as nat);
    }
    assert(reads(m, current_term_key(s), term));
    assert(reads(m, voted_for_key(s), vote));
    assert(reads(m, last_log_index_key(s), last));
    assert forall|i: int| 0 <= i < v.log.len() implies {
        let key = #[trigger] log_key(s, (i + 1) as nat);
        m.contains_key(key) && m[key] == Item::Entry(v.log[i])
    } by {
        assert(v.log[i].idx == i + 1);
    }
    assert(restored(term, vote, last, v.log) == Some(v));
}

/// Local storage keeps what was written last under a key, and nothing once it was
/// removed; other keys are not touched.
pub proof fn law_local_storage<T>(m: Map<Seq<char>, Item<T>>, w: WriteView<T>, key: Seq<char>)
    ensures
        match w {
            WriteView::Put(k, text) => performed(m, w).contains_pair(k, Item::<T>::Text(text)),
            WriteView::PutEntry(k, e) => performed(m, w).contains_pair(k, Item::Entry(e)),
            WriteView::Remove(k) => !performed(m, w).contains_key(k),
        },
        key != w.key() ==> performed(m, w).contains_key(key) == m.contains_key(key) && (
        m.contains_key(key) ==> performed(m, w)[key] == m[key]),
{
}

/// The log has an entry under each index from one up to its length, and the entries from
/// one index to another are those, in order, that it has of them.
pub proof fn law_log_is_read_by_index<T>(log: Seq<LogEntry<T>>, first: LogIndex, last: LogIndex)
    ensures
        entry_at(log, first as int) is Some <==> 1 <= first <= log.len(),
        1 <= first <= log.len() ==> entry_at(log, first as int) == Some(log[first - 1]) && term_at(
            log,
            first as int,
        ) == log[first - 1].term,
        !(1 <= first <= log.len()) ==> term_at(log, first as int) == 0,
        ({
            let r = entries_between(log, first as int, last as int);
            let from = if first == 0 {
                1
            } else {
                first as int
            };
            let to = if last <= log.len() {
                last as int
            } else {
                log.len() as int
            };
            &&& r.len() == if from <= to {
                to - from + 1
            } else {
                0
            }
            &&& forall|i: int| 0 <= i < r.len() ==> #[trigger] r[i] == log[from - 1 + i]
        }),
{
}

/// An entry that is put into the log comes at its index; all before it stay, and it is
/// the last one then.
pub proof fn law_entry_put_at_its_index<T>(log: Seq<LogEntry<T>>, entry: LogEntry<T>)
    requires
        1 <= entry.idx <= log.len() + 1,
    ensures
        overwritten(log, entry).len() == entry.idx,
        overwritten(log, entry)[entry.idx - 1] == entry,
        forall|i: int|
            0 <= i < entry.idx - 1 ==> #[trigger] overwritten(log, entry)[i] == log[i],
{
}

/// A log is whole if under each index the entry with that index was found; it consists of
/// these entries then.
pub proof fn law_whole_log<T>(found: Seq<Option<LogEntry<T>>>)
    ensures
        is_whole(found) <==> found.len() <= u64::MAX && forall|i: int|
            0 <= i < found.len() ==> ((#[trigger] found[i]) matches Some(e) && e.idx == i + 1),
        entries_of(found).len() == found.len(),
        is_whole(found) ==> forall|i: int|
            0 <= i < found.len() ==> Some(entries_of(found)[i]) == #[trigger] found[i],
{
    if found.len() <= u64::MAX && forall|i: int|
        0 <= i < found.len() ==> ((#[trigger] found[i]) matches Some(e) && e.idx == i + 1) {
        assert forall|i: int| 0 <= i < found.len() implies (#[trigger] entries_of(found)[i]).idx
            == i + 1 by {
            assert(found[i] is Some);
        }
    }
    if is_whole(found) {
        assert forall|i: int| 0 <= i < found.len() implies ((#[trigger] found[i]) matches Some(e)
            && e.idx == i + 1) by {
            assert(entries_of(found)[i].idx == i + 1);
        }
    }
}

/// A number is stored as text and read back; where nothing is stored it is zero.
pub proof fn law_stored_number(n: u64)
    ensures
        stored_number(Some(decimal(n as nat))) == Some(n as nat),
        stored_number(None) == Some(0nat),
{
    law_parsed_numeral(n as nat, 10, u64::MAX as nat);
}

fn key_with(prefix: &str, session_key: u128) -> (r: String)
    ensures
        r@ == prefix@ + decimal(session_key as nat),
{
    let mut key = String::new();
    key.append(prefix);
    push_decimal(&mut key, session_key);
    assert(key@ =~= prefix@ + decimal(session_key as nat));
    key
}

/// The keys of a session in local storage, but for those of its log.
#[derive(Debug)]
pub struct Keys {
    pub current_term: String,
    pub voted_for: String,
    pub last_log_index: String,
}

/// Where a restart looks for the term, the vote and the length of the log.
pub fn keys(session_key: u128) -> (r: Keys)
    ensures
        r.current_term@ == current_term_key(session_key),
        r.voted_for@ == voted_for_key(session_key),
        r.last_log_index@ == last_log_index_key(session_key),
{
    Keys {
        current_term: key_with("current-term-", session_key),
        voted_for: key_with("voted-for-", session_key),
        last_log_index: key_with("last-log-index-", session_key),
    }
}

fn decimal_text(n: u64) -> (r: String)
    ensures
        r@ == decimal(n as nat),
{
    let mut s = String::new();
    push_decimal(&mut s, n as u128);
    assert(s@ =~= decimal(n as nat));
    s
}

/// The number in a stored text, as a restart reads it.
pub fn read_number(text: &Option<String>) -> (r: Option<u64>)
    ensures
        match r {
            Some(n) => stored_number(text_view(*text)) == Some(n as nat),
            None => stored_number(text_view(*text)) is None,
        },
{
    match text {
        Some(s) => match parse_number(s.as_str(), 10, u64::MAX as u128) {
            Some(n) => Some(n as u64),
            None => None,
        },
        None => Some(0),
    }
}

pub open spec fn text_view(text: Option<String>) -> Option<Seq<char>> {
    match text {
        Some(s) => Some(s@),
        None => None,
    }
}

impl<T> Storage<T> {
    /// The storage of a session, from what local storage has under its keys and, for
    /// each index up to the last, under the keys of its log. An entry may be missing:
    /// that shows only when it is read. `None` where a number cannot be read.
    pub fn new(
        session_key: u128,
        term: Option<String>,
        vote: Option<String>,
        last: Option<String>,
        log: Vec<Option<LogEntry<T>>>,
    ) -> (r: Option<Self>)
        requires
            stored_number(text_view(last)) matches Some(n) ==> log@.len() == n,
        ensures
            r is None <==> {
                ||| stored_number(text_view(term)) is None
                ||| stored_number(text_view(vote)) is None
                ||| stored_number(text_view(last)) is None
            },
            r matches Some(s) ==> {
                &&& stored_number(text_view(term)) == Some(s@.term as nat)
                &&& match s@.voted_for {
                    Some(id) => vote is Some && stored_number(text_view(vote)) == Some(id as nat),
                    None => vote is None,
                }
                &&& s.found() == log@
                &&& s@.log == entries_of(log@)
                &&& s.wf() == is_whole(log@)
                &&& s.session() == session_key
                &&& s.pending() == Seq::<WriteView<T>>::empty()
                &&& s.wf() ==> restored(
                    text_view(term),
                    text_view(vote),
                    text_view(last),
                    s@.log,
                ) == Some(s@)
            },
    {
        let current_term = match read_number(&term) {
            Some(n) => n,
            None => {
                return None;
            },
        };
        let vote_number = match read_number(&vote) {
            Some(n) => n,
            None => {
                return None;
            },
        };
        if read_number(&last).is_none() {
            return None;
        }
        let voted_for = if vote.is_some() {
            Some(vote_number)
        } else {
            None
        };
        let s = Storage { session_key, current_term, voted_for, log, writes: Vec::new() };
        assert(s.pending() =~= Seq::<WriteView<T>>::empty());
        Some(s)
    }

    /// Whether every entry of the log was found, and under its own index.
    pub fn is_complete(&self) -> (r: bool)
        ensures
            r == self.wf(),
    {
        for i in 0..self.log.len()
            invariant
                forall|j: int|
                    0 <= j < i ==> (#[trigger] self.log@[j]) is Some && (self.log@[j]->0).idx == j
                        + 1,
        {
            match &self.log[i] {
                Some(e) => {
                    if e.idx != i as u64 + 1 {
                        assert(entries_of(self.log@)[i as int].idx != i + 1);
                        return false;
                    }
                },
                None => {
                    return false;
                },
            }
        }
        true
    }

    fn record(&mut self, w: Write<T>)
        ensures
            final(self)@ == old(self)@,
            final(self).found() == old(self).found(),
            final(self).session() == old(self).session(),
            final(self).pending() == old(self).pending().push(w@),
    {
        self.writes.push(w);
        assert(self.pending() =~= old(self).pending().push(w@));
    }

    /// Hands the outstanding writes over, oldest first.
    pub fn take_writes(&mut self) -> (r: Vec<Write<T>>)
        ensures
            r@.map_values(|w: Write<T>| w@) == old(self).pending(),
            final(self)@ == old(self)@,
            final(self).found() == old(self).found(),
            final(self).session() == old(self).session(),
            final(self).pending() == Seq::<WriteView<T>>::empty(),
    {
        let mut r: Vec<Write<T>> = Vec::new();
        std::mem::swap(&mut r, &mut self.writes);
        assert(self.pending() =~= Seq::<WriteView<T>>::empty());
        r
    }

    pub fn last_log_index(&self) -> (r: LogIndex)
        ensures
            r == self@.log.len(),
    {
        self.log.len() as u64
    }

    /// The term of the last entry; zero where there is none.
    pub fn last_log_term(&self) -> (r: TermIndex)
        requires
            self.is_readable(self@.log.len() as int),
        ensures
            r == term_at(self@.log, self@.log.len() as int),
    {
        let n = self.log.len();
        if n == 0 {
            0
        } else {
            match &self.log[n - 1] {
                Some(e) => e.term,
                None => 0,
            }
        }
    }

    pub fn current_term(&self) -> (r: TermIndex)
        ensures
            r == self@.term,
    {
        self.current_term
    }

    pub fn voted_for(&self) -> (r: &Option<NodeId>)
        ensures
            *r == self@.voted_for,
    {
        &self.voted_for
    }

    fn set_current_term(&mut self, term: TermIndex)
        requires
            old(self).wf(),
        ensures
            final(self).wf(),
            final(self)@ == (StorageView { term, ..old(self)@ }),
            final(self).follows(*old(self)),
            final(self).pending() == old(self).pending().push(
                WriteView::Put(current_term_key(old(self).session()), decimal(term as nat)),
            ),
    {
        self.current_term = term;
        let key = key_with("current-term-", self.session_key);
        let value = decimal_text(term);
        self.record(Write::Put { key, value });
        proof {
            let s = self.session_key;
            let w = WriteView::<T>::Put(current_term_key(s), decimal(term as nat));
            assert(self.pending().skip(old(self).pending().len() as int) =~= seq![w]);
            assert forall|m: Map<Seq<char>, Item<T>>| #[trigger]
                holds(m, s, old(self)@) implies holds(replayed(m, seq![w]), s, self@) by {
                lemma_replayed_one(m, w);
                lemma_term_written(m, s, old(self)@, term);
            }
        }
    }

    pub fn set_voted_for(&mut self, val: Option<NodeId>)
        requires
            old(self).wf(),
        ensures
            final(self).wf(),
            final(self)@ == (StorageView { voted_for: val, ..old(self)@ }),
            final(self).follows(*old(self)),
            final(self).pending() == old(self).pending().push(
                match val {
                    Some(id) => WriteView::Put(
                        voted_for_key(old(self).session()),
                        decimal(id as nat),
                    ),
                    None => WriteView::Remove(voted_for_key(old(self).session())),
                },
            ),
    {
        self.voted_for = val;
        let key = key_with("voted-for-", self.session_key);
        match val {
            Some(id) => {
                let value = decimal_text(id);
                self.record(Write::Put { key, value });
            },
            None => {
                self.record(Write::Remove { key });
            },
        }
        proof {
            let s = self.session_key;
            let w = self.pending().last();
            assert(self.pending().skip(old(self).pending().len() as int) =~= seq![w]);
            assert forall|m: Map<Seq<char>, Item<T>>| #[trigger]
                holds(m, s, old(self)@) implies holds(replayed(m, seq![w]), s, self@) by {
                lemma_replayed_one(m, w);
                match val {
                    Some(id) => lemma_vote_written(m, s, old(self)@, id),
                    None => lemma_vote_removed(m, s, old(self)@),
                }
            }
        }
    }

    /// Moves on to a later term, without a vote in it. Returns whether the term
    /// needed to be updated.
    pub fn update_term(&mut self, term: TermIndex) -> (r: bool)
        requires
            old(self).wf(),
        ensures
            final(self).wf(),
            final(self).follows(*old(self)),
            r == (old(self)@.term < term),
            final(self)@ == after_term(old(self)@, term),
            final(self).pending() == old(self).pending() + if r {
                term_writes(old(self).session(), term)
            } else {
                Seq::empty()
            },
            !r ==> *final(self) == *old(self),
    {
        if self.current_term() < term {
            self.set_voted_for(None);
            let ghost middle = *self;
            self.set_current_term(term);
            proof {
                self.lemma_follows_transitive(middle, *old(self));
                assert(self.pending() =~= old(self).pending() + term_writes(
                    old(self).session(),
                    term,
                ));
            }
            true
        } else {
            proof {
                self.lemma_follows_itself();
                assert(self.pending() =~= old(self).pending() + Seq::<WriteView<T>>::empty());
            }
            false
        }
    }

    pub fn increment_term(&mut self)
        requires
            old(self).wf(),
            old(self)@.term < u64::MAX,
        ensures
            final(self).wf(),
            final(self).follows(*old(self)),
            final(self)@ == after_term(old(self)@, (old(self)@.term + 1) as u64),
            final(self).pending() == old(self).pending() + term_writes(
                old(self).session(),
                (old(self)@.term + 1) as u64,
            ),
    {
        self.set_voted_for(None);
        let ghost middle = *self;
        let term = self.current_term() + 1;
        self.set_current_term(term);
        proof {
            self.lemma_follows_transitive(middle, *old(self));
        }
    }
}

/// The state in a later term: no vote is cast yet. An earlier term changes nothing.
pub open spec fn after_term<T>(v: StorageView<T>, term: TermIndex) -> StorageView<T> {
    if v.term < term {
        StorageView { term, voted_for: None, ..v }
    } else {
        v
    }
}

/// The log with `entry` put at its index; what followed that index is dropped.
pub open spec fn overwritten<T>(log: Seq<LogEntry<T>>, entry: LogEntry<T>) -> Seq<LogEntry<T>> {
    log.take(entry.idx - 1).push(entry)
}

impl<T: Command> Storage<T> {
    /// Adds the entry that follows the last one.
    pub fn append_log(&mut self, entry: &LogEntry<T>)
        requires
            old(self).wf(),
            entry.idx == old(self)@.log.len() + 1,
        ensures
            final(self).wf(),
            final(self).follows(*old(self)),
            final(self)@ == (StorageView { log: old(self)@.log.push(*entry), ..old(self)@ }),
            final(self).pending() == old(self).pending() + append_writes(
                old(self).session(),
                *entry,
            ),
    {
        let s = self.session_key;
        let last_key = key_with("last-log-index-", s);
        let last_value = decimal_text(entry.idx);
        self.record(Write::Put { key: last_key, value: last_value });
        let key = log_item_key(s, entry.idx);
        self.record(Write::PutEntry { key, entry: entry.duplicate() });
        self.log.push(Some(entry.duplicate()));
        proof {
            let e = *entry;
            assert(self@.log =~= old(self)@.log.push(e));
            let w1 = WriteView::<T>::Put(last_log_index_key(s), decimal(e.idx as nat));
            let w2 = WriteView::<T>::PutEntry(log_key(s, e.idx as nat), e);
            assert(self.pending().skip(old(self).pending().len() as int) =~= seq![w1] + seq![w2]);
            assert forall|m: Map<Seq<char>, Item<T>>| #[trigger]
                holds(m, s, old(self)@) implies holds(
                replayed(m, seq![w1] + seq![w2]),
                s,
                self@,
            ) by {
                lemma_replayed_concat(m, seq![w1], seq![w2]);
                lemma_replayed_one(m, w1);
                lemma_replayed_one(performed(m, w1), w2);
                lemma_entry_appended(m, s, old(self)@, e);
            }
        }
    }

    /// Puts the entry at its index and truncates the log from then on out.
    pub fn overwrite_log(&mut self, entry: &LogEntry<T>)
        requires
            old(self).wf(),
            1 <= entry.idx <= old(self)@.log.len() + 1,
        ensures
            final(self).wf(),
            final(self).follows(*old(self)),
            final(self)@ == (StorageView {
                log: overwritten(old(self)@.log, *entry),
                ..old(self)@
            }),
            final(self).pending() == old(self).pending() + overwrite_writes(
                old(self).session(),
                *entry,
            ),
    {
        let s = self.session_key;
        let keep = entry.idx - 1;
        let key = key_with("last-log-index-", s);
        let value = decimal_text(keep);
        self.record(Write::Put { key, value });
        self.log.truncate(keep as usize);
        proof {
            let w = WriteView::<T>::Put(last_log_index_key(s), decimal(keep as nat));
            assert(self@.log =~= old(self)@.log.take(keep as int));
            assert(self.pending().skip(old(self).pending().len() as int) =~= seq![w]);
            assert forall|m: Map<Seq<char>, Item<T>>| #[trigger]
                holds(m, s, old(self)@) implies holds(replayed(m, seq![w]), s, self@) by {
                lemma_replayed_one(m, w);
                lemma_log_cut(m, s, old(self)@, keep as nat);
            }
        }
        let ghost middle = *self;
        self.append_log(entry);
        proof {
            self.lemma_follows_transitive(middle, *old(self));
            assert(self.pending() =~= old(self).pending() + overwrite_writes(s, *entry));
        }
    }

    /// The entry at `idx`; indices start at one.
    pub fn get_log(&self, idx: LogIndex) -> (r: Option<LogEntry<T>>)
        requires
            self.is_readable(idx as int),
        ensures
            r == entry_at(self@.log, idx as int),
    {
        let len = self.log.len();
        if idx == 0 || idx > len as u64 {
            return None;
        }
        match &self.log[idx as usize - 1] {
            Some(e) => Some(e.duplicate()),
            None => None,
        }
    }

    /// The entries from `first` to `last` that the log has, in order.
    pub fn sublog(&self, first: LogIndex, last: LogIndex) -> (r: Vec<LogEntry<T>>)
        requires
            forall|idx: int| first <= idx <= last ==> #[trigger] self.is_readable(idx),
        ensures
            r@ == entries_between(self@.log, first as int, last as int),
    {
        let lo: u64 = if first < 1 {
            0
        } else {
            first - 1
        };
        let len = self.log.len();
        let hi: u64 = if last > len as u64 {
            len as u64
        } else {
            last
        };
        let mut r: Vec<LogEntry<T>> = Vec::new();
        let mut i: u64 = lo;
        let ghost all = entries_between(self@.log, first as int, last as int);
        while i < hi
            invariant
                lo <= i,
                lo < hi ==> i <= hi,
                hi <= len,
                len == self.log@.len(),
                lo == if first < 1 {
                    0
                } else {
                    first - 1
                },
                hi <= last,
                forall|idx: int| first <= idx <= last ==> #[trigger] self.is_readable(idx),
                lo < hi ==> all == self@.log.subrange(lo as int, hi as int),
                lo < hi ==> r@ == all.take(i - lo),
                lo >= hi ==> r@.len() == 0,
            decreases hi - i,
        {
            assert(self.is_readable(i + 1));
            match &self.log[i as usize] {
                Some(e) => {
                    r.push(e.duplicate());
                },
                None => {},
            }
            i = i + 1;
            assert(r@ =~= all.take(i - lo));
        }
        assert(r@ =~= all);
        r
    }
}

/// The key of an entry of the log.
pub fn log_item_key(session_key: u128, idx: LogIndex) -> (r: String)
    ensures
        r@ == log_key(session_key, idx as nat),
{
    let mut key = key_with("log-", session_key);
    key.append("-");
    push_decimal(&mut key, idx as u128);
    assert(key@ =~= log_key(session_key, idx as nat));
    key
}

} // verus!
