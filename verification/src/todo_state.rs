//! A list of things to do, as a state machine that the nodes of a cluster share.

use crate::raft;
use crate::text::{is_space, law_trimmed, trim, trimmed};
use vstd::prelude::*;

verus! {

#[derive(Debug)]
pub struct State {
    pub entries: Vec<Entry>,
    pub filter: Filter,
    pub value: String,
    pub edit_value: String,
}

/// A change to the list. Indices count the entries that the filter shows.
#[derive(Debug)]
pub enum Msg {
    Add,
    Edit(usize),
    Update(String),
    UpdateEdit(String),
    Remove(usize),
    SetFilter(Filter),
    ToggleAll,
    ToggleEdit(usize),
    Toggle(usize),
    ClearCompleted,
}

impl raft::Command for Msg {
    fn duplicate(&self) -> (r: Self) {
        match self {
            Msg::Add => Msg::Add,
            Msg::Edit(idx) => Msg::Edit(*idx),
            Msg::Update(val) => Msg::Update(val.clone()),
            Msg::UpdateEdit(val) => Msg::UpdateEdit(val.clone()),
            Msg::Remove(idx) => Msg::Remove(*idx),
            Msg::SetFilter(filter) => Msg::SetFilter(*filter),
            Msg::ToggleAll => Msg::ToggleAll,
            Msg::ToggleEdit(idx) => Msg::ToggleEdit(*idx),
            Msg::Toggle(idx) => Msg::Toggle(*idx),
            Msg::ClearCompleted => Msg::ClearCompleted,
        }
    }
}

#[derive(Debug)]
pub struct Entry {
    pub description: String,
    pub completed: bool,
    pub editing: bool,
}

pub struct EntryView {
    pub description: Seq<char>,
    pub completed: bool,
    pub editing: bool,
}

impl View for Entry {
    type V = EntryView;

    open spec fn view(&self) -> EntryView {
        EntryView {
            description: self.description@,
            completed: self.completed,
            editing: self.editing,
        }
    }
}

#[derive(Clone, Copy, Debug, PartialEq, Eq, Structural)]
pub enum Filter {
    All,
    Active,
    Completed,
}

impl Filter {
    /// Whether the filter shows an entry.
    pub open spec fn shows(self, entry: EntryView) -> bool {
        match self {
            Filter::All => true,
            Filter::Active => !entry.completed,
            Filter::Completed => entry.completed,
        }
    }

    pub fn fits(&self, entry: &Entry) -> (r: bool)
        ensures
            r == self.shows(entry@),
    {
        match *self {
            Filter::All => true,
            Filter::Active => !entry.completed,
            Filter::Completed => entry.completed,
        }
    }

    pub fn as_href(&self) -> (r: &'static str)
        ensures
            r@ == match *self {
                Filter::All => "#/"@,
                Filter::Active => "#/active"@,
                Filter::Completed => "#/completed"@,
            },
    {
        match self {
            Filter::All => "#/",
            Filter::Active => "#/active",
            Filter::Completed => "#/completed",
        }
    }

    /// What the filter is called.
    pub fn name(&self) -> (r: &'static str)
        ensures
            r@ == match *self {
                Filter::All => "All"@,
                Filter::Active => "Active"@,
                Filter::Completed => "Completed"@,
            },
    {
        match self {
            Filter::All => "All",
            Filter::Active => "Active",
            Filter::Completed => "Completed",
        }
    }

    /// All filters, in the order in which they are offered.
    pub fn iter() -> (r: Vec<Filter>)
        ensures
            r@ == seq![Filter::All, Filter::Active, Filter::Completed],
    {
        let mut r: Vec<Filter> = Vec::new();
        r.push(Filter::All);
        r.push(Filter::Active);
        r.push(Filter::Completed);
        r
    }
}

impl Default for Filter {
    fn default() -> (r: Self)
        ensures
            r == Filter::All,
    {
        Filter::All
    }
}

/// A list: its entries, what of them is shown, and what is being typed.
pub struct StateView {
    pub entries: Seq<EntryView>,
    pub filter: Filter,
    pub value: Seq<char>,
    pub edit_value: Seq<char>,
}

pub open spec fn entry_views(entries: Seq<Entry>) -> Seq<EntryView> {
    entries.map_values(|e: Entry| e@)
}

impl View for State {
    type V = StateView;

    open spec fn view(&self) -> StateView {
        StateView {
            entries: entry_views(self.entries@),
            filter: self.filter,
            value: self.value@,
            edit_value: self.edit_value@,
        }
    }
}

/// The positions of the entries that a filter shows, in order.
pub open spec fn shown(entries: Seq<EntryView>, filter: Filter) -> Seq<int>
    decreases entries.len(),
{
    if entries.len() == 0 {
        Seq::empty()
    } else {
        let before = shown(entries.drop_last(), filter);
        if filter.shows(entries.last()) {
            before.push(entries.len() - 1)
        } else {
            before
        }
    }
}

/// The positions that a filter shows are positions of entries that it shows, in
/// ascending order, and there are no others.
pub proof fn law_shown(entries: Seq<EntryView>, filter: Filter)
    ensures
        shown(entries, filter).len() <= entries.len(),
        forall|k: int|
            0 <= k < shown(entries, filter).len() ==> 0 <= #[trigger] shown(entries, filter)[k]
                < entries.len() && filter.shows(entries[shown(entries, filter)[k]]),
        forall|j: int, k: int|
            0 <= j < k < shown(entries, filter).len() ==> #[trigger] shown(entries, filter)[j]
                < #[trigger] shown(entries, filter)[k],
        forall|i: int|
            0 <= i < entries.len() && filter.shows(#[trigger] entries[i]) ==> shown(
                entries,
                filter,
            ).contains(i),
    decreases entries.len(),
{
    if entries.len() > 0 {
        let init = entries.drop_last();
        let before = shown(init, filter);
        let all = shown(entries, filter);
        law_shown(init, filter);
        assert forall|i: int|
            0 <= i < entries.len() && filter.shows(#[trigger] entries[i]) implies all.contains(
            i,
        ) by {
            if i < init.len() {
                assert(init[i] == entries[i]);
                assert(before.contains(i));
                let k = choose|k: int| 0 <= k < before.len() && before[k] == i;
                assert(all[k] == i);
            } else {
                assert(all[before.len() as int] == i);
            }
        }
        assert forall|k: int| 0 <= k < all.len() implies 0 <= #[trigger] all[k] < entries.len()
            && filter.shows(entries[all[k]]) by {
            if k < before.len() {
                assert(all[k] == before[k]);
                assert(init[before[k]] == entries[before[k]]);
            }
        }
    }
}

/// Whether the filter shows anything, and all of it is completed.
pub open spec fn all_completed(v: StateView) -> bool {
    &&& exists|i: int| 0 <= i < v.entries.len() && v.filter.shows(#[trigger] v.entries[i])
    &&& forall|i: int|
        0 <= i < v.entries.len() && v.filter.shows(#[trigger] v.entries[i])
            ==> v.entries[i].completed
}

/// The entries with those that the filter shows set to completed or not.
pub open spec fn all_set(v: StateView, value: bool) -> Seq<EntryView> {
    v.entries.map_values(
        |e: EntryView|
            if v.filter.shows(e) {
                EntryView { completed: value, ..e }
            } else {
                e
            },
    )
}

pub open spec fn toggled(v: StateView, idx: int) -> Seq<EntryView> {
    let p = shown(v.entries, v.filter)[idx];
    v.entries.update(p, EntryView { completed: !v.entries[p].completed, ..v.entries[p] })
}

pub open spec fn edit_toggled(v: StateView, idx: int) -> Seq<EntryView> {
    let p = shown(v.entries, v.filter)[idx];
    v.entries.update(p, EntryView { editing: !v.entries[p].editing, ..v.entries[p] })
}

pub open spec fn edits_cleared(entries: Seq<EntryView>) -> Seq<EntryView> {
    entries.map_values(|e: EntryView| EntryView { editing: false, ..e })
}

pub open spec fn removed(v: StateView, idx: int) -> Seq<EntryView> {
    v.entries.remove(shown(v.entries, v.filter)[idx])
}

/// The entries after an edit is done: an empty description removes the entry.
pub open spec fn edited(v: StateView, idx: int, val: Seq<char>) -> Seq<EntryView> {
    if val.len() == 0 {
        removed(v, idx)
    } else {
        let p = shown(v.entries, v.filter)[idx];
        v.entries.update(
            p,
            EntryView { description: val, editing: !v.entries[p].editing, ..v.entries[p] },
        )
    }
}

impl State {
    /// An empty list that shows everything.
    pub fn new() -> (r: Self)
        ensures
            r@ == (StateView {
                entries: Seq::empty(),
                filter: Filter::All,
                value: Seq::empty(),
                edit_value: Seq::empty(),
            }),
    {
        let r = State {
            entries: Vec::new(),
            filter: Filter::All,
            value: String::new(),
            edit_value: String::new(),
        };
        assert(r@.entries =~= Seq::<EntryView>::empty());
        assert(r@.value =~= Seq::<char>::empty());
        assert(r@.edit_value =~= Seq::<char>::empty());
        r
    }

    pub fn total(&self) -> (r: usize)
        ensures
            r == self@.entries.len(),
    {
        self.entries.len()
    }

    pub fn total_completed(&self) -> (r: usize)
        ensures
            r == shown(self@.entries, Filter::Completed).len(),
    {
        let mut count: usize = 0;
        for i in 0..self.entries.len()
            invariant
                count <= i,
                count == shown(self@.entries.take(i as int), Filter::Completed).len(),
        {
            proof {
                lemma_shown_step(self@.entries, Filter::Completed, i as int);
            }
            if Filter::Completed.fits(&self.entries[i]) {
                count = count + 1;
            }
        }
        assert(self@.entries.take(self@.entries.len() as int) =~= self@.entries);
        count
    }

    pub fn is_all_completed(&self) -> (r: bool)
        ensures
            r == all_completed(self@),
    {
        let mut any = false;
        let mut all = true;
        let ghost v = self@;
        for i in 0..self.entries.len()
            invariant
                v == self@,
                any == exists|k: int| 0 <= k < i && v.filter.shows(#[trigger] v.entries[k]),
                all == forall|k: int|
                    0 <= k < i && v.filter.shows(#[trigger] v.entries[k])
                        ==> v.entries[k].completed,
        {
            assert(v.entries[i as int] == self.entries@[i as int]@);
            if self.filter.fits(&self.entries[i]) {
                any = true;
                if !self.entries[i].completed {
                    all = false;
                }
            }
        }
        any && all
    }

    /// Drops the completed entries.
    pub fn clear_completed(&mut self)
        ensures
            final(self)@ == (StateView {
                entries: old(self)@.entries.filter(|e: EntryView| Filter::Active.shows(e)),
                ..old(self)@
            }),
    {
        let ghost active = |e: EntryView| Filter::Active.shows(e);
        let ghost all = self@.entries;
        let mut rest: Vec<Entry> = Vec::new();
        std::mem::swap(&mut rest, &mut self.entries);
        let mut kept: Vec<Entry> = Vec::new();
        let ghost mut i: int = 0;
        let ghost whole = rest@;
        proof {
            reveal(Seq::filter);
            assert(all.take(0).filter(active) =~= Seq::<EntryView>::empty());
            assert(entry_views(kept@) =~= Seq::<EntryView>::empty());
        }
        while rest.len() > 0
            invariant
                whole.len() == i + rest@.len(),
                rest@ == whole.skip(i),
                0 <= i,
                all == entry_views(whole),
                active == (|e: EntryView| Filter::Active.shows(e)),
                entry_views(kept@) == all.take(i).filter(active),
            decreases rest.len(),
        {
            let entry = rest.remove(0);
            proof {
                reveal(Seq::filter);
                assert(all.take(i + 1).drop_last() =~= all.take(i));
                assert(all[i] == entry@);
                assert(rest@ =~= whole.skip(i + 1));
            }
            let ghost before = kept@;
            if Filter::Active.fits(&entry) {
                kept.push(entry);
                assert(entry_views(kept@) =~= entry_views(before).push(entry@));
            }
            proof {
                i = i + 1;
            }
        }
        assert(all.take(i) =~= all);
        self.entries = kept;
    }

    /// Where the entry is that the filter shows under an index.
    fn position(&self, idx: usize) -> (r: Option<usize>)
        ensures
            match r {
                Some(p) => {
                    &&& idx < shown(self@.entries, self@.filter).len()
                    &&& p == shown(self@.entries, self@.filter)[idx as int]
                    &&& p < self.entries@.len()
                },
                None => idx >= shown(self@.entries, self@.filter).len(),
            },
    {
        let mut count: usize = 0;
        let ghost v = self@;
        for i in 0..self.entries.len()
            invariant
                v == self@,
                count <= i,
                count <= idx,
                count == shown(v.entries.take(i as int), v.filter).len(),
        {
            proof {
                lemma_shown_step(v.entries, v.filter, i as int);
                assert(v.entries[i as int] == self.entries@[i as int]@);
            }
            if self.filter.fits(&self.entries[i]) {
                if count == idx {
                    proof {
                        lemma_shown_prefix(v.entries, v.filter, i as int + 1);
                        assert(shown(v.entries.take(i as int + 1), v.filter)[count as int]
                            == i as int);
                    }
                    return Some(i);
                }
                count = count + 1;
            }
        }
        assert(v.entries.take(v.entries.len() as int) =~= v.entries);
        None
    }

    pub fn toggle(&mut self, idx: usize)
        requires
            idx < shown(old(self)@.entries, old(self)@.filter).len(),
        ensures
            final(self)@ == (StateView { entries: toggled(old(self)@, idx as int), ..old(self)@ }),
    {
        let p = self.position(idx).unwrap();
        self.entries[p].completed = !self.entries[p].completed;
        assert(entry_views(self.entries@) =~= toggled(old(self)@, idx as int));
    }

    pub fn toggle_all(&mut self, value: bool)
        ensures
            final(self)@ == (StateView { entries: all_set(old(self)@, value), ..old(self)@ }),
    {
        let n = self.entries.len();
        for i in 0..n
            invariant
                n == self.entries@.len(),
                self.filter == old(self).filter,
                self.value == old(self).value,
                self.edit_value == old(self).edit_value,
                self.entries@.len() == old(self).entries@.len(),
                forall|k: int|
                    0 <= k < i ==> (#[trigger] self.entries@[k])@ == all_set(old(self)@, value)[k],
                forall|k: int|
                    i <= k < self.entries@.len() ==> #[trigger] self.entries@[k] == old(
                        self,
                    ).entries@[k],
        {
            if self.filter.fits(&self.entries[i]) {
                self.entries[i].completed = value;
            }
        }
        assert(entry_views(self.entries@) =~= all_set(old(self)@, value));
    }

    pub fn toggle_edit(&mut self, idx: usize)
        requires
            idx < shown(old(self)@.entries, old(self)@.filter).len(),
        ensures
            final(self)@ == (StateView {
                entries: edit_toggled(old(self)@, idx as int),
                ..old(self)@
            }),
    {
        let p = self.position(idx).unwrap();
        self.entries[p].editing = !self.entries[p].editing;
        assert(entry_views(self.entries@) =~= edit_toggled(old(self)@, idx as int));
    }

    pub fn clear_all_edit(&mut self)
        ensures
            final(self)@ == (StateView { entries: edits_cleared(old(self)@.entries), ..old(self)@ }),
    {
        let n = self.entries.len();
        for i in 0..n
            invariant
                n == self.entries@.len(),
                self.filter == old(self).filter,
                self.value == old(self).value,
                self.edit_value == old(self).edit_value,
                self.entries@.len() == old(self).entries@.len(),
                forall|k: int|
                    0 <= k < i ==> (#[trigger] self.entries@[k])@ == edits_cleared(
                        old(self)@.entries,
                    )[k],
                forall|k: int|
                    i <= k < self.entries@.len() ==> #[trigger] self.entries@[k] == old(
                        self,
                    ).entries@[k],
        {
            self.entries[i].editing = false;
        }
        assert(entry_views(self.entries@) =~= edits_cleared(old(self)@.entries));
    }

    /// Gives an entry a new description, or removes it where the description is empty.
    pub fn complete_edit(&mut self, idx: usize, val: String)
        requires
            idx < shown(old(self)@.entries, old(self)@.filter).len(),
        ensures
            final(self)@ == (StateView {
                entries: edited(old(self)@, idx as int, val@),
                ..old(self)@
            }),
    {
        if val.as_str().is_empty() {
            self.remove(idx);
        } else {
            let p = self.position(idx).unwrap();
            self.entries[p].description = val;
            self.entries[p].editing = !self.entries[p].editing;
            assert(entry_views(self.entries@) =~= edited(old(self)@, idx as int, val@));
        }
    }

    pub fn remove(&mut self, idx: usize)
        requires
            idx < shown(old(self)@.entries, old(self)@.filter).len(),
        ensures
            final(self)@ == (StateView { entries: removed(old(self)@, idx as int), ..old(self)@ }),
    {
        let p = self.position(idx).unwrap();
        self.entries.remove(p);
        assert(entry_views(self.entries@) =~= removed(old(self)@, idx as int));
    }

    /// A list with the same contents.
    pub fn duplicate(&self) -> (r: Self)
        ensures
            r@ == self@,
    {
        let mut entries: Vec<Entry> = Vec::new();
        for i in 0..self.entries.len()
            invariant
                entries@.len() == i,
                forall|k: int| 0 <= k < i ==> (#[trigger] entries@[k])@ == self.entries@[k]@,
        {
            let e = &self.entries[i];
            entries.push(
                Entry {
                    description: e.description.clone(),
                    completed: e.completed,
                    editing: e.editing,
                },
            );
        }
        assert(entry_views(entries@) =~= entry_views(self.entries@));
        State {
            entries,
            filter: self.filter,
            value: self.value.clone(),
            edit_value: self.edit_value.clone(),
        }
    }
}

impl Default for State {
    fn default() -> (r: Self)
        ensures
            r@ == (StateView {
                entries: Seq::empty(),
                filter: Filter::All,
                value: Seq::empty(),
                edit_value: Seq::empty(),
            }),
    {
        State::new()
    }
}

proof fn lemma_shown_step(entries: Seq<EntryView>, filter: Filter, i: int)
    requires
        0 <= i < entries.len(),
    ensures
        shown(entries.take(i + 1), filter) == if filter.shows(entries[i]) {
            shown(entries.take(i), filter).push(i)
        } else {
            shown(entries.take(i), filter)
        },
{
    assert(entries.take(i + 1).drop_last() =~= entries.take(i));
}

proof fn lemma_shown_prefix(entries: Seq<EntryView>, filter: Filter, n: int)
    requires
        0 <= n <= entries.len(),
    ensures
        shown(entries.take(n), filter).is_prefix_of(shown(entries, filter)),
    decreases entries.len() - n,
{
    if n == entries.len() {
        assert(entries.take(n) =~= entries);
    } else {
        lemma_shown_step(entries, filter, n);
        lemma_shown_prefix(entries, filter, n + 1);
        let a = shown(entries.take(n), filter);
        let b = shown(entries.take(n + 1), filter);
        assert(a =~= b.take(a.len() as int));
        assert(a =~= shown(entries, filter).take(a.len() as int));
    }
}

impl raft::State for State {
    type Command = Msg;

    type Key = ();

    type Item = State;

    /// An index must be that of an entry that is shown.
    open spec fn admits(state: StateView, cmd: Msg) -> bool {
        let count = shown(state.entries, state.filter).len();
        match cmd {
            Msg::Edit(idx) => idx < count,
            Msg::Remove(idx) => idx < count,
            Msg::ToggleEdit(idx) => idx < count,
            Msg::Toggle(idx) => idx < count,
            _ => true,
        }
    }

    open spec fn next(state: StateView, cmd: Msg) -> StateView {
        match cmd {
            Msg::Add => StateView {
                entries: if trimmed(state.value).len() > 0 {
                    state.entries.push(
                        EntryView {
                            description: trimmed(state.value),
                            completed: false,
                            editing: false,
                        },
                    )
                } else {
                    state.entries
                },
                value: Seq::empty(),
                ..state
            },
            Msg::Edit(idx) => StateView {
                entries: edited(state, idx as int, trimmed(state.edit_value)),
                edit_value: Seq::empty(),
                ..state
            },
            Msg::Update(val) => StateView { value: val@, ..state },
            Msg::UpdateEdit(val) => StateView { edit_value: val@, ..state },
            Msg::Remove(idx) => StateView { entries: removed(state, idx as int), ..state },
            Msg::SetFilter(filter) => StateView { filter, ..state },
            Msg::ToggleEdit(idx) => {
                let cleared = StateView {
                    entries: edits_cleared(state.entries),
                    edit_value: state.entries[idx as int].description,
                    ..state
                };
                StateView { entries: edit_toggled(cleared, idx as int), ..cleared }
            },
            Msg::ToggleAll => StateView { entries: all_set(state, !all_completed(state)), ..state },
            Msg::Toggle(idx) => StateView { entries: toggled(state, idx as int), ..state },
            Msg::ClearCompleted => StateView {
                entries: state.entries.filter(|e: EntryView| Filter::Active.shows(e)),
                ..state
            },
        }
    }

    open spec fn finds(state: StateView, key: (), item: Option<State>) -> bool {
        item matches Some(s) && s@ == state
    }

    /// Every change starts the heartbeat anew.
    open spec fn renews(cmd: Msg) -> bool {
        true
    }

    fn renews_heartbeat(cmd: &Msg) -> (r: bool) {
        true
    }

    fn accepts(&self, cmd: &Msg) -> (r: bool) {
        let idx = match cmd {
            Msg::Edit(idx) => *idx,
            Msg::Remove(idx) => *idx,
            Msg::ToggleEdit(idx) => *idx,
            Msg::Toggle(idx) => *idx,
            _ => {
                return true;
            },
        };
        self.position(idx).is_some()
    }

    fn apply(&mut self, cmd: Msg) {
        match cmd {
            Msg::Add => {
                let description = trim(self.value.as_str());
                let ghost before = self.entries@;
                if !description.as_str().is_empty() {
                    let entry = Entry { description, completed: false, editing: false };
                    self.entries.push(entry);
                    assert(entry_views(self.entries@) =~= entry_views(before).push(entry@));
                }
                self.value = String::new();
                assert(self.value@ =~= Seq::<char>::empty());
            },
            Msg::Edit(idx) => {
                let edit_value = trim(self.edit_value.as_str());
                self.complete_edit(idx, edit_value);
                self.edit_value = String::new();
                assert(self.edit_value@ =~= Seq::<char>::empty());
            },
            Msg::Update(val) => {
                self.value = val;
            },
            Msg::UpdateEdit(val) => {
                self.edit_value = val;
            },
            Msg::Remove(idx) => {
                self.remove(idx);
            },
            Msg::SetFilter(filter) => {
                self.filter = filter;
            },
            Msg::ToggleEdit(idx) => {
                proof {
                    law_shown(self@.entries, self@.filter);
                    lemma_edits_do_not_matter(self@.entries, self@.filter);
                }
                self.edit_value = self.entries[idx].description.clone();
                self.clear_all_edit();
                self.toggle_edit(idx);
            },
            Msg::ToggleAll => {
                let status = !self.is_all_completed();
                self.toggle_all(status);
            },
            Msg::Toggle(idx) => {
                self.toggle(idx);
            },
            Msg::ClearCompleted => {
                self.clear_completed();
            },
        }
    }

    fn get(&self, key: ()) -> (r: Option<State>) {
        Some(self.duplicate())
    }
}

/// What is shown does not depend on what is being edited.
pub proof fn lemma_edits_do_not_matter(entries: Seq<EntryView>, filter: Filter)
    ensures
        shown(edits_cleared(entries), filter) == shown(entries, filter),
    decreases entries.len(),
{
    if entries.len() > 0 {
        lemma_edits_do_not_matter(entries.drop_last(), filter);
        assert(edits_cleared(entries).drop_last() =~= edits_cleared(entries.drop_last()));
    }
}

/// After the completed entries were dropped there are none, and all others are left.
pub proof fn law_clear_completed(state: StateView)
    ensures
        ({
            let after = <State as raft::State>::next(state, Msg::ClearCompleted);
            &&& shown(after.entries, Filter::Completed).len() == 0
            &&& after.entries.len() == shown(state.entries, Filter::Active).len()
        }),
    decreases state.entries.len(),
{
    let after = <State as raft::State>::next(state, Msg::ClearCompleted);
    reveal(Seq::filter);
    if state.entries.len() > 0 {
        let init = StateView { entries: state.entries.drop_last(), ..state };
        let before = <State as raft::State>::next(init, Msg::ClearCompleted);
        law_clear_completed(init);
        if Filter::Active.shows(state.entries.last()) {
            assert(after.entries.drop_last() =~= before.entries);
        }
    }
}

/// While everything is shown, to toggle an entry twice changes nothing.
pub proof fn law_toggle_twice(state: StateView, idx: usize)
    requires
        state.filter == Filter::All,
        <State as raft::State>::admits(state, Msg::Toggle(idx)),
    ensures
        <State as raft::State>::next(
            <State as raft::State>::next(state, Msg::Toggle(idx)),
            Msg::Toggle(idx),
        ) == state,
{
    let once = <State as raft::State>::next(state, Msg::Toggle(idx));
    lemma_all_shown(state.entries);
    lemma_all_shown(once.entries);
    let twice = <State as raft::State>::next(once, Msg::Toggle(idx));
    assert(twice.entries =~= state.entries);
}

proof fn lemma_all_shown(entries: Seq<EntryView>)
    ensures
        shown(entries, Filter::All) == Seq::new(entries.len(), |i: int| i),
    decreases entries.len(),
{
    if entries.len() > 0 {
        lemma_all_shown(entries.drop_last());
    }
    assert(shown(entries, Filter::All) =~= Seq::new(entries.len(), |i: int| i));
}

/// Once everything that is shown is completed, to toggle all leaves nothing of it
/// completed; otherwise it completes it.
pub proof fn law_toggle_all(state: StateView, i: int)
    requires
        0 <= i < state.entries.len(),
    ensures
        ({
            let after = <State as raft::State>::next(state, Msg::ToggleAll);
            &&& after.entries.len() == state.entries.len()
            &&& after.entries[i].description == state.entries[i].description
            &&& after.entries[i].completed == if state.filter.shows(state.entries[i]) {
                !all_completed(state)
            } else {
                state.entries[i].completed
            }
        }),
{
}

/// There is a filter for everything, one for what is still to do, and one for what is
/// done.
pub proof fn law_filters(entry: EntryView)
    ensures
        Filter::All.shows(entry),
        Filter::Active.shows(entry) <==> !entry.completed,
        Filter::Completed.shows(entry) <==> entry.completed,
{
}

/// To add an entry never loses one: it comes behind all others, which stay as they are.
/// It has the text that was typed without the white space around it, and is neither done
/// nor being edited. Blank text adds nothing. Either way the text is gone and the rest of
/// the list as before. Returns where the description begins and ends in the text.
pub proof fn law_add(state: StateView) -> (r: (int, int))
    ensures
        <State as raft::State>::admits(state, Msg::Add),
        ({
            let after = <State as raft::State>::next(state, Msg::Add);
            let n = state.entries.len();
            let blank = forall|i: int|
                0 <= i < state.value.len() ==> is_space(#[trigger] state.value[i]);
            &&& blank ==> after.entries == state.entries
            &&& !blank ==> {
                &&& after.entries.len() == n + 1
                &&& forall|i: int| 0 <= i < n ==> #[trigger] after.entries[i] == state.entries[i]
                &&& !after.entries[n as int].completed
                &&& !after.entries[n as int].editing
                &&& after.entries[n as int].description == state.value.subrange(r.0, r.1)
                &&& 0 <= r.0 < r.1 <= state.value.len()
                &&& !is_space(state.value[r.0])
                &&& !is_space(state.value[r.1 - 1])
                &&& forall|i: int| 0 <= i < r.0 ==> is_space(#[trigger] state.value[i])
                &&& forall|i: int|
                    r.1 <= i < state.value.len() ==> is_space(#[trigger] state.value[i])
            }
            &&& after.value.len() == 0
            &&& after.filter == state.filter
            &&& after.edit_value == state.edit_value
        }),
{
    let (a, b) = law_trimmed(state.value);
    if a < b {
        assert(!is_space(state.value[a]));
    } else {
        assert forall|i: int| 0 <= i < state.value.len() implies is_space(
            #[trigger] state.value[i],
        ) by {
            assert(i < a || b <= i);
        }
    }
    (a, b)
}

/// What is typed and which filter is chosen changes that, and nothing else.
pub proof fn law_typing_and_filters(state: StateView, text: String, filter: Filter)
    ensures
        <State as raft::State>::next(state, Msg::Update(text)) == (StateView {
            entries: state.entries,
            filter: state.filter,
            value: text@,
            edit_value: state.edit_value,
        }),
        <State as raft::State>::next(state, Msg::UpdateEdit(text)) == (StateView {
            entries: state.entries,
            filter: state.filter,
            value: state.value,
            edit_value: text@,
        }),
        <State as raft::State>::next(state, Msg::SetFilter(filter)) == (StateView {
            entries: state.entries,
            filter,
            value: state.value,
            edit_value: state.edit_value,
        }),
        <State as raft::State>::admits(state, Msg::Update(text)),
        <State as raft::State>::admits(state, Msg::UpdateEdit(text)),
        <State as raft::State>::admits(state, Msg::SetFilter(filter)),
        <State as raft::State>::admits(state, Msg::ToggleAll),
        <State as raft::State>::admits(state, Msg::ClearCompleted),
{
}

/// To toggle an entry that is shown makes it done, or undone, and leaves all others, and
/// the rest of the list, as they are.
pub proof fn law_toggle(state: StateView, idx: usize, i: int)
    requires
        idx < shown(state.entries, state.filter).len(),
        0 <= i < state.entries.len(),
    ensures
        <State as raft::State>::admits(state, Msg::Toggle(idx)),
        ({
            let after = <State as raft::State>::next(state, Msg::Toggle(idx));
            let p = shown(state.entries, state.filter)[idx as int];
            &&& after.entries.len() == state.entries.len()
            &&& i != p ==> after.entries[i] == state.entries[i]
            &&& i == p ==> {
                &&& after.entries[i].completed == !state.entries[i].completed
                &&& after.entries[i].description == state.entries[i].description
                &&& after.entries[i].editing == state.entries[i].editing
            }
            &&& after.filter == state.filter
            &&& after.value == state.value
            &&& after.edit_value == state.edit_value
        }),
{
    law_shown(state.entries, state.filter);
}

/// To remove an entry that is shown takes it out and leaves all others, in their order.
pub proof fn law_remove(state: StateView, idx: usize, i: int)
    requires
        idx < shown(state.entries, state.filter).len(),
        0 <= i < state.entries.len() - 1,
    ensures
        <State as raft::State>::admits(state, Msg::Remove(idx)),
        ({
            let after = <State as raft::State>::next(state, Msg::Remove(idx));
            let p = shown(state.entries, state.filter)[idx as int];
            &&& after.entries.len() == state.entries.len() - 1
            &&& after.entries[i] == state.entries[if i < p {
                i
            } else {
                i + 1
            }]
            &&& after.filter == state.filter
            &&& after.value == state.value
            &&& after.edit_value == state.edit_value
        }),
{
    law_shown(state.entries, state.filter);
}

/// An entry that is not shown is not removed, toggled or edited: an index behind the
/// last entry that is shown is not admitted.
pub proof fn law_only_shown_entries_change(state: StateView, idx: usize)
    ensures
        ({
            let is_shown = idx < shown(state.entries, state.filter).len();
            &&& <State as raft::State>::admits(state, Msg::Remove(idx)) == is_shown
            &&& <State as raft::State>::admits(state, Msg::Toggle(idx)) == is_shown
            &&& <State as raft::State>::admits(state, Msg::ToggleEdit(idx)) == is_shown
            &&& <State as raft::State>::admits(state, Msg::Edit(idx)) == is_shown
        }),
{
}

/// To edit an entry that is shown: this one is being edited then, and no other; nothing
/// else of any entry changes.
pub proof fn law_toggle_edit(state: StateView, idx: usize, i: int)
    requires
        idx < shown(state.entries, state.filter).len(),
        0 <= i < state.entries.len(),
    ensures
        ({
            let after = <State as raft::State>::next(state, Msg::ToggleEdit(idx));
            let p = shown(state.entries, state.filter)[idx as int];
            &&& after.entries.len() == state.entries.len()
            &&& after.entries[i].editing <==> i == p
            &&& after.entries[i].description == state.entries[i].description
            &&& after.entries[i].completed == state.entries[i].completed
            &&& after.edit_value == state.entries[idx as int].description
            &&& after.filter == state.filter
            &&& after.value == state.value
        }),
{
    law_shown(state.entries, state.filter);
    lemma_edits_do_not_matter(state.entries, state.filter);
}

/// When an edit is done the entry has the text that was typed without the white space
/// around it, and stays where it is and as done as it was; blank text removes it. All
/// other entries stay, and the text is gone. Returns where the description begins and
/// ends in the text.
pub proof fn law_edit(state: StateView, idx: usize, i: int) -> (r: (int, int))
    requires
        idx < shown(state.entries, state.filter).len(),
        0 <= i < state.entries.len(),
    ensures
        ({
            let after = <State as raft::State>::next(state, Msg::Edit(idx));
            let p = shown(state.entries, state.filter)[idx as int];
            let text = state.edit_value;
            let blank = forall|k: int| 0 <= k < text.len() ==> is_space(#[trigger] text[k]);
            &&& blank ==> {
                &&& after.entries.len() == state.entries.len() - 1
                &&& i < p ==> after.entries[i] == state.entries[i]
                &&& i > p ==> after.entries[i - 1] == state.entries[i]
            }
            &&& !blank ==> {
                &&& after.entries.len() == state.entries.len()
                &&& i != p ==> after.entries[i] == state.entries[i]
                &&& i == p ==> {
                    &&& after.entries[i].description == text.subrange(r.0, r.1)
                    &&& after.entries[i].completed == state.entries[i].completed
                    &&& after.entries[i].editing == !state.entries[i].editing
                }
                &&& 0 <= r.0 < r.1 <= text.len()
                &&& !is_space(text[r.0])
                &&& !is_space(text[r.1 - 1])
                &&& forall|k: int| 0 <= k < r.0 ==> is_space(#[trigger] text[k])
                &&& forall|k: int| r.1 <= k < text.len() ==> is_space(#[trigger] text[k])
            }
            &&& after.edit_value.len() == 0
            &&& after.filter == state.filter
            &&& after.value == state.value
        }),
{
    law_shown(state.entries, state.filter);
    let text = state.edit_value;
    let (a, b) = law_trimmed(text);
    if a < b {
        assert(!is_space(text[a]));
    } else {
        assert forall|k: int| 0 <= k < text.len() implies is_space(#[trigger] text[k]) by {
            assert(k < a || b <= k);
        }
    }
    (a, b)
}

/// To toggle all makes everything that is shown undone if all of it was done, and done
/// otherwise; what is not shown, and everything else, stays.
pub proof fn law_toggle_all_of_what_is_shown(state: StateView, i: int)
    requires
        0 <= i < state.entries.len(),
    ensures
        ({
            let after = <State as raft::State>::next(state, Msg::ToggleAll);
            let is_shown = |e: EntryView|
                match state.filter {
                    Filter::All => true,
                    Filter::Active => !e.completed,
                    Filter::Completed => e.completed,
                };
            let one_to_do = exists|k: int|
                0 <= k < state.entries.len() && is_shown(#[trigger] state.entries[k])
                    && !state.entries[k].completed;
            &&& after.entries.len() == state.entries.len()
            &&& !is_shown(state.entries[i]) ==> after.entries[i] == state.entries[i]
            &&& is_shown(state.entries[i]) ==> {
                &&& after.entries[i].completed == one_to_do
                &&& after.entries[i].description == state.entries[i].description
                &&& after.entries[i].editing == state.entries[i].editing
            }
            &&& after.filter == state.filter
            &&& after.value == state.value
            &&& after.edit_value == state.edit_value
        }),
{
    assert(state.filter.shows(state.entries[i]) ==> exists|k: int|
        0 <= k < state.entries.len() && state.filter.shows(#[trigger] state.entries[k]));
}

/// To clear what is done leaves the entries that are still to do, all of them, in their
/// order and as they are. Returns their positions.
pub proof fn law_clear_keeps_the_rest(state: StateView) -> (kept: Seq<int>)
    ensures
        ({
            let after = <State as raft::State>::next(state, Msg::ClearCompleted);
            &&& after.entries.len() == kept.len()
            &&& forall|k: int|
                0 <= k < kept.len() ==> {
                    &&& 0 <= #[trigger] kept[k] < state.entries.len()
                    &&& !state.entries[kept[k]].completed
                    &&& after.entries[k] == state.entries[kept[k]]
                }
            &&& forall|j: int, k: int|
                0 <= j < k < kept.len() ==> #[trigger] kept[j] < #[trigger] kept[k]
            &&& forall|i: int|
                0 <= i < state.entries.len() && !(#[trigger] state.entries[i]).completed
                    ==> kept.contains(i)
            &&& after.filter == state.filter
            &&& after.value == state.value
            &&& after.edit_value == state.edit_value
        }),
{
    let kept = shown(state.entries, Filter::Active);
    law_shown(state.entries, Filter::Active);
    lemma_active(state.entries);
    assert forall|i: int|
        0 <= i < state.entries.len() && !(#[trigger] state.entries[i]).completed implies kept.contains(
        i,
    ) by {
        assert(Filter::Active.shows(state.entries[i]));
    }
    assert forall|k: int| 0 <= k < kept.len() implies 0 <= #[trigger] kept[k] < state.entries.len()
        && !state.entries[kept[k]].completed by {
        assert(Filter::Active.shows(state.entries[kept[k]]));
    }
    kept
}

proof fn lemma_active(entries: Seq<EntryView>)
    ensures
        ({
            let left = entries.filter(|e: EntryView| Filter::Active.shows(e));
            let kept = shown(entries, Filter::Active);
            &&& left.len() == kept.len()
            &&& forall|k: int|
                0 <= k < kept.len() ==> #[trigger] left[k] == entries[kept[k]] && 0 <= kept[k]
                    < entries.len()
        }),
    decreases entries.len(),
{
    reveal(Seq::filter);
    if entries.len() > 0 {
        let init = entries.drop_last();
        lemma_active(init);
        let left = entries.filter(|e: EntryView| Filter::Active.shows(e));
        let kept = shown(entries, Filter::Active);
        let before = shown(init, Filter::Active);
        assert forall|k: int| 0 <= k < kept.len() implies #[trigger] left[k] == entries[kept[k]]
            && 0 <= kept[k] < entries.len() by {
            if k < before.len() {
                assert(init.filter(|e: EntryView| Filter::Active.shows(e))[k] == init[before[k]]);
            }
        }
    }
}

/// Whoever asks for the list gets it as it is; and every change renews the heartbeat.
pub proof fn law_list_is_found(state: StateView, item: Option<State>, msg: Msg)
    ensures
        <State as raft::State>::finds(state, (), item) <==> {
            &&& item matches Some(list)
            &&& list.entries@.len() == state.entries.len()
            &&& forall|i: int|
                0 <= i < state.entries.len() ==> {
                    &&& list.entries@[i].description@ == (#[trigger] state.entries[i]).description
                    &&& list.entries@[i].completed == state.entries[i].completed
                    &&& list.entries@[i].editing == state.entries[i].editing
                }
            &&& list.filter == state.filter
            &&& list.value@ == state.value
            &&& list.edit_value@ == state.edit_value
        },
        <State as raft::State>::renews(msg),
{
    if let Some(list) = item {
        assert(list.entries@.len() == state.entries.len() && (forall|i: int|
            0 <= i < state.entries.len() ==> {
                &&& list.entries@[i].description@ == (#[trigger] state.entries[i]).description
                &&& list.entries@[i].completed == state.entries[i].completed
                &&& list.entries@[i].editing == state.entries[i].editing
            }) ==> entry_views(list.entries@) =~= state.entries);
    }
}

} // verus!
