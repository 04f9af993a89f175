//! What the page with the list of things to do shows, and how it reacts.

use crate::raft::errors::ClientError;
use crate::todo_state::{self, Entry, Filter, State, StateView};
use vstd::prelude::*;

verus! {

/// How long a change waits before it is sent again.
pub const RETRY_MILLIS: u64 = 500;

/// What comes after a change was sent to the cluster.
#[derive(Debug, Clone, Copy, PartialEq, Eq, Structural)]
pub enum SendStep {
    /// The cluster has taken it.
    Done,
    /// Send it again after so many milliseconds.
    RetryAfter(u64),
}

/// A change is sent until the cluster has taken it.
pub fn send_step(sent: &Result<(), ClientError>) -> (r: SendStep)
    ensures
        r == match *sent {
            Ok(()) => SendStep::Done,
            Err(_) => SendStep::RetryAfter(RETRY_MILLIS),
        },
{
    match sent {
        Ok(()) => SendStep::Done,
        Err(_) => SendStep::RetryAfter(RETRY_MILLIS),
    }
}

#[derive(Debug)]
pub enum Msg {
    StateUpdate,
    GotState(State),
    Focus,
}

/// What the page does after a message, besides being drawn again.
#[derive(Debug, Clone, Copy, PartialEq, Eq, Structural)]
pub enum Effect {
    Nothing,
    /// Ask the own node for the list.
    FetchState,
    /// Move the cursor to the entry that is being edited.
    FocusInput,
}

pub struct Model {
    state: State,
}

impl View for Model {
    type V = StateView;

    closed spec fn view(&self) -> StateView {
        self.state@
    }
}

impl Model {
    pub fn new() -> (r: Self)
        ensures
            r@ == (StateView {
                entries: Seq::empty(),
                filter: Filter::All,
                value: Seq::empty(),
                edit_value: Seq::empty(),
            }),
    {
        Model { state: State::new() }
    }

    pub fn state(&self) -> (r: &State)
        ensures
            r@ == self@,
    {
        &self.state
    }

    /// Takes in a message. `editing` says whether there is an input to edit an entry.
    /// Returns whether the page is drawn again, and what else is to be done.
    pub fn update(&mut self, msg: Msg, editing: bool) -> (r: (bool, Effect))
        ensures
            final(self)@ == match msg {
                Msg::GotState(state) => state@,
                _ => old(self)@,
            },
            r == match msg {
                Msg::Focus => if editing {
                    (true, Effect::FocusInput)
                } else {
                    (false, Effect::Nothing)
                },
                Msg::StateUpdate => (false, Effect::FetchState),
                Msg::GotState(_) => (true, Effect::Nothing),
            },
    {
        match msg {
            Msg::Focus => {
                if editing {
                    (true, Effect::FocusInput)
                } else {
                    (false, Effect::Nothing)
                }
            },
            Msg::StateUpdate => (false, Effect::FetchState),
            Msg::GotState(state) => {
                self.state = state;
                (true, Effect::Nothing)
            },
        }
    }

    /// The class of what is hidden while there are no entries.
    pub fn hidden_class(&self) -> (r: &'static str)
        ensures
            r@ == if self@.entries.len() == 0 {
                "hidden"@
            } else {
                ""@
            },
    {
        if self.state.entries.len() == 0 {
            "hidden"
        } else {
            ""
        }
    }

    /// The class of the link to a filter.
    pub fn filter_class(&self, filter: Filter) -> (r: &'static str)
        ensures
            r@ == if self@.filter == filter {
                "selected"@
            } else {
                "not-selected"@
            },
    {
        if self.state.filter == filter {
            "selected"
        } else {
            "not-selected"
        }
    }

    /// The positions of the entries that are shown, in order.
    pub fn shown_entries(&self) -> (r: Vec<usize>)
        ensures
            r@.map_values(|p: usize| p as int) == todo_state::shown(self@.entries, self@.filter),
    {
        let mut r: Vec<usize> = Vec::new();
        let ghost v = self@;
        let ghost as_int = |p: usize| p as int;
        assert(r@.map_values(as_int) =~= todo_state::shown(v.entries.take(0), v.filter));
        for i in 0..self.state.entries.len()
            invariant
                v == self@,
                as_int == (|p: usize| p as int),
                r@.map_values(as_int) == todo_state::shown(v.entries.take(i as int), v.filter),
        {
            proof {
                assert(v.entries.take(i as int + 1).drop_last() =~= v.entries.take(i as int));
                assert(v.entries[i as int] == self.state.entries@[i as int]@);
            }
            let ghost before = r@;
            if self.state.filter.fits(&self.state.entries[i]) {
                r.push(i);
                assert(r@.map_values(as_int) =~= before.map_values(as_int).push(i as int));
            }
        }
        assert(v.entries.take(v.entries.len() as int) =~= v.entries);
        r
    }
}

/// The classes of an entry.
pub fn entry_classes(entry: &Entry) -> (r: Vec<&'static str>)
    ensures
        r@.len() == 1 + (if entry.editing {
            1int
        } else {
            0int
        }) + (if entry.completed {
            1int
        } else {
            0int
        }),
        r@[0]@ == "todo"@,
        entry.editing ==> r@[1]@ == "editing"@,
        entry.completed ==> r@[r@.len() - 1]@ == "completed"@,
{
    let mut r: Vec<&'static str> = Vec::new();
    r.push("todo");
    if entry.editing {
        r.push("editing");
    }
    if entry.completed {
        r.push("completed");
    }
    r
}

/// The change that a key press makes: the Enter key brings it about.
pub fn on_key(key: String, msg: todo_state::Msg) -> (r: Option<todo_state::Msg>)
    ensures
        r == if key@ == "Enter"@ {
            Some(msg)
        } else {
            None
        },
{
    if key == "Enter".to_owned() {
        Some(msg)
    } else {
        None
    }
}

} // verus!
