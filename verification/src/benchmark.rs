//! A benchmark: how many commands a cluster applies in a time.
//!
//! `F` is a point in time; what it is made of does not matter here.

use crate::raft::{self, RaftStateDump};
use vstd::prelude::*;

verus! {

/// After how many updates the result is looked up.
pub const UPDATES_PER_RESULT: i32 = 50;

#[derive(Debug)]
pub enum BenchMsg<F> {
    Start(F),
    Reset,
    Iter,
}

impl<F: raft::Command> raft::Command for BenchMsg<F> {
    fn duplicate(&self) -> (r: Self) {
        match self {
            BenchMsg::Start(start) => BenchMsg::Start(start.duplicate()),
            BenchMsg::Reset => BenchMsg::Reset,
            BenchMsg::Iter => BenchMsg::Iter,
        }
    }
}

/// When the benchmark started, and how many commands there were since.
#[derive(Debug)]
pub struct State<F> {
    start: Option<F>,
    iters: usize,
}

pub struct StateView<F> {
    pub start: Option<F>,
    pub iters: usize,
}

impl<F> View for State<F> {
    type V = StateView<F>;

    closed spec fn view(&self) -> StateView<F> {
        StateView { start: self.start, iters: self.iters }
    }
}

#[derive(Debug)]
pub struct BenchResult<F> {
    pub start: F,
    pub end: F,
    pub iters: usize,
}

impl<F> State<F> {
    pub fn new() -> (r: Self)
        ensures
            r@ == (StateView::<F> { start: None, iters: 0 }),
    {
        State { start: None, iters: 0 }
    }
}

impl<F: raft::Command> raft::State for State<F> {
    type Command = BenchMsg<F>;

    type Key = F;

    type Item = BenchResult<F>;

    /// There is a limit to what can be counted.
    open spec fn admits(state: StateView<F>, cmd: BenchMsg<F>) -> bool {
        cmd is Iter ==> state.iters < usize::MAX
    }

    open spec fn next(state: StateView<F>, cmd: BenchMsg<F>) -> StateView<F> {
        match cmd {
            BenchMsg::Start(start) => StateView { start: Some(start), ..state },
            BenchMsg::Reset => StateView { start: None, iters: 0 },
            BenchMsg::Iter => StateView { iters: (state.iters + 1) as usize, ..state },
        }
    }

    /// The result as of a time, once the benchmark has started.
    open spec fn finds(state: StateView<F>, end: F, item: Option<BenchResult<F>>) -> bool {
        item == match state.start {
            Some(start) => Some(BenchResult { start, end, iters: state.iters }),
            None => None,
        }
    }

    /// Every change starts the heartbeat anew.
    open spec fn renews(cmd: BenchMsg<F>) -> bool {
        true
    }

    fn renews_heartbeat(cmd: &BenchMsg<F>) -> (r: bool) {
        true
    }

    fn accepts(&self, cmd: &BenchMsg<F>) -> (r: bool) {
        match cmd {
            BenchMsg::Iter => self.iters < usize::MAX,
            _ => true,
        }
    }

    fn apply(&mut self, cmd: BenchMsg<F>) {
        match cmd {
            BenchMsg::Start(start) => {
                self.start = Some(start);
            },
            BenchMsg::Reset => {
                self.start = None;
                self.iters = 0;
            },
            BenchMsg::Iter => {
                self.iters = self.iters + 1;
            },
        }
    }

    fn get(&self, end: F) -> (r: Option<BenchResult<F>>) {
        match &self.start {
            Some(start) => Some(
                BenchResult { start: start.duplicate(), end, iters: self.iters },
            ),
            None => None,
        }
    }
}

/// A benchmark that was reset has no result. Once it is started there is one: since when
/// it runs, until when it was asked, and how many commands there were, each of which
/// counts once; to start it again sets the time anew, and not the count.
pub proof fn law_benchmark_counts<F: raft::Command>(
    state: StateView<F>,
    start: F,
    end: F,
    item: Option<BenchResult<F>>,
)
    requires
        state.iters < usize::MAX,
    ensures
        ({
            let started = <State<F> as raft::State>::next(state, BenchMsg::Start(start));
            let counted = <State<F> as raft::State>::next(state, BenchMsg::Iter);
            let reset = <State<F> as raft::State>::next(state, BenchMsg::Reset);
            &&& <State<F> as raft::State>::admits(state, BenchMsg::Start(start))
            &&& <State<F> as raft::State>::admits(state, BenchMsg::Iter)
            &&& <State<F> as raft::State>::admits(state, BenchMsg::Reset)
            &&& started.start == Some(start)
            &&& started.iters == state.iters
            &&& counted.start == state.start
            &&& counted.iters == state.iters + 1
            &&& reset.iters == 0
            &&& <State<F> as raft::State>::finds(started, end, item) <==> {
                &&& item matches Some(result)
                &&& result.start == start
                &&& result.end == end
                &&& result.iters == state.iters
            }
            &&& <State<F> as raft::State>::finds(reset, end, item) <==> item is None
            &&& state.start is None ==> (<State<F> as raft::State>::finds(counted, end, item)
                <==> item is None)
            &&& state.start matches Some(since) ==> (<State<F> as raft::State>::finds(
                counted,
                end,
                item,
            ) <==> {
                &&& item matches Some(result)
                &&& result.start == since
                &&& result.end == end
                &&& result.iters == state.iters + 1
            })
            &&& <State<F> as raft::State>::renews(BenchMsg::Start(start))
            &&& <State<F> as raft::State>::renews(BenchMsg::Iter)
            &&& <State<F> as raft::State>::renews(BenchMsg::Reset)
        }),
{
}

#[derive(Debug)]
pub enum Msg<F> {
    ToggleBenchmark,
    BenchResult(BenchResult<F>),
    DumpState,
    StateDumped(Box<RaftStateDump>),
}

#[derive(Debug, Clone, Copy, PartialEq, Eq, Structural)]
pub enum BenchState {
    Stopped,
    Running,
}

/// What the page does after a message, besides being drawn again.
#[derive(Debug, Clone, Copy, PartialEq, Eq, Structural)]
pub enum Effect {
    Nothing,
    /// Start the benchmark, or stop it.
    Toggle,
    /// Ask the node to describe itself.
    FetchDump,
}

pub struct Model<F> {
    pub state: BenchState,
    pub result: Option<BenchResult<F>>,
    pub state_dump: Option<Box<RaftStateDump>>,
}

impl<F> Model<F> {
    pub fn new() -> (r: Self)
        ensures
            r.state == BenchState::Stopped,
            r.result is None,
            r.state_dump is None,
    {
        Model { state: BenchState::Stopped, result: None, state_dump: None }
    }

    /// Takes in a message. Returns whether the page is drawn again, and what else is
    /// to be done.
    pub fn update(&mut self, msg: Msg<F>) -> (r: (bool, Effect))
        ensures
            *final(self) == match msg {
                Msg::ToggleBenchmark => Model {
                    state: match old(self).state {
                        BenchState::Running => BenchState::Stopped,
                        BenchState::Stopped => BenchState::Running,
                    },
                    ..*old(self)
                },
                Msg::BenchResult(result) => Model { result: Some(result), ..*old(self) },
                Msg::DumpState => *old(self),
                Msg::StateDumped(dump) => Model { state_dump: Some(dump), ..*old(self) },
            },
            r == match msg {
                Msg::ToggleBenchmark => (true, Effect::Toggle),
                Msg::DumpState => (false, Effect::FetchDump),
                _ => (true, Effect::Nothing),
            },
    {
        match msg {
            Msg::ToggleBenchmark => {
                self.state = match self.state {
                    BenchState::Running => BenchState::Stopped,
                    BenchState::Stopped => BenchState::Running,
                };
                (true, Effect::Toggle)
            },
            Msg::BenchResult(result) => {
                self.result = Some(result);
                (true, Effect::Nothing)
            },
            Msg::DumpState => (false, Effect::FetchDump),
            Msg::StateDumped(dump) => {
                self.state_dump = Some(dump);
                (true, Effect::Nothing)
            },
        }
    }
}

/// Counts the updates of the state machine.
#[derive(Debug)]
pub struct UpdateNotifier {
    msg_count: i32,
}

impl UpdateNotifier {
    pub closed spec fn count(&self) -> i32 {
        self.msg_count
    }

    pub open spec fn wf(&self) -> bool {
        self.count() >= 0
    }

    pub fn new() -> (r: Self)
        ensures
            r.wf(),
            r.count() == 0,
    {
        UpdateNotifier { msg_count: 0 }
    }

    /// Whether another update can be counted.
    pub fn can_count(&self) -> (r: bool)
        ensures
            r == (self.count() < i32::MAX),
    {
        self.msg_count < i32::MAX
    }

    /// Counts an update. Returns whether the result is looked up now.
    pub fn updated(&mut self) -> (r: bool)
        requires
            old(self).wf(),
            old(self).count() < i32::MAX,
        ensures
            final(self).wf(),
            final(self).count() == old(self).count() + 1,
            r == (final(self).count() as int % UPDATES_PER_RESULT as int == 0),
    {
        self.msg_count = self.msg_count + 1;
        self.msg_count % UPDATES_PER_RESULT == 0
    }
}

/// What a running benchmark does next.
#[derive(Debug, Clone, Copy, PartialEq, Eq, Structural)]
pub enum BenchStep {
    /// Send one more command.
    Iterate,
    Stop,
}

/// The next step of a benchmark, after the start was sent or a command was: it stops
/// if the start failed or the user stopped it.
pub fn bench_step(started: bool, toggled: bool) -> (r: BenchStep)
    ensures
        r == if started && !toggled {
            BenchStep::Iterate
        } else {
            BenchStep::Stop
        },
{
    if started && !toggled {
        BenchStep::Iterate
    } else {
        BenchStep::Stop
    }
}

} // verus!
