use wraft::benchmark::{self, bench_step, BenchMsg, BenchState, BenchStep, UpdateNotifier};
use wraft::init::{self, ClusterInit, ClusterWaiting};
use wraft::raft::errors::ClientError;
use wraft::raft::State as _;
use wraft::raft_init::{
    self, clear_storage_label, other_cluster_members, waiting_message, RaftWrapper, CLUSTER_SIZE,
};
use wraft::todo::{self, entry_classes, on_key, send_step, SendStep, RETRY_MILLIS};
use wraft::todo_state::{Entry, Filter, Msg, State};

fn list(entries: &[(&str, bool)]) -> State {
    let mut s = State::new();
    for (d, completed) in entries {
        s.entries.push(Entry { description: d.to_string(), completed: *completed, editing: false });
    }
    s
}

fn names(s: &State) -> Vec<String> {
    s.entries.iter().map(|e| e.description.clone()).collect()
}

fn apply(s: &mut State, msg: Msg) {
    assert!(s.accepts(&msg));
    s.apply(msg);
}

#[test]
fn entries_are_added_trimmed() {
    let mut s = State::default();
    apply(&mut s, Msg::Update("  buy milk \n".to_string()));
    apply(&mut s, Msg::Add);
    assert_eq!(names(&s), vec!["buy milk"]);
    assert_eq!(s.value, "");
    apply(&mut s, Msg::Update(" \t ".to_string()));
    apply(&mut s, Msg::Add);
    assert_eq!(s.total(), 1);
    assert_eq!(s.value, "");
    assert!(!s.entries[0].completed && !s.entries[0].editing);
}

#[test]
fn indices_count_what_is_shown() {
    let mut s = list(&[("a", true), ("b", false), ("c", true), ("d", false)]);
    apply(&mut s, Msg::SetFilter(Filter::Active));
    apply(&mut s, Msg::Remove(1));
    assert_eq!(names(&s), vec!["a", "b", "c"]);
    apply(&mut s, Msg::Toggle(0));
    assert!(s.entries[1].completed);
    assert!(!s.accepts(&Msg::Toggle(0)));
    assert!(!s.accepts(&Msg::Remove(0)));
    assert!(!s.accepts(&Msg::Edit(0)));
    assert!(!s.accepts(&Msg::ToggleEdit(0)));
    apply(&mut s, Msg::SetFilter(Filter::Completed));
    assert!(s.accepts(&Msg::Remove(2)));
    assert!(!s.accepts(&Msg::Remove(3)));
}

#[test]
fn completed_entries_are_counted_and_cleared() {
    let mut s = list(&[("a", true), ("b", false), ("c", true)]);
    assert_eq!(s.total(), 3);
    assert_eq!(s.total_completed(), 2);
    apply(&mut s, Msg::ClearCompleted);
    assert_eq!(names(&s), vec!["b"]);
    assert_eq!(s.total_completed(), 0);
}

#[test]
fn toggling_all_completes_or_reopens() {
    let mut s = list(&[("a", true), ("b", false)]);
    assert!(!s.is_all_completed());
    apply(&mut s, Msg::ToggleAll);
    assert!(s.is_all_completed());
    apply(&mut s, Msg::ToggleAll);
    assert_eq!(s.total_completed(), 0);
    assert!(!State::new().is_all_completed());
    // What is not shown is left alone.
    let mut s = list(&[("a", true), ("b", false)]);
    apply(&mut s, Msg::SetFilter(Filter::Completed));
    assert!(s.is_all_completed());
    apply(&mut s, Msg::ToggleAll);
    assert!(!s.entries[0].completed && !s.entries[1].completed);
}

#[test]
fn toggling_twice_changes_nothing() {
    let mut s = list(&[("a", true), ("b", false)]);
    apply(&mut s, Msg::Toggle(1));
    assert!(s.entries[1].completed);
    apply(&mut s, Msg::Toggle(1));
    assert!(!s.entries[1].completed);
}

#[test]
fn entries_are_edited() {
    let mut s = list(&[("a", false), ("b", false)]);
    s.entries[0].editing = true;
    apply(&mut s, Msg::ToggleEdit(1));
    assert!(!s.entries[0].editing && s.entries[1].editing);
    assert_eq!(s.edit_value, "b");
    apply(&mut s, Msg::UpdateEdit(" better ".to_string()));
    apply(&mut s, Msg::Edit(1));
    assert_eq!(names(&s), vec!["a", "better"]);
    assert!(!s.entries[1].editing);
    assert_eq!(s.edit_value, "");
    // An empty description removes the entry.
    apply(&mut s, Msg::Edit(0));
    assert_eq!(names(&s), vec!["better"]);
}

#[test]
fn the_text_to_edit_is_that_of_the_position_in_the_whole_list() {
    let mut s = list(&[("a", true), ("b", false), ("c", false)]);
    apply(&mut s, Msg::SetFilter(Filter::Active));
    apply(&mut s, Msg::ToggleEdit(1));
    assert_eq!(s.edit_value, "b");
    assert!(s.entries[2].editing);
}

#[test]
fn lists_are_handed_out_as_copies() {
    let s = list(&[("a", true)]);
    let copy = s.get(()).unwrap();
    assert_eq!(names(&copy), vec!["a"]);
    assert!(copy.entries[0].completed);
}

#[test]
fn filters_have_names_and_links() {
    assert_eq!(Filter::iter(), vec![Filter::All, Filter::Active, Filter::Completed]);
    assert_eq!(Filter::default(), Filter::All);
    assert_eq!(Filter::All.as_href(), "#/");
    assert_eq!(Filter::Active.as_href(), "#/active");
    assert_eq!(Filter::Completed.as_href(), "#/completed");
    assert_eq!(Filter::All.name(), "All");
    assert_eq!(Filter::Active.name(), "Active");
    assert_eq!(Filter::Completed.name(), "Completed");
    let e = Entry { description: String::new(), completed: true, editing: false };
    assert!(Filter::All.fits(&e) && Filter::Completed.fits(&e) && !Filter::Active.fits(&e));
}

#[test]
fn the_list_page_reacts() {
    let mut m = todo::Model::new();
    assert_eq!(m.hidden_class(), "hidden");
    assert_eq!(m.update(todo::Msg::StateUpdate, false), (false, todo::Effect::FetchState));
    let mut s = list(&[("a", true), ("b", false), ("c", false)]);
    s.filter = Filter::Active;
    assert_eq!(m.update(todo::Msg::GotState(s), false), (true, todo::Effect::Nothing));
    assert_eq!(m.hidden_class(), "");
    assert_eq!(m.shown_entries(), vec![1, 2]);
    assert_eq!(m.filter_class(Filter::Active), "selected");
    assert_eq!(m.filter_class(Filter::All), "not-selected");
    assert_eq!(m.state().total(), 3);
    assert_eq!(m.update(todo::Msg::Focus, true), (true, todo::Effect::FocusInput));
    assert_eq!(m.update(todo::Msg::Focus, false), (false, todo::Effect::Nothing));
    let e = Entry { description: String::new(), completed: true, editing: true };
    assert_eq!(entry_classes(&e), vec!["todo", "editing", "completed"]);
    assert!(matches!(on_key("Enter".to_string(), Msg::Add), Some(Msg::Add)));
    assert!(on_key("a".to_string(), Msg::Add).is_none());
}

#[test]
fn changes_are_sent_until_they_are_taken() {
    assert_eq!(RETRY_MILLIS, 500);
    assert_eq!(send_step(&Ok(())), SendStep::Done);
    assert_eq!(send_step(&Err(ClientError::Unavailable)), SendStep::RetryAfter(500));
    assert_eq!(send_step(&Err(ClientError::Timeout)), SendStep::RetryAfter(500));
}

#[derive(Debug, PartialEq, Clone)]
struct Millis(f64);

impl wraft::raft::Command for Millis {
    fn duplicate(&self) -> Self {
        self.clone()
    }
}

#[test]
fn a_benchmark_counts() {
    let mut s: benchmark::State<Millis> = benchmark::State::new();
    s.apply(BenchMsg::Iter);
    assert!(s.get(Millis(1.0)).is_none());
    s.apply(BenchMsg::Start(Millis(1.5)));
    s.apply(BenchMsg::Iter);
    let r = s.get(Millis(9.0)).unwrap();
    assert_eq!((r.start, r.end, r.iters), (Millis(1.5), Millis(9.0), 2));
    s.apply(BenchMsg::Reset);
    assert!(s.get(Millis(1.0)).is_none());
    s.apply(BenchMsg::Start(Millis(0.0)));
    assert_eq!(s.get(Millis(1.0)).unwrap().iters, 0);
}

#[test]
fn the_benchmark_page_reacts() {
    let mut m: benchmark::Model<Millis> = benchmark::Model::new();
    assert_eq!(m.update(benchmark::Msg::ToggleBenchmark), (true, benchmark::Effect::Toggle));
    assert_eq!(m.state, BenchState::Running);
    assert_eq!(m.update(benchmark::Msg::ToggleBenchmark), (true, benchmark::Effect::Toggle));
    assert_eq!(m.state, BenchState::Stopped);
    assert_eq!(m.update(benchmark::Msg::DumpState), (false, benchmark::Effect::FetchDump));
    let mut n = UpdateNotifier::new();
    let due: Vec<i32> = (1..=150).filter(|_| n.updated()).collect();
    assert_eq!(due, vec![50, 100, 150]);
    assert!(n.can_count());
    assert_eq!(bench_step(true, false), BenchStep::Iterate);
    assert_eq!(bench_step(true, true), BenchStep::Stop);
    assert_eq!(bench_step(false, false), BenchStep::Stop);
}

#[test]
fn a_cluster_is_started_or_joined() {
    let mut p = ClusterInit::new();
    assert_eq!(p.update_with(init::Msg::StartCluster, 7), (true, init::Effect::Start(7)));
    assert_eq!(p.update_with(init::Msg::JoinCluster, 7), (false, init::Effect::InvalidKey));
    p.update_with(init::Msg::UpdateSessionKey("00ff".to_string()), 7);
    assert_eq!(p.session_key(), "00ff");
    assert_eq!(p.update_with(init::Msg::JoinCluster, 7), (true, init::Effect::Start(255)));
    assert_eq!(p.update_with(init::Msg::ClearStorage, 7), (false, init::Effect::ClearStorage));
    let keys: Vec<(bool, init::Effect)> = (0..4).map(|_| p.update(init::Msg::StartCluster)).collect();
    assert!(keys.iter().any(|k| *k != keys[0]));
    assert!(matches!(init::on_key("Enter".to_string()), Some(init::Msg::JoinCluster)));
    assert!(init::on_key("x".to_string()).is_none());
    let w = ClusterWaiting { session_key: 16 };
    assert_eq!(w.message(), "Session key is 00000000000000000000000000000010");
    assert!(w.change(17) && !w.change(16));
}

#[test]
fn setup_leads_to_a_running_cluster() {
    let (mut m, effect) = raft_init::Model::<u8>::create(None);
    assert_eq!(effect, raft_init::Effect::Nothing);
    assert!(matches!(m.state, raft_init::State::Setup));
    assert_eq!(m.update_with(raft_init::Msg::JoinCluster, 1), (false, raft_init::Effect::InvalidKey));
    m.update_with(raft_init::Msg::UpdateSessionKey("a".to_string()), 1);
    assert_eq!(m.update_with(raft_init::Msg::JoinCluster, 1), (true, raft_init::Effect::Start(10)));
    assert!(matches!(m.state, raft_init::State::Waiting(10)));
    assert_eq!(m.update_with(raft_init::Msg::ClusterStarted(3), 1), (true, raft_init::Effect::Nothing));
    assert!(matches!(m.state, raft_init::State::Running(3)));
    assert_eq!(m.update_with(raft_init::Msg::ClearStorage, 1), (true, raft_init::Effect::ClearStorage));
    let (mut m, effect) = raft_init::Model::<u8>::create(Some(5));
    assert_eq!(effect, raft_init::Effect::Start(5));
    match m.update(raft_init::Msg::StartCluster) {
        (true, raft_init::Effect::Start(key)) => {
            assert!(matches!(m.state, raft_init::State::Waiting(k) if k == key))
        }
        other => panic!("{:?}", other),
    }
    assert_eq!(CLUSTER_SIZE, 3);
    let mut w = RaftWrapper::new(9);
    assert_eq!(w.take(), Some(9));
    assert_eq!(w.take(), None);
}

#[test]
fn the_setup_page_links_to_the_others() {
    let links = other_cluster_members("wraft1.eevans.co", "/todo", 0xff);
    let urls: Vec<&str> = links.iter().map(|l| l.url.as_str()).collect();
    assert_eq!(urls, vec![
        "https://wraft0.eevans.co/todo#000000000000000000000000000000ff",
        "https://wraft2.eevans.co/todo#000000000000000000000000000000ff",
    ]);
    assert_eq!(links[0].label, "Open wraft0");
    let links = other_cluster_members("localhost", "/", 0);
    assert_eq!(links.len(), 3);
    assert_eq!(links[2].url, "https://wraft2./#00000000000000000000000000000000");
    assert_eq!(clear_storage_label(12), "Clear local storage (currently 12 item(s))");
    assert_eq!(waiting_message(1), "Cluster ID is 00000000000000000000000000000001");
}
