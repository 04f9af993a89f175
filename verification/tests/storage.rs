use std::collections::HashMap;
use wraft::raft::persistence::PersistentState;
use wraft::raft::storage::{read_number, Storage, Write};
use wraft::raft::{Command, LogEntry};

fn entry(idx: u64, term: u64) -> LogEntry<String> {
    LogEntry { cmd: format!("cmd{}", idx), term, idx }
}

#[derive(Debug, PartialEq)]
enum Item {
    Text(String),
    Entry(u64, u64, String),
}

fn perform(disk: &mut HashMap<String, Item>, writes: Vec<Write<String>>) {
    for w in writes {
        match w {
            Write::Put { key, value } => {
                disk.insert(key, Item::Text(value));
            }
            Write::PutEntry { key, entry } => {
                disk.insert(key, Item::Entry(entry.idx, entry.term, entry.cmd));
            }
            Write::Remove { key } => {
                disk.remove(&key);
            }
        }
    }
}

fn restart(disk: &HashMap<String, Item>) -> Storage<String> {
    let text = |key: &str| match disk.get(key) {
        Some(Item::Text(s)) => Some(s.clone()),
        _ => None,
    };
    let last = text("last-log-index-9");
    let n: u64 = last.as_ref().map_or(0, |s| s.parse().unwrap());
    let log = (1..=n)
        .map(|i| match disk.get(&format!("log-9-{}", i)) {
            Some(Item::Entry(idx, term, cmd)) => {
                Some(LogEntry { idx: *idx, term: *term, cmd: cmd.clone() })
            }
            _ => None,
        })
        .collect();
    Storage::new(9, text("current-term-9"), text("voted-for-9"), last, log).unwrap()
}

fn fresh() -> Storage<String> {
    Storage::new(9, None, None, None, Vec::new()).unwrap()
}

#[test]
fn a_fresh_storage_is_empty() {
    let s = fresh();
    assert_eq!(s.current_term(), 0);
    assert_eq!(*s.voted_for(), None);
    assert_eq!(s.last_log_index(), 0);
    assert_eq!(s.last_log_term(), 0);
    assert!(s.get_log(0).is_none());
    assert!(s.get_log(1).is_none());
}

#[test]
fn what_is_stored_survives_a_restart() {
    let mut s = fresh();
    let mut disk = HashMap::new();
    s.increment_term();
    s.set_voted_for(Some(77));
    s.append_log(&entry(1, 1));
    s.append_log(&entry(2, 1));
    perform(&mut disk, s.take_writes());
    assert_eq!(disk["current-term-9"], Item::Text("1".to_string()));
    assert_eq!(disk["voted-for-9"], Item::Text("77".to_string()));
    assert_eq!(disk["last-log-index-9"], Item::Text("2".to_string()));
    assert_eq!(disk["log-9-2"], Item::Entry(2, 1, "cmd2".to_string()));
    let s = restart(&disk);
    assert_eq!(s.current_term(), 1);
    assert_eq!(*s.voted_for(), Some(77));
    assert_eq!(s.last_log_index(), 2);
    assert_eq!(s.last_log_term(), 1);
    assert_eq!(s.get_log(2).unwrap().cmd, "cmd2");
}

#[test]
fn a_later_term_clears_the_vote() {
    let mut s = fresh();
    let mut disk = HashMap::new();
    s.set_voted_for(Some(5));
    assert!(s.update_term(3));
    assert_eq!(*s.voted_for(), None);
    assert!(!s.update_term(3));
    assert!(!s.update_term(2));
    perform(&mut disk, s.take_writes());
    assert!(!disk.contains_key("voted-for-9"));
    assert_eq!(restart(&disk).current_term(), 3);
    assert_eq!(*restart(&disk).voted_for(), None);
    assert_eq!(s.take_writes().len(), 0);
}

#[test]
fn overwriting_drops_what_follows() {
    let mut s = fresh();
    let mut disk = HashMap::new();
    for i in 1..=4 {
        s.append_log(&entry(i, 1));
    }
    s.overwrite_log(&entry(2, 5));
    assert_eq!(s.last_log_index(), 2);
    assert_eq!(s.last_log_term(), 5);
    perform(&mut disk, s.take_writes());
    let s = restart(&disk);
    assert_eq!(s.last_log_index(), 2);
    assert_eq!(s.get_log(1).unwrap().term, 1);
    assert_eq!(s.get_log(2).unwrap().term, 5);
    assert!(s.get_log(3).is_none());
}

#[test]
fn parts_of_the_log_are_cut_out() {
    let mut s = fresh();
    for i in 1..=5 {
        s.append_log(&entry(i, i));
    }
    let idx = |v: Vec<LogEntry<String>>| v.iter().map(|e| e.idx).collect::<Vec<_>>();
    assert_eq!(idx(s.sublog(2, 4)), vec![2, 3, 4]);
    assert_eq!(idx(s.sublog(0, 2)), vec![1, 2]);
    assert_eq!(idx(s.sublog(4, 99)), vec![4, 5]);
    assert_eq!(idx(s.sublog(4, 3)), Vec::<u64>::new());
    assert_eq!(idx(s.sublog(6, 9)), Vec::<u64>::new());
}

#[test]
fn unreadable_storage_is_refused() {
    assert!(Storage::<String>::new(9, Some("x".to_string()), None, None, Vec::new()).is_none());
    assert!(Storage::<String>::new(9, None, Some("-1".to_string()), None, Vec::new()).is_none());
    assert!(Storage::<String>::new(9, None, None, Some("one".to_string()), Vec::new()).is_none());
    assert_eq!(read_number(&Some("12".to_string())), Some(12));
    assert_eq!(read_number(&None), Some(0));
    assert_eq!(read_number(&Some("1x".to_string())), None);
}

#[test]
fn a_missing_entry_shows_when_it_is_read() {
    let log = vec![Some(entry(1, 1)), None, Some(entry(3, 2))];
    let s = Storage::new(9, Some("4".to_string()), None, Some("3".to_string()), log).unwrap();
    assert!(!s.is_complete());
    assert_eq!(s.current_term(), 4);
    assert_eq!(s.last_log_index(), 3);
    assert_eq!(s.last_log_term(), 2);
    assert_eq!(s.get_log(1).unwrap().idx, 1);
    assert_eq!(s.get_log(3).unwrap().idx, 3);
    assert!(s.get_log(4).is_none());
    assert_eq!(s.sublog(3, 9).len(), 1);
    let log = vec![Some(entry(2, 1))];
    assert!(!Storage::new(9, None, None, Some("1".to_string()), log).unwrap().is_complete());
    assert!(fresh().is_complete());
}

#[test]
fn a_session_starts_beside_others() {
    let mut disk = HashMap::new();
    disk.insert("current-term-99".to_string(), Item::Text("5".to_string()));
    disk.insert("log-99-1".to_string(), Item::Entry(1, 5, "other".to_string()));
    disk.insert("peer-configuration-9".to_string(), Item::Text("AAAAAAAAAAA=".to_string()));
    let s = restart(&disk);
    assert_eq!((s.current_term(), s.last_log_index()), (0, 0));
    assert_eq!(*s.voted_for(), None);
}

#[test]
fn entries_are_copied() {
    let e = entry(3, 2);
    let d = e.duplicate();
    assert_eq!((d.idx, d.term, d.cmd.as_str()), (3, 2, "cmd3"));
}

#[test]
fn named_nodes_store_their_vote() {
    let mut s: PersistentState<String> = PersistentState::new("key", None, None).unwrap();
    assert_eq!(s.current_term(), 0);
    assert_eq!(s.last_log_index(), 0);
    assert_eq!(s.last_log_term(), 0);
    s.increment_term();
    s.set_voted_for(Some("me".to_string()));
    s.append_log(entry(1, 1));
    assert_eq!(s.last_log_index(), 1);
    assert_eq!(s.last_log_term(), 1);
    let mut disk = HashMap::new();
    perform(&mut disk, s.take_writes());
    assert_eq!(disk["current-term-key"], Item::Text("1".to_string()));
    assert_eq!(disk["voted-for-key"], Item::Text("me".to_string()));
    assert_eq!(disk["log-key-1"], Item::Entry(1, 1, "cmd1".to_string()));
    assert!(s.update_term(4));
    assert!(!s.update_term(4));
    assert_eq!(*s.voted_for(), None);
    perform(&mut disk, s.take_writes());
    assert!(!disk.contains_key("voted-for-key"));
}

#[test]
fn named_nodes_start_from_what_is_stored() {
    let mut s: PersistentState<String> =
        PersistentState::new("key", Some("8".to_string()), Some("you".to_string())).unwrap();
    assert_eq!(s.current_term(), 8);
    assert_eq!(*s.voted_for(), Some("you".to_string()));
    assert_eq!(s.take_writes().len(), 2);
    assert!(PersistentState::<String>::new("key", Some("?".to_string()), None).is_none());
}

#[test]
fn keys_name_the_session() {
    let k = wraft::raft::storage::keys(12);
    assert_eq!(k.current_term, "current-term-12");
    assert_eq!(k.voted_for, "voted-for-12");
    assert_eq!(k.last_log_index, "last-log-index-12");
    assert_eq!(wraft::raft::storage::log_item_key(12, 3), "log-12-3");
}

#[test]
fn sessions_share_a_storage() {
    let mut disk = HashMap::new();
    disk.insert("log-99-1".to_string(), Item::Text("other".to_string()));
    disk.insert("current-term-99".to_string(), Item::Text("5".to_string()));
    let mut s = fresh();
    s.increment_term();
    s.append_log(&entry(1, 1));
    s.append_log(&entry(2, 1));
    s.overwrite_log(&entry(1, 2));
    assert!(s.update_term(8));
    perform(&mut disk, s.take_writes());
    assert_eq!(disk["log-99-1"], Item::Text("other".to_string()));
    assert_eq!(disk["current-term-99"], Item::Text("5".to_string()));
    assert_eq!(disk.keys().filter(|k| !k.contains("-99")).count(), 4);
}
