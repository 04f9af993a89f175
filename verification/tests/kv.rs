use wraft::raft::kv::{to_cluster_request, KvRequest, KvStore, LogCmd};
use wraft::raft::{ClientRequest, Command, State};

fn put(key: &str, data: &str) -> LogCmd<String> {
    LogCmd::Put { key: key.to_string(), data: data.to_string() }
}

#[test]
fn a_store_keeps_the_last_value() {
    let mut s: KvStore<String> = KvStore::new();
    assert_eq!(s.get("a".to_string()), None);
    s.apply(put("a", "1"));
    s.apply(put("b", "2"));
    s.apply(put("a", "3"));
    assert_eq!(s.get("a".to_string()), Some("3".to_string()));
    assert_eq!(s.get("b".to_string()), Some("2".to_string()));
    let copy = s.duplicate();
    s.apply(LogCmd::Delete { key: "a".to_string() });
    s.apply(LogCmd::Delete { key: "nothing".to_string() });
    assert_eq!(s.get("a".to_string()), None);
    assert_eq!(s.get("b".to_string()), Some("2".to_string()));
    assert_eq!(copy.get("a".to_string()), Some("3".to_string()));
    assert!(s.accepts(&put("x", "y")));
}

#[test]
fn commands_are_copied() {
    assert!(matches!(put("a", "1").duplicate(), LogCmd::Put { key, data } if key == "a" && data == "1"));
    let del: LogCmd<String> = LogCmd::Delete { key: "k".to_string() };
    assert!(matches!(del.duplicate(), LogCmd::Delete { key } if key == "k"));
}

#[test]
fn store_requests_become_cluster_requests() {
    let r = to_cluster_request(KvRequest::Put("k".to_string(), "v".to_string()));
    assert!(matches!(r, ClientRequest::Apply(LogCmd::Put { .. })));
    let r = to_cluster_request::<String>(KvRequest::Delete("k".to_string()));
    assert!(matches!(r, ClientRequest::Apply(LogCmd::Delete { .. })));
    let r = to_cluster_request::<String>(KvRequest::Get("k".to_string()));
    assert!(matches!(r, ClientRequest::Get(k) if k == "k"));
    assert!(matches!(to_cluster_request::<String>(KvRequest::Debug), ClientRequest::Debug));
}
