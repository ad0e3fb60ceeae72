use minikv_lite::replication::{
    classify_heartbeat, replica_urls, HeartbeatResult, KvReply, QuorumWrite, ReplicaRead,
};

#[test]
fn write_is_refused_without_enough_healthy_replicas() {
    let addrs = vec!["a:1".to_string()];
    assert!(QuorumWrite::plan(&addrs, 2, "k").is_none());
}

#[test]
fn write_is_done_only_when_the_quorum_accepts() {
    let addrs = vec!["a:1".to_string(), "b:2".to_string()];
    let mut q = QuorumWrite::plan(&addrs, 2, "k").unwrap();
    assert_eq!(q.next_url().unwrap(), "http://a:1/local/k");
    q.record(true);
    assert_eq!(q.next_url().unwrap(), "http://b:2/local/k");
    q.record(false);
    assert!(q.next_url().is_none());
    assert_eq!(q.outcome(), KvReply::Unavailable);

    let mut q = QuorumWrite::plan(&addrs, 2, "k").unwrap();
    q.record(true);
    q.record(true);
    assert_eq!(q.outcome(), KvReply::Success);
}

#[test]
fn heartbeat_answers_are_classified() {
    assert_eq!(classify_heartbeat(200), Ok(HeartbeatResult::Alive));
    assert_eq!(classify_heartbeat(404), Ok(HeartbeatResult::RegisterNeeded));
    assert_eq!(classify_heartbeat(500), Err(500));
}

#[test]
fn replica_urls_follow_the_address_order() {
    let addrs = vec!["b:2".to_string(), "a:1".to_string()];
    assert_eq!(
        replica_urls(&addrs, "x/y"),
        vec!["http://b:2/local/x%2Fy".to_string(), "http://a:1/local/x%2Fy".to_string()]
    );
}

#[test]
fn read_stops_at_the_first_replica_with_the_value() {
    let addrs = vec!["a:1".to_string(), "b:2".to_string(), "c:3".to_string()];
    let mut r = ReplicaRead::plan(&addrs, "k");
    assert_eq!(r.next_url().unwrap(), "http://a:1/local/k");
    r.record(false);
    assert_eq!(r.next_url().unwrap(), "http://b:2/local/k");
    r.record(true);
    assert!(r.next_url().is_none());
    assert_eq!(r.outcome(), KvReply::Success);
}

#[test]
fn read_is_not_found_when_no_replica_has_the_value() {
    let addrs = vec!["a:1".to_string(), "b:2".to_string()];
    let mut r = ReplicaRead::plan(&addrs, "k");
    r.record(false);
    r.record(false);
    assert!(r.next_url().is_none());
    assert_eq!(r.outcome(), KvReply::NotFound);
    let none: Vec<String> = Vec::new();
    let r = ReplicaRead::plan(&none, "k");
    assert!(r.next_url().is_none());
    assert_eq!(r.outcome(), KvReply::NotFound);
}
