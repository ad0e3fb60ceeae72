use minikv_lite::coord::{CoordState, RegisterRequest};

const SECOND: u64 = 1_000_000_000;

#[test]
fn route_snapshot_lists_healthy_replica_addresses() {
    let mut state = CoordState::new(2, 16, 30 * SECOND as u128);
    state.register_for_test(
        RegisterRequest {
            volume_id: "v1".to_string(),
            addr: "127.0.0.1:7001".to_string(),
        },
        0,
    );
    state.register_for_test(
        RegisterRequest {
            volume_id: "v2".to_string(),
            addr: "127.0.0.1:7002".to_string(),
        },
        0,
    );

    let route = state.route_snapshot("alpha");

    assert_eq!(route.key, "alpha");
    assert_eq!(route.replicas, 2);
    assert_eq!(route.targets.len(), 2);
    assert!(route.targets.iter().all(|target| target.healthy));
}

#[test]
fn cluster_summary_counts_healthy_and_unhealthy_volumes() {
    let mut state = CoordState::new(2, 16, 0);
    state.register_for_test(
        RegisterRequest {
            volume_id: "v1".to_string(),
            addr: "127.0.0.1:7001".to_string(),
        },
        1_000,
    );
    state.register_for_test(
        RegisterRequest {
            volume_id: "v2".to_string(),
            addr: "127.0.0.1:7002".to_string(),
        },
        1_000,
    );
    state.reap_dead_for_test(2_000);

    let summary = state.cluster_summary();

    assert_eq!(summary.total_volumes, 2);
    assert_eq!(summary.healthy_volumes, 0);
    assert_eq!(summary.unhealthy_volumes, 2);
    assert_eq!(summary.write_quorum, 2);
}

fn two_volumes() -> CoordState {
    let mut state = CoordState::new(2, 16, 30 * SECOND as u128);
    state.register_for_test(
        RegisterRequest {
            volume_id: "v2".to_string(),
            addr: "127.0.0.1:7002".to_string(),
        },
        0,
    );
    state.register_for_test(
        RegisterRequest {
            volume_id: "v1".to_string(),
            addr: "127.0.0.1:7001".to_string(),
        },
        0,
    );
    state
}

#[test]
fn coord_admin_cluster_reports_summary_and_sorted_volumes() {
    let state = two_volumes();
    let response = state.cluster_response(5 * SECOND);
    assert_eq!(response.summary.replicas, 2);
    assert_eq!(response.summary.healthy_volumes, 2);
    assert_eq!(response.summary.unhealthy_volumes, 0);
    assert_eq!(response.volumes[0].volume_id, "v1");
    assert_eq!(response.volumes[1].volume_id, "v2");
    assert_eq!(response.volumes[0].last_seen_secs_ago, 5);
}

#[test]
fn coord_admin_ring_reports_targets_for_key() {
    let state = two_volumes();
    let route = state.route_snapshot("alpha");
    assert_eq!(route.key, "alpha");
    assert_eq!(route.replicas, 2);
    assert_eq!(route.write_quorum, 2);
    assert_eq!(route.targets.len(), 2);
}

#[test]
fn coord_admin_volume_stats_returns_empty_list_without_volumes() {
    let state = CoordState::new(2, 16, 30 * SECOND as u128);
    assert!(state.healthy_volume_stats_targets().is_empty());
}

#[test]
fn heartbeat_of_unknown_volume_is_refused() {
    let mut state = two_volumes();
    assert!(!state.heartbeat("v9", 10));
    assert!(state.heartbeat("v1", 10));
}

#[test]
fn reaped_volume_leaves_routes_and_heartbeat_brings_it_back() {
    let mut state = CoordState::new(2, 16, 10);
    state.load_volume("v1".to_string(), "a1".to_string(), 0);
    state.load_volume("v2".to_string(), "a2".to_string(), 100);
    state.reap_dead(105);
    let summary = state.cluster_summary();
    assert_eq!(summary.healthy_volumes, 1);
    let (addrs, quorum) = state.route_targets("alpha");
    assert_eq!(addrs, vec!["a2".to_string()]);
    assert_eq!(quorum, 2);
    let targets = state.healthy_volume_stats_targets();
    assert_eq!(targets.len(), 1);
    assert_eq!(targets[0].volume_id, "v2");

    assert!(state.heartbeat("v1", 106));
    let (mut addrs, _) = state.route_targets("alpha");
    addrs.sort();
    assert_eq!(addrs, vec!["a1".to_string(), "a2".to_string()]);
    assert_eq!(state.cluster_summary().healthy_volumes, 2);
}

#[test]
fn reap_keeps_volumes_seen_within_the_window() {
    let mut state = CoordState::new(1, 4, 10);
    state.load_volume("v1".to_string(), "a1".to_string(), 100);
    state.reap_dead(110);
    assert_eq!(state.cluster_summary().healthy_volumes, 1);
    state.reap_dead(111);
    assert_eq!(state.cluster_summary().healthy_volumes, 0);
    // a clock reading earlier than the last heartbeat counts as no time passed
    let mut state = CoordState::new(1, 4, 0);
    state.load_volume("v1".to_string(), "a1".to_string(), 100);
    state.reap_dead(50);
    assert_eq!(state.cluster_summary().healthy_volumes, 1);
}

#[test]
fn meta_snapshot_and_status_are_sorted_by_volume_id() {
    let state = two_volumes();
    let meta = state.meta_snapshot();
    assert_eq!(meta.len(), 2);
    assert_eq!(meta[0].volume_id, "v1");
    assert_eq!(meta[0].addr, "127.0.0.1:7001");
    assert_eq!(meta[1].volume_id, "v2");
    let status = state.status(SECOND * 3 + 5);
    assert_eq!(status.vnodes, 16);
    assert_eq!(status.replicas, 2);
    assert_eq!(status.volumes[1].addr, "127.0.0.1:7002");
    assert_eq!(status.volumes[1].last_seen_secs_ago, 3);
    assert!(status.volumes[1].healthy);
}

#[test]
fn a_healthy_volume_stays_routed_after_heartbeats() {
    let mut state = CoordState::new(2, 16, 30 * SECOND as u128);
    state.load_volume("v1".to_string(), "a1".to_string(), 0);
    state.load_volume("v2".to_string(), "a2".to_string(), 0);
    assert!(state.heartbeat("v1", 5));
    assert!(state.heartbeat("v2", 6));
    for key in ["alpha", "beta", "gamma"] {
        let (mut addrs, quorum) = state.route_targets(key);
        addrs.sort();
        assert_eq!(addrs, vec!["a1".to_string(), "a2".to_string()]);
        assert_eq!(quorum, 2);
    }
}

#[test]
fn route_targets_are_the_healthy_snapshot_addresses_in_order() {
    let mut state = CoordState::new(3, 16, 10);
    state.load_volume("v1".to_string(), "a1".to_string(), 0);
    state.load_volume("v2".to_string(), "a2".to_string(), 100);
    state.load_volume("v3".to_string(), "a3".to_string(), 100);
    for key in ["alpha", "beta", "gamma", "delta"] {
        let snapshot = state.route_snapshot(key);
        let (addrs, quorum) = state.route_targets(key);
        let healthy: Vec<String> = snapshot
            .targets
            .iter()
            .filter(|t| t.healthy)
            .map(|t| t.addr.clone())
            .collect();
        assert_eq!(addrs, healthy);
        assert_eq!(quorum, snapshot.write_quorum);
        assert!(addrs.len() <= 3);
    }
}

#[test]
fn loading_a_volume_is_registering_it() {
    let mut loaded = CoordState::new(2, 16, 10);
    let mut registered = CoordState::new(2, 16, 10);
    loaded.load_volume("v1".to_string(), "a1".to_string(), 7);
    registered.register_for_test(
        RegisterRequest {
            volume_id: "v1".to_string(),
            addr: "a1".to_string(),
        },
        7,
    );
    for key in ["alpha", "beta"] {
        let a = loaded.route_snapshot(key);
        let b = registered.route_snapshot(key);
        assert_eq!(a.targets.len(), b.targets.len());
        for (x, y) in a.targets.iter().zip(b.targets.iter()) {
            assert_eq!(x.volume_id, y.volume_id);
            assert_eq!(x.addr, y.addr);
            assert_eq!(x.healthy, y.healthy);
        }
    }
    assert_eq!(loaded.meta_snapshot().len(), registered.meta_snapshot().len());
}
