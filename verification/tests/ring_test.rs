use std::collections::hash_map::DefaultHasher;
use std::collections::HashSet;
use std::hash::{Hash, Hasher};

use minikv_lite::ring::HashRing;

#[test]
fn replicas_for_same_key_is_stable() {
    let mut ring = HashRing::new(64);
    ring.add_volume("v1");
    ring.add_volume("v2");
    ring.add_volume("v3");

    let first = ring.replicas_for("alpha", 2);
    let second = ring.replicas_for("alpha", 2);

    assert_eq!(first, second);
}

#[test]
fn replicas_for_returns_distinct_volume_ids() {
    let mut ring = HashRing::new(64);
    ring.add_volume("v1");
    ring.add_volume("v2");
    ring.add_volume("v3");

    let replicas = ring.replicas_for("alpha", 3);
    let distinct: HashSet<_> = replicas.iter().collect();

    assert_eq!(replicas.len(), distinct.len());
}

#[test]
fn replicas_for_returns_requested_count_when_enough_nodes_exist() {
    let mut ring = HashRing::new(64);
    ring.add_volume("v1");
    ring.add_volume("v2");
    ring.add_volume("v3");

    let replicas = ring.replicas_for("alpha", 2);

    assert_eq!(replicas.len(), 2);
}

#[test]
fn replicas_for_caps_at_the_number_of_volumes() {
    let mut ring = HashRing::new(8);
    ring.add_volume("v1");
    ring.add_volume("v2");

    let mut replicas = ring.replicas_for("alpha", 5);
    replicas.sort();
    assert_eq!(replicas, vec!["v1".to_string(), "v2".to_string()]);
}

#[test]
fn replicas_for_is_empty_for_zero_or_empty_ring() {
    let mut ring = HashRing::new(4);
    assert!(ring.replicas_for("alpha", 2).is_empty());
    ring.add_volume("v1");
    assert!(ring.replicas_for("alpha", 0).is_empty());
    assert_eq!(ring.replicas_for("alpha", 1), vec!["v1".to_string()]);
}

#[test]
fn add_volume_twice_keeps_the_ring() {
    let mut ring = HashRing::new(16);
    ring.add_volume("v1");
    ring.add_volume("v2");
    let points = ring.len();
    let before: Vec<Vec<String>> = ["a", "b", "c", "d"].iter().map(|k| ring.replicas_for(k, 2)).collect();
    ring.add_volume("v2");
    let after: Vec<Vec<String>> = ["a", "b", "c", "d"].iter().map(|k| ring.replicas_for(k, 2)).collect();
    assert_eq!(ring.len(), points);
    assert_eq!(before, after);
}

#[test]
fn remove_volume_takes_it_off_every_route() {
    let mut ring = HashRing::new(16);
    ring.add_volume("v1");
    ring.add_volume("v2");
    ring.add_volume("v3");
    assert_eq!(ring.len(), 48);
    ring.remove_volume("v2");
    assert_eq!(ring.len(), 32);
    for key in ["a", "b", "c", "alpha", "zulu"] {
        let replicas = ring.replicas_for(key, 3);
        assert_eq!(replicas.len(), 2);
        assert!(!replicas.contains(&"v2".to_string()));
    }
}

#[test]
fn default_ring_has_sixty_four_points_per_volume() {
    let mut ring = HashRing::default();
    assert_eq!(ring.vnodes, 64);
    ring.add_volume("v1");
    assert_eq!(ring.len(), 64);
}

#[test]
fn hash64_matches_std_default_hasher() {
    let mut h = DefaultHasher::new();
    "v1#0".hash(&mut h);
    assert_eq!(minikv_lite::ring::hash64("v1#0"), h.finish());
    assert_ne!(minikv_lite::ring::hash64("v1#0"), minikv_lite::ring::hash64("v1#1"));
}

#[test]
fn adding_then_removing_a_volume_restores_every_route() {
    let mut ring = HashRing::new(32);
    ring.add_volume("v1");
    ring.add_volume("v2");
    ring.add_volume("v3");
    let keys = ["alpha", "beta", "gamma", "delta", "k/1", ""];
    let before: Vec<Vec<String>> = keys.iter().map(|k| ring.replicas_for(k, 2)).collect();
    let points = ring.len();
    ring.add_volume("v4");
    assert_eq!(ring.len(), points + 32);
    ring.remove_volume("v4");
    assert_eq!(ring.len(), points);
    let after: Vec<Vec<String>> = keys.iter().map(|k| ring.replicas_for(k, 2)).collect();
    assert_eq!(before, after);
    for k in keys.iter() {
        assert!(!ring.replicas_for(k, 4).contains(&"v4".to_string()));
    }
}

#[test]
fn a_volume_added_without_points_is_on_no_route() {
    let mut ring = HashRing::new(0);
    ring.add_volume("v1");
    assert_eq!(ring.len(), 0);
    assert!(ring.replicas_for("alpha", 3).is_empty());
    let mut ring = HashRing::new(8);
    ring.add_volume("v1");
    ring.add_volume("v1");
    assert_eq!(ring.len(), 8);
    assert_eq!(ring.replicas_for("alpha", 3), vec!["v1".to_string()]);
}
