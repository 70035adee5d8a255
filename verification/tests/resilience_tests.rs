use eco_weave::resilience::caching::{elapsed_since, TransactionCache};
use eco_weave::resilience::heartbeat::HeartbeatMonitor;
use std::time::{Duration, SystemTime, UNIX_EPOCH};

fn now_nanos() -> u128 {
    SystemTime::now().duration_since(UNIX_EPOCH).unwrap().as_nanos()
}

#[test]
fn test_transaction_cache() {
    let mut cache = TransactionCache::new(Duration::from_secs(2).as_nanos());

    cache.add_transaction("tx_1".to_string(), "payload_1".to_string());
    cache.add_transaction("tx_2".to_string(), "payload_2".to_string());

    assert_eq!(cache.cache.len(), 2, "Cache should contain 2 transactions");

    cache.cleanup_expired();
    assert_eq!(cache.cache.len(), 2);

    cache.cleanup_expired_at(now_nanos() + Duration::from_secs(3).as_nanos());

    assert_eq!(
        cache.cache.len(),
        0,
        "Cache should be empty after expiration"
    );
}

#[test]
fn test_transaction_cache_under_load() {
    let mut cache = TransactionCache::new(Duration::from_secs(2).as_nanos());

    for i in 0..10_000 {
        cache.add_transaction_at(format!("tx_{}", i), format!("payload_{}", i), 1_000);
    }

    assert_eq!(
        cache.cache.len(),
        10_000,
        "Cache should contain 10,000 transactions"
    );

    cache.cleanup_expired_at(1_000 + Duration::from_secs(3).as_nanos());

    assert_eq!(
        cache.cache.len(),
        0,
        "Cache should be empty after expiration"
    );
}

#[test]
fn test_heartbeat_detection() {
    let second = Duration::from_secs(1).as_nanos();
    let mut monitor = HeartbeatMonitor::new(2 * second);
    let start = now_nanos();

    monitor.update_heartbeat("node_1".to_string());
    monitor.update_heartbeat("node_2".to_string());

    let inactive_nodes = monitor.check_inactive_nodes_at(start + second);
    assert!(inactive_nodes.is_empty(), "No nodes should be inactive yet");
    assert!(monitor.check_inactive_nodes().is_empty());

    let inactive_nodes = monitor.check_inactive_nodes_at(now_nanos() + 4 * second);
    assert_eq!(inactive_nodes.len(), 2, "Both nodes should be inactive");
}

#[test]
fn elapsed_time_is_never_negative() {
    assert_eq!(elapsed_since(10, 25), 15);
    assert_eq!(elapsed_since(25, 25), 0);
    assert_eq!(elapsed_since(26, 25), 0);
    assert_eq!(elapsed_since(0, u128::MAX), u128::MAX);
}

#[test]
fn the_cache_holds_one_entry_for_an_id() {
    let mut cache = TransactionCache::new(100);
    cache.add_transaction_at("a".to_string(), "first".to_string(), 10);
    cache.add_transaction_at("b".to_string(), "other".to_string(), 20);
    cache.add_transaction_at("a".to_string(), "second".to_string(), 30);
    assert_eq!(cache.cache.len(), 2);
    assert_eq!(cache.cache[0].id, "a");
    assert_eq!(cache.cache[0].payload, "second");
    assert_eq!(cache.cache[0].added_at, 30);
    assert_eq!(cache.cache[1].id, "b");
    assert_eq!(cache.cache[1].payload, "other");
    assert_eq!(cache.cache_lifetime, 100);
}

#[test]
fn the_cache_forgets_an_entry_at_its_lifetime() {
    let mut cache = TransactionCache::new(100);
    cache.add_transaction_at("old".to_string(), "p".to_string(), 0);
    cache.add_transaction_at("edge".to_string(), "p".to_string(), 50);
    cache.add_transaction_at("young".to_string(), "p".to_string(), 51);
    cache.add_transaction_at("ahead".to_string(), "p".to_string(), 900);
    cache.cleanup_expired_at(149);
    assert_eq!(cache.cache.len(), 3);
    cache.cleanup_expired_at(150);
    let left: Vec<&str> = cache.cache.iter().map(|entry| entry.id.as_str()).collect();
    assert_eq!(left, vec!["young", "ahead"]);
    let mut never = TransactionCache::new(0);
    never.add_transaction_at("a".to_string(), "p".to_string(), 5);
    never.cleanup_expired_at(5);
    assert!(never.cache.is_empty());
}

#[test]
fn the_monitor_names_the_peers_that_are_silent_for_longer_than_the_timeout() {
    let mut monitor = HeartbeatMonitor::new(100);
    monitor.update_heartbeat_at("a".to_string(), 0);
    monitor.update_heartbeat_at("b".to_string(), 10);
    monitor.update_heartbeat_at("c".to_string(), 500);
    assert!(monitor.check_inactive_nodes_at(100).is_empty());
    assert_eq!(monitor.check_inactive_nodes_at(101), vec!["a"]);
    assert_eq!(monitor.check_inactive_nodes_at(111), vec!["a", "b"]);
    monitor.update_heartbeat_at("a".to_string(), 111);
    assert_eq!(monitor.check_inactive_nodes_at(111), vec!["b"]);
    assert_eq!(monitor.last_seen.len(), 3);
    assert_eq!(monitor.check_inactive_nodes_at(601), vec!["a", "b", "c"]);
    assert_eq!(monitor.timeout, 100);
}
