use raft_core::{RaftConfig, RaftConfigBuilder};

#[test]
fn test_default_config() {
    let config = RaftConfig::default();
    assert!(config.heartbeat_interval < config.election_timeout_min);
    assert!(config.election_timeout_min < config.election_timeout_max);
}

#[test]
fn test_builder() {
    let config = RaftConfigBuilder::new()
        .election_timeout(200, 400)
        .heartbeat_interval(100)
        .max_append_entries(50)
        .enable_pipelining(true)
        .build();

    assert_eq!(config.election_timeout_min, 200);
    assert_eq!(config.max_append_entries, 50);
    assert!(config.enable_pipelining);
}

#[test]
fn default_values() {
    let c = RaftConfig::default();
    assert_eq!(c.election_timeout_min, 150);
    assert_eq!(c.election_timeout_max, 300);
    assert_eq!(c.heartbeat_interval, 50);
    assert_eq!(c.max_append_entries, 100);
    assert_eq!(c.max_append_bytes, 1024 * 1024);
    assert_eq!(c.snapshot_threshold, 10_000);
    assert_eq!(c.snapshot_trailing_logs, 1_000);
    assert!(!c.enable_pipelining);
}

#[test]
fn invalid_heartbeat_is_rejected() {
    let b = RaftConfigBuilder::new().election_timeout(100, 200).heartbeat_interval(150);
    assert!(!b.is_valid());
}

#[test]
fn invalid_timeouts_and_batch_are_rejected() {
    assert!(!RaftConfigBuilder::new().election_timeout(300, 300).is_valid());
    assert!(!RaftConfigBuilder::new().max_append_entries(0).is_valid());
    assert!(RaftConfigBuilder::new().is_valid());
}

#[test]
fn election_timeout_from_random_value() {
    let c = RaftConfig::default();
    assert_eq!(c.election_timeout_from(7), 157);
    assert_eq!(c.election_timeout_from(150), 150);
    assert_eq!(c.election_timeout_from(299), 299);
}

#[test]
fn drawn_election_timeout_is_in_range() {
    let c = RaftConfigBuilder::new().election_timeout(10, 12).heartbeat_interval(5).build();
    let mut seen_low = false;
    let mut seen_high = false;
    for _ in 0..200 {
        let t = c.random_election_timeout();
        assert!((10..12).contains(&t));
        seen_low |= t == 10;
        seen_high |= t == 11;
    }
    assert!(seen_low && seen_high);
}

#[test]
fn builder_sets_every_field() {
    let c = RaftConfigBuilder::default()
        .max_append_bytes(64)
        .snapshot_threshold(5)
        .snapshot_trailing_logs(2)
        .build();
    assert_eq!(c.max_append_bytes, 64);
    assert_eq!(c.snapshot_threshold, 5);
    assert_eq!(c.snapshot_trailing_logs, 2);
}
