use magnetited::gate::should_ask;
use magnetited::gate::MIN_MESH_PEERS;

#[test]
fn gate_opens_at_two_peers() {
    assert!(!should_ask(0));
    assert!(!should_ask(1));
    assert!(should_ask(2));
    assert!(should_ask(36));
}

#[test]
fn gate_threshold_is_two() {
    assert_eq!(MIN_MESH_PEERS, 2);
}
