use rvb::crypto::KeyPair;
use rvb::node::{broadcast_summary, prepare_relay, BroadcastStatus, ContractCache, NodeConfig};
use rvb::protocol::{Message, TransportMessage};

fn envelope() -> TransportMessage {
    let key = KeyPair::generate();
    TransportMessage::sign(&vec![Message::Hello { public_key: vec![1] }], &key, "p".to_string())
}

#[test]
fn test_relay_appends_local_identity() {
    let mut msg = envelope();
    let identity = vec![42u8, 43u8];
    prepare_relay(&mut msg, &identity, 8);
    assert_eq!(msg.received_by, vec![identity]);
}

#[test]
fn test_relay_does_not_duplicate_identity() {
    let mut msg = envelope();
    let identity = vec![42u8];
    msg.received_by.push(identity.clone());
    msg.received_by.push(vec![7u8]);
    prepare_relay(&mut msg, &identity, 8);
    assert_eq!(msg.received_by, vec![identity, vec![7u8]]);
}

#[test]
fn test_relay_trims_oldest_first() {
    let mut msg = envelope();
    msg.received_by = vec![vec![1], vec![2], vec![3]];
    let identity = vec![4u8];
    let config = NodeConfig { max_received_by: 2 };
    prepare_relay(&mut msg, &identity, config.max_received_by);
    // The identity is appended, then the oldest entries are evicted.
    assert_eq!(msg.received_by, vec![vec![3], vec![4]]);
    assert!(msg.received_by.len() <= config.max_received_by);
}

#[test]
fn test_relay_respects_zero_cap() {
    let mut msg = envelope();
    msg.received_by = vec![vec![1]];
    prepare_relay(&mut msg, &vec![2u8], 0);
    assert!(msg.received_by.is_empty());
}

#[test]
fn test_broadcast_summary_counts() {
    let results = vec![
        BroadcastStatus::Delivered,
        BroadcastStatus::Network,
        BroadcastStatus::Delivered,
        BroadcastStatus::Runtime,
        BroadcastStatus::Delivered,
    ];
    let (runtime, network, delivered) = broadcast_summary(&results);
    assert_eq!(runtime, 1);
    assert_eq!(network, 1);
    assert_eq!(delivered, 3);
}

#[test]
fn test_contract_cache_serves_second_resolution() {
    let mut cache: ContractCache<u32> = ContractCache::new();
    let id = vec![1u8, 2u8];
    let mut fetches = 0;

    // First resolution: miss, so storage is read and the result compiled.
    let first = match cache.lookup(&id) {
        Some(t) => *t,
        None => {
            fetches += 1;
            let compiled = 99u32;
            cache.store(id.clone(), compiled);
            compiled
        },
    };
    // Second resolution of the same identifier: served from cache.
    let second = match cache.lookup(&id) {
        Some(t) => *t,
        None => {
            fetches += 1;
            let compiled = 99u32;
            cache.store(id.clone(), compiled);
            compiled
        },
    };
    assert_eq!(first, 99);
    assert_eq!(second, 99);
    assert_eq!(fetches, 1);
}

#[test]
fn test_contract_cache_keys_are_independent() {
    let mut cache: ContractCache<u32> = ContractCache::new();
    cache.store(vec![1], 10);
    cache.store(vec![2], 20);
    assert_eq!(cache.lookup(&vec![1]), Some(&10));
    assert_eq!(cache.lookup(&vec![2]), Some(&20));
    assert_eq!(cache.lookup(&vec![3]), None);
}
