use rvb::peer::{handshake_step, PeerInitStage};
use rvb::protocol::Message;

fn hello() -> Message {
    Message::Hello { public_key: vec![1] }
}

fn who_are_you() -> Message {
    Message::WhoAreYou { data: vec![2], public_key: vec![1] }
}

fn its_me() -> Message {
    Message::ItsMe { signature: vec![3], data: vec![2] }
}

fn welcome() -> Message {
    Message::Welcome { dht_ip: "::1".to_string(), dht_port: 1, signature: vec![4] }
}

#[test]
fn test_handshake_happy_path() {
    let mut stage = PeerInitStage::Initial;
    stage = handshake_step(stage, &hello(), true);
    assert_eq!(stage, PeerInitStage::Hello);
    stage = handshake_step(stage, &who_are_you(), true);
    assert_eq!(stage, PeerInitStage::WhoAreYou);
    stage = handshake_step(stage, &its_me(), true);
    assert_eq!(stage, PeerInitStage::ItsMe);
    stage = handshake_step(stage, &welcome(), true);
    assert_eq!(stage, PeerInitStage::Welcome);
}

#[test]
fn test_skipping_a_step_leaves_stage_unchanged() {
    // Receiving ItsMe while still in Hello (skipping WhoAreYou) is ignored.
    let stage = handshake_step(PeerInitStage::Hello, &its_me(), true);
    assert_eq!(stage, PeerInitStage::Hello);
}

#[test]
fn test_failed_verification_leaves_stage_unchanged() {
    assert_eq!(
        handshake_step(PeerInitStage::Hello, &who_are_you(), false),
        PeerInitStage::Hello
    );
    assert_eq!(
        handshake_step(PeerInitStage::WhoAreYou, &its_me(), false),
        PeerInitStage::WhoAreYou
    );
    assert_eq!(handshake_step(PeerInitStage::ItsMe, &welcome(), false), PeerInitStage::ItsMe);
}

#[test]
fn test_unrelated_messages_are_dropped() {
    let gossip = Message::Gossip { peers: vec![] };
    assert_eq!(handshake_step(PeerInitStage::Initial, &gossip, true), PeerInitStage::Initial);
    assert_eq!(handshake_step(PeerInitStage::Welcome, &hello(), true), PeerInitStage::Welcome);
}
