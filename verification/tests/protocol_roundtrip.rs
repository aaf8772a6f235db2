use rvb::crypto::KeyPair;
use rvb::protocol::{decode_envelope, encode_envelope, Location, Message, ProtocolError,
    TransportMessage};
use rvb::value::{DbValue, ValueMap};

fn sample_batch() -> Vec<Message> {
    let mut inner = ValueMap::new();
    inner.insert("x".to_string(), DbValue::Number(1));
    inner.insert("flag".to_string(), DbValue::Boolean(true));
    let mut metadata = ValueMap::new();
    metadata.insert("origin".to_string(), DbValue::Text("unit".to_string()));
    vec![
        Message::Hello { public_key: vec![1, 2, 3] },
        Message::Insert {
            location: Location {
                namespace: "ns".to_string(),
                contract_space: "space".to_string(),
                contract: vec![9, 9],
                key: "k".to_string(),
            },
            incoming_data: DbValue::Object(inner),
            metadata,
            state: 7,
        },
        Message::Get {
            location: Location {
                namespace: "ns".to_string(),
                contract_space: "space".to_string(),
                contract: vec![],
                key: "k2".to_string(),
            },
            select: vec![vec!["a".to_string(), "b".to_string()], vec![]],
        },
        Message::SearchTags { namespace: "ns".to_string(), query: vec!["tag".to_string()] },
        Message::Gossip { peers: vec![(vec![1], vec![vec![2], vec![3, 4]])] },
    ]
}

#[test]
fn test_sign_then_open_yields_equal_batch() {
    let key = KeyPair::generate();
    let batch = sample_batch();
    let envelope = TransportMessage::sign(&batch, &key, "publisher".to_string());
    let opened = envelope.try_into_messages().unwrap();
    assert_eq!(opened, batch);
    assert_eq!(envelope.publisher, "publisher");
    assert_eq!(envelope.received_by.len(), 0);
    assert_eq!(envelope.id.len(), 64);
}

#[test]
fn test_flipping_any_payload_byte_fails_verification() {
    let key = KeyPair::generate();
    let batch = sample_batch();
    let envelope = TransportMessage::sign(&batch, &key, "p".to_string());
    for i in 0..envelope.data.len() {
        let mut tampered = envelope.clone();
        tampered.data[i] ^= 0x01;
        match tampered.try_into_messages() {
            Err(ProtocolError::Crypto(_)) => {},
            other => panic!("byte {} flip was not rejected: {:?}", i, other.is_ok()),
        }
    }
}

#[test]
fn test_tampered_signature_fails_verification() {
    let key = KeyPair::generate();
    let envelope = TransportMessage::sign(&sample_batch(), &key, "p".to_string());
    let mut tampered = envelope.clone();
    tampered.signature.data[0] ^= 0xFF;
    assert!(matches!(tampered.try_into_messages(), Err(ProtocolError::Crypto(_))));
}

#[test]
fn test_bad_embedded_key_is_rejected() {
    let key = KeyPair::generate();
    let mut envelope = TransportMessage::sign(&sample_batch(), &key, "p".to_string());
    envelope.signature.signed_by = vec![0u8; 10];
    assert!(matches!(envelope.try_into_messages(), Err(ProtocolError::Crypto(_))));
}

#[test]
fn test_valid_signature_over_garbage_payload_is_schema_error() {
    let key = KeyPair::generate();
    let garbage = vec![0xFFu8; 12];
    let signature = key.sign(&garbage);
    let envelope = TransportMessage {
        data: garbage,
        signature: rvb::protocol::MessageSignature {
            data: signature,
            signed_by: key.export_public(),
        },
        publisher: "p".to_string(),
        received_by: Vec::new(),
        id: vec![0u8; 64],
    };
    assert!(matches!(envelope.try_into_messages(), Err(ProtocolError::Schema)));
}

#[test]
fn test_envelope_wire_roundtrip() {
    let key = KeyPair::generate();
    let mut envelope = TransportMessage::sign(&sample_batch(), &key, "p".to_string());
    envelope.received_by.push(vec![7, 7, 7]);
    let bytes = encode_envelope(&envelope);
    let decoded = decode_envelope(&bytes).unwrap();
    assert_eq!(decoded, envelope);
}

#[test]
fn test_envelope_wire_rejects_trailing_bytes() {
    let key = KeyPair::generate();
    let envelope = TransportMessage::sign(&sample_batch(), &key, "p".to_string());
    let mut bytes = encode_envelope(&envelope);
    bytes.push(0);
    assert!(decode_envelope(&bytes).is_none());
}

#[test]
fn test_welcome_and_handshake_messages_roundtrip() {
    let key = KeyPair::generate();
    let batch = vec![
        Message::WhoAreYou { data: vec![1], public_key: vec![2] },
        Message::ItsMe { signature: vec![3], data: vec![4] },
        Message::Welcome { dht_ip: "::1".to_string(), dht_port: 4000, signature: vec![5] },
        Message::DeployContract {
            contract_payload: vec![0, 1],
            namespace: "ns".to_string(),
            params: ValueMap::new(),
            tags: vec!["t".to_string()],
        },
    ];
    let envelope = TransportMessage::sign(&batch, &key, "p".to_string());
    assert_eq!(envelope.try_into_messages().unwrap(), batch);
}

#[test]
fn test_single_message_sign_roundtrip() {
    let key = rvb::crypto::KeyPair::generate();
    let msg = Message::SearchTags { namespace: "ns".to_string(), query: vec!["q".to_string()] };
    let envelope = msg.sign(&key, "me".to_string());
    let opened = envelope.try_into_messages().unwrap();
    assert_eq!(opened.len(), 1);
    assert_eq!(opened[0], msg);
}
