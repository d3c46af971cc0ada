use relay::message::{ClientMessage, RelayMessage};

fn client_round_trip(m: ClientMessage) -> ClientMessage {
    ClientMessage::deserialize(&m.serialize()).expect("a serialized message decodes")
}

fn relay_round_trip(m: RelayMessage) -> RelayMessage {
    RelayMessage::deserialize(&m.serialize()).expect("a serialized message decodes")
}

#[test]
fn hello_round_trips() {
    assert!(matches!(client_round_trip(ClientMessage::Hello), ClientMessage::Hello));
}

#[test]
fn input_round_trips() {
    for tick in [0u32, 1, 127, 128, 300, 16_384, u32::MAX] {
        let payload: Vec<u8> = (0..200u32).map(|i| (i * 7) as u8).collect();
        match client_round_trip(ClientMessage::Input { tick, payload: payload.clone() }) {
            ClientMessage::Input { tick: t, payload: p } => {
                assert_eq!(t, tick);
                assert_eq!(p, payload);
            }
            other => panic!("unexpected {:?}", other),
        }
    }
}

#[test]
fn input_with_empty_payload_round_trips() {
    match client_round_trip(ClientMessage::Input { tick: 9, payload: vec![] }) {
        ClientMessage::Input { tick, payload } => {
            assert_eq!(tick, 9);
            assert!(payload.is_empty());
        }
        other => panic!("unexpected {:?}", other),
    }
}

#[test]
fn relay_messages_round_trip() {
    assert!(matches!(
        relay_round_trip(RelayMessage::Welcome { player_slot: 1 }),
        RelayMessage::Welcome { player_slot: 1 }
    ));
    assert!(matches!(relay_round_trip(RelayMessage::GameStart), RelayMessage::GameStart));
    let inputs = vec![vec![0u8, 0, 128, 63], vec![0u8, 0, 128, 191]];
    match relay_round_trip(RelayMessage::TickInputs { tick: 70_000, inputs: inputs.clone() }) {
        RelayMessage::TickInputs { tick, inputs: got } => {
            assert_eq!(tick, 70_000);
            assert_eq!(got, inputs);
        }
        other => panic!("unexpected {:?}", other),
    }
    match relay_round_trip(RelayMessage::TickInputs { tick: 0, inputs: vec![] }) {
        RelayMessage::TickInputs { tick, inputs } => {
            assert_eq!(tick, 0);
            assert!(inputs.is_empty());
        }
        other => panic!("unexpected {:?}", other),
    }
}

#[test]
fn wire_form_is_exact() {
    assert_eq!(ClientMessage::Hello.serialize(), vec![0u8]);
    assert_eq!(
        ClientMessage::Input { tick: 300, payload: vec![9, 8] }.serialize(),
        vec![1u8, 0xAC, 0x02, 2, 9, 8]
    );
    assert_eq!(RelayMessage::Welcome { player_slot: 1 }.serialize(), vec![0u8, 1]);
    assert_eq!(RelayMessage::GameStart.serialize(), vec![1u8]);
    assert_eq!(
        RelayMessage::TickInputs { tick: 5, inputs: vec![vec![1], vec![2, 3]] }.serialize(),
        vec![2u8, 5, 2, 1, 1, 2, 2, 3]
    );
}

#[test]
fn wire_form_matches_postcard() {
    let payload = vec![7u8; 130];
    assert_eq!(
        ClientMessage::Input { tick: 1_000_000, payload: payload.clone() }.serialize(),
        postcard::to_allocvec(&(1u32, 1_000_000u32, payload)).unwrap()
    );
    assert_eq!(ClientMessage::Hello.serialize(), postcard::to_allocvec(&0u32).unwrap());
    assert_eq!(
        RelayMessage::Welcome { player_slot: 1 }.serialize(),
        postcard::to_allocvec(&(0u32, 1u8)).unwrap()
    );
    assert_eq!(RelayMessage::GameStart.serialize(), postcard::to_allocvec(&1u32).unwrap());
    let inputs = vec![vec![1u8, 2, 3], vec![200u8; 140]];
    assert_eq!(
        RelayMessage::TickInputs { tick: u32::MAX, inputs: inputs.clone() }.serialize(),
        postcard::to_allocvec(&(2u32, u32::MAX, inputs)).unwrap()
    );
}

#[test]
fn malformed_three_bytes_are_rejected() {
    assert!(ClientMessage::deserialize(&[1, 0x80, 0x80]).is_none());
    assert!(ClientMessage::deserialize(&[0xFF, 0xFF, 0xFF]).is_none());
    assert!(ClientMessage::deserialize(&[1, 5, 4]).is_none());
    assert!(RelayMessage::deserialize(&[2, 0x80, 0x80]).is_none());
    assert!(RelayMessage::deserialize(&[7, 0, 0]).is_none());
}

#[test]
fn truncated_and_padded_buffers_are_rejected() {
    assert!(ClientMessage::deserialize(&[]).is_none());
    assert!(RelayMessage::deserialize(&[]).is_none());
    assert!(ClientMessage::deserialize(&[0, 0]).is_none());
    assert!(RelayMessage::deserialize(&[0]).is_none());
    assert!(RelayMessage::deserialize(&[1, 1]).is_none());
    let full = ClientMessage::Input { tick: 3, payload: vec![1, 2, 3] }.serialize();
    for cut in 0..full.len() {
        assert!(ClientMessage::deserialize(&full[..cut]).is_none());
    }
    let mut padded = full.clone();
    padded.push(0);
    assert!(ClientMessage::deserialize(&padded).is_none());
    let full = RelayMessage::TickInputs { tick: 3, inputs: vec![vec![1], vec![2]] }.serialize();
    for cut in 0..full.len() {
        assert!(RelayMessage::deserialize(&full[..cut]).is_none());
    }
}

#[test]
fn non_canonical_and_oversized_varints_are_rejected() {
    // Zero written in two bytes.
    assert!(ClientMessage::deserialize(&[1, 0x80, 0x00, 0]).is_none());
    // A tick one past the largest u32.
    assert!(ClientMessage::deserialize(&[1, 0x80, 0x80, 0x80, 0x80, 0x10, 0]).is_none());
    // The largest u32 itself.
    match ClientMessage::deserialize(&[1, 0xFF, 0xFF, 0xFF, 0xFF, 0x0F, 0]) {
        Some(ClientMessage::Input { tick, payload }) => {
            assert_eq!(tick, u32::MAX);
            assert!(payload.is_empty());
        }
        other => panic!("unexpected {:?}", other),
    }
    // A payload length larger than the datagram.
    assert!(ClientMessage::deserialize(&[1, 0, 0xFF, 0xFF, 0xFF, 0xFF, 0x0F]).is_none());
    // An input count larger than the datagram.
    assert!(RelayMessage::deserialize(&[2, 0, 0xFF, 0xFF, 0x03]).is_none());
}

#[test]
fn generic_functions_match_methods() {
    let m = relay::ClientMessage::Input { tick: 42, payload: vec![1, 2] };
    let bytes = relay::serialize(&m);
    assert_eq!(bytes, m.serialize());
    match relay::deserialize::<relay::ClientMessage>(&bytes) {
        Some(ClientMessage::Input { tick, payload }) => {
            assert_eq!(tick, 42);
            assert_eq!(payload, vec![1, 2]);
        }
        other => panic!("unexpected {:?}", other),
    }
    let r = RelayMessage::Welcome { player_slot: 0 };
    assert_eq!(relay::serialize(&r), vec![0u8, 0]);
    assert!(relay::deserialize::<RelayMessage>(&[0u8, 0, 0]).is_none());
    assert!(relay::deserialize::<ClientMessage>(&[5u8]).is_none());
}
