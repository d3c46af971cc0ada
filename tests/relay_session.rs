use relay::message::{ClientMessage, RelayMessage};
use relay::relay::{Outgoing, PeerAddr, RelayState};

fn addr(port: u16) -> PeerAddr {
    PeerAddr::V4 { ip: 0x7F00_0001, port }
}

fn is_welcome(o: &Outgoing, to: PeerAddr, slot: u8) -> bool {
    o.to == to && matches!(o.message, RelayMessage::Welcome { player_slot } if player_slot == slot)
}

fn is_start(o: &Outgoing, to: PeerAddr) -> bool {
    o.to == to && matches!(o.message, RelayMessage::GameStart)
}

fn input(tick: u32, payload: Vec<u8>) -> ClientMessage {
    ClientMessage::Input { tick, payload }
}

fn started(a: PeerAddr, b: PeerAddr) -> RelayState {
    let mut s = RelayState::new();
    s.handle_message(a, ClientMessage::Hello);
    s.handle_message(b, ClientMessage::Hello);
    s
}

#[test]
fn new_session_is_empty() {
    let s = RelayState::new();
    assert_eq!(s.players, [None, None]);
    assert!(!s.game_started);
    assert_eq!(s.current_tick, 0);
    assert!(s.tick_inputs.iter().all(|i| i.is_none()));
    assert_eq!(s.next_empty_slot(), Some(0));
    assert!(!s.all_slots_filled());
    assert!(!s.all_inputs_received());
    assert_eq!(s.find_player(&addr(1)), None);
}

#[test]
fn handshake_tick_scenario() {
    let (a, b) = (addr(5001), addr(5002));
    let mut s = RelayState::new();

    let out = s.handle_message(a, ClientMessage::Hello);
    assert_eq!(out.len(), 1);
    assert!(is_welcome(&out[0], a, 0));
    assert!(!s.game_started);

    let out = s.handle_message(b, ClientMessage::Hello);
    assert_eq!(out.len(), 3);
    assert!(is_welcome(&out[0], b, 1));
    assert!(is_start(&out[1], a));
    assert!(is_start(&out[2], b));
    assert!(s.game_started);

    let out = s.handle_message(a, input(0, vec![0xA]));
    assert!(out.is_empty());
    let out = s.handle_message(b, input(0, vec![0xB]));
    assert_eq!(out.len(), 2);
    for (o, to) in out.iter().zip([a, b]) {
        assert_eq!(o.to, to);
        match &o.message {
            RelayMessage::TickInputs { tick, inputs } => {
                assert_eq!(*tick, 0);
                assert_eq!(inputs, &vec![vec![0xA], vec![0xB]]);
            }
            other => panic!("unexpected {:?}", other),
        }
    }
    assert_eq!(s.current_tick, 1);
    assert!(s.tick_inputs.iter().all(|i| i.is_none()));
}

#[test]
fn future_input_is_dropped() {
    let (a, b) = (addr(1), addr(2));
    let mut s = started(a, b);
    s.current_tick = 4;
    let out = s.handle_message(a, input(5, vec![1]));
    assert!(out.is_empty());
    assert_eq!(s.current_tick, 4);
    assert!(s.tick_inputs.iter().all(|i| i.is_none()));
    assert_eq!(s.players, [Some(a), Some(b)]);
    assert!(s.game_started);
}

#[test]
fn stale_input_is_dropped() {
    let (a, b) = (addr(1), addr(2));
    let mut s = started(a, b);
    s.handle_message(a, input(0, vec![1]));
    s.handle_message(b, input(0, vec![2]));
    assert_eq!(s.current_tick, 1);
    assert!(s.handle_message(a, input(0, vec![3])).is_empty());
    assert!(s.handle_message(b, input(0, vec![4])).is_empty());
    assert_eq!(s.current_tick, 1);
    assert!(!s.all_inputs_received());
}

#[test]
fn repeated_hello_keeps_slot() {
    let (a, b) = (addr(1), addr(2));
    let mut s = RelayState::new();
    s.handle_message(a, ClientMessage::Hello);
    let out = s.handle_message(a, ClientMessage::Hello);
    assert_eq!(out.len(), 1);
    assert!(is_welcome(&out[0], a, 0));
    assert_eq!(s.players, [Some(a), None]);

    s.handle_message(b, ClientMessage::Hello);
    let out = s.handle_message(b, ClientMessage::Hello);
    assert_eq!(out.len(), 2);
    assert!(is_welcome(&out[0], b, 1));
    assert!(is_start(&out[1], b));
    assert_eq!(s.players, [Some(a), Some(b)]);
    assert!(s.game_started);
}

#[test]
fn third_client_is_turned_away() {
    let (a, b, c) = (addr(1), addr(2), addr(3));
    let mut s = started(a, b);
    assert!(s.handle_message(c, ClientMessage::Hello).is_empty());
    assert_eq!(s.players, [Some(a), Some(b)]);
    assert_eq!(s.find_player(&c), None);
}

#[test]
fn input_from_unknown_address_is_dropped() {
    let (a, b, c) = (addr(1), addr(2), addr(3));
    let mut s = started(a, b);
    assert!(s.handle_message(c, input(0, vec![1])).is_empty());
    assert!(s.tick_inputs.iter().all(|i| i.is_none()));
}

#[test]
fn later_input_replaces_earlier_one() {
    let (a, b) = (addr(1), addr(2));
    let mut s = started(a, b);
    s.handle_message(a, input(0, vec![1]));
    s.handle_message(a, input(0, vec![9]));
    assert_eq!(s.tick_inputs[0], Some(vec![9]));
    let out = s.handle_message(b, input(0, vec![2]));
    match &out[0].message {
        RelayMessage::TickInputs { inputs, .. } => assert_eq!(inputs, &vec![vec![9], vec![2]]),
        other => panic!("unexpected {:?}", other),
    }
}

#[test]
fn addresses_differ_by_port_and_family() {
    let v4 = PeerAddr::V4 { ip: 1, port: 7 };
    let v6 = PeerAddr::V6 { ip: 1, port: 7, flowinfo: 0, scope_id: 0 };
    let mut s = RelayState::new();
    s.handle_message(v4, ClientMessage::Hello);
    assert_eq!(s.find_player(&v4), Some(0));
    assert_eq!(s.find_player(&v6), None);
    assert_eq!(s.find_player(&PeerAddr::V4 { ip: 1, port: 8 }), None);
}

#[test]
fn relay_datagrams_are_decoded_or_dropped() {
    let (a, b) = (addr(1), addr(2));
    let mut s = RelayState::new();
    assert!(s.handle_datagram(a, &[9, 9, 9]).is_empty());
    assert_eq!(s.players, [None, None]);
    let out = s.handle_datagram(a, &ClientMessage::Hello.serialize());
    assert!(is_welcome(&out[0], a, 0));
    s.handle_datagram(b, &ClientMessage::Hello.serialize());
    s.handle_datagram(a, &input(0, vec![5]).serialize());
    let out = s.handle_datagram(b, &input(0, vec![6]).serialize());
    assert_eq!(out.len(), 2);
    assert_eq!(s.current_tick, 1);
}

#[test]
fn session_table_operations() {
    let (a, b) = (addr(1), addr(2));
    let mut s = RelayState::new();
    s.players[1] = Some(b);
    assert_eq!(s.next_empty_slot(), Some(0));
    assert_eq!(s.find_player(&b), Some(1));
    s.players[0] = Some(a);
    assert_eq!(s.next_empty_slot(), None);
    assert!(s.all_slots_filled());
    s.record_input(1, vec![3]);
    assert!(!s.all_inputs_received());
    s.record_input(0, vec![4]);
    assert!(s.all_inputs_received());
    s.current_tick = u32::MAX;
    s.advance_tick();
    assert_eq!(s.current_tick, 0);
    assert!(s.tick_inputs.iter().all(|i| i.is_none()));
}

#[test]
fn ticks_keep_completing() {
    let (a, b) = (addr(1), addr(2));
    let mut s = started(a, b);
    for t in 0..50u32 {
        assert!(s.handle_message(b, input(t, vec![t as u8])).is_empty());
        let out = s.handle_message(a, input(t, vec![1])).len();
        assert_eq!(out, 2);
        assert_eq!(s.current_tick, t + 1);
    }
}

#[test]
fn game_start_goes_out_to_both_once() {
    let (a, b, c) = (addr(1), addr(2), addr(3));
    let mut s = RelayState::new();
    let mut broadcasts = 0;
    let senders = [a, a, c, b, a, b, c, b, a];
    for from in senders {
        let out = s.handle_message(from, ClientMessage::Hello);
        let starts: Vec<PeerAddr> = out
            .iter()
            .filter(|o| matches!(o.message, RelayMessage::GameStart))
            .map(|o| o.to)
            .collect();
        if starts.len() == 2 {
            assert_eq!(starts, vec![a, c]);
            broadcasts += 1;
        } else {
            assert!(starts.len() <= 1);
            assert!(starts.iter().all(|to| *to == from));
        }
    }
    assert_eq!(broadcasts, 1);
    assert_eq!(s.players, [Some(a), Some(c)]);
}
