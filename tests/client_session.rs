use relay::client::{ClientSession, ConnectionState};
use relay::message::{ClientMessage, RelayMessage};

fn playing(slot: u8) -> ClientSession {
    let mut c = ClientSession::new();
    c.receive(RelayMessage::Welcome { player_slot: slot });
    c.receive(RelayMessage::GameStart);
    c
}

fn tick_inputs(tick: u32, a: u8, b: u8) -> RelayMessage {
    RelayMessage::TickInputs { tick, inputs: vec![vec![a], vec![b]] }
}

#[test]
fn new_client_is_connecting() {
    let c = ClientSession::new();
    assert_eq!(c.state, ConnectionState::Connecting);
    assert!(c.is_connecting());
    assert!(!c.is_playing());
    assert!(!c.tick_is_ready());
    assert!(!c.need_to_send());
    assert_eq!(c.sim_tick, 0);
    assert_eq!(c.inputs, vec![Vec::<u8>::new(), Vec::new()]);
}

#[test]
fn welcome_then_game_start() {
    let mut c = ClientSession::new();
    c.receive(RelayMessage::Welcome { player_slot: 1 });
    assert_eq!(c.state, ConnectionState::WaitingForOpponent);
    assert_eq!(c.local_slot, 1);
    assert!(!c.is_connecting());
    c.receive(RelayMessage::GameStart);
    assert_eq!(c.state, ConnectionState::Playing);
    assert!(c.need_to_send());
}

#[test]
fn repeated_welcome_does_not_regress() {
    let mut c = playing(0);
    c.receive(RelayMessage::Welcome { player_slot: 1 });
    assert_eq!(c.state, ConnectionState::Playing);
    assert_eq!(c.local_slot, 1);
}

#[test]
fn repeated_game_start_changes_nothing() {
    let mut c = playing(0);
    c.input_message(vec![1]).unwrap();
    assert!(!c.need_to_send_input);
    c.receive(RelayMessage::GameStart);
    assert!(!c.need_to_send_input);
}

#[test]
fn game_start_before_welcome_starts_play() {
    let mut c = ClientSession::new();
    c.receive(RelayMessage::GameStart);
    assert_eq!(c.state, ConnectionState::Playing);
    c.receive(RelayMessage::Welcome { player_slot: 1 });
    assert_eq!(c.state, ConnectionState::Playing);
}

#[test]
fn input_is_sent_once_per_tick() {
    let mut c = playing(0);
    match c.input_message(vec![7]) {
        Some(ClientMessage::Input { tick, payload }) => {
            assert_eq!(tick, 0);
            assert_eq!(payload, vec![7]);
        }
        other => panic!("unexpected {:?}", other),
    }
    assert!(c.input_message(vec![8]).is_none());
    assert!(!c.need_to_send());
}

#[test]
fn no_input_before_play() {
    let mut c = ClientSession::new();
    c.receive(RelayMessage::Welcome { player_slot: 0 });
    assert!(c.input_message(vec![1]).is_none());
}

#[test]
fn tick_inputs_for_current_tick_open_the_gate() {
    let mut c = playing(0);
    c.input_message(vec![1]);
    c.receive(tick_inputs(0, 3, 4));
    assert!(c.tick_is_ready());
    assert_eq!(c.inputs, vec![vec![3], vec![4]]);
    assert!(c.post_tick_advance());
    assert_eq!(c.sim_tick, 1);
    assert!(!c.tick_is_ready());
    assert!(c.need_to_send());
    assert!(!c.post_tick_advance());
    assert_eq!(c.sim_tick, 1);
}

#[test]
fn tick_inputs_for_other_ticks_are_ignored() {
    let mut c = playing(0);
    c.receive(tick_inputs(1, 3, 4));
    assert!(!c.tick_is_ready());
    assert_eq!(c.inputs, vec![Vec::<u8>::new(), Vec::new()]);
    c.post_tick_advance();
    assert_eq!(c.sim_tick, 0);
}

#[test]
fn short_tick_inputs_update_only_given_slots() {
    let mut c = playing(0);
    c.receive(RelayMessage::TickInputs { tick: 0, inputs: vec![vec![5]] });
    assert_eq!(c.inputs, vec![vec![5], Vec::new()]);
    assert!(c.tick_is_ready());
}

#[test]
fn gate_needs_play() {
    let mut c = ClientSession::new();
    c.receive(tick_inputs(0, 1, 2));
    assert!(c.tick_ready);
    assert!(!c.tick_is_ready());
    assert!(!c.post_tick_advance());
}

#[test]
fn client_datagrams_are_decoded_or_dropped() {
    let mut c = ClientSession::new();
    c.receive_datagram(&[0, 1, 2]);
    assert_eq!(c.state, ConnectionState::Connecting);
    c.receive_datagram(&RelayMessage::Welcome { player_slot: 1 }.serialize());
    assert_eq!(c.state, ConnectionState::WaitingForOpponent);
    assert_eq!(c.local_slot, 1);
}

#[test]
fn two_clients_stay_in_lockstep() {
    let mut a = playing(0);
    let mut b = playing(1);
    let mut world_a: Vec<(u32, Vec<Vec<u8>>)> = Vec::new();
    let mut world_b: Vec<(u32, Vec<Vec<u8>>)> = Vec::new();
    for t in 0..20u32 {
        let m = tick_inputs(t, t as u8, (t * 3) as u8);
        a.input_message(vec![t as u8]);
        b.input_message(vec![(t * 3) as u8]);
        // One client polls before the message arrives; nothing runs.
        assert!(!a.post_tick_advance());
        a.receive(m.clone());
        b.receive(m);
        for (c, w) in [(&mut a, &mut world_a), (&mut b, &mut world_b)] {
            if c.tick_is_ready() {
                w.push((c.sim_tick, c.inputs.clone()));
                assert!(c.post_tick_advance());
            }
        }
    }
    assert_eq!(world_a, world_b);
    assert_eq!(world_a.len(), 20);
    assert_eq!(a.sim_tick, 20);
    assert_eq!(b.sim_tick, 20);
}
