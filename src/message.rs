use vstd::prelude::*;

verus! {

/// A simulation step shared by both clients and the relay.
pub type Tick = u32;

/// Index of a player in the session: 0 or 1.
pub type PlayerSlot = u8;

/// Number of player slots in a session.
pub const MAX_PLAYERS: usize = 2;

/// Wrapping successor of a tick counter.
pub open spec fn next_tick(t: Tick) -> Tick {
    if t == u32::MAX { 0 } else { (t + 1) as u32 }
}

/// Advances a tick counter by one, wrapping at the top of the range.
pub fn tick_after(t: Tick) -> (r: Tick)
    ensures
        r == next_tick(t),
{
    if t == u32::MAX { 0 } else { t + 1 }
}

/// A message sent by a client to the relay.
#[derive(Debug, Clone)]
pub enum ClientMessage {
    Hello,
    Input { tick: Tick, payload: Vec<u8> },
}

/// Mathematical value of a `ClientMessage`.
pub ghost enum ClientMessageView {
    Hello,
    Input { tick: Tick, payload: Seq<u8> },
}

impl View for ClientMessage {
    type V = ClientMessageView;

    open spec fn view(&self) -> ClientMessageView {
        match self {
            ClientMessage::Hello => ClientMessageView::Hello,
            ClientMessage::Input { tick, payload } => ClientMessageView::Input {
                tick: *tick,
                payload: payload@,
            },
        }
    }
}

/// A message sent by the relay to a client.
#[derive(Debug, Clone)]
pub enum RelayMessage {
    Welcome { player_slot: PlayerSlot },
    GameStart,
    TickInputs { tick: Tick, inputs: Vec<Vec<u8>> },
}

/// Mathematical value of a `RelayMessage`.
pub ghost enum RelayMessageView {
    Welcome { player_slot: PlayerSlot },
    GameStart,
    TickInputs { tick: Tick, inputs: Seq<Seq<u8>> },
}

/// The byte sequences held by a vector of byte vectors.
pub open spec fn blobs_view(v: Seq<Vec<u8>>) -> Seq<Seq<u8>> {
    v.map_values(|b: Vec<u8>| b@)
}

impl View for RelayMessage {
    type V = RelayMessageView;

    open spec fn view(&self) -> RelayMessageView {
        match self {
            RelayMessage::Welcome { player_slot } => RelayMessageView::Welcome {
                player_slot: *player_slot,
            },
            RelayMessage::GameStart => RelayMessageView::GameStart,
            RelayMessage::TickInputs { tick, inputs } => RelayMessageView::TickInputs {
                tick: *tick,
                inputs: blobs_view(inputs@),
            },
        }
    }
}

/// Copies a byte vector, keeping its contents.
pub fn copy_bytes(b: &Vec<u8>) -> (r: Vec<u8>)
    ensures
        r@ == b@,
{
    let r = b.clone();
    assert(r@ =~= b@);
    r
}

} // verus!
