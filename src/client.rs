use vstd::prelude::*;

use crate::codec::decode_relay;
use crate::message::{
    copy_bytes, next_tick, tick_after, ClientMessage, PlayerSlot, RelayMessage, RelayMessageView,
    Tick,
};

verus! {

/// Where a client stands in the handshake with the relay.
#[derive(Clone, Copy, Debug, PartialEq, Eq, Structural)]
pub enum ConnectionState {
    Connecting,
    WaitingForOpponent,
    Playing,
}

/// A client's side of the protocol: its handshake state, its slot, its
/// current tick, whether that tick may run, whether its local input is due,
/// and the input of every slot for the tick that may run.
pub struct ClientSession {
    pub state: ConnectionState,
    pub local_slot: PlayerSlot,
    pub sim_tick: Tick,
    pub tick_ready: bool,
    pub need_to_send_input: bool,
    pub inputs: Vec<Vec<u8>>,
}

/// Mathematical value of a `ClientSession`.
pub ghost struct ClientView {
    pub state: ConnectionState,
    pub local_slot: PlayerSlot,
    pub sim_tick: Tick,
    pub tick_ready: bool,
    pub need_to_send_input: bool,
    pub inputs: Seq<Seq<u8>>,
}

impl View for ClientSession {
    type V = ClientView;

    open spec fn view(&self) -> ClientView {
        ClientView {
            state: self.state,
            local_slot: self.local_slot,
            sim_tick: self.sim_tick,
            tick_ready: self.tick_ready,
            need_to_send_input: self.need_to_send_input,
            inputs: crate::message::blobs_view(self.inputs@),
        }
    }
}

/// A client that has just started: connecting, slot 0, tick 0, both gate
/// flags down, an empty input for each of the two slots.
pub open spec fn initial_client() -> ClientView {
    ClientView {
        state: ConnectionState::Connecting,
        local_slot: 0,
        sim_tick: 0,
        tick_ready: false,
        need_to_send_input: false,
        inputs: seq![Seq::empty(), Seq::empty()],
    }
}

/// `local` with each slot that `incoming` covers replaced by its entry.
pub open spec fn apply_inputs(local: Seq<Seq<u8>>, incoming: Seq<Seq<u8>>) -> Seq<Seq<u8>> {
    Seq::new(local.len(), |i: int| if i < incoming.len() { incoming[i] } else { local[i] })
}

/// The client after it receives `m` from the relay.
pub open spec fn on_relay_message(c: ClientView, m: RelayMessageView) -> ClientView {
    match m {
        RelayMessageView::Welcome { player_slot } => ClientView {
            local_slot: player_slot,
            state: if c.state == ConnectionState::Connecting {
                ConnectionState::WaitingForOpponent
            } else {
                c.state
            },
            ..c
        },
        RelayMessageView::GameStart => if c.state != ConnectionState::Playing {
            ClientView { state: ConnectionState::Playing, need_to_send_input: true, ..c }
        } else {
            c
        },
        RelayMessageView::TickInputs { tick, inputs } => if tick != c.sim_tick {
            c
        } else {
            ClientView { inputs: apply_inputs(c.inputs, inputs), tick_ready: true, ..c }
        },
    }
}

/// A simulation step may run.
pub open spec fn step_allowed(c: ClientView) -> bool {
    c.state == ConnectionState::Playing && c.tick_ready
}

/// The local input for the current tick is due.
pub open spec fn input_due(c: ClientView) -> bool {
    c.state == ConnectionState::Playing && c.need_to_send_input
}

/// The client after it has run the step of its current tick.
pub open spec fn after_step(c: ClientView) -> ClientView {
    ClientView {
        sim_tick: next_tick(c.sim_tick),
        tick_ready: false,
        need_to_send_input: true,
        ..c
    }
}

impl ClientSession {
    /// A client that has just started.
    pub fn new() -> (r: ClientSession)
        ensures
            r@ == initial_client(),
    {
        let mut inputs: Vec<Vec<u8>> = Vec::new();
        inputs.push(Vec::new());
        inputs.push(Vec::new());
        let r = ClientSession {
            state: ConnectionState::Connecting,
            local_slot: 0,
            sim_tick: 0,
            tick_ready: false,
            need_to_send_input: false,
            inputs,
        };
        assert(r@.inputs =~= seq![Seq::<u8>::empty(), Seq::<u8>::empty()]);
        r
    }

    /// Whether the client still waits for a `Welcome`, and so should keep
    /// sending `Hello`.
    pub fn is_connecting(&self) -> (r: bool)
        ensures
            r == (self.state == ConnectionState::Connecting),
    {
        self.state == ConnectionState::Connecting
    }

    /// Whether the game is running.
    pub fn is_playing(&self) -> (r: bool)
        ensures
            r == (self.state == ConnectionState::Playing),
    {
        self.state == ConnectionState::Playing
    }

    /// Whether a simulation step may run now.
    pub fn tick_is_ready(&self) -> (r: bool)
        ensures
            r == step_allowed(self@),
    {
        self.state == ConnectionState::Playing && self.tick_ready
    }

    /// Whether the local input for the current tick is due.
    pub fn need_to_send(&self) -> (r: bool)
        ensures
            r == input_due(self@),
    {
        self.state == ConnectionState::Playing && self.need_to_send_input
    }

    /// Applies a message from the relay.
    pub fn receive(&mut self, msg: RelayMessage)
        ensures
            final(self)@ == on_relay_message(old(self)@, msg@),
    {
        match msg {
            RelayMessage::Welcome { player_slot } => {
                self.local_slot = player_slot;
                if self.state == ConnectionState::Connecting {
                    self.state = ConnectionState::WaitingForOpponent;
                }
            },
            RelayMessage::GameStart => {
                if self.state != ConnectionState::Playing {
                    self.state = ConnectionState::Playing;
                    self.need_to_send_input = true;
                }
            },
            RelayMessage::TickInputs { tick, inputs } => {
                if tick != self.sim_tick {
                    return;
                }
                let ghost local = old(self)@.inputs;
                let ghost incoming = crate::message::blobs_view(inputs@);
                let mut i: usize = 0;
                while i < self.inputs.len() && i < inputs.len()
                    invariant
                        i <= self.inputs@.len(),
                        self.inputs@.len() == local.len(),
                        incoming == crate::message::blobs_view(inputs@),
                        forall|j: int|
                            0 <= j < self.inputs@.len() ==> #[trigger] self.inputs@[j]@ == (if j
                                < i && j < incoming.len() {
                                incoming[j]
                            } else {
                                local[j]
                            }),
                        self.state == old(self).state,
                        self.local_slot == old(self).local_slot,
                        self.sim_tick == old(self).sim_tick,
                        self.tick_ready == old(self).tick_ready,
                        self.need_to_send_input == old(self).need_to_send_input,
                    decreases inputs@.len() - i,
                {
                    let b = copy_bytes(&inputs[i]);
                    let ghost before = self.inputs@;
                    self.inputs.set(i, b);
                    assert(self.inputs@ == before.update(i as int, b));
                    i = i + 1;
                }
                self.tick_ready = true;
                assert(self@.inputs =~= apply_inputs(local, incoming));
            },
        }
    }

    /// Applies a datagram from the relay: one that is the wire form of no
    /// relay message is dropped and changes nothing.
    pub fn receive_datagram(&mut self, bytes: &[u8])
        ensures
            match decode_relay(bytes@) {
                Some(m) => final(self)@ == on_relay_message(old(self)@, m),
                None => final(self)@ == old(self)@,
            },
    {
        if let Some(msg) = RelayMessage::deserialize(bytes) {
            self.receive(msg);
        }
    }

    /// The input message for the current tick carrying `payload`, where one
    /// is due; sending it clears the request.
    pub fn input_message(&mut self, payload: Vec<u8>) -> (r: Option<ClientMessage>)
        ensures
            input_due(old(self)@) ==> r is Some && r.unwrap()@ == (
            crate::message::ClientMessageView::Input { tick: old(self).sim_tick, payload: payload@ })
                && final(self)@ == (ClientView { need_to_send_input: false, ..old(self)@ }),
            !input_due(old(self)@) ==> r is None && final(self)@ == old(self)@,
    {
        if self.state == ConnectionState::Playing && self.need_to_send_input {
            self.need_to_send_input = false;
            Some(ClientMessage::Input { tick: self.sim_tick, payload })
        } else {
            None
        }
    }

    /// Closes the step of the current tick, where one may run: moves to the
    /// next tick, lowers the ready flag and asks for the next local input.
    /// Returns whether it did.
    pub fn post_tick_advance(&mut self) -> (r: bool)
        ensures
            r == step_allowed(old(self)@),
            r ==> final(self)@ == after_step(old(self)@),
            !r ==> final(self)@ == old(self)@,
    {
        if self.state == ConnectionState::Playing && self.tick_ready {
            self.sim_tick = tick_after(self.sim_tick);
            self.tick_ready = false;
            self.need_to_send_input = true;
            true
        } else {
            false
        }
    }
}

/// Something that happens to a client: a message from the relay, the
/// sending of its local input, or a frame in which it tries to step.
pub ghost enum ClientEvent {
    Receive(RelayMessageView),
    SendInput,
    Step,
}

/// The client after `e`, and the per-slot inputs of the step it ran, if `e`
/// ran one.
pub open spec fn client_event(c: ClientView, e: ClientEvent) -> (ClientView, Option<Seq<Seq<u8>>>) {
    match e {
        ClientEvent::Receive(m) => (on_relay_message(c, m), None),
        ClientEvent::SendInput => if input_due(c) {
            (ClientView { need_to_send_input: false, ..c }, None)
        } else {
            (c, None)
        },
        ClientEvent::Step => if step_allowed(c) {
            (after_step(c), Some(c.inputs))
        } else {
            (c, None)
        },
    }
}

/// The client after the events `evs`, in order, and the inputs of every
/// step it ran, in order.
pub open spec fn run_client(c: ClientView, evs: Seq<ClientEvent>) -> (ClientView, Seq<Seq<Seq<u8>>>)
    decreases evs.len(),
{
    if evs.len() == 0 {
        (c, Seq::empty())
    } else {
        let (before, steps) = run_client(c, evs.drop_last());
        let (after, ran) = client_event(before, evs.last());
        match ran {
            Some(inputs) => (after, steps.push(inputs)),
            None => (after, steps),
        }
    }
}

/// The world that a step function reaches from `w` by running the steps
/// `steps`, in order.
pub open spec fn world_after<W>(
    w: W,
    step: spec_fn(W, Seq<Seq<u8>>) -> W,
    steps: Seq<Seq<Seq<u8>>>,
) -> W
    decreases steps.len(),
{
    if steps.len() == 0 {
        w
    } else {
        step(world_after(w, step, steps.drop_last()), steps.last())
    }
}

/// A client that was given slot `slot` and then the start of the game.
pub open spec fn started_client(slot: PlayerSlot) -> ClientView {
    on_relay_message(
        on_relay_message(initial_client(), RelayMessageView::Welcome { player_slot: slot }),
        RelayMessageView::GameStart,
    )
}

/// Two clients agree on everything but their own slot.
pub open spec fn same_gate(a: ClientView, b: ClientView) -> bool {
    a == ClientView { local_slot: a.local_slot, ..b }
}

proof fn lemma_run_same_gate(a: ClientView, b: ClientView, evs: Seq<ClientEvent>)
    requires
        same_gate(a, b),
    ensures
        same_gate(run_client(a, evs).0, run_client(b, evs).0),
        run_client(a, evs).1 == run_client(b, evs).1,
    decreases evs.len(),
{
    if evs.len() > 0 {
        lemma_run_same_gate(a, b, evs.drop_last());
    }
}

/// Two clients that start the game in their own slots and then see the
/// same events run the same steps with the same inputs, stay at the same
/// tick, and so reach the same world under any step function.
pub proof fn lemma_lockstep<W>(
    slot_a: PlayerSlot,
    slot_b: PlayerSlot,
    evs: Seq<ClientEvent>,
    step: spec_fn(W, Seq<Seq<u8>>) -> W,
    w: W,
)
    ensures
        started_client(slot_a).state == ConnectionState::Playing,
        started_client(slot_a).sim_tick == 0,
        run_client(started_client(slot_a), evs).1 == run_client(started_client(slot_b), evs).1,
        run_client(started_client(slot_a), evs).0.sim_tick == run_client(
            started_client(slot_b),
            evs,
        ).0.sim_tick,
        world_after(w, step, run_client(started_client(slot_a), evs).1) == world_after(
            w,
            step,
            run_client(started_client(slot_b), evs).1,
        ),
{
    lemma_run_same_gate(started_client(slot_a), started_client(slot_b), evs);
}

} // verus!
