use vstd::prelude::*;

use crate::codec::decode_client;
use crate::message::{
    copy_bytes, next_tick, tick_after, ClientMessage, ClientMessageView, PlayerSlot, RelayMessage,
    RelayMessageView, Tick, MAX_PLAYERS,
};

verus! {

/// Network address of a peer, as the relay tells peers apart.
#[derive(Clone, Copy, Debug, PartialEq, Eq, Structural)]
#[allow(inconsistent_fields)]
pub enum PeerAddr {
    V4 { ip: u32, port: u16 },
    V6 { ip: u128, port: u16, flowinfo: u32, scope_id: u32 },
}

/// A message the relay hands to the transport, with its destination.
#[derive(Debug)]
pub struct Outgoing {
    pub to: PeerAddr,
    pub message: RelayMessage,
}

impl View for Outgoing {
    type V = (PeerAddr, RelayMessageView);

    open spec fn view(&self) -> (PeerAddr, RelayMessageView) {
        (self.to, self.message@)
    }
}

/// The destinations and messages held by a vector of outgoing messages.
pub open spec fn sent(v: Seq<Outgoing>) -> Seq<(PeerAddr, RelayMessageView)> {
    v.map_values(|o: Outgoing| o@)
}

/// The relay's session table: who holds each slot, whether the game has
/// started, the tick being collected, and the inputs received for it.
pub struct RelayState {
    pub players: [Option<PeerAddr>; 2],
    pub game_started: bool,
    pub current_tick: Tick,
    pub tick_inputs: [Option<Vec<u8>>; 2],
}

/// Mathematical value of a `RelayState`.
pub ghost struct RelayView {
    pub players: Seq<Option<PeerAddr>>,
    pub game_started: bool,
    pub current_tick: Tick,
    pub tick_inputs: Seq<Option<Seq<u8>>>,
}

/// The byte sequences held by a row of optional byte vectors.
pub open spec fn inputs_view(a: Seq<Option<Vec<u8>>>) -> Seq<Option<Seq<u8>>> {
    a.map_values(
        |o: Option<Vec<u8>>|
            match o {
                Some(v) => Some(v@),
                None => None,
            },
    )
}

impl View for RelayState {
    type V = RelayView;

    open spec fn view(&self) -> RelayView {
        RelayView {
            players: self.players@,
            game_started: self.game_started,
            current_tick: self.current_tick,
            tick_inputs: inputs_view(self.tick_inputs@),
        }
    }
}

/// A row of empty input buffers, one per slot.
pub open spec fn no_inputs() -> Seq<Option<Seq<u8>>> {
    seq![None, None]
}

/// The session of a relay that has just started.
pub open spec fn initial_relay() -> RelayView {
    RelayView {
        players: seq![None, None],
        game_started: false,
        current_tick: 0,
        tick_inputs: no_inputs(),
    }
}

/// The slot held by `a`: the first slot whose address is `a`.
pub open spec fn slot_of(s: RelayView, a: PeerAddr) -> Option<int> {
    s.players.index_of_first(Some(a))
}

/// The first slot that no address holds.
pub open spec fn free_slot(s: RelayView) -> Option<int> {
    s.players.index_of_first(None)
}

/// Every slot is held.
pub open spec fn slots_filled(s: RelayView) -> bool {
    forall|i: int| 0 <= i < s.players.len() ==> (#[trigger] s.players[i]) is Some
}

/// Every slot has an input for the current tick.
pub open spec fn inputs_complete(s: RelayView) -> bool {
    forall|i: int| 0 <= i < s.tick_inputs.len() ==> (#[trigger] s.tick_inputs[i]) is Some
}

/// The buffered inputs, in slot order.
pub open spec fn collected(s: RelayView) -> Seq<Seq<u8>> {
    s.tick_inputs.map_values(|o: Option<Seq<u8>>| o.unwrap())
}

/// `m` sent to every held slot, in slot order.
pub open spec fn to_all(players: Seq<Option<PeerAddr>>, m: RelayMessageView) -> Seq<
    (PeerAddr, RelayMessageView),
>
    decreases players.len(),
{
    if players.len() == 0 {
        Seq::empty()
    } else {
        let rest = to_all(players.drop_last(), m);
        match players.last() {
            Some(a) => rest.push((a, m)),
            None => rest,
        }
    }
}

/// What the relay does with a `Hello` from `from`: the next session and
/// the messages it sends.
pub open spec fn on_hello(s: RelayView, from: PeerAddr) -> (RelayView, Seq<
    (PeerAddr, RelayMessageView),
>) {
    match slot_of(s, from) {
        Some(i) => {
            let welcome = seq![(from, RelayMessageView::Welcome { player_slot: i as u8 })];
            if s.game_started {
                (s, welcome.push((from, RelayMessageView::GameStart)))
            } else {
                (s, welcome)
            }
        },
        None => match free_slot(s) {
            None => (s, Seq::empty()),
            Some(i) => {
                let joined = RelayView { players: s.players.update(i, Some(from)), ..s };
                let welcome = seq![(from, RelayMessageView::Welcome { player_slot: i as u8 })];
                if slots_filled(joined) && !joined.game_started {
                    (
                        RelayView { game_started: true, ..joined },
                        welcome + to_all(joined.players, RelayMessageView::GameStart),
                    )
                } else {
                    (joined, welcome)
                }
            },
        },
    }
}

/// What the relay does with an input for `tick` from `from`.
pub open spec fn on_input(s: RelayView, from: PeerAddr, tick: Tick, payload: Seq<u8>) -> (
    RelayView,
    Seq<(PeerAddr, RelayMessageView)>,
) {
    match slot_of(s, from) {
        None => (s, Seq::empty()),
        Some(i) => if tick != s.current_tick {
            (s, Seq::empty())
        } else {
            let recorded = RelayView { tick_inputs: s.tick_inputs.update(i, Some(payload)), ..s };
            if inputs_complete(recorded) {
                let m = RelayMessageView::TickInputs {
                    tick: s.current_tick,
                    inputs: collected(recorded),
                };
                (
                    RelayView {
                        current_tick: next_tick(s.current_tick),
                        tick_inputs: no_inputs(),
                        ..recorded
                    },
                    to_all(recorded.players, m),
                )
            } else {
                (recorded, Seq::empty())
            }
        },
    }
}

/// One step of the relay: the next session and the messages sent, for a
/// message `msg` received from `from`.
pub open spec fn relay_step(s: RelayView, from: PeerAddr, msg: ClientMessageView) -> (
    RelayView,
    Seq<(PeerAddr, RelayMessageView)>,
) {
    match msg {
        ClientMessageView::Hello => on_hello(s, from),
        ClientMessageView::Input { tick, payload } => on_input(s, from, tick, payload),
    }
}

/// Copies a relay message, keeping its value.
pub fn copy_message(m: &RelayMessage) -> (r: RelayMessage)
    ensures
        r@ == m@,
{
    match m {
        RelayMessage::Welcome { player_slot } => RelayMessage::Welcome {
            player_slot: *player_slot,
        },
        RelayMessage::GameStart => RelayMessage::GameStart,
        RelayMessage::TickInputs { tick, inputs } => {
            let mut copy: Vec<Vec<u8>> = Vec::new();
            let mut i: usize = 0;
            while i < inputs.len()
                invariant
                    i <= inputs@.len(),
                    copy@.len() == i,
                    crate::message::blobs_view(copy@) == crate::message::blobs_view(
                        inputs@,
                    ).take(i as int),
                decreases inputs@.len() - i,
            {
                let ghost before = copy@;
                let b = copy_bytes(&inputs[i]);
                assert(b@ == inputs@[i as int]@);
                copy.push(b);
                assert(copy@ == before.push(b));
                assert forall|j: int| 0 <= j < i + 1 implies #[trigger] copy@[j]@ == inputs@[j]@ by {
                    if j < i {
                        assert(crate::message::blobs_view(before)[j] == before[j]@);
                        assert(crate::message::blobs_view(inputs@).take(i as int)[j]
                            == inputs@[j]@);
                    }
                }
                assert(crate::message::blobs_view(copy@) =~= crate::message::blobs_view(
                    inputs@,
                ).take(i + 1));
                i = i + 1;
            }
            assert(crate::message::blobs_view(copy@) =~= crate::message::blobs_view(inputs@));
            RelayMessage::TickInputs { tick: *tick, inputs: copy }
        },
    }
}

impl RelayState {
    /// A session with no players, not started, at tick 0, with no inputs.
    pub fn new() -> (r: RelayState)
        ensures
            r@ == initial_relay(),
    {
        let r = RelayState {
            players: [None, None],
            game_started: false,
            current_tick: 0,
            tick_inputs: [None, None],
        };
        assert(r@.players =~= seq![None, None]);
        assert(r@.tick_inputs =~= no_inputs());
        r
    }

    /// The slot held by `addr`, if any.
    pub fn find_player(&self, addr: &PeerAddr) -> (r: Option<usize>)
        ensures
            match r {
                Some(i) => i < MAX_PLAYERS && slot_of(self@, *addr) == Some(i as int),
                None => slot_of(self@, *addr) is None,
            },
    {
        let mut i: usize = 0;
        while i < MAX_PLAYERS
            invariant
                i <= 2,
                self.players@.len() == 2,
                forall|j: int| 0 <= j < i ==> self.players@[j] != Some(*addr),
            decreases 2 - i,
        {
            let found = match self.players[i] {
                Some(p) => p == *addr,
                None => false,
            };
            if found {
                proof {
                    self.players@.index_of_first_ensures(Some(*addr));
                }
                return Some(i);
            }
            i = i + 1;
        }
        proof {
            self.players@.index_of_first_ensures(Some(*addr));
        }
        None
    }

    /// The first slot that no address holds, if any.
    pub fn next_empty_slot(&self) -> (r: Option<usize>)
        ensures
            match r {
                Some(i) => i < MAX_PLAYERS && free_slot(self@) == Some(i as int),
                None => free_slot(self@) is None,
            },
    {
        let mut i: usize = 0;
        while i < MAX_PLAYERS
            invariant
                i <= 2,
                self.players@.len() == 2,
                forall|j: int| 0 <= j < i ==> self.players@[j] is Some,
            decreases 2 - i,
        {
            if self.players[i].is_none() {
                proof {
                    self.players@.index_of_first_ensures(None);
                }
                return Some(i);
            }
            i = i + 1;
        }
        proof {
            self.players@.index_of_first_ensures(None);
        }
        None
    }

    /// Whether every slot is held.
    pub fn all_slots_filled(&self) -> (r: bool)
        ensures
            r == slots_filled(self@),
    {
        let mut i: usize = 0;
        while i < MAX_PLAYERS
            invariant
                i <= 2,
                self.players@.len() == 2,
                forall|j: int| 0 <= j < i ==> self.players@[j] is Some,
            decreases 2 - i,
        {
            if self.players[i].is_none() {
                return false;
            }
            i = i + 1;
        }
        true
    }

    /// Whether every slot has an input for the current tick.
    pub fn all_inputs_received(&self) -> (r: bool)
        ensures
            r == inputs_complete(self@),
    {
        let mut i: usize = 0;
        while i < MAX_PLAYERS
            invariant
                i <= 2,
                self.tick_inputs@.len() == 2,
                forall|j: int| 0 <= j < i ==> self.tick_inputs@[j] is Some,
            decreases 2 - i,
        {
            if self.tick_inputs[i].is_none() {
                assert(self@.tick_inputs[i as int] is None);
                return false;
            }
            i = i + 1;
        }
        assert forall|j: int| 0 <= j < self@.tick_inputs.len() implies (
        #[trigger] self@.tick_inputs[j]) is Some by {
            assert(self.tick_inputs@[j] is Some);
        }
        true
    }

    /// Buffers `payload` as the input of `slot` for the current tick,
    /// replacing any input that slot had given for it.
    pub fn record_input(&mut self, slot: usize, payload: Vec<u8>)
        requires
            slot < MAX_PLAYERS,
        ensures
            final(self)@ == (RelayView {
                tick_inputs: old(self)@.tick_inputs.update(slot as int, Some(payload@)),
                ..old(self)@
            }),
    {
        self.tick_inputs[slot] = Some(payload);
        assert(self@.tick_inputs =~= old(self)@.tick_inputs.update(slot as int, Some(payload@)));
    }

    /// Moves to the next tick and empties every input buffer.
    pub fn advance_tick(&mut self)
        ensures
            final(self)@ == (RelayView {
                current_tick: next_tick(old(self)@.current_tick),
                tick_inputs: no_inputs(),
                ..old(self)@
            }),
    {
        self.current_tick = tick_after(self.current_tick);
        self.tick_inputs = [None, None];
        assert(self@.tick_inputs =~= no_inputs());
    }

    /// Appends `m` once for every held slot, in slot order.
    fn send_to_all(&self, out: &mut Vec<Outgoing>, m: &RelayMessage)
        ensures
            sent(final(out)@) == sent(old(out)@) + to_all(self@.players, m@),
    {
        let ghost start = sent(out@);
        let mut i: usize = 0;
        while i < MAX_PLAYERS
            invariant
                i <= 2,
                self.players@.len() == 2,
                sent(out@) == start + to_all(self.players@.take(i as int), m@),
            decreases 2 - i,
        {
            let ghost before = out@;
            assert(self.players@.take(i + 1).drop_last() =~= self.players@.take(i as int));
            assert(self.players@.take(i + 1).last() == self.players@[i as int]);
            if let Some(a) = self.players[i] {
                out.push(Outgoing { to: a, message: copy_message(m) });
                assert(sent(out@) =~= sent(before).push((a, m@)));
            }
            i = i + 1;
        }
        assert(self.players@.take(2) =~= self.players@);
    }

    /// The buffered inputs, in slot order.
    fn collect_inputs(&self) -> (r: Vec<Vec<u8>>)
        requires
            inputs_complete(self@),
        ensures
            crate::message::blobs_view(r@) == collected(self@),
    {
        let mut r: Vec<Vec<u8>> = Vec::new();
        let mut i: usize = 0;
        while i < MAX_PLAYERS
            invariant
                i <= 2,
                self.tick_inputs@.len() == 2,
                inputs_complete(self@),
                r@.len() == i,
                forall|j: int| 0 <= j < i ==> #[trigger] r@[j]@ == collected(self@)[j],
            decreases 2 - i,
        {
            assert(self@.tick_inputs[i as int] is Some);
            match &self.tick_inputs[i] {
                Some(b) => {
                    let c = copy_bytes(b);
                    assert(c@ == collected(self@)[i as int]);
                    r.push(c);
                },
                None => {},
            }
            i = i + 1;
        }
        assert(crate::message::blobs_view(r@) =~= collected(self@));
        r
    }

    /// Handles one message from `from`, following the relay protocol, and
    /// returns the messages to send.
    pub fn handle_message(&mut self, from: PeerAddr, msg: ClientMessage) -> (r: Vec<Outgoing>)
        ensures
            (final(self)@, sent(r@)) == relay_step(old(self)@, from, msg@),
    {
        let ghost s = self@;
        let mut out: Vec<Outgoing> = Vec::new();
        match msg {
            ClientMessage::Hello => {
                if let Some(slot) = self.find_player(&from) {
                    out.push(
                        Outgoing {
                            to: from,
                            message: RelayMessage::Welcome { player_slot: slot as PlayerSlot },
                        },
                    );
                    if self.game_started {
                        out.push(Outgoing { to: from, message: RelayMessage::GameStart });
                    }
                    assert(sent(out@) =~= on_hello(s, from).1);
                    return out;
                }
                let slot = match self.next_empty_slot() {
                    Some(slot) => slot,
                    None => {
                        assert(sent(out@) =~= on_hello(s, from).1);
                        return out;
                    },
                };
                self.players[slot] = Some(from);
                out.push(
                    Outgoing {
                        to: from,
                        message: RelayMessage::Welcome { player_slot: slot as PlayerSlot },
                    },
                );
                let ghost joined = self@;
                assert(joined.players =~= s.players.update(slot as int, Some(from)));
                if self.all_slots_filled() && !self.game_started {
                    self.game_started = true;
                    self.send_to_all(&mut out, &RelayMessage::GameStart);
                }
                assert(sent(out@) =~= on_hello(s, from).1);
                out
            },
            ClientMessage::Input { tick, payload } => {
                let ghost p = payload@;
                let slot = match self.find_player(&from) {
                    Some(slot) => slot,
                    None => {
                        assert(sent(out@) =~= Seq::<(PeerAddr, RelayMessageView)>::empty());
                        return out;
                    },
                };
                if tick != self.current_tick {
                    assert(sent(out@) =~= Seq::<(PeerAddr, RelayMessageView)>::empty());
                    return out;
                }
                self.record_input(slot, payload);
                if self.all_inputs_received() {
                    let inputs = self.collect_inputs();
                    let m = RelayMessage::TickInputs { tick: self.current_tick, inputs };
                    self.send_to_all(&mut out, &m);
                    self.advance_tick();
                }
                assert(sent(out@) =~= on_input(s, from, tick, p).1);
                out
            },
        }
    }

    /// Handles one datagram from `from`: a datagram that is the wire form of
    /// no client message is dropped and changes nothing.
    pub fn handle_datagram(&mut self, from: PeerAddr, bytes: &[u8]) -> (r: Vec<Outgoing>)
        ensures
            match decode_client(bytes@) {
                Some(m) => (final(self)@, sent(r@)) == relay_step(old(self)@, from, m),
                None => final(self)@ == old(self)@ && r@.len() == 0,
            },
    {
        match ClientMessage::deserialize(bytes) {
            Some(m) => self.handle_message(from, m),
            None => Vec::new(),
        }
    }
}

/// The invariant of every session the relay reaches: two slots, the game
/// started exactly when both are held, two different addresses in them,
/// and an input buffered only for a held slot.
pub open spec fn relay_wf(s: RelayView) -> bool {
    &&& s.players.len() == 2
    &&& s.tick_inputs.len() == 2
    &&& s.game_started == slots_filled(s)
    &&& (s.players[0] is Some && s.players[1] is Some) ==> s.players[0] != s.players[1]
    &&& forall|i: int| 0 <= i < 2 ==> (#[trigger] s.tick_inputs[i]) is Some ==> s.players[i] is Some
}

proof fn lemma_to_all_two(players: Seq<Option<PeerAddr>>, m: RelayMessageView)
    requires
        players.len() == 2,
    ensures
        to_all(players, m) == (match (players[0], players[1]) {
            (Some(a), Some(b)) => seq![(a, m), (b, m)],
            (Some(a), None) => seq![(a, m)],
            (None, Some(b)) => seq![(b, m)],
            (None, None) => Seq::empty(),
        }),
{
    reveal_with_fuel(to_all, 3);
    assert(players.drop_last().drop_last() =~= Seq::<Option<PeerAddr>>::empty());
    assert(players.drop_last().last() == players[0]);
    let r = to_all(players, m);
    match (players[0], players[1]) {
        (Some(a), Some(b)) => assert(r =~= seq![(a, m), (b, m)]),
        (Some(a), None) => assert(r =~= seq![(a, m)]),
        (None, Some(b)) => assert(r =~= seq![(b, m)]),
        (None, None) => assert(r =~= Seq::<(PeerAddr, RelayMessageView)>::empty()),
    }
}

proof fn lemma_slot_facts(s: RelayView, a: PeerAddr)
    ensures
        match slot_of(s, a) {
            Some(i) => 0 <= i < s.players.len() && s.players[i] == Some(a) && forall|j: int|
                0 <= j < i ==> s.players[j] != Some(a),
            None => forall|j: int| 0 <= j < s.players.len() ==> s.players[j] != Some(a),
        },
        match free_slot(s) {
            Some(i) => 0 <= i < s.players.len() && s.players[i] is None && forall|j: int|
                0 <= j < i ==> s.players[j] is Some,
            None => forall|j: int| 0 <= j < s.players.len() ==> s.players[j] is Some,
        },
{
    s.players.index_of_first_ensures(Some(a));
    s.players.index_of_first_ensures(None);
    if slot_of(s, a) is None {
        assert forall|j: int| 0 <= j < s.players.len() implies s.players[j] != Some(a) by {
            if s.players[j] == Some(a) {
                assert(s.players.contains(Some(a)));
            }
        }
    }
    if free_slot(s) is None {
        assert forall|j: int| 0 <= j < s.players.len() implies s.players[j] is Some by {
            if s.players[j] is None {
                assert(s.players[j] == None::<PeerAddr>);
                assert(s.players.contains(None));
            }
        }
    }
}

/// The relay starts in a well-formed session.
pub proof fn lemma_initial_relay_wf()
    ensures
        relay_wf(initial_relay()),
{
    let init = initial_relay();
    assert(!(init.players[0] is Some));
}

/// Every step keeps the relay's session well-formed.
pub proof fn lemma_relay_wf(s: RelayView, from: PeerAddr, msg: ClientMessageView)
    requires
        relay_wf(s),
    ensures
        relay_wf(relay_step(s, from, msg).0),
{
    lemma_slot_facts(s, from);
    let s2 = relay_step(s, from, msg).0;
    match msg {
        ClientMessageView::Hello => {
            if slot_of(s, from) is None {
                if let Some(i) = free_slot(s) {
                    assert(!slots_filled(s));
                    let joined = RelayView { players: s.players.update(i, Some(from)), ..s };
                    assert(forall|j: int| 0 <= j < 2 ==> (#[trigger] s.tick_inputs[j]) is Some
                        ==> joined.players[j] is Some);
                }
            }
        },
        ClientMessageView::Input { tick, payload } => {
            if let Some(i) = slot_of(s, from) {
                if tick == s.current_tick {
                    let recorded = RelayView {
                        tick_inputs: s.tick_inputs.update(i, Some(payload)),
                        ..s
                    };
                    assert(forall|j: int| 0 <= j < 2 ==> (#[trigger] recorded.tick_inputs[j]) is Some
                        ==> recorded.players[j] is Some);
                    assert(forall|j: int| 0 <= j < 2 ==> !((#[trigger] no_inputs()[j]) is Some));
                }
            }
        },
    }
}

/// Two new addresses that say `Hello` one after the other to a fresh relay
/// get slots 0 and 1 in that order; the second `Hello` starts the game for
/// both.
pub proof fn lemma_slot_assignment(a: PeerAddr, b: PeerAddr)
    requires
        a != b,
    ensures
        slot_of(relay_step(initial_relay(), a, ClientMessageView::Hello).0, a) == Some(0int),
        relay_step(initial_relay(), a, ClientMessageView::Hello).1 == seq![
            (a, RelayMessageView::Welcome { player_slot: 0 }),
        ],
        slot_of(
            relay_step(
                relay_step(initial_relay(), a, ClientMessageView::Hello).0,
                b,
                ClientMessageView::Hello,
            ).0,
            a,
        ) == Some(0int),
        slot_of(
            relay_step(
                relay_step(initial_relay(), a, ClientMessageView::Hello).0,
                b,
                ClientMessageView::Hello,
            ).0,
            b,
        ) == Some(1int),
        relay_step(
            relay_step(initial_relay(), a, ClientMessageView::Hello).0,
            b,
            ClientMessageView::Hello,
        ).1 == seq![
            (b, RelayMessageView::Welcome { player_slot: 1 }),
            (a, RelayMessageView::GameStart),
            (b, RelayMessageView::GameStart),
        ],
{
    let s0 = initial_relay();
    lemma_slot_facts(s0, a);
    assert(slot_of(s0, a) is None);
    assert(free_slot(s0) == Some(0int)) by {
        if let Some(i) = free_slot(s0) {
            assert(i == 0);
        }
    }
    let s1 = relay_step(s0, a, ClientMessageView::Hello).0;
    assert(s1.players =~= seq![Some(a), None]);
    assert(!slots_filled(s1));
    lemma_slot_facts(s1, a);
    lemma_slot_facts(s1, b);
    assert(slot_of(s1, a) == Some(0int));
    assert(slot_of(s1, b) is None);
    assert(free_slot(s1) == Some(1int));
    let s2 = relay_step(s1, b, ClientMessageView::Hello).0;
    let joined = RelayView { players: s1.players.update(1, Some(b)), ..s1 };
    assert(joined.players =~= seq![Some(a), Some(b)]);
    assert(slots_filled(joined));
    lemma_to_all_two(joined.players, RelayMessageView::GameStart);
    assert(relay_step(s1, b, ClientMessageView::Hello).1 =~= seq![
        (b, RelayMessageView::Welcome { player_slot: 1 }),
        (a, RelayMessageView::GameStart),
        (b, RelayMessageView::GameStart),
    ]);
    lemma_slot_facts(s2, a);
    lemma_slot_facts(s2, b);
}

/// A `Hello` from an address that already holds a slot changes nothing,
/// answers only that address, with its slot, and repeats `GameStart` to it
/// alone once the game has started.
pub proof fn lemma_hello_known(s: RelayView, a: PeerAddr)
    requires
        slot_of(s, a) is Some,
    ensures
        relay_step(s, a, ClientMessageView::Hello).0 == s,
        relay_step(s, a, ClientMessageView::Hello).1 == (if s.game_started {
            seq![
                (a, RelayMessageView::Welcome { player_slot: slot_of(s, a).unwrap() as u8 }),
                (a, RelayMessageView::GameStart),
            ]
        } else {
            seq![(a, RelayMessageView::Welcome { player_slot: slot_of(s, a).unwrap() as u8 })]
        }),
{
    let out = relay_step(s, a, ClientMessageView::Hello).1;
    if s.game_started {
        assert(out =~= seq![
            (a, RelayMessageView::Welcome { player_slot: slot_of(s, a).unwrap() as u8 }),
            (a, RelayMessageView::GameStart),
        ]);
    }
}

/// The step sent `GameStart` to every player of `after`, with both slots held.
pub open spec fn starts_game(after: RelayView, out: Seq<(PeerAddr, RelayMessageView)>) -> bool {
    &&& slots_filled(after)
    &&& forall|i: int|
        0 <= i < after.players.len() ==> out.contains(
            (#[trigger] after.players[i]->Some_0, RelayMessageView::GameStart),
        )
}

proof fn lemma_game_start_step(s: RelayView, from: PeerAddr, msg: ClientMessageView)
    requires
        relay_wf(s),
    ensures
        starts_game(relay_step(s, from, msg).0, relay_step(s, from, msg).1) <==> (
        !s.game_started && relay_step(s, from, msg).0.game_started),
        s.game_started ==> relay_step(s, from, msg).0.game_started,
{
    lemma_relay_wf(s, from, msg);
    lemma_slot_facts(s, from);
    let (s2, out) = relay_step(s, from, msg);
    let gs = RelayMessageView::GameStart;
    if starts_game(s2, out) && !(!s.game_started && s2.game_started) {
        // Both players got GameStart, yet this step did not start the game.
        let p0 = s2.players[0]->Some_0;
        let p1 = s2.players[1]->Some_0;
        assert(s2.players[0] is Some && s2.players[1] is Some);
        assert(out.contains((p0, gs)));
        assert(out.contains((p1, gs)));
        let k0 = choose|k: int| 0 <= k < out.len() && out[k] == (p0, gs);
        let k1 = choose|k: int| 0 <= k < out.len() && out[k] == (p1, gs);
        match msg {
            ClientMessageView::Hello => {
                if let Some(i) = slot_of(s, from) {
                    assert(out[k0].0 == from && out[k1].0 == from);
                } else if let Some(i) = free_slot(s) {
                    assert(!slots_filled(s));
                    assert(out[k0].1 != gs);
                } else {
                    assert(out.len() == 0);
                }
            },
            ClientMessageView::Input { tick, payload } => {
                if let Some(i) = slot_of(s, from) {
                    if tick == s.current_tick {
                        let recorded = RelayView {
                            tick_inputs: s.tick_inputs.update(i, Some(payload)),
                            ..s
                        };
                        if inputs_complete(recorded) {
                            let m = RelayMessageView::TickInputs {
                                tick: s.current_tick,
                                inputs: collected(recorded),
                            };
                            lemma_to_all_two(recorded.players, m);
                            assert(out[k0].1 == m);
                        }
                    }
                }
            },
        }
    }
    if !s.game_started && s2.game_started {
        assert(msg is Hello);
        assert(slot_of(s, from) is None);
        let i = free_slot(s).unwrap();
        let joined = RelayView { players: s.players.update(i, Some(from)), ..s };
        assert(slots_filled(joined));
        lemma_to_all_two(joined.players, gs);
        let a = joined.players[0]->Some_0;
        let b = joined.players[1]->Some_0;
        assert(joined.players[0] is Some && joined.players[1] is Some);
        assert(out =~= seq![(from, RelayMessageView::Welcome { player_slot: i as u8 })] + seq![
            (a, gs),
            (b, gs),
        ]);
        assert(out[1] == (a, gs));
        assert(out[2] == (b, gs));
        assert(s2.players == joined.players);
    }
}

/// The relay after the messages `evs` (sender and message, in order) from
/// a fresh start, and the number of steps that started the game.
pub open spec fn run_relay(evs: Seq<(PeerAddr, ClientMessageView)>) -> (RelayView, nat)
    decreases evs.len(),
{
    if evs.len() == 0 {
        (initial_relay(), 0)
    } else {
        let (s, starts) = run_relay(evs.drop_last());
        let (s2, out) = relay_step(s, evs.last().0, evs.last().1);
        (s2, if starts_game(s2, out) { starts + 1 } else { starts })
    }
}

/// Over any run from a fresh start, `GameStart` goes out to both players in
/// exactly one step if both slots end up held, and in none otherwise.
pub proof fn lemma_game_start_once(evs: Seq<(PeerAddr, ClientMessageView)>)
    ensures
        relay_wf(run_relay(evs).0),
        run_relay(evs).1 == (if slots_filled(run_relay(evs).0) { 1nat } else { 0nat }),
    decreases evs.len(),
{
    if evs.len() == 0 {
        lemma_initial_relay_wf();
        assert(!(initial_relay().players[0] is Some));
    } else {
        lemma_game_start_once(evs.drop_last());
        let s = run_relay(evs.drop_last()).0;
        lemma_relay_wf(s, evs.last().0, evs.last().1);
        lemma_game_start_step(s, evs.last().0, evs.last().1);
    }
}

/// The input carried by `msg` completes the current tick of `s`: it comes
/// from a held slot, is for the current tick, and every other slot already
/// has its input.
pub open spec fn completes_tick(s: RelayView, from: PeerAddr, msg: ClientMessageView) -> bool {
    match (msg, slot_of(s, from)) {
        (ClientMessageView::Input { tick, payload }, Some(i)) => tick == s.current_tick && forall|
            j: int,
        |
            0 <= j < s.tick_inputs.len() && j != i ==> (#[trigger] s.tick_inputs[j]) is Some,
        _ => false,
    }
}

/// A step sends `TickInputs` exactly when its input completes the current
/// tick `T`. Then it sends `TickInputs` for `T`, with the inputs in slot
/// order, to both players; the relay moves to the tick after `T` and
/// empties its buffers. Otherwise the tick stays where it was.
pub proof fn lemma_tick_completion(s: RelayView, from: PeerAddr, msg: ClientMessageView)
    requires
        relay_wf(s),
    ensures
        (exists|k: int|
            0 <= k < relay_step(s, from, msg).1.len() && (#[trigger] relay_step(
                s,
                from,
                msg,
            ).1[k]).1 is TickInputs) <==> completes_tick(s, from, msg),
        completes_tick(s, from, msg) ==> {
            let i = slot_of(s, from).unwrap();
            let inputs = s.tick_inputs.update(i, Some(msg->payload)).map_values(
                |o: Option<Seq<u8>>| o.unwrap(),
            );
            let m = RelayMessageView::TickInputs { tick: s.current_tick, inputs };
            &&& relay_step(s, from, msg).1 == seq![
                (s.players[0]->Some_0, m),
                (s.players[1]->Some_0, m),
            ]
            &&& s.players[0] is Some && s.players[1] is Some
            &&& inputs[i] == msg->payload
            &&& forall|j: int| 0 <= j < 2 && j != i ==> Some(#[trigger] inputs[j]) == s.tick_inputs[j]
            &&& relay_step(s, from, msg).0.current_tick == next_tick(s.current_tick)
            &&& relay_step(s, from, msg).0.tick_inputs == no_inputs()
        },
        !completes_tick(s, from, msg) ==> relay_step(s, from, msg).0.current_tick == s.current_tick,
{
    lemma_slot_facts(s, from);
    let out = relay_step(s, from, msg).1;
    match msg {
        ClientMessageView::Hello => {
            lemma_slot_facts(s, from);
            if slot_of(s, from) is None {
                if let Some(i) = free_slot(s) {
                    let joined = RelayView { players: s.players.update(i, Some(from)), ..s };
                    lemma_to_all_two(joined.players, RelayMessageView::GameStart);
                }
            }
            assert forall|k: int| 0 <= k < out.len() implies !((#[trigger] out[k]).1 is TickInputs) by {
                if slot_of(s, from) is None {
                    if let Some(i) = free_slot(s) {
                        let joined = RelayView { players: s.players.update(i, Some(from)), ..s };
                        if slots_filled(joined) && !joined.game_started {
                            assert(out == seq![(from, RelayMessageView::Welcome { player_slot: i as u8 })] + to_all(joined.players, RelayMessageView::GameStart));
                            if k > 0 {
                                assert(out[k] == to_all(joined.players, RelayMessageView::GameStart)[k - 1]);
                            }
                        }
                    }
                }
            }
        },
        ClientMessageView::Input { tick, payload } => {
            if let Some(i) = slot_of(s, from) {
                if tick == s.current_tick {
                    let recorded = RelayView {
                        tick_inputs: s.tick_inputs.update(i, Some(payload)),
                        ..s
                    };
                    if completes_tick(s, from, msg) {
                        assert(inputs_complete(recorded)) by {
                            assert forall|j: int| 0 <= j < recorded.tick_inputs.len() implies (
                            #[trigger] recorded.tick_inputs[j]) is Some by {
                                if j != i {
                                    assert(s.tick_inputs[j] is Some);
                                }
                            }
                        }
                        assert(s.players[0] is Some) by {
                            if i != 0 {
                                assert(s.tick_inputs[0] is Some);
                            }
                        }
                        assert(s.players[1] is Some) by {
                            if i != 1 {
                                assert(s.tick_inputs[1] is Some);
                            }
                        }
                        let m = RelayMessageView::TickInputs {
                            tick: s.current_tick,
                            inputs: collected(recorded),
                        };
                        lemma_to_all_two(recorded.players, m);
                        assert(out[0].1 is TickInputs);
                        assert forall|j: int| 0 <= j < 2 && j != i implies Some(
                            #[trigger] collected(recorded)[j],
                        ) == s.tick_inputs[j] by {
                            assert(s.tick_inputs[j] is Some);
                        }
                    } else {
                        assert(!inputs_complete(recorded)) by {
                            let j = choose|j: int|
                                0 <= j < s.tick_inputs.len() && j != i && !((
                                #[trigger] s.tick_inputs[j]) is Some);
                            assert(!(recorded.tick_inputs[j] is Some));
                        }
                    }
                }
            }
        },
    }
}

/// An input for any tick but the current one changes nothing and sends
/// nothing.
pub proof fn lemma_stale_input(s: RelayView, from: PeerAddr, tick: Tick, payload: Seq<u8>)
    requires
        tick != s.current_tick,
    ensures
        relay_step(s, from, ClientMessageView::Input { tick, payload }) == (
        s,
        Seq::<(PeerAddr, RelayMessageView)>::empty(),
        ),
{
}

} // verus!
