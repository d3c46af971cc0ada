//! Deterministic lockstep for two players over datagrams.
//!
//! A relay pairs two clients, collects one input per player for each tick,
//! and sends both inputs back to both players once a tick is complete. Each
//! client steps its simulation only when the inputs of its current tick have
//! arrived, so two clients that run the same step function stay identical.
//!
//! - `message`: the protocol's messages and their mathematical values.
//! - `codec`: their wire form, with `serialize` / `deserialize` proved exact
//!   inverses.
//! - `relay`: the relay's session table and its reaction to each message.
//! - `client`: a client's handshake state and its tick gate.
use vstd::prelude::*;

pub mod client;
pub mod codec;
pub mod message;
pub mod relay;

pub use codec::{deserialize, serialize, WireMessage};
pub use message::{ClientMessage, PlayerSlot, RelayMessage, Tick};

verus! {

} // verus!
