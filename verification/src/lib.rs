//! A balancer for websocket traffic: it accepts websocket clients, picks a
//! backend location for each distribution of clients, relays the frames, and
//! moves whole distributions from one backend to another.
//!
//! The library holds the decisions: the frame codec, the handshake, the choice
//! of locations and the bookkeeping of connections and moves. Sockets, timers
//! and tasks stay with the caller, which performs what the library tells it to
//! do and reports back what happened.

pub mod message;
pub mod text;
pub mod string_map;
pub mod wire;
pub mod write_buffer;
pub mod frame;
pub mod handshake;
pub mod websocket_util;
mod random;
pub mod uri;
pub mod location_manager;
pub mod websocket;
pub mod connect;
pub mod proxy;
pub mod console;

use vstd::prelude::*;

verus! {

/// The number that greets the operator.
pub fn kappa() -> (r: u64)
    ensures
        r == 1337 * 1488,
{
    1337 * 1488
}

} // verus!
