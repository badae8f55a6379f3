//! Core of a Minecraft-protocol (Java Edition 1.20.6) game server:
//! a generational-index entity/component store, the variable-length
//! integer codec and packet framing, the handshake/status connection
//! state machine, the keep-alive system, and a chunk persistence
//! store with a verified binary serialization of chunk records.
use vstd::prelude::*;

pub mod chunks;
pub mod codec;
pub mod ecs;
pub mod error;
pub mod protocol;
pub mod systems;

verus! {

} // verus!
