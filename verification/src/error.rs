//! Error kinds shared by the codec, the connection state machine,
//! the entity store and the chunk store.
use vstd::prelude::*;

verus! {

/// Every failure the core reports falls under one of these kinds.
///
/// `EntityNotFound` and `InvalidGeneration` carry the offending
/// entity id.
#[derive(Debug, Clone, Copy, PartialEq, Eq, Structural)]
pub enum Error {
    Io,
    Protocol,
    Serialize,
    Deserialize,
    EntityNotFound(u64),
    InvalidGeneration(u64),
    Timeout,
    Config,
    Generic,
}

} // verus!
