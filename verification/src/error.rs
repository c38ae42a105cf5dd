//! What an operation reports when it does not do what was asked.

use vstd::prelude::*;

verus! {

/// Why a secret could not be stored or fetched. Callers are expected to
/// branch on these.
#[derive(Clone, Copy, Debug, PartialEq, Eq, Structural)]
pub enum SecretError {
    /// The public key is not that of a device registered to the identity.
    Unknown,
    /// The public key is registered, but no secret was stored for it yet.
    NotSynced,
}

/// A misuse of the service that is refused outright. The call that reports
/// one has changed nothing.
#[derive(Clone, Copy, Debug, PartialEq, Eq, Structural)]
pub enum Fault {
    /// The identity has no devices, or no note list, where one is needed.
    NoSuchIdentity,
    /// The device is the only one of its identity, and so cannot be deleted.
    LastDevice,
    /// A note list exists for an identity that has no device.
    NoteListWithoutDevice,
    /// Every note number has been handed out.
    NoteIdsExhausted,
}

} // verus!
