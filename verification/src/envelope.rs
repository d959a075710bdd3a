//! The envelope of the authorization protocol: who sends a payload, the
//! payload, and a signature over it.
use vstd::prelude::*;

verus! {

/// A party of the authorization protocol.
#[derive(Debug, Clone)]
pub enum Entity {
    /// The controller that grants and revokes.
    Controller,
    /// An administrator, by name.
    Administrator(String),
    /// A subject of authorization, by name.
    Subject(String),
}

/// A payload on its way from `sender`, with the sender's signature.
#[derive(Debug, Clone)]
pub struct Envelope<T> {
    pub sender: Entity,
    pub payload: T,
    pub signature: String,
}

} // verus!
