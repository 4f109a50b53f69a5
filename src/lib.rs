//! Turns a block's serialized entries into erasure-coded shreds and puts
//! them back together on the receiving side.
use vstd::prelude::*;

pub mod coding;
pub mod erasure;
pub mod laws;
pub mod layout;
pub mod shred;
pub mod shredder;

pub use crate::coding::ReedSolomonCache;
pub use crate::shred::Shred;
pub use crate::shredder::Shredder;

verus! {

/// What can go wrong while making, recovering or reassembling shreds.
#[derive(Debug, Clone, Copy, PartialEq)]
pub enum ShredError {
    /// The parent slot is after the slot, or more than `u16::MAX` slots before it.
    InvalidParentSlot { slot: u64, parent_slot: u64 },
    /// A payload is too short, or too long, for what its header says it is.
    InvalidPayloadSize(usize),
    /// A payload's variant byte names no known kind of shred.
    InvalidShredVariant,
    /// A data shred's size field points outside its payload.
    InvalidDataSize { size: u16, payload: usize },
    /// Data shreds follow the one that completes the data.
    InvalidDeshredSet,
    /// Shred indices would run past `u32::MAX`.
    IndexOverflow,
    /// Entries could not be serialized.
    Serialization,
    /// Reed-Solomon coding failed.
    ErasureError(reed_solomon_erasure::Error),
}

/// Relies on reed_solomon_erasure's `Error`, a public enum of its failures
/// without fields; declared with its variants so contracts can name them.
#[verifier::external_type_specification]
pub struct ExErasureError(reed_solomon_erasure::Error);

} // verus!
