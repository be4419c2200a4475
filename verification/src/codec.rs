//! Capability contracts for the serialization boundary.
//!
//! A proof tree is only useful if it reproduces bit for bit on the verifying
//! side, so the surrounding infrastructure must supply an encoding that keeps
//! the exact variant tags and child order. This core states the capability and
//! implements none of it.

use vstd::prelude::*;

verus! {

/// Produces the byte-sequence encoding of a value.
pub trait Encoder {
    fn encode(&self) -> Vec<u8>;
}

/// Recovers the byte-sequence representation of a value.
pub trait Decoder {
    fn decode(&self) -> Vec<u8>;
}

} // verus!
