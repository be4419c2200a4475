//! Assembly and traversal of Merkle multi-proof trees.
//!
//! A proof is collected as a bottom layer of optional tree fragments: `Some`
//! where a hash is supplied, `None` where the verifier will reconstruct the
//! value itself. [`tree`] merges such a layer, pair by pair, into the next
//! layer up until a single root remains; [`traversal`] walks a finished tree
//! depth first and hands its content out in verification order.

pub mod codec;
pub mod tree;
pub mod traversal;

pub use codec::Decoder;
pub use codec::Encoder;
pub use traversal::DfsIterator;
pub use traversal::ProofItem;
pub use tree::ProofNode;
pub use tree::temp_proof_layer;
