//! Post-tokenization text reconstruction and alignment queries.
//!
//! The crate has two independent parts: a family of token-stream decoders
//! (with a combinator for chaining them), which rebuild human-readable text
//! from subword tokens, and an alignment index that maps tokens back to the
//! words, character spans and input sequences they came from.

use vstd::prelude::*;

mod align;
mod decoder;
mod prim;
mod text;
mod unicode;

pub use align::AlignmentIndex;
pub use decoder::Decoder;
pub use decoder::PrependScheme;

verus! {

/// An invalid decoder or index configuration, always reported at
/// construction time; decoding itself never fails.
#[derive(Clone, Copy, PartialEq, Eq, Structural, Debug)]
pub enum ConstructionError {
    /// A marker string (a word-delimiter token, an end-of-word suffix) that
    /// must not be empty was empty.
    EmptyMarker,
    /// A substitution pattern that cannot be matched (the empty pattern).
    InvalidPattern,
    /// A sequence combinator was given no members.
    EmptySequence,
    /// The parallel arrays of an alignment index differ in length.
    MismatchedLengths,
}

} // verus!
