//! A fixed-order Markov chain text model over an external tokenizer's token
//! ids: a verified transition table, sliding-window training, a stochastic
//! generation walk, and a binary persistence format with a proved round trip.

use vstd::prelude::*;

pub mod codec;
pub mod compress;
pub mod laws;
pub mod model;
pub mod sampler;
pub mod table;
pub mod tokenizer;

pub use model::MarkovModel;
pub use sampler::Sampler;
pub use table::TransitionTable;
pub use tokenizer::Tokenizer;

verus! {

/// The error taxonomy of the model: every failure a caller can see.
#[derive(Clone, Copy, Debug, PartialEq, Eq, Structural)]
pub enum ModelError {
    /// A model was constructed with `order == 0`.
    InvalidConfiguration,
    /// A generation seed did not tokenize to exactly `order` tokens.
    SeedLengthMismatch,
    /// The external tokenizer could not decode a token sequence.
    TokenizationFailure,
    /// A persisted model could not be decoded, or encoding failed.
    PersistenceError,
}

} // verus!
