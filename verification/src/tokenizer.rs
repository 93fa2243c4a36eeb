use vstd::prelude::*;

verus! {

use crate::ModelError;

#[verifier::external_type_specification]
#[verifier::external_body]
pub struct ExCoreBPE(tiktoken_rs::CoreBPE);

/// The token-id sequence that the o200k_base encoding assigns to a text.
/// Uninterpreted: the encoding is a pure function of the text, but its value
/// is the tokenizer's business.
pub uninterp spec fn tokens_of(text: Seq<char>) -> Seq<u32>;

/// Whether the o200k_base encoding can tokenize a text at all.  Encoding
/// fails only when the tokenizer's regex engine exceeds its step budget,
/// which is itself a function of the text alone.
pub uninterp spec fn encodable_of(text: Seq<char>) -> bool;

/// The text that the o200k_base encoding renders for a token-id sequence,
/// when it renders one at all.
pub uninterp spec fn decoded_of(tokens: Seq<u32>) -> Seq<char>;

/// Whether the o200k_base encoding renders a text for a token-id sequence.
/// Decoding fails exactly when an id is outside the vocabulary or the
/// concatenated bytes are not valid UTF-8, both functions of the ids alone.
pub uninterp spec fn decodable_of(tokens: Seq<u32>) -> bool;

/// The text <-> token-id codec.  Every `Tokenizer` holds the same fixed
/// o200k_base encoding, so both directions are pure functions of their
/// arguments.
pub struct Tokenizer {
    bpe: tiktoken_rs::CoreBPE,
}

impl Tokenizer {
    /// Relies on tiktoken_rs::o200k_base to build the one encoding this
    /// library uses; it fails only if the bundled vocabulary cannot be read.
    #[verifier::external_body]
    pub fn new() -> (r: Result<Tokenizer, ModelError>) {
        match tiktoken_rs::o200k_base() {
            Ok(bpe) => Ok(Tokenizer { bpe }),
            Err(_) => Err(ModelError::TokenizationFailure),
        }
    }

    /// Relies on CoreBPE::encode with every special token allowed:
    /// deterministic in the text, for the fixed o200k_base encoding that
    /// every `Tokenizer` holds, and lossless — the byte-pair merge maps the
    /// text's bytes exactly, so decoding the returned ids reproduces the
    /// text.  It fails only when the regex engine exceeds its step budget.
    #[verifier::external_body]
    pub fn encode(&self, text: &str) -> (r: Result<Vec<u32>, ModelError>)
        ensures
            r is Ok <==> encodable_of(text@),
            r matches Ok(ids) ==> ids@ == tokens_of(text@),
            r matches Ok(ids) ==> decodable_of(ids@) && decoded_of(ids@) == text@,
            r matches Err(e) ==> e == ModelError::TokenizationFailure,
    {
        let allowed = self.bpe.special_tokens();
        match self.bpe.encode(text, &allowed) {
            Ok((ids, _)) => Ok(ids),
            Err(_) => Err(ModelError::TokenizationFailure),
        }
    }

    /// Relies on CoreBPE::decode: deterministic in the token ids, for the
    /// fixed o200k_base encoding.  It concatenates each id's bytes and
    /// UTF-8-validates the whole, so when a prefix of the ids decodes on its
    /// own, its text starts the full text.
    #[verifier::external_body]
    pub fn decode(&self, tokens: &Vec<u32>) -> (r: Result<String, ModelError>)
        ensures
            r is Ok <==> decodable_of(tokens@),
            r matches Ok(text) ==> text@ == decoded_of(tokens@),
            r matches Ok(text) ==> forall|n: int|
                0 <= n <= tokens@.len() && decodable_of(#[trigger] tokens@.subrange(0, n))
                    ==> decoded_of(tokens@.subrange(0, n)).is_prefix_of(text@),
            r matches Err(e) ==> e == ModelError::TokenizationFailure,
    {
        match self.bpe.decode(tokens.as_slice()) {
            Ok(text) => Ok(text),
            Err(_) => Err(ModelError::TokenizationFailure),
        }
    }
}

} // verus!
