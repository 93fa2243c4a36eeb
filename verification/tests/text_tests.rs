use markov::model::MarkovModel;
use markov::sampler::Sampler;
use markov::tokenizer::Tokenizer;
use markov::ModelError;

#[test]
fn encode_and_decode_round_trip_text() {
    let tok = Tokenizer::new().unwrap();
    let ids = tok.encode("hello world").unwrap();
    assert!(!ids.is_empty());
    assert_eq!(tok.decode(&ids).unwrap(), "hello world");
}

#[test]
fn empty_text_encodes_to_no_tokens() {
    let tok = Tokenizer::new().unwrap();
    assert!(tok.encode("").unwrap().is_empty());
}

#[test]
fn decoding_unknown_ids_fails() {
    let tok = Tokenizer::new().unwrap();
    assert_eq!(
        tok.decode(&vec![u32::MAX]).err(),
        Some(ModelError::TokenizationFailure)
    );
}

#[test]
fn generate_rejects_seed_of_wrong_token_count() {
    let tok = Tokenizer::new().unwrap();
    let m = MarkovModel::new(1).unwrap();
    let mut s = Sampler::from_seed(1);
    // The empty seed tokenizes to zero tokens, never to one.
    assert_eq!(
        m.generate(&tok, "", 8, &mut s).err(),
        Some(ModelError::SeedLengthMismatch)
    );
}

#[test]
fn trained_text_generates_deterministic_continuation() {
    let tok = Tokenizer::new().unwrap();
    // "hello hello hello" tokenizes to [hello, _hello, _hello]: every state
    // has exactly one recorded successor, so the walk is deterministic.
    let mut m = MarkovModel::new(1).unwrap();
    m.train(&tok, "hello hello hello").unwrap();
    let seed_ids = tok.encode("hello").unwrap();
    assert_eq!(seed_ids.len(), 1);
    let mut s = Sampler::new();
    let out = m.generate(&tok, "hello", 3, &mut s).unwrap();
    assert_eq!(out, "hello hello hello hello");
}

#[test]
fn generation_output_begins_with_the_seed_text() {
    let tok = Tokenizer::new().unwrap();
    let mut m = MarkovModel::new(1).unwrap();
    m.train(&tok, "one two three two one").unwrap();
    let seed_ids = tok.encode("one").unwrap();
    assert_eq!(seed_ids.len(), 1);
    let mut s = Sampler::new();
    let out = m.generate(&tok, "one", 8, &mut s).unwrap();
    assert!(out.starts_with("one"));
}

#[test]
fn training_short_text_changes_nothing() {
    let tok = Tokenizer::new().unwrap();
    let mut m = MarkovModel::new(8).unwrap();
    m.train(&tok, "hi").unwrap();
    assert_eq!(m.key_count(), 0);
}
