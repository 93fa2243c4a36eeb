use markov::codec::{decode_model, encode_model};
use markov::model::MarkovModel;
use markov::ModelError;

#[test]
fn save_then_load_reproduces_the_model() {
    let mut m = MarkovModel::new(2).unwrap();
    m.train_tokens(&vec![1, 2, 3, 1, 2, 4]);
    m.train_tokens(&vec![9, 9, 9, 9]);
    let bytes = m.save().unwrap();
    let loaded = MarkovModel::load(&bytes).unwrap();
    assert_eq!(loaded.order(), 2);
    assert_eq!(loaded.key_count(), m.key_count());
    for key in [vec![1, 2], vec![2, 3], vec![3, 1], vec![9, 9], vec![4, 4]] {
        assert_eq!(loaded.lookup(&key), m.lookup(&key));
    }
}

#[test]
fn save_then_load_of_empty_model() {
    let m = MarkovModel::new(5).unwrap();
    let bytes = m.save().unwrap();
    let loaded = MarkovModel::load(&bytes).unwrap();
    assert_eq!(loaded.order(), 5);
    assert_eq!(loaded.key_count(), 0);
}

#[test]
fn saved_bytes_are_compressed() {
    // The persisted form is a zstd frame around the plain image, so the two
    // differ, and the plain image alone must not load.
    let mut m = MarkovModel::new(1).unwrap();
    m.train_tokens(&vec![1, 2, 1, 2, 1, 2, 1, 2]);
    let plain = encode_model(&m);
    let saved = m.save().unwrap();
    assert_ne!(plain, saved);
    assert_eq!(
        MarkovModel::load(&plain).err(),
        Some(ModelError::PersistenceError)
    );
}

#[test]
fn plain_codec_round_trips() {
    let mut m = MarkovModel::new(2).unwrap();
    m.train_tokens(&vec![1, 2, 3, 1, 2, 4]);
    let plain = encode_model(&m);
    let back = decode_model(&plain).unwrap();
    assert_eq!(back.order(), 2);
    assert_eq!(back.lookup(&vec![1, 2]), Some(&vec![3, 4]));
    assert_eq!(back.lookup(&vec![2, 3]), Some(&vec![1]));
    assert_eq!(back.lookup(&vec![3, 1]), Some(&vec![2]));
}

#[test]
fn malformed_images_are_rejected() {
    // Too short for a header.
    assert!(decode_model(&vec![0u8; 4]).is_err());
    // Order zero.
    let mut zero_order = vec![0u8; 16];
    zero_order[8] = 0;
    assert_eq!(
        decode_model(&zero_order).err(),
        Some(ModelError::PersistenceError)
    );
    // A claimed entry with no bytes behind it.
    let mut truncated = vec![0u8; 16];
    truncated[0] = 1; // order 1
    truncated[8] = 1; // one entry
    assert_eq!(
        decode_model(&truncated).err(),
        Some(ModelError::PersistenceError)
    );
    // Random bytes are not a zstd frame.
    assert_eq!(
        MarkovModel::load(&vec![1, 2, 3, 4, 5]).err(),
        Some(ModelError::PersistenceError)
    );
}

#[test]
fn trailing_bytes_are_rejected() {
    let m = MarkovModel::new(1).unwrap();
    let mut plain = encode_model(&m);
    assert!(decode_model(&plain).is_ok());
    plain.push(0);
    assert!(decode_model(&plain).is_err());
}
