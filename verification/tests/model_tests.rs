use markov::model::MarkovModel;
use markov::sampler::Sampler;
use markov::table::TransitionTable;
use markov::ModelError;

#[test]
fn new_rejects_zero_order() {
    assert_eq!(
        MarkovModel::new(0).err(),
        Some(ModelError::InvalidConfiguration)
    );
    assert!(TransitionTable::new(0).is_err());
}

#[test]
fn new_sets_order_and_empty_table() {
    let m = MarkovModel::new(3).unwrap();
    assert_eq!(m.order(), 3);
    assert_eq!(m.key_count(), 0);
}

#[test]
fn short_input_is_a_no_op() {
    // A line of at most `order` tokens offers no window and changes nothing.
    let mut m = MarkovModel::new(2).unwrap();
    m.train_tokens(&vec![1, 2]);
    assert_eq!(m.key_count(), 0);
    m.train_tokens(&vec![7]);
    m.train_tokens(&vec![]);
    assert_eq!(m.key_count(), 0);
    assert!(m.lookup(&vec![1, 2]).is_none());
}

#[test]
fn training_records_every_window() {
    // With order 2 and tokens [1,2,3,1,2,4]:
    //   [1,2] -> [3,4] (insertion order kept), [2,3] -> [1], [3,1] -> [2].
    let mut m = MarkovModel::new(2).unwrap();
    m.train_tokens(&vec![1, 2, 3, 1, 2, 4]);
    assert_eq!(m.lookup(&vec![1, 2]), Some(&vec![3, 4]));
    assert_eq!(m.lookup(&vec![2, 3]), Some(&vec![1]));
    assert_eq!(m.lookup(&vec![3, 1]), Some(&vec![2]));
    assert_eq!(m.key_count(), 3);
}

#[test]
fn training_adds_len_minus_order_occurrences() {
    // 6 tokens, order 2: exactly 4 (state, next) occurrences in aggregate.
    let mut m = MarkovModel::new(2).unwrap();
    m.train_tokens(&vec![1, 2, 3, 1, 2, 4]);
    let total: usize = [vec![1, 2], vec![2, 3], vec![3, 1]]
        .iter()
        .map(|s| m.lookup(s).map_or(0, |v| v.len()))
        .sum();
    assert_eq!(total, 4);
}

#[test]
fn training_twice_doubles_the_weight() {
    let mut m = MarkovModel::new(1).unwrap();
    m.train_tokens(&vec![5, 6]);
    m.train_tokens(&vec![5, 6]);
    assert_eq!(m.lookup(&vec![5]), Some(&vec![6, 6]));
}

#[test]
fn training_is_commutative_up_to_multisets() {
    let a = vec![1, 2, 1, 3];
    let b = vec![1, 4];
    let mut m1 = MarkovModel::new(1).unwrap();
    m1.train_tokens(&a);
    m1.train_tokens(&b);
    let mut m2 = MarkovModel::new(1).unwrap();
    m2.train_tokens(&b);
    m2.train_tokens(&a);
    assert_eq!(m1.key_count(), m2.key_count());
    for key in [vec![1], vec![2], vec![3], vec![4]] {
        let mut v1 = m1.lookup(&key).cloned().unwrap_or_default();
        let mut v2 = m2.lookup(&key).cloned().unwrap_or_default();
        v1.sort();
        v2.sort();
        assert_eq!(v1, v2);
    }
    // The per-state lists really were permuted, not identical.
    assert_eq!(m1.lookup(&vec![1]), Some(&vec![2, 3, 4]));
    assert_eq!(m2.lookup(&vec![1]), Some(&vec![4, 2, 3]));
}

#[test]
fn generation_rejects_wrong_seed_length() {
    let m = MarkovModel::new(2).unwrap();
    let mut s = Sampler::from_seed(7);
    assert_eq!(
        m.generate_tokens(&vec![1], 5, &mut s).err(),
        Some(ModelError::SeedLengthMismatch)
    );
    assert_eq!(
        m.generate_tokens(&vec![1, 2, 3], 5, &mut s).err(),
        Some(ModelError::SeedLengthMismatch)
    );
    assert!(m.generate_tokens(&vec![1, 2], 5, &mut s).is_ok());
}

#[test]
fn generation_walks_recorded_transitions() {
    let mut m = MarkovModel::new(2).unwrap();
    m.train_tokens(&vec![1, 2, 3, 1, 2, 4]);
    let mut s = Sampler::from_seed(11);
    for _ in 0..20 {
        let out = m.generate_tokens(&vec![1, 2], 1, &mut s).unwrap();
        assert!(out == vec![1, 2, 3] || out == vec![1, 2, 4]);
    }
}

#[test]
fn generation_from_unseen_seed_returns_seed_alone() {
    let mut m = MarkovModel::new(2).unwrap();
    m.train_tokens(&vec![1, 2, 3, 1, 2, 4]);
    let mut s = Sampler::new();
    let out = m.generate_tokens(&vec![9, 9], 8, &mut s).unwrap();
    assert_eq!(out, vec![9, 9]);
}

#[test]
fn generation_length_is_bounded() {
    // Output token length lies in [order, order + length]; it falls short of
    // order + length only when the walk leaves the observed graph.
    let mut m = MarkovModel::new(1).unwrap();
    m.train_tokens(&vec![1, 2, 3]);
    let mut s = Sampler::from_seed(3);
    // From 1 the walk reaches 3, which has no successor: it stops early.
    let out = m.generate_tokens(&vec![1], 10, &mut s).unwrap();
    assert_eq!(out, vec![1, 2, 3]);
    // A cyclic table always reaches the full length.
    let mut c = MarkovModel::new(1).unwrap();
    c.train_tokens(&vec![1, 1, 1]);
    let out = c.generate_tokens(&vec![1], 10, &mut s).unwrap();
    assert_eq!(out.len(), 11);
    assert!(out.iter().all(|t| *t == 1));
}
