use rand::SeedableRng;
use textgenlib::error::DrawError;
use textgenlib::markov_text_generator::MarkovTextGenerator;
use textgenlib::weighted_char::WeightedChar;

#[test]
fn load() {
    let mut markov = MarkovTextGenerator::new();
    markov.load("abc");
    assert_eq!(markov.successors('a').is_some(), true);
    assert_eq!(markov.successors('b').is_some(), true);
    assert_eq!(markov.successors('c').is_some(), false);
}

#[test]
fn validate_simple_chain() {
    let mut markov = MarkovTextGenerator::new();
    markov.load("abc");

    match markov.successors('a') {
        Some(next) => {
            assert_eq!(next.contains(&WeightedChar::new('b')), true);
        }
        None => panic!("Expected to find 'b' in the next chain."),
    }
}

#[test]
fn weight_increases() {
    let mut markov = MarkovTextGenerator::new();
    markov.load("ababab");

    match markov.successors('a') {
        Some(next) => match next.get(&WeightedChar::new('b')) {
            Some(value) => assert_eq!(value.get_weight(), 3),
            None => panic!("Expected to find a WeightedChar for 'b'"),
        },
        None => panic!("Expected to find 'b' in the next chain."),
    }
}

#[test]
fn train_abc_exact_edges() {
    let mut markov = MarkovTextGenerator::new();
    markov.load("abc");

    let next_a = markov.successors('a').expect("'a' should be a key");
    assert_eq!(next_a.len(), 1);
    assert_eq!(next_a.get(&WeightedChar::new('b')).unwrap().get_weight(), 1);
    assert_eq!(next_a.get_total_weight(), 1);

    let next_b = markov.successors('b').expect("'b' should be a key");
    assert_eq!(next_b.len(), 1);
    assert_eq!(next_b.get(&WeightedChar::new('c')).unwrap().get_weight(), 1);
    assert_eq!(next_b.get_total_weight(), 1);

    assert!(markov.successors('c').is_none());
}

#[test]
fn train_ababab_exact_edges() {
    let mut markov = MarkovTextGenerator::new();
    markov.load("ababab");

    let next_a = markov.successors('a').expect("'a' should be a key");
    assert_eq!(next_a.len(), 1);
    assert_eq!(next_a.get(&WeightedChar::new('b')).unwrap().get_weight(), 3);
    assert_eq!(next_a.get_total_weight(), 3);

    let next_b = markov.successors('b').expect("'b' should be a key");
    assert_eq!(next_b.len(), 1);
    assert_eq!(next_b.get(&WeightedChar::new('a')).unwrap().get_weight(), 2);
    assert_eq!(next_b.get_total_weight(), 2);

    assert!(markov.successors('c').is_none());
}

#[test]
fn empty_and_single_char_inputs_are_no_ops() {
    let mut markov = MarkovTextGenerator::new();
    markov.load("");
    markov.load("a");
    assert!(markov.successors('a').is_none());
    assert!(markov.successors('b').is_none());
}

#[test]
fn no_pair_spans_two_calls() {
    let mut markov = MarkovTextGenerator::new();
    markov.load("ab");
    markov.load("bc");

    let next_a = markov.successors('a').expect("'a' should be a key");
    assert_eq!(next_a.len(), 1);
    assert_eq!(next_a.get(&WeightedChar::new('b')).unwrap().get_weight(), 1);

    let next_b = markov.successors('b').expect("'b' should be a key");
    assert_eq!(next_b.len(), 1);
    assert!(next_b.get(&WeightedChar::new('b')).is_none());
    assert_eq!(next_b.get(&WeightedChar::new('c')).unwrap().get_weight(), 1);
}

#[test]
fn train_aaab_total_weight() {
    let mut markov = MarkovTextGenerator::new();
    markov.load("aaab");

    let next_a = markov.successors('a').expect("'a' should be a key");
    assert_eq!(next_a.len(), 2);
    assert_eq!(next_a.get(&WeightedChar::new('a')).unwrap().get_weight(), 2);
    assert_eq!(next_a.get(&WeightedChar::new('b')).unwrap().get_weight(), 1);
    assert_eq!(next_a.get_total_weight(), 3);
}

#[test]
fn sole_successor_is_always_drawn() {
    let mut markov = MarkovTextGenerator::new();
    markov.load("ab");
    let mut rng = rand::rngs::StdRng::seed_from_u64(7);
    for _ in 0..50 {
        assert_eq!(markov.draw_successor('a', &mut rng), Ok('b'));
    }
}

#[test]
fn unknown_predecessor_is_reported() {
    let mut markov = MarkovTextGenerator::new();
    markov.load("ab");
    let mut rng = rand::rngs::StdRng::seed_from_u64(7);
    assert_eq!(
        markov.draw_successor('z', &mut rng),
        Err(DrawError::UnknownPredecessor)
    );
    assert_eq!(
        markov.draw_successor('b', &mut rng),
        Err(DrawError::UnknownPredecessor)
    );
}

#[test]
fn seeded_draws_are_reproducible() {
    let mut first = MarkovTextGenerator::new();
    let mut second = MarkovTextGenerator::new();
    first.load("the quick brown fox jumps over the lazy dog");
    second.load("the quick brown fox jumps over the lazy dog");

    let mut rng_a = rand::rngs::StdRng::seed_from_u64(42);
    let mut rng_b = rand::rngs::StdRng::seed_from_u64(42);
    for _ in 0..200 {
        let one = first.draw_successor('o', &mut rng_a);
        let two = second.draw_successor('o', &mut rng_b);
        assert_eq!(one, two);
        assert!(one.is_ok());
    }
}
