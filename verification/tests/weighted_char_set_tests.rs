use rand::SeedableRng;
use textgenlib::error::DrawError;
use textgenlib::weighted_char::WeightedChar;
use textgenlib::weighted_char_set::WeightedCharSet;

#[test]
fn weighted_char_identity_is_the_character() {
    let light = WeightedChar::new('x');
    let heavy = WeightedChar::new_with_weight('x', 9);
    let other = WeightedChar::new_with_weight('y', 9);
    assert_eq!(light.get_char(), 'x');
    assert_eq!(light.get_weight(), 0);
    assert_eq!(heavy.get_weight(), 9);
    assert!(light == heavy);
    assert!(heavy != other);
}

#[test]
fn insert_does_not_double_count() {
    let mut set = WeightedCharSet::new();
    assert_eq!(set.insert(WeightedChar::new_with_weight('a', 5)), true);
    assert_eq!(set.get_total_weight(), 5);
    assert_eq!(set.insert(WeightedChar::new_with_weight('a', 7)), false);
    assert_eq!(set.get_total_weight(), 5);
    assert_eq!(set.len(), 1);
    assert_eq!(set.get(&WeightedChar::new('a')).unwrap().get_weight(), 5);
}

#[test]
fn remove_subtracts_weight_from_total() {
    let mut set = WeightedCharSet::new();
    set.insert(WeightedChar::new_with_weight('a', 5));
    set.insert(WeightedChar::new_with_weight('b', 2));
    assert_eq!(set.get_total_weight(), 7);
    assert_eq!(set.remove(&WeightedChar::new('a')), true);
    assert_eq!(set.get_total_weight(), 2);
    assert_eq!(set.len(), 1);
    assert_eq!(set.contains(&WeightedChar::new('a')), false);
    assert_eq!(set.remove(&WeightedChar::new('a')), false);
    assert_eq!(set.get_total_weight(), 2);
}

#[test]
fn increment_creates_then_raises() {
    let mut set = WeightedCharSet::new();
    set.increment('a', 1);
    assert_eq!(set.get(&WeightedChar::new('a')).unwrap().get_weight(), 1);
    assert_eq!(set.get_total_weight(), 1);
    set.increment('a', 3);
    assert_eq!(set.get(&WeightedChar::new('a')).unwrap().get_weight(), 4);
    assert_eq!(set.get_total_weight(), 4);
    set.increment('a', 0);
    assert_eq!(set.get(&WeightedChar::new('a')).unwrap().get_weight(), 4);
    assert_eq!(set.get_total_weight(), 4);
    assert_eq!(set.len(), 1);
}

#[test]
fn total_weight_is_zero_only_when_empty() {
    let mut set = WeightedCharSet::new();
    assert_eq!(set.get_total_weight(), 0);
    assert_eq!(set.len(), 0);
    set.increment('a', 2);
    assert!(set.get_total_weight() > 0);
    set.remove(&WeightedChar::new('a'));
    assert_eq!(set.get_total_weight(), 0);
    assert_eq!(set.len(), 0);
}

#[test]
fn draw_on_empty_set_fails() {
    let set = WeightedCharSet::new();
    let mut rng = rand::rngs::StdRng::seed_from_u64(1);
    assert_eq!(set.draw(&mut rng), Err(DrawError::EmptySet));
    assert!(set.get_random().is_none());
}

#[test]
fn get_random_yields_a_member() {
    let mut set = WeightedCharSet::new();
    set.increment('a', 2);
    set.increment('b', 1);
    let drawn = set.get_random().expect("set is not empty");
    assert!(drawn.get_char() == 'a' || drawn.get_char() == 'b');
    assert!(drawn.get_weight() >= 1);
}

#[test]
fn pick_walks_the_bands_in_order() {
    let mut set = WeightedCharSet::new();
    set.increment('a', 2);
    set.increment('b', 1);
    assert_eq!(set.pick(1).get_char(), 'a');
    assert_eq!(set.pick(2).get_char(), 'a');
    assert_eq!(set.pick(3).get_char(), 'b');
}

#[test]
fn draw_frequencies_follow_the_weights() {
    let mut set = WeightedCharSet::new();
    set.increment('a', 2);
    set.increment('b', 1);
    let mut rng = rand::rngs::StdRng::seed_from_u64(99);
    let mut count_a: u32 = 0;
    let mut count_b: u32 = 0;
    for _ in 0..3000 {
        match set.draw(&mut rng) {
            Ok('a') => count_a += 1,
            Ok('b') => count_b += 1,
            other => panic!("unexpected draw result: {:?}", other),
        }
    }
    assert_eq!(count_a + count_b, 3000);
    assert!(count_a > 1800 && count_a < 2200, "count_a = {}", count_a);
    assert!(count_b > 800 && count_b < 1200, "count_b = {}", count_b);
}
