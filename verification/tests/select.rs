use wordmarkov::chain::select::{sum_weights, weighted_select};
use wordmarkov::prelude::SelectionType;

#[test]
fn highest_takes_the_first_of_the_highest() {
    assert_eq!(weighted_select(SelectionType::Highest, &vec![1, 7, 3, 7], 0), 1);
    assert_eq!(weighted_select(SelectionType::Highest, &vec![4], 0), 0);
    assert_eq!(weighted_select(SelectionType::Highest, &vec![0, 0, 0], 99), 0);
}

#[test]
fn lowest_takes_the_first_of_the_lowest() {
    assert_eq!(weighted_select(SelectionType::Lowest, &vec![5, 2, 9, 2], 0), 1);
    assert_eq!(weighted_select(SelectionType::Lowest, &vec![3, 3], 7), 0);
}

#[test]
fn weighted_takes_the_first_running_sum_that_reaches_the_draw() {
    let weights = vec![2, 3, 5];
    let picks: Vec<usize> = (1..=10)
        .map(|draw| weighted_select(SelectionType::WeightedRandom, &weights, draw))
        .collect();
    // Two draws for the first place, three for the second, five for the
    // third: each place has the share of its weight.
    assert_eq!(picks, vec![0, 0, 1, 1, 1, 2, 2, 2, 2, 2]);
}

#[test]
fn weighted_takes_the_place_whose_running_sum_equals_the_draw() {
    assert_eq!(
        weighted_select(SelectionType::WeightedRandom, &vec![1, 1], 1),
        0
    );
    assert_eq!(
        weighted_select(SelectionType::WeightedRandom, &vec![1, 1], 2),
        1
    );
}

#[test]
fn weighted_skips_weightless_edges_and_falls_back_to_the_last() {
    assert_eq!(
        weighted_select(SelectionType::WeightedRandom, &vec![0, 4, 0], 1),
        1
    );
    assert_eq!(
        weighted_select(SelectionType::WeightedRandom, &vec![0, 4, 0], 4),
        1
    );
    // No running sum reaches the draw: the last place.
    assert_eq!(
        weighted_select(SelectionType::WeightedRandom, &vec![1, 1], 3),
        1
    );
}

#[test]
fn weighted_takes_the_first_place_on_a_draw_of_nothing() {
    // All weights are 0 and nothing can be drawn: the first place.
    assert_eq!(
        weighted_select(SelectionType::WeightedRandom, &vec![0, 0, 0], 0),
        0
    );
    assert_eq!(
        weighted_select(SelectionType::WeightedRandom, &vec![2, 3], 0),
        0
    );
}

#[test]
fn weights_add_up_without_overflow() {
    assert_eq!(sum_weights(&vec![]), 0);
    assert_eq!(sum_weights(&vec![2, 3, 5]), 10);
    assert_eq!(
        sum_weights(&vec![u64::MAX, u64::MAX, 1]),
        2 * (u64::MAX as u128) + 1
    );
}
