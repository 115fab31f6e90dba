use graph_distances::stats::average_of;
use graph_distances::stats::maximum_of;
use graph_distances::stats::median_of;
use graph_distances::stats::mode_of;
use graph_distances::stats::Fraction;

#[test]
fn average_of_nothing_is_zero_over_one() {
    assert_eq!(average_of(&vec![]), Fraction { numerator: 0, denominator: 1 });
}

#[test]
fn average_is_the_sum_over_the_count() {
    assert_eq!(average_of(&vec![1, 2, 3, 4]), Fraction { numerator: 10, denominator: 4 });
    assert_eq!(average_of(&vec![7]), Fraction { numerator: 7, denominator: 1 });
}

#[test]
fn average_of_large_entries_does_not_wrap() {
    let all = vec![usize::MAX, usize::MAX, usize::MAX];
    let average = average_of(&all);
    assert_eq!(average.numerator, 3 * (usize::MAX as u128));
    assert_eq!(average.denominator, 3);
}

#[test]
fn maximum_of_nothing_is_zero() {
    assert_eq!(maximum_of(&vec![]), 0);
}

#[test]
fn maximum_is_the_largest_entry() {
    assert_eq!(maximum_of(&vec![3, 9, 2, 9, 1]), 9);
    assert_eq!(maximum_of(&vec![5]), 5);
    assert_eq!(maximum_of(&vec![0, 0]), 0);
}

#[test]
fn median_of_nothing_is_zero_over_one() {
    assert_eq!(median_of(vec![]), Fraction { numerator: 0, denominator: 1 });
}

#[test]
fn median_of_an_odd_number_is_the_central_entry() {
    assert_eq!(median_of(vec![9, 1, 5]), Fraction { numerator: 5, denominator: 1 });
    assert_eq!(median_of(vec![4]), Fraction { numerator: 4, denominator: 1 });
}

#[test]
fn median_of_an_even_number_is_half_the_two_central_entries() {
    assert_eq!(median_of(vec![4, 1, 3, 2]), Fraction { numerator: 5, denominator: 2 });
    assert_eq!(median_of(vec![8, 2]), Fraction { numerator: 10, denominator: 2 });
}

#[test]
fn median_sorts_before_it_picks() {
    assert_eq!(median_of(vec![5, 4, 3, 2, 1]), Fraction { numerator: 3, denominator: 1 });
    assert_eq!(median_of(vec![3, 3, 1, 1, 2, 2]), Fraction { numerator: 4, denominator: 2 });
}

#[test]
fn mode_of_nothing_is_zero() {
    assert_eq!(mode_of(&vec![]), 0);
}

#[test]
fn mode_is_the_most_frequent_entry() {
    assert_eq!(mode_of(&vec![1, 2, 2, 3, 2, 1]), 2);
    assert_eq!(mode_of(&vec![6]), 6);
}

#[test]
fn mode_of_equally_frequent_entries_is_the_smallest() {
    assert_eq!(mode_of(&vec![3, 1, 2, 3, 2, 1]), 1);
    assert_eq!(mode_of(&vec![5, 4]), 4);
    assert_eq!(mode_of(&vec![2, 2, 7, 7, 9]), 2);
}
