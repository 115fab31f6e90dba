//! Statistics of a list of hop distances: mean, maximum, median and mode.
//!
//! A mean or a median need not be a whole number. Both are kept exact, as a
//! [`Fraction`]; whoever wants a rounded value divides.

use crate::hops::ints;
use std::collections::HashMap;
use vstd::prelude::*;

verus! {

/// A quotient of two natural numbers: `numerator / denominator`.
#[derive(Debug, Clone, Copy, PartialEq, Eq, Structural)]
pub struct Fraction {
    pub numerator: u128,
    pub denominator: u128,
}

impl View for Fraction {
    type V = (int, int);

    /// The numerator and the denominator.
    open spec fn view(&self) -> (int, int) {
        (self.numerator as int, self.denominator as int)
    }
}

/// The sum of the entries of `list`.
pub open spec fn total(list: Seq<int>) -> int
    decreases list.len(),
{
    if list.len() == 0 {
        0
    } else {
        total(list.drop_last()) + list.last()
    }
}

/// The arithmetic mean of `list` as numerator and denominator: the sum of the
/// entries over their number, and 0 / 1 for the empty list.
pub open spec fn mean(list: Seq<int>) -> (int, int) {
    if list.len() == 0 {
        (0, 1)
    } else {
        (total(list), list.len() as int)
    }
}

/// `top` is the largest entry of `list`, or 0 where `list` is empty.
pub open spec fn is_largest(list: Seq<int>, top: int) -> bool {
    &&& forall|i: int| 0 <= i < list.len() ==> list[i] <= top
    &&& if list.len() == 0 {
        top == 0
    } else {
        list.contains(top)
    }
}

/// No entry of `list` is larger than a later one.
pub open spec fn ascending(list: Seq<int>) -> bool {
    forall|i: int, j: int| 0 <= i <= j < list.len() ==> list[i] <= list[j]
}

/// What stands in the middle of the ascending list `ordered`, as numerator
/// and denominator: the central entry where their number is odd, the two
/// central entries over 2 where it is even, and 0 / 1 for the empty list.
pub open spec fn middle(ordered: Seq<int>) -> (int, int) {
    let half = ordered.len() as int / 2;
    if ordered.len() == 0 {
        (0, 1)
    } else if ordered.len() % 2 == 0 {
        (ordered[half - 1] + ordered[half], 2)
    } else {
        (ordered[half], 1)
    }
}

/// The median of `list`: the middle of its entries in ascending order.
pub open spec fn median(list: Seq<int>) -> (int, int) {
    middle(list.sort())
}

/// How often `value` occurs in `list`.
pub open spec fn occurrences(list: Seq<int>, value: int) -> nat {
    list.to_multiset().count(value)
}

/// `mode` is the value that occurs most often in `list`, the smallest of
/// them where several occur equally often, or 0 where `list` is empty.
pub open spec fn is_mode(list: Seq<int>, mode: int) -> bool {
    if list.len() == 0 {
        mode == 0
    } else {
        &&& list.contains(mode)
        &&& forall|other: int| occurrences(list, other) <= occurrences(list, mode)
        &&& forall|other: int|
            occurrences(list, other) == occurrences(list, mode) ==> mode <= other
    }
}

/// The sum of a list that ends in `entry` is the sum of the rest and `entry`.
pub proof fn lemma_total_push(list: Seq<int>, entry: int)
    ensures
        total(list.push(entry)) == total(list) + entry,
{
    assert(list.push(entry).drop_last() =~= list);
}

/// A value occurs in a list that ends in `entry` once more than in the rest
/// where it is `entry`, and as often as in the rest where it is not.
pub proof fn lemma_occurrences_push(list: Seq<int>, entry: int, value: int)
    ensures
        occurrences(list.push(entry), value) == occurrences(list, value) + if value == entry {
            1nat
        } else {
            0nat
        },
{
    vstd::seq_lib::to_multiset_build(list, entry);
}

/// A value occurs in a list just when it occurs there once or more often, and
/// never more often than the list is long.
pub proof fn lemma_occurrences_bounds(list: Seq<int>, value: int)
    ensures
        occurrences(list, value) <= list.len(),
        occurrences(list, value) > 0 <==> list.contains(value),
{
    vstd::seq_lib::to_multiset_len(list);
    vstd::seq_lib::to_multiset_contains(list, value);
    lemma_count_at_most_len(list.to_multiset(), value);
}

/// A multiset has at least as many elements as one value occurs in it.
proof fn lemma_count_at_most_len(bag: vstd::multiset::Multiset<int>, value: int)
    ensures
        bag.count(value) <= bag.len(),
    decreases bag.count(value),
{
    if bag.count(value) > 0 {
        assert(bag.contains(value));
        lemma_count_at_most_len(bag.remove(value), value);
    }
}

/// A list has at most one largest entry.
pub proof fn lemma_largest_unique(list: Seq<int>, first: int, second: int)
    requires
        is_largest(list, first),
        is_largest(list, second),
    ensures
        first == second,
{
    if list.len() > 0 {
        let i = choose|i: int| 0 <= i < list.len() && list[i] == first;
        let j = choose|j: int| 0 <= j < list.len() && list[j] == second;
        assert(list[i] <= second);
        assert(list[j] <= first);
    }
}

/// A list has at most one mode.
pub proof fn lemma_mode_unique(list: Seq<int>, first: int, second: int)
    requires
        is_mode(list, first),
        is_mode(list, second),
    ensures
        first == second,
{
    if list.len() > 0 {
        assert(occurrences(list, first) <= occurrences(list, second));
        assert(occurrences(list, second) <= occurrences(list, first));
    }
}

/// The entries of a list in ascending order are ascending, and they are the
/// entries of the list.
pub proof fn lemma_sort_is_ascending(list: Seq<int>)
    ensures
        ascending(list.sort()),
        list.sort().to_multiset() == list.to_multiset(),
{
    let leq = |x: int, y: int| x <= y;
    let ordered = list.sort();
    list.lemma_sort_ensures();
    assert forall|i: int, j: int| 0 <= i <= j < ordered.len() implies ordered[i] <= ordered[j] by {
        if i < j {
            assert(leq(ordered[i], ordered[j]));
        }
    }
}

/// An ascending list that holds what `list` holds is `list` in ascending
/// order: there is one such list only.
pub proof fn lemma_ascending_is_sort(ordered: Seq<int>, list: Seq<int>)
    requires
        ascending(ordered),
        ordered.to_multiset() == list.to_multiset(),
    ensures
        ordered == list.sort(),
{
    let leq = |x: int, y: int| x <= y;
    lemma_sort_is_ascending(list);
    assert(vstd::relations::total_ordering(leq));
    assert(vstd::relations::sorted_by(ordered, leq));
    assert(vstd::relations::sorted_by(list.sort(), leq));
    vstd::seq_lib::lemma_sorted_unique(ordered, list.sort(), leq);
}

/// The sum of a list is what adding its entries up from the left gives.
proof fn lemma_total_is_fold(list: Seq<int>)
    ensures
        total(list) == list.fold_left(0int, |sum: int, entry: int| sum + entry),
    decreases list.len(),
{
    if list.len() > 0 {
        lemma_total_is_fold(list.drop_last());
    }
}

/// The statistics of a list do not depend on the order of its entries: two
/// lists that hold the same values equally often have the same mean, the
/// same largest entry, the same median and the same mode.
pub proof fn lemma_order_of_entries_is_irrelevant(first: Seq<int>, second: Seq<int>)
    requires
        first.to_multiset() == second.to_multiset(),
    ensures
        mean(first) == mean(second),
        median(first) == median(second),
        forall|top: int| is_largest(first, top) <==> is_largest(second, top),
        forall|mode: int| is_mode(first, mode) <==> is_mode(second, mode),
{
    let plus = |sum: int, entry: int| sum + entry;
    vstd::seq_lib::to_multiset_len(first);
    vstd::seq_lib::to_multiset_len(second);
    lemma_total_is_fold(first);
    lemma_total_is_fold(second);
    assert(vstd::seq_lib::commutative_foldl(plus));
    vstd::seq_lib::lemma_fold_left_permutation(first, second, plus, 0int);
    lemma_sort_is_ascending(first);
    lemma_ascending_is_sort(first.sort(), second);
    assert forall|value: int| first.contains(value) <==> second.contains(value) by {
        lemma_occurrences_bounds(first, value);
        lemma_occurrences_bounds(second, value);
    }
    assert forall|top: int| is_largest(first, top) <==> is_largest(second, top) by {
        if is_largest(first, top) {
            lemma_largest_of_same_values(first, second, top);
        }
        if is_largest(second, top) {
            lemma_largest_of_same_values(second, first, top);
        }
    }
    assert forall|mode: int| is_mode(first, mode) <==> is_mode(second, mode) by {
        assert(first.contains(mode) <==> second.contains(mode));
        assert forall|other: int| occurrences(first, other) == occurrences(second, other) by {}
    }
}

/// A largest entry of one list is a largest entry of a list of the same values.
proof fn lemma_largest_of_same_values(first: Seq<int>, second: Seq<int>, top: int)
    requires
        first.len() == second.len(),
        forall|value: int| first.contains(value) <==> second.contains(value),
        is_largest(first, top),
    ensures
        is_largest(second, top),
{
    assert forall|i: int| 0 <= i < second.len() implies second[i] <= top by {
        assert(second.contains(second[i]));
        let at = choose|at: int| 0 <= at < first.len() && first[at] == second[i];
        assert(first[at] <= top);
    }
}

/// The sum of `list` over the number of its entries, and 0 / 1 where it has none.
pub fn average_of(list: &Vec<usize>) -> (average: Fraction)
    ensures
        average@ == mean(ints(list@)),
{
    let count: usize = list.len();
    if count == 0 {
        return Fraction { numerator: 0, denominator: 1 };
    }
    let mut sum: u128 = 0;
    let mut i: usize = 0;
    while i < count
        invariant
            count == list@.len(),
            0 <= i <= count,
            sum == total(ints(list@).take(i as int)),
            sum <= i * 0xffff_ffff_ffff_ffff,
        decreases count - i,
    {
        proof {
            let seen = ints(list@).take(i as int);
            assert(ints(list@).take(i as int + 1) =~= seen.push(list@[i as int] as int));
            lemma_total_push(seen, list@[i as int] as int);
        }
        sum = sum + list[i] as u128;
        i += 1;
    }
    proof {
        assert(ints(list@).take(count as int) =~= ints(list@));
    }
    Fraction { numerator: sum, denominator: count as u128 }
}

/// The largest entry of `list`, and 0 where it has none.
pub fn maximum_of(list: &Vec<usize>) -> (top: usize)
    ensures
        is_largest(ints(list@), top as int),
{
    let mut top: usize = 0;
    let mut i: usize = 0;
    while i < list.len()
        invariant
            0 <= i <= list@.len(),
            forall|j: int| 0 <= j < i ==> list@[j] <= top,
            i == 0 ==> top == 0,
            i > 0 ==> exists|j: int| 0 <= j < i && list@[j] == top,
        decreases list@.len() - i,
    {
        if list[i] > top {
            top = list[i];
        } else if i == 0 {
            assert(list@[0] == top);
        }
        i += 1;
    }
    proof {
        if list@.len() > 0 {
            let j = choose|j: int| 0 <= j < list@.len() && list@[j] == top;
            assert(ints(list@)[j] == top as int);
        }
    }
    top
}

/// `<[usize]>::sort` of the standard library: puts the entries of `list` in
/// ascending order and keeps each value as often as it occurred.
#[verifier::external_body]
fn sort_ascending(list: &mut Vec<usize>)
    ensures
        ascending(ints(final(list)@)),
        ints(final(list)@).to_multiset() == ints(old(list)@).to_multiset(),
{
    list.sort();
}

/// The median of `list`: of its entries in ascending order the central one,
/// or the two central ones over 2, and 0 / 1 where it has none.
pub fn median_of(list: Vec<usize>) -> (center: Fraction)
    ensures
        center@ == median(ints(list@)),
{
    let mut ordered = list;
    sort_ascending(&mut ordered);
    proof {
        lemma_ascending_is_sort(ints(ordered@), ints(list@));
        vstd::seq_lib::to_multiset_len(ints(ordered@));
        vstd::seq_lib::to_multiset_len(ints(list@));
    }
    let count: usize = ordered.len();
    if count == 0 {
        Fraction { numerator: 0, denominator: 1 }
    } else {
        let half: usize = count / 2;
        if count % 2 == 0 {
            Fraction {
                numerator: ordered[half - 1] as u128 + ordered[half] as u128,
                denominator: 2,
            }
        } else {
            Fraction { numerator: ordered[half] as u128, denominator: 1 }
        }
    }
}

/// `tally` says of each value how often it occurs in `list`, and has no
/// entry for a value that does not occur.
spec fn tallied(tally: Map<usize, usize>, list: Seq<int>) -> bool {
    forall|value: usize|
        {
            let times = occurrences(list, value as int);
            if times == 0 {
                !(#[trigger] tally.contains_key(value))
            } else {
                tally.contains_key(value) && tally[value] == times
            }
        }
}

/// The value that occurs most often in `list`, the smallest of them where
/// several occur equally often, and 0 where `list` is empty.
pub fn mode_of(list: &Vec<usize>) -> (mode: usize)
    ensures
        is_mode(ints(list@), mode as int),
{
    broadcast use vstd::std_specs::hash::group_hash_axioms;

    let ghost whole = ints(list@);
    let mut tally: HashMap<usize, usize> = HashMap::new();
    let mut i: usize = 0;
    proof {
        assert forall|value: usize| occurrences(whole.take(0), value as int) == 0 by {
            lemma_occurrences_bounds(whole.take(0), value as int);
        }
    }
    while i < list.len()
        invariant
            whole == ints(list@),
            0 <= i <= list@.len(),
            tallied(tally@, whole.take(i as int)),
        decreases list@.len() - i,
    {
        let value: usize = list[i];
        let before: usize = match tally.get(&value) {
            Some(times) => *times,
            None => 0,
        };
        let ghost seen = whole.take(i as int);
        let ghost more = whole.take(i as int + 1);
        proof {
            assert(more =~= seen.push(value as int));
            lemma_occurrences_bounds(seen, value as int);
            assert forall|other: usize|
                occurrences(more, other as int) == occurrences(seen, other as int) + if other
                    == value {
                    1nat
                } else {
                    0nat
                } by {
                lemma_occurrences_push(seen, value as int, other as int);
            }
        }
        tally.insert(value, before + 1);
        i += 1;
        assert(whole.take(i as int) == more);
    }
    proof {
        assert(whole.take(list@.len() as int) =~= whole);
    }
    let mut mode: usize = 0;
    let mut best: usize = 0;
    let mut k: usize = 0;
    while k < list.len()
        invariant
            whole == ints(list@),
            0 <= k <= list@.len(),
            tallied(tally@, whole),
            k == 0 ==> mode == 0 && best == 0,
            k > 0 ==> best == occurrences(whole, mode as int) && exists|j: int|
                0 <= j < k && list@[j] == mode,
            forall|j: int|
                0 <= j < k ==> {
                    let times = occurrences(whole, #[trigger] list@[j] as int);
                    times < best || (times == best && mode <= list@[j])
                },
        decreases list@.len() - k,
    {
        let value: usize = list[k];
        proof {
            assert(whole[k as int] == value as int);
            lemma_occurrences_bounds(whole, value as int);
        }
        let times: usize = match tally.get(&value) {
            Some(times) => *times,
            None => 0,
        };
        if times > best || (times == best && value < mode) {
            mode = value;
            best = times;
        }
        k += 1;
    }
    proof {
        if whole.len() > 0 {
            let j = choose|j: int| 0 <= j < list@.len() && list@[j] == mode;
            assert(whole[j] == mode as int);
            assert forall|other: int| occurrences(whole, other) <= occurrences(
                whole,
                mode as int,
            ) && (occurrences(whole, other) == occurrences(whole, mode as int) ==> mode as int
                <= other) by {
                lemma_occurrences_bounds(whole, other);
                lemma_occurrences_bounds(whole, mode as int);
                if whole.contains(other) {
                    let at = choose|at: int| 0 <= at < whole.len() && whole[at] == other;
                    assert(list@[at] as int == other);
                }
            }
        }
    }
    mode
}

} // verus!
