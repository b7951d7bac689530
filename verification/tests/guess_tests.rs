use petcalc::grow::{RandomBounds, RANDOM_POOL};
use petcalc::guess::{for_each_random_tuple, for_each_random_tuple_within, ManualBounds};

#[test]
fn random_tuples_are_exactly_1001() {
    let mut n = 0;
    let mut all_sum_10 = true;
    for r in for_each_random_tuple() {
        n += 1;
        if r.iter().sum::<i32>() != RANDOM_POOL || r.iter().any(|&v| v < 0) {
            all_sum_10 = false;
        }
    }
    assert_eq!(n, 1001);
    assert!(all_sum_10);
}

#[test]
fn manual_bounds_constructors_agree_with_allows() {
    assert!(ManualBounds::free().allows([99, 0, 3, 0, 7]));
    assert!(ManualBounds::zero().allows([0; 5]));
    assert!(!ManualBounds::zero().allows([1, 0, 0, 0, 0]));
    assert!(ManualBounds::single(2).allows([0, 0, 40, 0, 0]));
    assert!(!ManualBounds::single(2).allows([0, 1, 39, 0, 0]));
    assert!(ManualBounds::fixed([1, 2, 3, 4, 5]).allows([1, 2, 3, 4, 5]));
    assert!(!ManualBounds::fixed([1, 2, 3, 4, 5]).allows([1, 2, 3, 4, 6]));
    assert_eq!(ManualBounds::fixed([1, 2, 3, 4, 5]).min_total(), 15);
    assert_eq!(ManualBounds::free().min_total(), 0);

    let m = ManualBounds::mixed([false, true, false, true, false]);
    assert!(m.allows([0, 5, 0, 5, 0]));
    assert!(!m.allows([1, 5, 0, 4, 0]));
}

#[test]
fn default_random_bounds_reproduce_the_old_1001_tuples() {
    let mut old = Vec::new();
    for r0 in 0..=RANDOM_POOL {
        for r1 in 0..=(RANDOM_POOL - r0) {
            for r2 in 0..=(RANDOM_POOL - r0 - r1) {
                for r3 in 0..=(RANDOM_POOL - r0 - r1 - r2) {
                    old.push([r0, r1, r2, r3, RANDOM_POOL - r0 - r1 - r2 - r3]);
                }
            }
        }
    }
    let new = for_each_random_tuple_within(RandomBounds::default());
    assert_eq!(old.len(), 1001);
    assert_eq!(old, new, "the default bounds changed the enumeration");
}

#[test]
fn narrowed_random_bounds_stay_a_subset_that_still_sums_to_ten() {
    let b = RandomBounds::new([1, 0, 0, 0, 1], [3, 4, 4, 4, 3]);
    let expected: Vec<_> = for_each_random_tuple()
        .into_iter()
        .filter(|r| (0..5).all(|i| b.accepts(i, r[i])))
        .collect();
    let got = for_each_random_tuple_within(b);
    assert_eq!(got, expected, "bounded enumeration should equal enumerate-then-filter");
    assert!(!got.is_empty());
    assert!(got.iter().all(|r| r.iter().sum::<i32>() == RANDOM_POOL));
}

#[test]
fn contradictory_random_bounds_yield_nothing() {
    let b = RandomBounds::new([3, 3, 3, 3, 3], [10, 10, 10, 10, 10]);
    assert!(!b.is_satisfiable());
    let n = for_each_random_tuple_within(b).len();
    assert_eq!(n, 0, "lower ends adding up to 15 cannot make 10");
}

#[test]
fn pinning_every_axis_leaves_exactly_one_tuple() {
    let got = for_each_random_tuple_within(RandomBounds::new([2; 5], [2; 5]));
    assert_eq!(got, vec![[2, 2, 2, 2, 2]]);
}
