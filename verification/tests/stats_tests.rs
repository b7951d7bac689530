use petcalc::guess::for_each_random_tuple;
use petcalc::stats::{binomial, random_weight};

fn c(n: i32, k: i32) -> u64 {
    binomial(n, k)
}

#[test]
fn binomial_matches_pascals_triangle() {
    assert_eq!(c(0, 0), 1);
    assert_eq!(c(10, 0), 1);
    assert_eq!(c(10, 10), 1);
    assert_eq!(c(10, 1), 10);
    assert_eq!(c(10, 5), 252);
    assert_eq!(c(14, 4), 1001);
    assert_eq!(c(3, 5), 0);
    assert_eq!(c(10, -1), 0);
    for n in 1..20 {
        for k in 1..n {
            assert_eq!(c(n, k), c(n - 1, k - 1) + c(n - 1, k), "C({n},{k})");
        }
    }
}

#[test]
fn multinomial_weight_hits_the_known_extremes() {
    assert_eq!(random_weight([2, 2, 2, 2, 2]), 113400);
    assert_eq!(random_weight([10, 0, 0, 0, 0]), 1);
    assert_eq!(random_weight([0, 0, 0, 0, 10]), 1);
    assert_eq!(random_weight([9, 1, 0, 0, 0]), 10);
    assert_eq!(random_weight([1, 1, 1, 1, 1]), 0, "does not add up to 10");
    assert_eq!(random_weight([11, 0, 0, 0, -1]), 0, "negative entry");
}

#[test]
fn weights_sum_to_five_to_the_tenth_over_all_tuples() {
    let mut total: u64 = 0;
    let mut count = 0;
    for r in for_each_random_tuple() {
        total += random_weight(r);
        count += 1;
    }
    assert_eq!(count, 1001, "C(14,4) random tuples");
    assert_eq!(total, 5u64.pow(10), "multinomial theorem");
}

#[test]
fn a_random_weight_is_the_multinomial_coefficient() {
    let fact = |n: i32| (1..=n as u64).product::<u64>();
    for r in [[3, 2, 2, 2, 1], [10, 0, 0, 0, 0], [0, 5, 0, 5, 0], [1, 2, 3, 4, 0]] {
        let denom: u64 = r.iter().map(|&k| fact(k)).product();
        assert_eq!(random_weight(r) * denom, fact(10), "{r:?}");
    }
    assert_eq!(random_weight([3, 2, 2, 2, 1]), 75600);
}
