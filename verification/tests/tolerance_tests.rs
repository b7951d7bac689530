use petcalc::tolerance::{TOL_MAX, TOL_MIN};

#[test]
fn constants_match_the_binary() {
    // thousandths of a point: 0.01 and 0.1
    assert_eq!(TOL_MIN, 10);
    assert_eq!(TOL_MAX, 100);
}

use petcalc::rates::{full_rate_formula, MAX_TIER};
use petcalc::tolerance::{adaptive_tolerance, approx_eq, level_span_tolerance, tier_nudges, within};

// Tolerances in thousandths of a point; levels are whole numbers.

#[test]
fn narrow_range_hits_lower_bound() {
    assert_eq!(adaptive_tolerance(0, 1), TOL_MIN);
    assert_eq!(adaptive_tolerance(0, 0), TOL_MIN);
}

#[test]
fn wide_range_hits_upper_bound() {
    assert_eq!(adaptive_tolerance(0, 100), TOL_MAX);
}

#[test]
fn mid_range_scales_linearly() {
    assert_eq!(adaptive_tolerance(0, 8), 40);
    assert_eq!(adaptive_tolerance(0, 2), 10);
    assert_eq!(adaptive_tolerance(0, 20), 100);
}

#[test]
fn inverted_range_falls_back_to_minimum() {
    assert_eq!(adaptive_tolerance(50, 0), TOL_MIN);
}

#[test]
fn approx_eq_accepts_inside_rejects_outside() {
    assert!(approx_eq(1000, 1009, 10));
    assert!(approx_eq(1000, 991, 10));
    assert!(!approx_eq(1000, 1020, 10));
    // in exact thousandths the boundary itself is inside (`|a - b| <= tol`)
    assert!(approx_eq(1000, 1010, 10));
}

#[test]
fn within_widens_both_ends() {
    assert!(within(990, 1000, 2000, 10));
    assert!(within(2010, 1000, 2000, 10));
    assert!(!within(980, 1000, 2000, 10));
}

#[test]
fn level_span_is_what_feeds_the_formula() {
    assert_eq!(level_span_tolerance(8, 0), 40);
    assert_eq!(level_span_tolerance(1, 0), TOL_MIN);
    assert_eq!(level_span_tolerance(59, 0), TOL_MAX);
    assert_eq!(level_span_tolerance(45, 40), 25);
    assert_eq!(level_span_tolerance(45, 0), TOL_MAX);
    assert_eq!(level_span_tolerance(42, 40), TOL_MIN);
}

#[test]
fn the_nudged_tiers_are_exactly_where_the_rate_table_is_irregular() {
    for tier in 2..=MAX_TIER as i32 {
        let step = full_rate_formula(tier as u32) - full_rate_formula(tier as u32 - 1);
        let (_, count) = tier_nudges(tier, 100);
        let regular = step == 40;
        assert_eq!(regular, count == 1, "tier {tier}: step {step}, {count} offsets");
    }
}

#[test]
fn nudge_sets_match_the_original_s_three_branches() {
    let t = 100;
    assert_eq!(tier_nudges(5, t), ([0, -t, t], 3));
    assert_eq!(tier_nudges(50, t), ([0, -t, t], 3));
    assert_eq!(tier_nudges(1, t).1, 2);
    assert_eq!(tier_nudges(51, t).1, 2);
    assert_eq!(tier_nudges(51, t).0[1], -t);
    for tier in [2, 3, 4, 7, 48, 49] {
        assert_eq!(tier_nudges(tier, t).1, 1, "tier {tier}");
    }
    assert_eq!(tier_nudges(0, t).1, 1);
}

#[test]
fn the_first_nudge_is_always_zero() {
    for tier in 0..=MAX_TIER as i32 {
        assert_eq!(tier_nudges(tier, 100).0[0], 0);
    }
}

#[test]
fn tolerance_accepts_small_float_drift() {
    // Level span 0 to 8 gives 0.04, held in thousandths.
    let tol = adaptive_tolerance(0, 8);
    assert_eq!(tol, 40);
    assert!(approx_eq(123_000, 123_030, tol as i64));
    assert!(!approx_eq(123_000, 123_500, tol as i64));
}
