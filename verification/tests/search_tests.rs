use petcalc::bp::raw_stat;
use petcalc::search::{Query, BEST_AXIS, BEST_GAIN10, STATS};

fn q(lvl: i32, floor: [i64; STATS]) -> Query {
    Query { lvl, floor, random: [2, 2, 2, 2, 2] }
}

/// Row `s` of the stat matrix, times ten, read off unit BP vectors.
fn row(s: usize) -> [i128; 5] {
    let mut r = [0i128; 5];
    for j in 0..5 {
        let mut unit = [0i128; 5];
        unit[j] = 1;
        r[j] = raw_stat(&unit, s);
    }
    r
}

#[test]
fn best_axis_is_the_argmax_of_the_matrix() {
    for i in 0..STATS {
        let (axis, gain) = row(i).iter().enumerate().fold((0usize, i128::MIN), |(bi, bv), (j, &v)| {
            if v > bv {
                (j, v)
            } else {
                (bi, bv)
            }
        });
        assert_eq!(BEST_AXIS[i], axis, "best axis of stat {i}");
        assert_eq!(BEST_GAIN10[i] as i128, gain, "best gain of stat {i}");
    }
}

#[test]
fn the_two_divisors_visible_in_the_binary_match() {
    assert_eq!(BEST_GAIN10[1], 100, "the mp divisor is 10");
    assert_eq!(BEST_GAIN10[6], 8, "the res divisor is 0.8");
}

#[test]
fn an_empty_query_is_recognisable() {
    assert!(!q(50, [0; STATS]).has_floor());
    assert!(q(50, [1, 0, 0, 0, 0, 0, 0]).has_floor());
}

use petcalc::bp::{Bp, Stat};
use petcalc::grow::{GrowRange, DEFAULT_BPRATE};
use petcalc::matrix::{stat_to_bp, INV_DEN};
use petcalc::search::{points_needed, Verdict, NEED_COST, NEED_SCALE};

// Points are counted in units of 1/NEED_SCALE.

#[test]
fn level_one_has_no_points_to_spend() {
    let query = q(1, [0; STATS]);
    assert_eq!(query.available_points(), 0);
    let grow = GrowRange::new(30, 30, 30, 30, 30, DEFAULT_BPRATE);
    let v = query.evaluate(grow);
    assert!(v.hit(), "no floor hits at level one too");
    let mut floor = [0; STATS];
    floor[0] = v.base.hp + 1;
    assert!(!q(1, floor).evaluate(grow).hit());
}

fn plain_stat() -> Stat {
    Stat { hp: 100, mp: 100, atk: 20, def: 20, agi: 20, wis: 100, res: 100 }
}

#[test]
fn a_gap_converts_at_the_matrix_rate() {
    let base = plain_stat();
    let mut floor = [0; STATS];
    floor[0] = 108;
    assert_eq!(points_needed(base, floor), 1 * NEED_SCALE as u128);
    floor[0] = 116;
    assert_eq!(points_needed(base, floor), 2 * NEED_SCALE as u128);
    floor[0] = 50;
    assert_eq!(points_needed(base, floor), 0);
}

#[test]
fn gaps_across_stats_add_up() {
    let base = plain_stat();
    let mut floor = [0; STATS];
    floor[0] = 108;
    floor[1] = 120;
    assert_eq!(points_needed(base, floor), 3 * NEED_SCALE as u128);
}

#[test]
fn a_higher_level_never_loses_a_hit() {
    let grow = GrowRange::new(40, 30, 20, 25, 35, DEFAULT_BPRATE);
    let floor = [800, 600, 120, 110, 90, 0, 0];
    let mut seen_hit = false;
    for lvl in 1..=120 {
        let hit = q(lvl, floor).evaluate(grow).hit();
        if hit {
            seen_hit = true;
        }
        assert!(!seen_hit || hit, "level {lvl} lost the hit");
    }
    assert!(seen_hit, "these floors should be reached before level 120");
}

#[test]
fn a_better_pet_is_never_harder_to_hit() {
    let floor = [500, 400, 90, 80, 70, 0, 0];
    let weak = q(50, floor).evaluate(GrowRange::new(20, 20, 20, 20, 20, DEFAULT_BPRATE));
    let strong = q(50, floor).evaluate(GrowRange::new(40, 40, 40, 40, 40, DEFAULT_BPRATE));
    assert!(strong.needed <= weak.needed);
}

#[test]
fn a_gap_that_divides_exactly_is_not_lost_to_float_error() {
    // each unit cost times the best gain (times ten) is exactly ten points' worth
    for i in 0..STATS {
        for gap in 1..4000i64 {
            assert_eq!(gap * NEED_COST[i] * BEST_GAIN10[i], gap * NEED_SCALE * 10, "stat {i}, gap {gap}");
        }
    }
    let base = Stat::default();
    let v = Verdict { base, needed: 10 * NEED_SCALE as u128, available: 10 * NEED_SCALE as u128 };
    assert!(v.hit(), "exactly enough points");
    assert_eq!(v.shortfall(), 0);
    assert!(!Verdict { base, needed: 105 * NEED_SCALE as u128 / 10, available: 10 * NEED_SCALE as u128 }.hit(), "half a point short");
}

#[test]
fn stat_to_bp_round_trips_through_calc_real_num() {
    let bp = Bp::new(12000, 4000, 6000, 3000, 8000);
    let s = bp.calc_real_num();
    let back = stat_to_bp(s.hp, s.mp, s.atk, s.def, s.agi);
    // stats are floored, so the BP comes back within the same cell only
    for (a, b) in back.iter().zip(bp.to_array().iter()) {
        assert!((a - b * INV_DEN).abs() < 500 * INV_DEN, "{a} vs {b}");
    }
}
