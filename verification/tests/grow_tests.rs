use petcalc::grow::{LossBounds, RandomBounds, MAX_LOSS_BOUND, RANDOM_POOL};

#[test]
fn reversed_loss_bounds_get_swapped_not_emptied() {
    assert_eq!(LossBounds::new([4; 5], [1; 5]).axis(0), [1, 4], "reversed bounds should be swapped");
}

#[test]
fn loss_bounds_are_clamped_to_the_guard_rail() {
    let b = LossBounds::new([-5; 5], [999; 5]);
    assert_eq!(b.axis(0), [0, MAX_LOSS_BOUND]);
}

#[test]
fn random_bounds_default_is_the_whole_pool() {
    assert_eq!(RandomBounds::default().axis(0), [0, RANDOM_POOL]);
    assert!(RandomBounds::default().is_satisfiable());
}

#[test]
fn contradictory_random_bounds_are_detected() {
    assert!(!RandomBounds::new([3; 5], [10; 5]).is_satisfiable(), "lower ends add up to 15 > 10");
    assert!(!RandomBounds::new([0; 5], [1; 5]).is_satisfiable(), "upper ends add up to 5 < 10");
    assert!(RandomBounds::new([2; 5], [2; 5]).is_satisfiable(), "exactly 2,2,2,2,2");
}

use petcalc::bp::{Bp, Stat};
use petcalc::grow::{GrowRange, DEFAULT_BPRATE, MAX_LOST_PER_AXIS};

/// One axis (mp = 2) below `MAX_LOST_PER_AXIS`, so its low end clamps.
fn sample() -> GrowRange {
    GrowRange::new(10, 8, 6, 4, 2, DEFAULT_BPRATE)
}

/// Every axis at least `MAX_LOST_PER_AXIS`: nothing clamps.
fn roomy() -> GrowRange {
    GrowRange::new(10, 9, 8, 7, 6, DEFAULT_BPRATE)
}

#[test]
fn level_one_has_no_growth_contribution() {
    let r = sample().calc_bp_at_level(1, None);
    // BP in thousandths: tier * 0.2
    assert_eq!(r.base_bp.hp, 2000);
    assert_eq!(r.base_bp.mp, 400);
    assert_eq!(r.sum_full_bp, r.sum_base_bp);
}

#[test]
fn growth_scales_with_level_minus_one() {
    let g = sample();
    let at1 = g.calc_bp_at_level(1, None);
    let at11 = g.calc_bp_at_level(11, None);
    // rate of tier 10 is 0.415: ten levels add 4.15
    assert_eq!(at11.base_bp.hp, at1.base_bp.hp + 415 * 10);
}

#[test]
fn sum_base_includes_random_pool() {
    let r = sample().calc_bp_at_level(1, None);
    assert_eq!(r.sum_base_bp, r.base_bp.sum() + 10 * 200);
}

#[test]
fn lvlpoint_defaults_to_level_minus_one() {
    let g = sample();
    let auto = g.calc_bp_at_level(50, None);
    let explicit = g.calc_bp_at_level(50, Some(49));
    assert_eq!(auto.sum_full_bp, explicit.sum_full_bp);
    let none_spent = g.calc_bp_at_level(50, Some(0));
    assert_eq!(none_spent.sum_full_bp, auto.sum_full_bp - 49 * 1000);
}

#[test]
fn loop_range_yields_3125_candidates_when_no_axis_clamps() {
    assert_eq!(roomy().loop_range().len(), 5 * 5 * 5 * 5 * 5);
}

#[test]
fn loop_range_shrinks_when_an_axis_clamps() {
    assert_eq!(sample().loop_range().len(), 5 * 5 * 5 * 5 * 3);
}

#[test]
fn loop_range_skips_negative_tiers() {
    let mut mps = std::collections::BTreeSet::new();
    for g in sample().loop_range() {
        mps.insert(g.mp);
    }
    assert_eq!(mps.iter().copied().collect::<Vec<_>>(), vec![0, 1, 2]);
}

#[test]
fn default_loss_bounds_reproduce_the_old_hard_coded_sweep() {
    for g in [sample(), roomy()] {
        let old: Vec<_> = g.loop_range().iter().map(|c| c.to_array()).collect();
        let new: Vec<_> = g.loop_range_within(LossBounds::default()).iter().map(|c| c.to_array()).collect();
        assert_eq!(old, new, "the default bounds changed the sweep");
    }
}

#[test]
fn a_tighter_max_loss_shrinks_the_sweep() {
    let g = roomy();
    for max in 0..=MAX_LOST_PER_AXIS {
        let n = g.loop_range_within(LossBounds::new([0; 5], [max; 5])).len();
        assert_eq!(n as i32, (max + 1).pow(5), "most loss {max}");
    }
}

#[test]
fn a_min_loss_excludes_the_undropped_candidate() {
    let g = roomy();
    let found = g.loop_range_within(LossBounds::new([2; 5], [4; 5]));
    assert!(!found.iter().any(|c| c.to_array() == g.to_array()), "a least loss of 2 lets the catalog value through");
    assert_eq!(found.len() as i32, 3i32.pow(5));
}

#[test]
fn loop_range_upper_bound_is_the_catalog_value() {
    let g = sample();
    for c in g.loop_range() {
        assert!(c.hp <= g.hp && c.atk <= g.atk && c.def <= g.def && c.agi <= g.agi && c.mp <= g.mp);
    }
}

#[test]
fn zero_bp_gives_base_stats() {
    let s = Bp::default().calc_real_num();
    assert_eq!(s, Stat { hp: 20, mp: 20, atk: 20, def: 20, agi: 20, wis: 100, res: 100 });
}

#[test]
fn unit_bp_reproduces_matrix_columns() {
    let s = Bp::new(1000, 0, 0, 0, 0).calc_real_num();
    assert_eq!(s.hp, 8 + 20);
    assert_eq!(s.mp, 1 + 20);
    assert_eq!(s.atk, 20);
    assert_eq!(s.wis, 100 - 1);
    assert_eq!(s.res, 100);
    let s = Bp::new(0, 0, 0, 0, 1000).calc_real_num();
    assert_eq!(s.mp, 10 + 20);
    assert_eq!(s.hp, 1 + 20);
}

#[test]
fn contains_is_per_axis() {
    let small = Bp::new(1000, 1000, 1000, 1000, 1000);
    let big = Bp::new(2000, 2000, 2000, 2000, 2000);
    assert!(small.contained_in(big));
    assert!(!big.contained_in(small));
    let mixed = Bp::new(3000, 1000, 1000, 1000, 1000);
    assert!(!mixed.contained_in(big));
}

#[test]
fn stats_increase_monotonically_with_level() {
    for tier in [0, 1, 25, 52, 53, 110] {
        let g = petcalc::grow::GrowRange::new(tier, tier, tier, tier, tier, petcalc::grow::DEFAULT_BPRATE);
        let mut prev = i64::MIN;
        for lvl in [1, 10, 50, 100, 255] {
            let s = g.calc_bp_at_level(lvl, None).base_bp.calc_real_num();
            assert!(s.hp >= prev, "tier={tier} lvl={lvl}: hp went down");
            prev = s.hp;
        }
    }
}

#[test]
fn blank_pet_at_level_one() {
    let g = petcalc::grow::GrowRange::new(0, 0, 0, 0, 0, petcalc::grow::DEFAULT_BPRATE);
    let stat = g.calc_bp_at_level(1, None).base_bp.calc_real_num();
    assert_eq!(stat.hp, 20);
    assert_eq!(stat.mp, 20);
    assert_eq!(stat.wis, 100);
}

#[test]
fn high_tier_pet_uses_extended_rate_table() {
    let g = petcalc::grow::GrowRange::new(60, 60, 60, 60, 60, petcalc::grow::DEFAULT_BPRATE);
    let at = g.calc_bp_at_level(100, None);
    // 2.515 per level at tier 60, in thousandths.
    assert_eq!(petcalc::full_rate(60), Some(2515));
    // 60 * 0.2 + 2.515 * 99, in thousandths.
    assert_eq!(at.base_bp.hp, 60 * 20 * 10 + 2515 * 99);
    let stat = at.base_bp.calc_real_num();
    assert!(stat.hp > 2000, "hp={} looks like a truncated rate table", stat.hp);
}

#[test]
fn loss_bounds_rebuilt_from_their_split_are_the_same() {
    for (lo, hi) in [([0; 5], [4; 5]), ([4, 1, 0, 2, 9], [1, 3, 0, 99, -2]), ([2; 5], [2; 5])] {
        let b = LossBounds::new(lo, hi);
        let (l, h) = b.split();
        for i in 0..5 {
            assert_eq!(b.axis(i), [l[i], h[i]]);
        }
        assert_eq!(LossBounds::new(l, h), b);
    }
    let d = LossBounds::default();
    let (l, h) = d.split();
    assert_eq!(LossBounds::new(l, h), d);
}
