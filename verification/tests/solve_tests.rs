use petcalc::dto::compose_bp;
use petcalc::grow::{GrowRange, DEFAULT_BPRATE, RANDOM_POOL};
use petcalc::guess::{solve, GuessOptions, GuessOutcome, ManualBounds, MatchMode, RandomSearch, Target};

/// Observed stats of known (tiers, spent points, random tiers), and the
/// guess from them.
fn round_trip(grow: GrowRange, lvl: i32, manual: [i32; 5], random: [i32; 5]) -> (Target, GuessOutcome) {
    let s = compose_bp(grow, lvl, random, manual).calc_real_num();
    let target = Target::new(lvl, s.hp, s.mp, s.atk, s.def, s.agi);
    let point: i32 = manual.iter().sum();
    let opts = GuessOptions { not_order_point: lvl - 1 - point, ..Default::default() };
    (target, solve(grow, target, opts))
}

fn observed(grow: GrowRange, lvl: i32, random: [i32; 5]) -> Target {
    let s = compose_bp(grow, lvl, random, [0; 5]).calc_real_num();
    Target::new(lvl, s.hp, s.mp, s.atk, s.def, s.agi)
}

fn contains_solution(o: &GuessOutcome, manual: [i32; 5], random: [i32; 5]) -> bool {
    o.candidates.iter().any(|c| c.manual == manual && c.random == random)
}

#[test]
fn recovers_a_level_one_pet() {
    let grow = GrowRange::new(20, 15, 12, 10, 18, DEFAULT_BPRATE);
    let random = [3, 2, 2, 2, 1];
    let (_, o) = round_trip(grow, 1, [0; 5], random);
    assert!(!o.candidates.is_empty(), "a level-one pet should be recovered");
    assert!(contains_solution(&o, [0; 5], random));
}

#[test]
fn recovers_a_mid_level_pet_with_manual_points() {
    let grow = GrowRange::new(30, 25, 18, 20, 22, DEFAULT_BPRATE);
    let manual = [10, 5, 0, 3, 2];
    let random = [2, 2, 2, 2, 2];
    let (_, o) = round_trip(grow, 30, manual, random);
    assert!(!o.candidates.is_empty(), "no solution");
    assert!(contains_solution(&o, manual, random), "the tiers the stats came from are missing");
}

#[test]
fn manual_bounds_only_ever_shrink_the_solution_set() {
    let grow = GrowRange::new(30, 25, 18, 20, 22, DEFAULT_BPRATE);
    let manual = [12, 0, 0, 0, 0];
    let random = [2, 2, 2, 2, 2];
    let (target, free) = round_trip(grow, 13, manual, random);
    assert!(contains_solution(&free, manual, random), "found without bounds");
    let opts = GuessOptions { manual: ManualBounds::single(0), mode: free.mode, ..Default::default() };
    let bounded = solve(grow, target, opts);
    assert!(!bounded.candidates.is_empty(), "no solution once bounded");
    assert!(contains_solution(&bounded, manual, random), "the bounds removed the solution");
    assert!(bounded.candidates.len() <= free.candidates.len());
    for c in &bounded.candidates {
        assert_eq!(&c.manual[1..], &[0, 0, 0, 0], "points off the HP axis: {:?}", c.manual);
    }
}

#[test]
fn fixed_manual_pins_every_axis() {
    let grow = GrowRange::new(30, 25, 18, 20, 22, DEFAULT_BPRATE);
    let manual = [4, 3, 2, 2, 1];
    let random = [2, 2, 2, 2, 2];
    let (target, _) = round_trip(grow, 13, manual, random);
    let o = solve(grow, target, GuessOptions { manual: ManualBounds::fixed(manual), ..Default::default() });
    assert!(!o.candidates.is_empty(), "pinned to the solution itself and found nothing");
    for c in &o.candidates {
        assert_eq!(c.manual, manual);
    }
    let wrong = solve(grow, target, GuessOptions { manual: ManualBounds::fixed([12, 0, 0, 0, 0]), ..Default::default() });
    assert!(wrong.candidates.is_empty(), "wrong pinned points still found something");
}

#[test]
fn mixed_manual_restricts_to_the_selected_axes() {
    let grow = GrowRange::new(30, 25, 18, 20, 22, DEFAULT_BPRATE);
    let manual = [6, 6, 0, 0, 0];
    let random = [2, 2, 2, 2, 2];
    let (target, _) = round_trip(grow, 13, manual, random);
    let o = solve(
        grow,
        target,
        GuessOptions { manual: ManualBounds::mixed([true, true, false, false, false]), ..Default::default() },
    );
    assert!(contains_solution(&o, manual, random));
    for c in &o.candidates {
        assert_eq!(&c.manual[2..], &[0, 0, 0], "points on an unselected axis: {:?}", c.manual);
    }
}

#[test]
fn impossible_bounds_return_nothing() {
    let grow = GrowRange::new(30, 25, 18, 20, 22, DEFAULT_BPRATE);
    let (target, _) = round_trip(grow, 5, [4, 0, 0, 0, 0], [2, 2, 2, 2, 2]);
    let o = solve(grow, target, GuessOptions { manual: ManualBounds::fixed([3, 3, 3, 3, 3]), ..Default::default() });
    assert!(o.candidates.is_empty());
}

#[test]
fn recovers_a_high_tier_pet() {
    let grow = GrowRange::new(60, 55, 70, 48, 52, DEFAULT_BPRATE);
    let random = [2, 2, 2, 2, 2];
    let (_, o) = round_trip(grow, 40, [0; 5], random);
    assert!(!o.candidates.is_empty(), "high tiers not recovered");
    assert!(contains_solution(&o, [0; 5], random));
}

#[test]
fn every_candidate_reproduces_the_observed_stats() {
    let grow = GrowRange::new(30, 25, 18, 20, 22, DEFAULT_BPRATE);
    let (target, o) = round_trip(grow, 30, [10, 5, 0, 3, 2], [2, 2, 2, 2, 2]);
    assert!(!o.candidates.is_empty());
    for c in &o.candidates {
        if c.approximate {
            continue;
        }
        assert_eq!([c.stat.hp, c.stat.mp, c.stat.atk, c.stat.def, c.stat.agi], target.to_array(), "{:?}", c);
    }
}

#[test]
fn every_candidate_has_a_legal_random_tuple() {
    let grow = GrowRange::new(30, 25, 18, 20, 22, DEFAULT_BPRATE);
    let (_, o) = round_trip(grow, 30, [10, 5, 0, 3, 2], [2, 2, 2, 2, 2]);
    for c in &o.candidates {
        assert_eq!(c.random.iter().sum::<i32>(), RANDOM_POOL, "{:?}", c.random);
        assert!(c.random.iter().all(|&r| (0..=RANDOM_POOL).contains(&r)));
        assert!(c.manual.iter().all(|&m| m >= 0));
    }
}

#[test]
fn exhaustive_search_finds_at_least_as_much_as_the_ball() {
    let grow = GrowRange::new(30, 25, 18, 20, 22, DEFAULT_BPRATE);
    let target = observed(grow, 30, [4, 1, 0, 3, 2]);
    let base_opts = GuessOptions { not_order_point: 29, ..Default::default() };
    let ball = solve(grow, target, base_opts);
    let exhaustive = solve(grow, target, GuessOptions { random: RandomSearch::Exhaustive, ..base_opts });
    assert!(!exhaustive.candidates.is_empty());
    for c in &ball.candidates {
        assert!(
            exhaustive.candidates.iter().any(|e| e.grow == c.grow && e.manual == c.manual && e.random == c.random),
            "found by the ball only: {:?}",
            c
        );
    }
    assert!(exhaustive.candidates.len() >= ball.candidates.len());
}

#[test]
fn target_grow_restricts_the_search() {
    let grow = GrowRange::new(30, 25, 18, 20, 22, DEFAULT_BPRATE);
    let target = observed(grow, 20, [2, 2, 2, 2, 2]);
    let o = solve(grow, target, GuessOptions { not_order_point: 19, target_grow: Some(grow), ..Default::default() });
    assert!(!o.candidates.is_empty());
    assert!(o.candidates.iter().all(|c| c.grow == grow));
}

#[test]
fn tolerant_mode_is_a_superset_of_exact() {
    let grow = GrowRange::new(30, 25, 18, 20, 22, DEFAULT_BPRATE);
    let target = observed(grow, 25, [2, 2, 2, 2, 2]);
    let opts = GuessOptions { not_order_point: 24, ..Default::default() };
    let exact = solve(grow, target, GuessOptions { mode: MatchMode::Exact, ..opts });
    let tolerant = solve(grow, target, GuessOptions { mode: MatchMode::Tolerant, ..opts });
    assert!(!exact.candidates.is_empty());
    for c in &exact.candidates {
        assert!(
            tolerant.candidates.iter().any(|x| x.grow == c.grow && x.manual == c.manual && x.random == c.random),
            "exact solution lost in tolerant mode: {:?}",
            c
        );
    }
}

#[test]
fn the_observer_rule_keeps_every_exact_solution() {
    let grow = GrowRange::new(30, 25, 18, 20, 22, DEFAULT_BPRATE);
    let target = observed(grow, 25, [2, 2, 2, 2, 2]);
    let opts = GuessOptions { not_order_point: 24, ..Default::default() };
    let exact = solve(grow, target, GuessOptions { mode: MatchMode::Exact, ..opts });
    let observer = solve(grow, target, GuessOptions { mode: MatchMode::Observer, ..opts });
    assert!(!exact.candidates.is_empty());
    for c in &exact.candidates {
        assert!(
            observer.candidates.iter().any(|x| x.grow == c.grow && x.manual == c.manual && x.random == c.random),
            "exact solution lost under the observer rule: {:?}",
            c
        );
    }
}

#[test]
fn limit_caps_the_result_count() {
    let grow = GrowRange::new(44, 21, 14, 12, 29, DEFAULT_BPRATE);
    let target = Target::new(1, 122, 102, 36, 33, 28);
    for mode in [MatchMode::Exact, MatchMode::Observer, MatchMode::Tolerant, MatchMode::Auto] {
        for limit in [1, 3, 5] {
            let o = solve(grow, target, GuessOptions { limit, mode, ..Default::default() });
            assert!(o.candidates.len() <= limit, "{mode:?} limit={limit}: {}", o.candidates.len());
        }
    }
}

use petcalc::bp::Stat;
use petcalc::guess::possible_lost_range;

#[test]
fn possible_lost_range_is_within_bounds() {
    let catalog = GrowRange::new(30, 25, 18, 20, 22, DEFAULT_BPRATE);
    for g in catalog.loop_range() {
        let r = possible_lost_range(g, catalog);
        for (i, [lo, hi]) in r.iter().enumerate() {
            assert!(*lo >= 0, "axis {i}: negative low end");
            assert!(*hi <= petcalc::grow::MAX_LOST_PER_AXIS, "axis {i}: high end above 4");
        }
    }
}

#[test]
fn possible_lost_range_is_zero_when_nothing_dropped() {
    let catalog = GrowRange::new(30, 25, 18, 20, 22, DEFAULT_BPRATE);
    for [lo, _] in possible_lost_range(catalog, catalog) {
        assert_eq!(lo, 0);
    }
}

fn stat_at(grow: GrowRange, lvl: i32, manual: [i32; 5], random: [i32; 5]) -> Stat {
    compose_bp(grow, lvl, random, manual).calc_real_num()
}

/// A wild pet caught at level 20, raised to 40 with its 20 points spent.
fn wild_case() -> (GrowRange, Target, Target, [i32; 5], [i32; 5], GuessOptions) {
    let grow = GrowRange::new(30, 25, 18, 20, 22, DEFAULT_BPRATE);
    let random = [4, 1, 0, 3, 2];
    let manual = [8, 4, 3, 3, 2];
    let now = stat_at(grow, 40, manual, random);
    let then = stat_at(grow, 20, [0; 5], random);
    let opts = GuessOptions { not_order_point: 19, random: RandomSearch::Exhaustive, ..Default::default() };
    (
        grow,
        Target::new(40, now.hp, now.mp, now.atk, now.def, now.agi),
        Target::new(20, then.hp, then.mp, then.atk, then.def, then.agi),
        manual,
        random,
        opts,
    )
}

#[test]
fn catch_stats_keep_the_true_solution() {
    let (grow, target, catch, manual, random, opts) = wild_case();
    let o = solve(grow, target, GuessOptions { catch: Some(catch), ..opts });
    assert!(!o.candidates.is_empty(), "no solution with the catch stats");
    assert!(contains_solution(&o, manual, random), "the catch stats removed the solution");
}

#[test]
fn catch_stats_only_ever_shrink_the_solution_set() {
    let (grow, target, catch, _, _, opts) = wild_case();
    let without = solve(grow, target, opts);
    let with = solve(grow, target, GuessOptions { catch: Some(catch), ..opts });
    assert!(!without.candidates.is_empty());
    for c in &with.candidates {
        assert!(
            without.candidates.iter().any(|w| w.grow == c.grow && w.manual == c.manual && w.random == c.random),
            "new solution with the catch stats: {c:?}"
        );
    }
    assert!(with.candidates.len() < without.candidates.len(), "{} -> {}", without.candidates.len(), with.candidates.len());
}

#[test]
fn wrong_catch_stats_rule_everything_out() {
    let (grow, target, catch, _, _, opts) = wild_case();
    let bogus = Target::new(catch.lvl, 9999, 9999, 9999, 9999, 9999);
    let o = solve(grow, target, GuessOptions { catch: Some(bogus), ..opts });
    assert!(o.candidates.is_empty(), "{} solutions with made-up catch stats", o.candidates.len());
}

#[test]
fn catch_stats_are_matched_against_the_actual_tier() {
    let catalog = GrowRange::new(30, 25, 18, 20, 22, DEFAULT_BPRATE);
    let actual = GrowRange::new(28, 25, 16, 20, 21, DEFAULT_BPRATE);
    let random = [2, 2, 2, 2, 2];
    let manual = [5, 5, 3, 3, 3];
    let now = stat_at(actual, 30, manual, random);
    let then = stat_at(actual, 11, [0; 5], random);
    let o = solve(
        catalog,
        Target::new(30, now.hp, now.mp, now.atk, now.def, now.agi),
        GuessOptions {
            not_order_point: 10,
            random: RandomSearch::Exhaustive,
            catch: Some(Target::new(11, then.hp, then.mp, then.atk, then.def, then.agi)),
            ..Default::default()
        },
    );
    assert!(!o.candidates.is_empty());
    assert!(o.candidates.iter().any(|c| c.grow == actual && c.random == random), "{:?}", actual.to_array());
}

#[test]
fn impossible_target_yields_no_candidates() {
    let grow = GrowRange::new(10, 10, 10, 10, 10, DEFAULT_BPRATE);
    let target = Target::new(5, 99999, 99999, 99999, 99999, 99999);
    let o = solve(grow, target, GuessOptions::default());
    assert!(o.candidates.is_empty());
}

#[test]
fn the_observer_candidates_not_marked_approximate_are_the_exact_answer() {
    let grow = GrowRange::new(30, 25, 18, 20, 22, DEFAULT_BPRATE);
    let opts = GuessOptions { not_order_point: 24, limit: 0, ..Default::default() };
    for random in [[2, 2, 2, 2, 2], [4, 1, 0, 3, 2], [0, 0, 10, 0, 0]] {
        let target = observed(grow, 25, random);
        let exact = solve(grow, target, GuessOptions { mode: MatchMode::Exact, ..opts });
        let observer = solve(grow, target, GuessOptions { mode: MatchMode::Observer, ..opts });
        assert_eq!(exact.point, observer.point);
        let plain: Vec<_> = observer.candidates.iter().filter(|c| !c.approximate).cloned().collect();
        assert_eq!(plain, exact.candidates, "random {random:?}");
    }
}

#[test]
fn auto_answers_as_the_first_rule_that_finds_anything() {
    let grow = GrowRange::new(30, 25, 18, 20, 22, DEFAULT_BPRATE);
    let exact_hit = observed(grow, 25, [2, 2, 2, 2, 2]);
    let nudged = Target { hp: exact_hit.hp + 1, ..exact_hit };
    let far = Target { hp: exact_hit.hp + 40, agi: exact_hit.agi - 30, ..exact_hit };
    for target in [exact_hit, nudged, far] {
        let opts = GuessOptions { not_order_point: 24, mode: MatchMode::Auto, ..Default::default() };
        let auto = solve(grow, target, opts);
        let exact = solve(grow, target, GuessOptions { mode: MatchMode::Exact, ..opts });
        let observer = solve(grow, target, GuessOptions { mode: MatchMode::Observer, ..opts });
        let tolerant = solve(grow, target, GuessOptions { mode: MatchMode::Tolerant, ..opts });
        let pick = if !exact.candidates.is_empty() {
            exact
        } else if !observer.candidates.is_empty() {
            observer
        } else {
            tolerant
        };
        assert_eq!(auto, pick, "target {target:?}");
    }
}
