//! Distributions hold integer weights: a share is `100 * weight / total_weight`.
use petcalc::bp::Stat;
use petcalc::dto::compose_bp;
use petcalc::grow::{GrowRange, DEFAULT_BPRATE, MAX_LOST_PER_AXIS, RANDOM_POOL};
use petcalc::guess::{solve, Candidate, GuessOptions, MatchMode, RandomSearch, Target};
use petcalc::stats::{Distribution, TOTAL_LOST_SLOTS};

#[test]
fn the_binary_s_381_slot_allocation_is_the_loss_tuple_count() {
    let m = MAX_LOST_PER_AXIS;
    let mut n = 0;
    for a in 0..=m {
        for b in 0..=m {
            for d in 0..=m {
                for e in 0..=m {
                    let f = RANDOM_POOL - a - b - d - e;
                    if (0..=m).contains(&f) {
                        n += 1;
                    }
                }
            }
        }
    }
    assert_eq!(n, 0x17d, "381 slots per row");
}

fn sample() -> (GrowRange, Vec<Candidate>) {
    let catalog = GrowRange::new(30, 25, 18, 20, 22, DEFAULT_BPRATE);
    let s = compose_bp(catalog, 20, [3, 1, 2, 2, 2], [0; 5]).calc_real_num();
    let out = solve(
        catalog,
        Target::new(20, s.hp, s.mp, s.atk, s.def, s.agi),
        GuessOptions { not_order_point: 19, mode: MatchMode::Exact, random: RandomSearch::Exhaustive, ..Default::default() },
    );
    assert!(!out.candidates.is_empty());
    (catalog, out.candidates)
}

fn fake_candidate(catalog: GrowRange, grow: GrowRange) -> Candidate {
    let random = [2, 2, 2, 2, 2];
    let bp = grow.calc_bp_at_level(1, None).base_bp;
    let cat = catalog.to_array();
    let g = grow.to_array();
    let stat: Stat = bp.calc_real_num();
    Candidate {
        grow,
        manual: [0; 5],
        random,
        bp,
        stat,
        lost_bp: (0..5).map(|i| cat[i] - g[i]).sum(),
        possible_lost: std::array::from_fn(|i| [cat[i] - g[i], cat[i] - g[i]]),
        approximate: false,
    }
}

#[test]
fn percentages_sum_to_one_hundred() {
    let (catalog, cands) = sample();
    let d = Distribution::summarize(catalog, &cands);
    assert_eq!(d.weight.len(), cands.len());
    let sum: u128 = d.weight.iter().map(|&w| w as u128).sum();
    assert_eq!(sum, d.total_weight, "the weights add up to the whole");
    assert!(d.max_weight > 0);
    assert!(d.weight.iter().all(|&w| w > 0), "a legal candidate has a positive weight");
}

#[test]
fn marginals_each_sum_to_one_hundred() {
    let (catalog, cands) = sample();
    let d = Distribution::summarize(catalog, &cands);
    for axis in 0..5 {
        let lost: u128 = d.lost_marginal[axis].iter().sum();
        let rand: u128 = d.random_marginal[axis].iter().sum();
        assert_eq!(lost, d.total_weight, "loss marginal of axis {axis}");
        assert_eq!(rand, d.total_weight, "random marginal of axis {axis}");
    }
    let total: u128 = d.lost_total_marginal.iter().sum();
    assert_eq!(total, d.total_weight);
}

#[test]
fn the_total_loss_marginal_agrees_with_summing_each_candidate() {
    let (catalog, cands) = sample();
    let d = Distribution::summarize(catalog, &cands);
    let cat = catalog.to_array();
    let mut expect = [0u128; TOTAL_LOST_SLOTS];
    for (c, &w) in cands.iter().zip(&d.weight) {
        let grow = c.grow.to_array();
        let sum: i32 = (0..5).map(|i| cat[i] - grow[i]).sum();
        expect[sum as usize] += w as u128;
    }
    assert_eq!(d.lost_total_marginal, expect);
    let sums: Vec<i32> = cands
        .iter()
        .map(|c| {
            let g = c.grow.to_array();
            (0..5).map(|i| cat[i] - g[i]).sum()
        })
        .collect();
    assert_eq!(d.lost_total_range(), Some((*sums.iter().min().unwrap(), *sums.iter().max().unwrap())));
}

#[test]
fn per_axis_marginals_cannot_recover_the_total_range() {
    let catalog = GrowRange::new(30, 25, 18, 20, 22, DEFAULT_BPRATE);
    let cands = vec![
        fake_candidate(catalog, GrowRange::new(28, 25, 18, 20, 22, DEFAULT_BPRATE)),
        fake_candidate(catalog, GrowRange::new(30, 23, 18, 20, 22, DEFAULT_BPRATE)),
    ];
    let d = Distribution::summarize(catalog, &cands);
    let naive: i32 = (0..5).map(|axis| d.lost_marginal[axis].iter().position(|&w| w > 0).unwrap() as i32).sum();
    assert_eq!(naive, 0);
    assert_eq!(d.lost_total_range(), Some((2, 2)));
    assert_eq!(d.lost_combos.iter().map(|c| c.lost).collect::<Vec<_>>(), vec![[0, 2, 0, 0, 0], [2, 0, 0, 0, 0]]);
}

#[test]
fn guaranteed_lost_is_the_per_axis_minimum_not_just_the_pinned_axes() {
    let catalog = GrowRange::new(30, 25, 18, 20, 22, DEFAULT_BPRATE);
    let cands = vec![
        fake_candidate(catalog, GrowRange::new(28, 25, 14, 20, 22, DEFAULT_BPRATE)),
        fake_candidate(catalog, GrowRange::new(27, 25, 14, 20, 22, DEFAULT_BPRATE)),
    ];
    let d = Distribution::summarize(catalog, &cands);
    assert_eq!(d.guaranteed_lost(), [2, 0, 4, 0, 0]);
    assert_eq!(d.determined_lost(), [None, Some(0), Some(4), Some(0), Some(0)]);
}

#[test]
fn lost_combos_partition_the_whole_probability_mass() {
    let (catalog, cands) = sample();
    let d = Distribution::summarize(catalog, &cands);
    let sum: u128 = d.lost_combos.iter().map(|c| c.weight).sum();
    assert_eq!(sum, d.total_weight);
    let mut folded = [0u128; TOTAL_LOST_SLOTS];
    for c in &d.lost_combos {
        folded[c.total as usize] += c.weight;
    }
    assert_eq!(folded, d.lost_total_marginal);
    for axis in 0..5 {
        let mut acc = [0u128; MAX_LOST_PER_AXIS as usize + 1];
        for c in &d.lost_combos {
            acc[c.lost[axis] as usize] += c.weight;
        }
        assert_eq!(acc, d.lost_marginal[axis], "axis {axis}");
    }
    assert!(d.lost_combos.windows(2).all(|w| w[0].total <= w[1].total));
}

#[test]
fn best_picks_the_heaviest_candidates() {
    let (catalog, cands) = sample();
    let d = Distribution::summarize(catalog, &cands);
    let best = d.best();
    assert!(!best.is_empty());
    for &i in &best {
        let diff = (d.weight[i] as i128 - d.max_weight as i128).unsigned_abs();
        assert!(diff * 10000 < d.total_weight, "within 0.01 percentage points of the heaviest");
    }
    for (i, &w) in d.weight.iter().enumerate() {
        if !best.contains(&i) {
            assert!(w < d.max_weight, "candidate {i} is not lighter but was left out");
        }
    }
}

#[test]
fn a_single_candidate_is_fully_determined() {
    let (catalog, cands) = sample();
    let one = &cands[..1];
    let d = Distribution::summarize(catalog, one);
    assert_eq!(d.weight.len(), 1);
    assert_eq!(d.weight[0] as u128, d.total_weight, "the one candidate holds the whole weight");
    assert!(d.is_fully_determined());
    let lost = catalog.to_array()[0] - one[0].grow.to_array()[0];
    assert_eq!(d.determined_lost()[0], Some(lost));
}

#[test]
fn range_query_is_a_partition() {
    let (catalog, cands) = sample();
    let d = Distribution::summarize(catalog, &cands);
    let all = d.probability_in_grow_range(&cands, [0; 5], [999; 5]);
    assert_eq!(all, d.total_weight);
    let none = d.probability_in_grow_range(&cands, [999; 5], [999; 5]);
    assert_eq!(none, 0);
    let cat = catalog.to_array();
    let k = cat[0] - 2;
    let mut lo_hi = [999; 5];
    lo_hi[0] = k;
    let left = d.probability_in_grow_range(&cands, [0; 5], lo_hi);
    let mut hi_lo = [0; 5];
    hi_lo[0] = k + 1;
    let right = d.probability_in_grow_range(&cands, hi_lo, [999; 5]);
    assert_eq!(left + right, d.total_weight);
}

#[test]
fn axis_sum_query_is_monotone_in_the_threshold() {
    let (catalog, cands) = sample();
    let d = Distribution::summarize(catalog, &cands);
    let axes = [0, 1, 4];
    let mut prev = d.total_weight;
    for t in 0..=catalog.sum() {
        let p = d.probability_axis_sum_at_least(&cands, &axes, t);
        assert!(p <= prev, "threshold {t}: {p} above {prev}");
        prev = p;
    }
    assert_eq!(d.probability_axis_sum_at_least(&cands, &axes, i32::MIN), d.total_weight);
}

#[test]
fn empty_input_does_not_divide_by_zero() {
    let d = Distribution::summarize(GrowRange::new(1, 1, 1, 1, 1, DEFAULT_BPRATE), &[]);
    assert_eq!(d.total_weight, 0);
    assert_eq!(d.max_weight, 0);
    assert!(d.best().is_empty());
    assert!(d.weight.is_empty());
    assert!(!d.is_fully_determined());
}
