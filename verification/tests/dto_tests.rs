use petcalc::dto::{ManualPlanDto, PointMode};
use petcalc::guess::ManualBounds;

#[test]
fn point_mode_puts_everything_on_one_axis() {
    assert_eq!(PointMode::Atk.allocate(99, [1; 5]), [0, 99, 0, 0, 0]);
    assert_eq!(PointMode::Unspent.allocate(99, [1; 5]), [0; 5]);
}

#[test]
fn ratio_allocation_is_exact() {
    assert_eq!(PointMode::Ratio.allocate(10, [1; 5]), [2; 5]);
    for total in 0..200 {
        let got = PointMode::Ratio.allocate(total, [3, 1, 4, 1, 5]);
        assert_eq!(got.iter().sum::<i32>(), total.max(0), "total={total}");
    }
}

#[test]
fn ratio_ignores_zero_and_negative_weights() {
    let got = PointMode::Ratio.allocate(10, [0, 5, 0, -3, 5]);
    assert_eq!(got, [0, 5, 0, 0, 5]);
}

#[test]
fn manual_plans_convert_to_the_matching_bounds() {
    let free: ManualBounds = ManualPlanDto::Free.into();
    assert!(free.allows([9, 9, 9, 9, 9]));

    let mixed: ManualBounds = ManualPlanDto::Mixed { axes: [true, false, true, false, false] }.into();
    assert!(mixed.allows([7, 0, 3, 0, 0]));
    assert!(!mixed.allows([7, 1, 3, 0, 0]));

    let ranged: ManualBounds = ManualPlanDto::Range { bounds: [[1, 3], [0, 0], [2, 4], [0, 9], [0, 0]] }.into();
    assert!(ranged.allows([2, 0, 3, 5, 0]));
    assert!(!ranged.allows([0, 0, 3, 5, 0]), "below the lower end");
    assert!(!ranged.allows([4, 0, 3, 5, 0]), "above the upper end");
    assert_eq!(ranged.min_total(), 3);
}

use petcalc::dto::{
    forward_row, CalcMode, Constants, ForwardReq, GrowDto, GuessReq, MatchModeDto, RangeLimitsDto, TargetDto,
};
use petcalc::grow::{GrowRange, DEFAULT_BPRATE};
use petcalc::petdata::race_name;

fn grow10() -> GrowDto {
    GrowDto { hp: 10, atk: 10, def: 10, agi: 10, mp: 10, bprate: DEFAULT_BPRATE }
}

fn fwd(lvl: i32, mode: PointMode, manual: Option<[i32; 5]>, not_order_point: i32, burst: Option<PointMode>) -> ForwardReq {
    ForwardReq { grow: grow10(), lvl, random: None, mode, ratio: None, manual, not_order_point, burst }
}

#[test]
fn forward_row_matches_hand_computed_stats() {
    let req = ForwardReq {
        grow: GrowDto { hp: 0, atk: 0, def: 0, agi: 0, mp: 0, bprate: DEFAULT_BPRATE },
        lvl: 1,
        random: Some([0; 5]),
        mode: PointMode::Unspent,
        ratio: None,
        manual: None,
        not_order_point: 0,
        burst: None,
    };
    let row = forward_row(&req, 1);
    assert_eq!(row.stat.hp, 20);
    assert_eq!(row.stat.mp, 20);
    assert_eq!(row.stat.wis, 100);
    assert_eq!(row.bp_sum, 0);
}

#[test]
fn manual_override_wins_over_mode() {
    let req = fwd(50, PointMode::Hp, Some([1, 2, 3, 4, 5]), 0, None);
    assert_eq!(req.manual_at(50), [1, 2, 3, 4, 5]);
}

#[test]
fn not_order_point_reduces_the_pool() {
    let req = fwd(50, PointMode::Hp, None, 9, None);
    assert_eq!(req.manual_at(50), [40, 0, 0, 0, 0]);
}

#[test]
fn burst_switches_the_axis_after_the_current_level() {
    let req = fwd(30, PointMode::Atk, None, 0, Some(PointMode::Hp));
    assert_eq!(req.manual_at(30), [0, 29, 0, 0, 0]);
    assert_eq!(req.manual_at(31), [1, 29, 0, 0, 0]);
    assert_eq!(req.manual_at(50), [20, 29, 0, 0, 0]);
    assert_eq!(req.manual_at(10), [0, 9, 0, 0, 0]);
    assert_eq!(req.manual_at(1), [0; 5]);
}

#[test]
fn burst_none_changes_nothing() {
    let mut req = fwd(30, PointMode::Def, None, 4, None);
    let plain: Vec<_> = (1..=60).map(|l| req.manual_at(l)).collect();
    req.burst = Some(PointMode::Def);
    let same: Vec<_> = (1..=60).map(|l| req.manual_at(l)).collect();
    assert_eq!(plain, same);
}

#[test]
fn burst_conserves_the_point_total() {
    let req = fwd(25, PointMode::Mp, None, 9, Some(PointMode::Agi));
    for lvl in 1..=100 {
        let want = (lvl - 1 - 9).max(0);
        assert_eq!(req.manual_at(lvl).iter().sum::<i32>(), want, "lvl={lvl}");
    }
}

#[test]
fn grow_dto_round_trips_through_the_engine_type() {
    let d = GrowDto { hp: 1, atk: 2, def: 3, agi: 4, mp: 5, bprate: 20 };
    let back = GrowDto::from_range(d.to_range());
    assert_eq!((back.hp, back.atk, back.def, back.agi, back.mp), (1, 2, 3, 4, 5));
    let g: GrowRange = d.to_range();
    assert_eq!(g.bprate, 20);
}

#[test]
fn constants_expose_the_full_rate_table_not_the_truncated_one() {
    let c = Constants::get();
    assert_eq!(c.full_rates.len(), 111);
    assert_eq!(c.full_rates[51], 2140);
    assert_eq!(c.full_rates[52], 2180);
}

#[test]
fn the_race_list_is_indexed_by_code_with_unknown_last() {
    let c = Constants::get();
    assert_eq!(c.unknown_race as usize, c.race_names.len() - 1);
    for (code, name) in c.race_names.iter().enumerate() {
        assert_eq!(race_name(code as u8), *name, "name of code {code}");
    }
    assert_eq!(c.race_names[..c.unknown_race as usize].len(), 9);
}

fn guess_req(calc_mode: CalcMode, manual: Option<ManualPlanDto>) -> GuessReq {
    GuessReq {
        grow: GrowDto { hp: 27, atk: 16, def: 25, agi: 15, mp: 37, bprate: DEFAULT_BPRATE },
        target: TargetDto { lvl: 20, hp: 0, mp: 0, atk: 0, def: 0, agi: 0 },
        not_order_point: 0,
        calc_mode,
        manual,
        catch_stat: None,
        mode: MatchModeDto::Auto,
        exhaustive: false,
        tolerance: None,
        target_grow: None,
        limit: 0,
        ranges: RangeLimitsDto::default(),
    }
}

#[test]
fn single_axis_modes_map_to_their_own_axis() {
    let cases = [
        (CalcMode::Hp, [40, 0, 0, 0, 0]),
        (CalcMode::Atk, [0, 40, 0, 0, 0]),
        (CalcMode::Def, [0, 0, 40, 0, 0]),
        (CalcMode::Agi, [0, 0, 0, 40, 0]),
        (CalcMode::Mp, [0, 0, 0, 0, 40]),
    ];
    for (mode, allowed) in cases {
        let b = guess_req(mode, None).manual_bounds();
        assert!(b.allows(allowed), "{mode:?} refuses {allowed:?}");
        assert!(!b.allows([8, 8, 8, 8, 8]), "{mode:?} accepts spread points");
    }
}

#[test]
fn none_mode_marks_every_level_point_as_unallocated() {
    let req = guess_req(CalcMode::Unspent, None);
    assert_eq!(req.effective_not_order_point(), 19);
    assert!(req.manual_bounds().allows([0; 5]));
    assert!(!req.manual_bounds().allows([1, 0, 0, 0, 0]));
    assert_eq!(guess_req(CalcMode::Smart, None).effective_not_order_point(), 0);
}

#[test]
fn sidebar_plan_only_applies_to_smart_and_wild() {
    let plan = ManualPlanDto::Fixed { points: [1, 2, 3, 4, 5] };
    for mode in [CalcMode::Smart, CalcMode::Wild] {
        let b = guess_req(mode, Some(plan)).manual_bounds();
        assert!(b.allows([1, 2, 3, 4, 5]), "{mode:?} ignored the side panel");
        assert!(!b.allows([5, 4, 3, 2, 1]));
    }
    let b = guess_req(CalcMode::Hp, Some(plan)).manual_bounds();
    assert!(!b.allows([1, 2, 3, 4, 5]));
    assert!(b.allows([15, 0, 0, 0, 0]));
}

#[test]
fn catch_level_must_not_exceed_the_current_level() {
    let stat = |lvl| TargetDto { lvl, hp: 100, mp: 100, atk: 30, def: 30, agi: 30 };
    let with = |lvl| GuessReq { catch_stat: Some(stat(lvl)), ..guess_req(CalcMode::Wild, None) };
    assert!(with(1).check_catch().is_ok());
    assert!(with(20).check_catch().is_ok(), "catch level equal to the level is fine");
    assert!(with(0).check_catch().is_err());
    let err = with(21).check_catch().unwrap_err();
    assert_eq!(err, petcalc::dto::RequestError::CatchLevel { catch_lvl: 21, lvl: 20 });
    assert!(guess_req(CalcMode::Wild, None).check_catch().is_ok());
}

#[test]
fn catch_stat_reaches_the_engine_options() {
    let stat = TargetDto { lvl: 12, hp: 200, mp: 150, atk: 40, def: 35, agi: 30 };
    let req = GuessReq { catch_stat: Some(stat), ..guess_req(CalcMode::Wild, None) };
    let opts = req.options();
    let catch = opts.catch.expect("the catch stats did not reach the options");
    assert_eq!(catch.lvl, 12);
    assert_eq!(catch.to_array(), [200, 150, 40, 35, 30]);
    assert!(guess_req(CalcMode::Wild, None).options().catch.is_none());
}

#[test]
fn every_calc_mode_button_is_wired_to_a_distinct_mode() {
    let modes = Constants::get().calc_modes;
    assert_eq!(modes.len(), 8);
    assert_eq!(modes.map(|m| m.label).join(""), "智野無體力防敏魔");
    for (i, m) in modes.iter().enumerate() {
        assert!(!modes[..i].iter().any(|p| p.key == m.key), "{} repeats", m.label);
        assert_eq!(m.takes_manual_plan, m.key.takes_manual_plan());
    }
}

#[test]
fn ratio_shares_follow_the_largest_remainders() {
    // 7 points by 1:1:1: 2.33 each, the first axis gets the spare point
    assert_eq!(PointMode::Ratio.allocate(7, [1, 1, 1, 0, 0]), [3, 2, 2, 0, 0]);
    // 10 points by 3:1:4:1:5 (sum 14): quotas 2,0,2,0,3 with remainders 2,10,12,10,8
    assert_eq!(PointMode::Ratio.allocate(10, [3, 1, 4, 1, 5]), [2, 1, 3, 1, 3]);
    // no positive weight, nothing spent
    assert_eq!(PointMode::Ratio.allocate(10, [0, -1, 0, 0, 0]), [0; 5]);
}
