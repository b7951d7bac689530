use petcalc::dto::{
    CalcMode, ForwardReq, GrowDto, GuessReq, GuessResp, MatchModeDto, PointMode, ProbabilityReq, RangeLimitsDto,
    RefineReq, TargetDto,
};
use petcalc::engine::Engine;
use petcalc::petdata::parse_builtin;

const BUILTIN: &str = "# id\tname\trace\thp\tatk\tdef\tagi\tmp\trate\tskills\n\
1\t虎人\t0\t22\t26\t17\t19\t16\t0.2\t7\n";

fn engine() -> Engine {
    Engine::new(parse_builtin(BUILTIN), Ok(Vec::new()))
}

fn grow(g: [i32; 5]) -> GrowDto {
    GrowDto { hp: g[0], atk: g[1], def: g[2], agi: g[3], mp: g[4], bprate: 20 }
}

/// Computes the stats of `actual` forward, then guesses them back against
/// the catalog tiers 27/16/25/15/37.
fn guess_back(actual: [i32; 5], lvl: i32, random: [i32; 5], calc_mode: CalcMode, mode: MatchModeDto) -> (Engine, GuessResp) {
    let mut e = engine();
    let row = e
        .forward(&ForwardReq {
            grow: grow(actual),
            lvl,
            random: Some(random),
            mode: PointMode::Unspent,
            ratio: None,
            manual: Some([0; 5]),
            not_order_point: if calc_mode == CalcMode::Smart { lvl - 1 } else { 0 },
            burst: None,
        })
        .unwrap();
    let s = row.stat;
    let resp = e
        .guess(&GuessReq {
            grow: grow([27, 16, 25, 15, 37]),
            target: TargetDto { lvl, hp: s.hp, mp: s.mp, atk: s.atk, def: s.def, agi: s.agi },
            not_order_point: lvl - 1,
            calc_mode,
            manual: None,
            catch_stat: None,
            mode,
            exhaustive: true,
            tolerance: None,
            target_grow: None,
            limit: 0,
            ranges: RangeLimitsDto::default(),
        })
        .unwrap();
    (e, resp)
}

fn sample_guess(mode: MatchModeDto) -> (Engine, GuessResp) {
    guess_back([27, 16, 25, 15, 37], 20, [2, 2, 2, 2, 2], CalcMode::Smart, mode)
}

fn wild_guess(lvl: i32) -> (Engine, GuessResp) {
    guess_back([25, 14, 23, 13, 35], lvl, [1, 3, 2, 2, 2], CalcMode::Wild, MatchModeDto::Observer)
}

fn empty_filter() -> RefineReq {
    RefineReq { stat: [None; 7], bp: [None; 5], grow: [None; 5] }
}

fn whole_box() -> ProbabilityReq {
    ProbabilityReq { lo: [0; 5], hi: [999; 5], axes: Vec::new(), threshold: 0 }
}

#[test]
fn guess_round_trips_a_known_pet() {
    let (_, resp) = sample_guess(MatchModeDto::Exact);
    assert!(resp.total > 0, "nothing guessed");
    assert!(resp.candidates.iter().any(|c| c.grow == [27, 16, 25, 15, 37]));
    for w in resp.candidates.windows(2) {
        assert!(w[0].weight >= w[1].weight, "not ordered by weight");
    }
}

#[test]
fn probability_spans_from_nothing_to_everything() {
    let (e, _) = sample_guess(MatchModeDto::Exact);
    let all = e.probability(&whole_box()).unwrap();
    assert!(all.total_weight > 0);
    assert_eq!(all.in_range, all.total_weight, "the whole box should hold everything");
    let none = e
        .probability(&ProbabilityReq { lo: [999; 5], hi: [999; 5], axes: Vec::new(), threshold: 0 })
        .unwrap();
    assert_eq!(none.in_range, 0);
    assert_eq!(none.axis_sum, None, "no axes, no second answer");
}

#[test]
fn an_empty_filter_reproduces_the_guess_verbatim() {
    let (e, resp) = sample_guess(MatchModeDto::Observer);
    let out = e.refine(&empty_filter()).unwrap();
    assert_eq!(out.result, resp, "an empty filter changed the result");
    assert_eq!(out.before, resp.total);
    assert_eq!(out.kept_weight, out.total_weight);
}

#[test]
fn the_wisdom_column_is_information_the_query_never_had() {
    let (e, resp) = wild_guess(60);
    assert!(resp.total > 1, "a single solution cannot show filtering");
    let before = e.refine(&empty_filter()).unwrap();
    assert_eq!(before.settled.stat[5], None, "wisdom is already settled here");

    let wis = resp.candidates[0].stat.wis;
    let mut req = empty_filter();
    req.stat[5] = Some(wis);
    let out = e.refine(&req).unwrap();
    let kept = out.result.total;
    assert!(kept > 0);
    assert!(kept < resp.total, "wisdom filtered nothing");
    assert_eq!(out.settled.stat[5], Some(wis));
    let want: u128 = resp.candidates.iter().filter(|c| c.stat.wis == wis).map(|c| c.weight as u128).sum();
    assert_eq!(out.kept_weight, want, "the kept share is by weight, not by count");
}

#[test]
fn every_column_settling_is_how_the_questions_end() {
    let (e, resp) = wild_guess(60);
    let c = &resp.candidates[0];
    let mut req = empty_filter();
    req.stat[5] = Some(c.stat.wis);
    req.stat[6] = Some(c.stat.res);
    for a in 0..5 {
        req.bp[a] = Some((c.bp[a] / 1000) as i64);
        req.grow[a] = Some(c.grow[a]);
    }
    let out = e.refine(&req).unwrap();
    assert!(out.settled.all, "twelve columns filled and still not settled: {:?}", out.settled);
    assert!(out.settled.stat[5].is_some() && out.settled.stat[6].is_some());
    assert!(out.settled.bp.iter().all(|v| v.is_some()));
    assert!(out.settled.grow.iter().all(|v| v.is_some()));
}

#[test]
fn the_bp_column_survives_being_read_off_the_game_at_one_decimal() {
    let (e, resp) = wild_guess(60);
    let c = &resp.candidates[0];
    let mut req = empty_filter();
    for a in 0..5 {
        req.bp[a] = Some((c.bp[a] / 1000) as i64);
    }
    let out = e.refine(&req).unwrap();
    assert!(out.result.total > 0, "the candidate's own BP filtered everything away");
    assert!(out.result.total < resp.total, "the BP filtered nothing");
}

#[test]
fn a_column_is_settled_exactly_when_every_survivor_agrees() {
    let (e, _) = sample_guess(MatchModeDto::Observer);
    let out = e.refine(&empty_filter()).unwrap();
    let cands = &out.result.candidates;
    assert!(!out.result.truncated);
    let uniform = |vals: Vec<i64>| if vals.iter().all(|v| *v == vals[0]) { Some(vals[0]) } else { None };
    let stats: [fn(&petcalc::dto::StatDto) -> i64; 7] =
        [|s| s.hp, |s| s.mp, |s| s.atk, |s| s.def, |s| s.agi, |s| s.wis, |s| s.res];
    for (col, f) in stats.iter().enumerate() {
        let vals: Vec<i64> = cands.iter().map(|c| f(&c.stat)).collect();
        assert_eq!(out.settled.stat[col], uniform(vals), "stat column {col}");
    }
    for axis in 0..5 {
        let vals: Vec<i64> = cands.iter().map(|c| c.grow[axis] as i64).collect();
        assert_eq!(out.settled.grow[axis].map(|v| v as i64), uniform(vals), "tier column {axis}");
        let bps: Vec<i64> = cands.iter().map(|c| (c.bp[axis] / 1000) as i64).collect();
        assert_eq!(out.settled.bp[axis], uniform(bps), "BP column {axis}");
    }
}

#[test]
fn the_narrowed_loss_range_scans_every_survivor() {
    let (e, _) = wild_guess(60);
    let out = e.refine(&empty_filter()).unwrap();
    let cands = &out.result.candidates;
    assert!(!out.result.truncated);
    let narrowed = out.narrowed_loss.unwrap();
    for axis in 0..5 {
        let lost: Vec<i32> = cands.iter().map(|c| c.lost[axis]).collect();
        let want = [*lost.iter().min().unwrap(), *lost.iter().max().unwrap()];
        assert_eq!(narrowed[axis], want, "axis {axis}");
    }
}

#[test]
fn filtering_everything_away_is_not_the_same_as_being_done() {
    let (e, _) = sample_guess(MatchModeDto::Observer);
    let mut req = empty_filter();
    req.stat[0] = Some(999999);
    let out = e.refine(&req).unwrap();
    assert_eq!(out.result.total, 0);
    assert!(!out.settled.all);
    assert_eq!(out.kept_weight, 0);
    assert!(out.result.distribution.is_none(), "no candidates, no distribution");
}

#[test]
fn probability_counts_every_candidate_not_just_the_returned_page() {
    let (e, resp) = sample_guess(MatchModeDto::Tolerant);
    assert!(resp.total > 1, "only {} solutions", resp.total);
    let full = e.probability(&whole_box()).unwrap();
    assert_eq!(full.candidates, resp.total);
    assert_eq!(full.in_range, full.total_weight);
}

#[test]
fn axis_sum_probability_is_monotone_in_the_threshold() {
    let (e, _) = sample_guess(MatchModeDto::Tolerant);
    let at = |threshold: i32| {
        let r = e
            .probability(&ProbabilityReq { lo: [0; 5], hi: [999; 5], axes: vec![0, 1], threshold })
            .unwrap();
        (r.axis_sum.expect("axes given, so an answer is owed"), r.total_weight)
    };
    let (p0, total) = at(0);
    assert_eq!(p0, total, "threshold 0 holds everything");
    assert!(at(0).0 >= at(40).0 && at(40).0 >= at(999).0);
    assert_eq!(at(999).0, 0);
}
