use petcalc::dto::{
    CalcMode, ForwardReq, GrowDto, GuessReq, GuessResp, MatchModeDto, PointMode, RangeLimitsDto, RequestError,
    SearchReq, SeriesReq, StatDto, TargetDto,
};
use petcalc::engine::Engine;
use petcalc::petdata::parse_builtin;

const BUILTIN: &str = "# id\tname\trace\thp\tatk\tdef\tagi\tmp\trate\tskills\n\
1\t虎人\t0\t22\t26\t17\t19\t16\t0.2\t7\n\
2\t貓妖\t0\t20\t20\t20\t20\t20\t0.2\t7\n\
3\t破曉之刃\t6\t27\t16\t25\t15\t37\t0.2\t8\n\
4\t小石頭\t6\t5\t5\t5\t5\t5\t0.2\t6\n";

fn engine() -> Engine {
    Engine::new(parse_builtin(BUILTIN), Ok(Vec::new()))
}

fn dawn() -> GrowDto {
    GrowDto { hp: 27, atk: 16, def: 25, agi: 15, mp: 37, bprate: 20 }
}

fn forward_dawn(lvl: i32) -> ForwardReq {
    ForwardReq {
        grow: dawn(),
        lvl,
        random: Some([2, 2, 2, 2, 2]),
        mode: PointMode::Unspent,
        ratio: None,
        manual: Some([0; 5]),
        not_order_point: lvl - 1,
        burst: None,
    }
}

fn guess_req(ranges: RangeLimitsDto) -> GuessReq {
    GuessReq {
        grow: dawn(),
        target: TargetDto { lvl: 20, hp: 429, mp: 533, atk: 89, def: 118, agi: 65 },
        not_order_point: 19,
        calc_mode: CalcMode::Smart,
        manual: None,
        catch_stat: None,
        mode: MatchModeDto::Exact,
        exhaustive: true,
        tolerance: None,
        target_grow: None,
        limit: 0,
        ranges,
    }
}

fn has_catalog_grow(r: &GuessResp) -> bool {
    r.candidates.iter().any(|c| c.grow == [27, 16, 25, 15, 37])
}

#[test]
fn a_forward_calculation_returns_exactly_these_numbers() {
    let out = engine().forward(&forward_dawn(20)).expect("forward failed");
    assert_eq!(out.stat, StatDto { hp: 429, mp: 533, atk: 89, def: 118, agi: 65, wis: 123, res: 109 });
    // BP in thousandths: 27.27, 16.33, 25.255, 15.275, 37.25.
    assert_eq!(out.bp, [27270, 16330, 25255, 15275, 37250]);
    assert_eq!(out.bp_sum, 121380);
    assert_eq!(out.manual, [0, 0, 0, 0, 0]);
}

#[test]
fn a_guess_finds_the_pet_it_came_from() {
    let mut e = engine();
    let row = e.forward(&forward_dawn(20)).unwrap();
    let s = row.stat;
    let mut req = guess_req(RangeLimitsDto::default());
    req.target = TargetDto { lvl: 20, hp: s.hp, mp: s.mp, atk: s.atk, def: s.def, agi: s.agi };
    let resp = e.guess(&req).expect("guess failed");
    assert!(has_catalog_grow(&resp), "{} solutions, none with the catalog tiers", resp.candidates.len());
    assert_eq!(resp.mode, "exact");
}

#[test]
fn omitting_the_search_ranges_matches_spelling_out_the_defaults() {
    let spelled = RangeLimitsDto {
        loss_min: [0, 0, 0, 0, 0],
        loss_max: [4, 4, 4, 4, 4],
        random_min: [0, 0, 0, 0, 0],
        random_max: [10, 10, 10, 10, 10],
    };
    assert_eq!(spelled, RangeLimitsDto::default());
    let a = engine().guess(&guess_req(RangeLimitsDto::default())).unwrap();
    let b = engine().guess(&guess_req(spelled)).unwrap();
    assert_eq!(a, b);
}

#[test]
fn tightening_the_loss_range_removes_the_undropped_answer() {
    let wide = engine().guess(&guess_req(RangeLimitsDto::default())).unwrap();
    assert!(has_catalog_grow(&wide), "the undropped tiers should be found with the default ranges");
    let mut narrow_ranges = RangeLimitsDto::default();
    narrow_ranges.loss_min = [1, 1, 1, 1, 1];
    let narrow = engine().guess(&guess_req(narrow_ranges)).unwrap();
    assert!(!has_catalog_grow(&narrow), "a floor of 1 still lets the undropped tiers through");
}

#[test]
fn a_contradictory_random_range_is_reported_not_silently_empty() {
    let mut ranges = RangeLimitsDto::default();
    ranges.random_min = [3, 3, 3, 3, 3];
    let err = engine().guess(&guess_req(ranges)).expect_err("a contradiction went unreported");
    assert_eq!(err, RequestError::RandomRange { lo: 15, hi: 50 });
}

#[test]
fn a_stat_search_comes_back_in_the_shape_the_finder_expects() {
    let out = engine()
        .search_by_stats(&SearchReq { lvl: 50, floor: [400, 300, 0, 0, 0, 0, 0], skills: 0, element: 0, random: None, limit: 0 })
        .expect("search failed");
    assert_eq!(out.available, 49);
    assert!(!out.hits.is_empty(), "nothing reaches hp 400 mp 300 at level 50");
    assert_eq!(out.total, out.hits.len());
    assert!(!out.truncated);
    for h in &out.hits {
        assert!(!h.pet.name.is_empty());
        assert!(h.needed <= 49);
    }
    let spares: Vec<i32> = out.hits.iter().map(|h| h.spare).collect();
    assert!(spares.windows(2).all(|w| w[0] >= w[1]), "not ordered by spare points");
}

#[test]
fn a_stat_search_wants_a_target_level_above_one() {
    let e = engine();
    let at = |lvl: i32| {
        e.search_by_stats(&SearchReq { lvl, floor: [100, 0, 0, 0, 0, 0, 0], skills: 0, element: 0, random: None, limit: 0 })
    };
    assert_eq!(at(1).unwrap_err(), RequestError::Level { lvl: 1 });
    assert_eq!(at(0).unwrap_err(), RequestError::Level { lvl: 0 });
    assert_eq!(at(256).unwrap_err(), RequestError::Level { lvl: 256 });
    assert!(at(2).is_ok());
}

#[test]
fn responses_are_plain_objects_all_the_way_down() {
    let mut req = forward_dawn(1);
    req.grow = GrowDto { hp: 1, atk: 1, def: 1, agi: 1, mp: 1, bprate: 20 };
    req.manual = None;
    req.not_order_point = 0;
    let out = engine().forward(&req).unwrap();
    assert_eq!(out.lvl, 1);
    assert_eq!(out.bp.len(), 5);
}

#[test]
fn a_series_lists_every_level_and_refuses_a_reversed_range() {
    let e = engine();
    let mut base = forward_dawn(1);
    base.manual = None;
    base.not_order_point = 0;
    let rows = e.series(&SeriesReq { base, from: 1, to: 5 }).unwrap();
    assert_eq!(rows.len(), 5);
    for (k, row) in rows.iter().enumerate() {
        let mut one = base;
        one.lvl = 1 + k as i32;
        assert_eq!(*row, e.forward(&one).unwrap(), "level {}", one.lvl);
    }
    assert_eq!(
        e.series(&SeriesReq { base, from: 10, to: 5 }),
        Err(RequestError::SeriesReversed { from: 10, to: 5 })
    );
    assert_eq!(e.series(&SeriesReq { base, from: 0, to: 5 }), Err(RequestError::Level { lvl: 0 }));
}
