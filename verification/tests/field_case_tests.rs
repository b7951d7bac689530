use petcalc::dto::{CalcMode, GrowDto, GuessReq, GuessResp, MatchModeDto, RangeLimitsDto, TargetDto};
use petcalc::engine::Engine;
use petcalc::petdata::parse_builtin;

fn engine() -> Engine {
    Engine::new(parse_builtin(""), Ok(Vec::new()))
}

/// `grow` is `[HP, ATK, DEF, AGI, MP]`; `stat` is hp, mp, atk, def, agi.
fn run(grow: [i32; 5], lvl: i32, stat: [i64; 5]) -> GuessResp {
    let [hp_t, atk_t, def_t, agi_t, mp_t] = grow;
    let [hp, mp, atk, def, agi] = stat;
    engine()
        .guess(&GuessReq {
            grow: GrowDto { hp: hp_t, atk: atk_t, def: def_t, agi: agi_t, mp: mp_t, bprate: 20 },
            target: TargetDto { lvl, hp, mp, atk, def, agi },
            not_order_point: 0,
            calc_mode: CalcMode::Smart,
            manual: None,
            catch_stat: None,
            mode: MatchModeDto::Exact,
            exhaustive: true,
            tolerance: None,
            target_grow: None,
            limit: 0,
            ranges: RangeLimitsDto::default(),
        })
        .unwrap()
}

/// Per axis, the fewest and most tiers lost with any weight, read off the
/// weighted table over every candidate (not the capped list).
fn loss_range(resp: &GuessResp) -> [[i32; 2]; 5] {
    let d = resp.distribution.as_ref().expect("no distribution");
    std::array::from_fn(|axis| {
        let row = d.lost_marginal[axis];
        let hit: Vec<i32> = (0..row.len() as i32).filter(|&i| row[i as usize] != 0).collect();
        [*hit.first().expect("a row of zeros"), *hit.last().unwrap()]
    })
}

#[test]
fn the_bot_s_level_one_duck_comes_out_the_same() {
    let resp = run([40, 45, 10, 20, 10], 1, [118, 70, 47, 29, 30]);
    assert_eq!(resp.total, 44);
    assert_eq!(loss_range(&resp), [[2, 4], [2, 4], [3, 4], [2, 4], [3, 4]]);
}

#[test]
fn the_bot_s_level_seventeen_duck_comes_out_the_same() {
    let resp = run([40, 45, 10, 20, 10], 17, [481, 291, 182, 71, 68]);
    assert_eq!(resp.total, 4);
    assert_eq!(loss_range(&resp), [[1, 1], [0, 1], [2, 3], [2, 3], [1, 1]]);
}

#[test]
fn the_bot_s_baby_bomb_comes_out_the_same() {
    let resp = run([18, 40, 10, 48, 9], 17, [400, 315, 170, 76, 116]);
    assert_eq!(resp.total, 52);
}

#[test]
fn the_bot_s_deep_sea_bird_comes_out_the_same() {
    let resp = run([30, 7, 13, 27, 48], 1, [106, 138, 29, 34, 33]);
    assert_eq!(resp.total, 465);
    assert_eq!(loss_range(&resp), [[0, 4], [0, 4], [0, 4], [0, 4], [2, 4]]);
}

#[test]
fn the_bot_s_surfing_duck_comes_out_the_same() {
    let resp = run([28, 46, 23, 20, 8], 1, [114, 77, 50, 40, 31]);
    assert_eq!(resp.total, 186);
    assert_eq!(loss_range(&resp), [[0, 4], [0, 4], [0, 4], [0, 4], [1, 4]]);
}

#[test]
fn the_bot_s_stone_king_comes_out_the_same() {
    let resp = run([12, 36, 13, 18, 46], 1, [82, 135, 43, 33, 29]);
    assert_eq!(resp.total, 256);
    assert_eq!(loss_range(&resp), [[0, 4], [0, 4], [0, 4], [1, 4], [3, 4]]);
}

#[test]
fn the_bot_s_unsolvable_case_stays_unsolvable() {
    let resp = run([20, 6, 13, 45, 40], 29, [564, 993, 29, 80, 158]);
    assert_eq!(resp.total, 0);
}

#[test]
fn the_total_loss_range_agrees_with_scanning_every_candidate() {
    let cases: [([i32; 5], i32, [i64; 5]); 4] = [
        ([40, 45, 10, 20, 10], 1, [118, 70, 47, 29, 30]),
        ([40, 45, 10, 20, 10], 17, [481, 291, 182, 71, 68]),
        ([18, 40, 10, 48, 9], 17, [400, 315, 170, 76, 116]),
        ([28, 46, 23, 20, 8], 1, [114, 77, 50, 40, 31]),
    ];
    for (grow, lvl, stat) in cases {
        let resp = run(grow, lvl, stat);
        assert!(!resp.truncated, "the list was capped; scanning it says nothing");
        let losses: Vec<i32> = resp.candidates.iter().map(|r| r.lost_bp).collect();
        let scanned = (*losses.iter().min().unwrap(), *losses.iter().max().unwrap());
        assert_eq!(resp.distribution.as_ref().unwrap().lost_total_range(), Some(scanned), "lv{lvl}");
    }
}

#[test]
fn the_per_axis_bound_is_looser_than_the_real_total() {
    let resp = run([28, 46, 23, 20, 8], 1, [114, 77, 50, 40, 31]);
    let per_axis = loss_range(&resp);
    let naive_low: i32 = per_axis.iter().map(|r| r[0]).sum();
    let real = resp.distribution.as_ref().unwrap().lost_total_range().unwrap();
    assert!(real.0 > naive_low, "the per-axis bound {naive_low} is already the real least total {}", real.0);
}
