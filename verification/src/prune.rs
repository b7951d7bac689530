//! The search's shortcuts drop nothing the match would accept: the
//! pruning by total BP, by each stat and by the soft limits of the spent
//! points only ever skips choices that no legal random split can make
//! match.
use vstd::prelude::*;
use crate::bp::m10;
use crate::grow::GrowRange;
use crate::guess::{
    GuessOptions, MatchMode, Target, is_random_tuple, is_sol, grow_ok, sum_ok, manual_ok, pruned, prune_stat,
    random_ok, main_accept, catch_accept, spec_tol, spec_stat_slack, spec_sum_slack, spec_os, spec_ous,
    spec_sum_full, soft_floor, man_lo, man_hi, xvec, mvec, raw5, hit, spec_stats_equal, tseq_up, movable,
    nudged_match, spec_within_band, band, abs_i, GuessOutcome, solve_result, search_result, has_sol, ladder,
    spec_full_point, mk_cand, cin, covered,
};
use crate::matrix::{adj_apply, spec_stat_to_bp, INV_DEN};
use crate::recover::{
    raws, lemma_m10_values, lemma_adj_values, lemma_adj_left_inverse, lemma_stat_to_bp_values, lemma_hit_bounds,
    lemma_random_share, lemma_adj_sum, lemma_random_part,
};

verus! {

/// `y` is `x` with each axis from `a` on either kept or, on an axis whose
/// offsets go beyond zero, moved by `tol` either way; axes before `a` kept.
pub open spec fn nudged_from(x: Seq<int>, y: Seq<int>, tiers: [i32; 5], tol: int, a: int) -> bool {
    &&& x.len() == 5 && y.len() == 5
    &&& forall|j: int| 0 <= j < 5 ==> {
        ||| #[trigger] y[j] == x[j]
        ||| (a <= j && movable(tiers, j) && (y[j] == x[j] - tol || y[j] == x[j] + tol))
    }
}

/// A match after nudging has a witness: the nudged BP whose stats equal
/// the observed ones.
proof fn lemma_nudge_witness(x: Seq<int>, t: [i64; 5], tiers: [i32; 5], tol: int, a: int) -> (y: Seq<int>)
    requires
        x.len() == 5,
        0 <= a <= 5,
        nudged_match(x, t, tiers, tol, a),
    ensures
        nudged_from(x, y, tiers, tol, a),
        spec_stats_equal(y, t),
    decreases 5 - a,
{
    if a >= 5 {
        x
    } else {
        let n = crate::tolerance::spec_nudge_count(tiers[a] as int);
        if nudged_match(x, t, tiers, tol, a + 1) {
            lemma_nudge_witness(x, t, tiers, tol, a + 1)
        } else if n >= 2 && nudged_match(x.update(a, x[a] - tol), t, tiers, tol, a + 1) {
            let x2 = x.update(a, x[a] - tol);
            let y = lemma_nudge_witness(x2, t, tiers, tol, a + 1);
            assert forall|j: int| 0 <= j < 5 implies {
                ||| #[trigger] y[j] == x[j]
                ||| (a <= j && movable(tiers, j) && (y[j] == x[j] - tol || y[j] == x[j] + tol))
            } by {
                if j == a {
                    assert(y[j] == x2[j]);
                }
            }
            y
        } else {
            let x2 = x.update(a, x[a] + tol);
            let y = lemma_nudge_witness(x2, t, tiers, tol, a + 1);
            assert forall|j: int| 0 <= j < 5 implies {
                ||| #[trigger] y[j] == x[j]
                ||| (a <= j && movable(tiers, j) && (y[j] == x[j] - tol || y[j] == x[j] + tol))
            } by {
                if j == a {
                    assert(y[j] == x2[j]);
                }
            }
            y
        }
    }
}

proof fn lemma_term(c: int, d: int, tol: int, mov: bool)
    requires
        c >= 0,
        tol >= 0,
        d == 0 || (mov && (d == -tol || d == tol)),
    ensures
        -(if mov { c * tol } else { 0 }) <= c * d <= (if mov { c * tol } else { 0 }),
        mov ==> c * tol >= 0,
{
    assert(c * tol >= 0) by (nonlinear_arith)
        requires
            c >= 0,
            tol >= 0,
    ;
    if d == -tol {
        assert(c * d == -(c * tol)) by (nonlinear_arith)
            requires
                d == -tol,
        ;
    } else if d == 0 {
        assert(c * d == 0) by (nonlinear_arith)
            requires
                d == 0,
        ;
    }
}

proof fn lemma_mul_diff(c: int, a: int, b: int)
    ensures
        c * a - c * b == c * (a - b),
{
    assert(c * a - c * b == c * (a - b)) by (nonlinear_arith);
}

#[verifier::rlimit(60)]
#[verifier::spinoff_prover]
proof fn lemma_stat_move(x: Seq<int>, y: Seq<int>, tiers: [i32; 5], tol: int, s: int)
    requires
        nudged_from(x, y, tiers, tol, 0),
        tol >= 0,
        0 <= s < 5,
    ensures
        -spec_stat_slack(MatchMode::Observer, tol, tiers, s) <= raw5(y, s) - raw5(x, s)
            <= spec_stat_slack(MatchMode::Observer, tol, tiers, s),
{
    lemma_m10_values();
    let (c0, c1, c2, c3, c4) = (m10(s, 0), m10(s, 1), m10(s, 2), m10(s, 3), m10(s, 4));
    assert(c0 >= 0 && c1 >= 0 && c2 >= 0 && c3 >= 0 && c4 >= 0);
    let d0 = y[0] - x[0];
    let d1 = y[1] - x[1];
    let d2 = y[2] - x[2];
    let d3 = y[3] - x[3];
    let d4 = y[4] - x[4];
    assert(y[0] == x[0] || (movable(tiers, 0) && (y[0] == x[0] - tol || y[0] == x[0] + tol)));
    assert(y[1] == x[1] || (movable(tiers, 1) && (y[1] == x[1] - tol || y[1] == x[1] + tol)));
    assert(y[2] == x[2] || (movable(tiers, 2) && (y[2] == x[2] - tol || y[2] == x[2] + tol)));
    assert(y[3] == x[3] || (movable(tiers, 3) && (y[3] == x[3] - tol || y[3] == x[3] + tol)));
    assert(y[4] == x[4] || (movable(tiers, 4) && (y[4] == x[4] - tol || y[4] == x[4] + tol)));
    lemma_term(c0, d0, tol, movable(tiers, 0));
    lemma_term(c1, d1, tol, movable(tiers, 1));
    lemma_term(c2, d2, tol, movable(tiers, 2));
    lemma_term(c3, d3, tol, movable(tiers, 3));
    lemma_term(c4, d4, tol, movable(tiers, 4));
    lemma_mul_diff(c0, y[0], x[0]);
    lemma_mul_diff(c1, y[1], x[1]);
    lemma_mul_diff(c2, y[2], x[2]);
    lemma_mul_diff(c3, y[3], x[3]);
    lemma_mul_diff(c4, y[4], x[4]);
    assert(raw5(y, s) - raw5(x, s) == c0 * d0 + c1 * d1 + c2 * d2 + c3 * d3 + c4 * d4);
    let k0 = if movable(tiers, 0) { abs_i(c0) } else { 0 };
    let k1 = if movable(tiers, 1) { abs_i(c1) } else { 0 };
    let k2 = if movable(tiers, 2) { abs_i(c2) } else { 0 };
    let k3 = if movable(tiers, 3) { abs_i(c3) } else { 0 };
    let k4 = if movable(tiers, 4) { abs_i(c4) } else { 0 };
    assert(spec_stat_slack(MatchMode::Observer, tol, tiers, s) == tol * (k0 + k1 + k2 + k3 + k4));
    assert(tol * (k0 + k1 + k2 + k3 + k4) == k0 * tol + k1 * tol + k2 * tol + k3 * tol + k4 * tol) by (nonlinear_arith);
    assert(k0 * tol == (if movable(tiers, 0) { c0 * tol } else { 0 }));
    assert(k1 * tol == (if movable(tiers, 1) { c1 * tol } else { 0 }));
    assert(k2 * tol == (if movable(tiers, 2) { c2 * tol } else { 0 }));
    assert(k3 * tol == (if movable(tiers, 3) { c3 * tol } else { 0 }));
    assert(k4 * tol == (if movable(tiers, 4) { c4 * tol } else { 0 }));
}

/// Nudging moves the total BP by at most the observer slack of the total,
/// and each axis by at most `tol`.
proof fn lemma_sum_move(x: Seq<int>, y: Seq<int>, tiers: [i32; 5], tol: int)
    requires
        nudged_from(x, y, tiers, tol, 0),
        tol >= 0,
    ensures
        -spec_sum_slack(MatchMode::Observer, tol, tiers) <= (y[0] + y[1] + y[2] + y[3] + y[4]) - (x[0] + x[1] + x[2]
            + x[3] + x[4]) <= spec_sum_slack(MatchMode::Observer, tol, tiers),
        forall|j: int| 0 <= j < 5 ==> y[j] - tol <= #[trigger] x[j] <= y[j] + tol,
{
    assert(y[0] == x[0] || (movable(tiers, 0) && (y[0] == x[0] - tol || y[0] == x[0] + tol)));
    assert(y[1] == x[1] || (movable(tiers, 1) && (y[1] == x[1] - tol || y[1] == x[1] + tol)));
    assert(y[2] == x[2] || (movable(tiers, 2) && (y[2] == x[2] - tol || y[2] == x[2] + tol)));
    assert(y[3] == x[3] || (movable(tiers, 3) && (y[3] == x[3] - tol || y[3] == x[3] + tol)));
    assert(y[4] == x[4] || (movable(tiers, 4) && (y[4] == x[4] - tol || y[4] == x[4] + tol)));
    let n0: int = if movable(tiers, 0) { 1 } else { 0 };
    let n1: int = if movable(tiers, 1) { 1 } else { 0 };
    let n2: int = if movable(tiers, 2) { 1 } else { 0 };
    let n3: int = if movable(tiers, 3) { 1 } else { 0 };
    let n4: int = if movable(tiers, 4) { 1 } else { 0 };
    assert(spec_sum_slack(MatchMode::Observer, tol, tiers) == tol * (n0 + n1 + n2 + n3 + n4));
    assert(tol * (n0 + n1 + n2 + n3 + n4) == n0 * tol + n1 * tol + n2 * tol + n3 * tol + n4 * tol) by (nonlinear_arith);
    assert(n0 * tol == (if movable(tiers, 0) { tol } else { 0 }));
    assert(n1 * tol == (if movable(tiers, 1) { tol } else { 0 }));
    assert(n2 * tol == (if movable(tiers, 2) { tol } else { 0 }));
    assert(n3 * tol == (if movable(tiers, 3) { tol } else { 0 }));
    assert(n4 * tol == (if movable(tiers, 4) { tol } else { 0 }));
}

/// Raw stats within `w` of their observed intervals put the total BP
/// within `283500 * w` of the observed total (both times `INV_DEN`).
proof fn lemma_sum_window(x: Seq<int>, t: Target, w: int)
    requires
        w >= 0,
        forall|s: int| 0 <= s < 5 ==> 10000 * (t.stats()[s] - 20) - w <= #[trigger] raw5(x, s)
            < 10000 * (t.stats()[s] - 19) + w,
    ensures
        spec_os(t) - 283500 * w <= INV_DEN * (x[0] + x[1] + x[2] + x[3] + x[4]) <= spec_ous(t) + 283500 * w,
{
    let v = raws(x);
    let lo = seq![t.hp - 20, t.mp - 20, t.atk - 20, t.def - 20, t.agi - 20];
    let hi = seq![t.hp - 19, t.mp - 19, t.atk - 19, t.def - 19, t.agi - 19];
    assert(INV_DEN * (x[0] + x[1] + x[2] + x[3] + x[4])
        == 39690 * v[0] + 30870 * v[1] + 77490 * v[2] + 54180 * v[3] + 81270 * v[4]) by {
        lemma_adj_left_inverse(x);
        lemma_adj_sum(v);
        assert(INV_DEN == 3828510);
    }
    assert(spec_os(t) == 10000 * (39690 * lo[0] + 30870 * lo[1] + 77490 * lo[2] + 54180 * lo[3] + 81270 * lo[4])) by {
        lemma_stat_to_bp_values(t);
        lemma_adj_sum(lo);
    }
    assert(spec_ous(t) == 10000 * (39690 * hi[0] + 30870 * hi[1] + 77490 * hi[2] + 54180 * hi[3] + 81270 * hi[4])) by {
        lemma_stat_to_bp_values(t);
        lemma_adj_sum(hi);
    }
    assert(10000 * lo[0] - w <= v[0] < 10000 * hi[0] + w) by { assert(raw5(x, 0) == v[0]); }
    assert(10000 * lo[1] - w <= v[1] < 10000 * hi[1] + w) by { assert(raw5(x, 1) == v[1]); }
    assert(10000 * lo[2] - w <= v[2] < 10000 * hi[2] + w) by { assert(raw5(x, 2) == v[2]); }
    assert(10000 * lo[3] - w <= v[3] < 10000 * hi[3] + w) by { assert(raw5(x, 3) == v[3]); }
    assert(10000 * lo[4] - w <= v[4] < 10000 * hi[4] + w) by { assert(raw5(x, 4) == v[4]); }
}

/// A row of the inverse applied to raw stats within `w <= 3000` of their
/// observed intervals stays below the row applied to the upper ends by
/// 700 units of `INV_DEN` at least.
proof fn lemma_row_upper_wide(v: Seq<int>, lo: Seq<int>, hi: Seq<int>, i: int, w: int)
    requires
        0 <= i < 5,
        0 <= w <= 3000,
        forall|j: int| 0 <= j < 5 ==> 10000 * #[trigger] lo[j] - w <= v[j] < 10000 * (lo[j] + 1) + w && hi[j] == lo[j] + 1,
    ensures
        adj_apply(v, i) < 10000 * adj_apply(hi, i) + 700 * INV_DEN,
{
    lemma_adj_values(v);
    lemma_adj_values(hi);
    assert(INV_DEN == 3828510);
    assert(10000 * lo[0] - w <= v[0] < 10000 * (lo[0] + 1) + w && hi[0] == lo[0] + 1);
    assert(10000 * lo[1] - w <= v[1] < 10000 * (lo[1] + 1) + w && hi[1] == lo[1] + 1);
    assert(10000 * lo[2] - w <= v[2] < 10000 * (lo[2] + 1) + w && hi[2] == lo[2] + 1);
    assert(10000 * lo[3] - w <= v[3] < 10000 * (lo[3] + 1) + w && hi[3] == lo[3] + 1);
    assert(10000 * lo[4] - w <= v[4] < 10000 * (lo[4] + 1) + w && hi[4] == lo[4] + 1);
}

proof fn lemma_soft_bound_wide(xi: int, base: int, mi: int, up: int)
    requires
        INV_DEN * xi < up + 1000 * INV_DEN,
        xi >= base + 1000 * mi,
    ensures
        mi <= (up - base * INV_DEN + 1000 * INV_DEN) / (1000 * INV_DEN),
{
    let d = INV_DEN as int;
    let k = 1000 * d;
    let num = up - base * d + k;
    assert(d == 3828510);
    assert(mi * k < num) by (nonlinear_arith)
        requires
            d == 3828510,
            k == 1000 * d,
            num == up - base * d + k,
            d * xi < up + k,
            xi >= base + 1000 * mi,
    ;
    let q = num / k;
    vstd::arithmetic::div_mod::lemma_fundamental_div_mod(num, k);
    vstd::arithmetic::div_mod::lemma_mod_bound(num, k);
    assert(mi <= q) by (nonlinear_arith)
        requires
            mi * k < num,
            num == k * q + num % k,
            0 <= num % k < k,
            k > 0,
    ;
}

/// Raw stats each within the stat slack of their observed intervals pass
/// the per-stat pruning.
proof fn lemma_not_pruned_window(g: GrowRange, t: Target, m: [i32; 5], r: [i32; 5], mode: MatchMode, tol: int)
    requires
        g.bprate >= 0,
        is_random_tuple(r),
        forall|s: int| 0 <= s < 5 ==> 10000 * (t.stats()[s] - 20) - spec_stat_slack(mode, tol, g.tiers(), s)
            <= #[trigger] raw5(xvec(g, t.lvl as int, m, r), s) < 10000 * (t.stats()[s] - 19) + spec_stat_slack(mode, tol, g.tiers(), s),
    ensures
        !pruned(g, t, m, mode, tol),
{
    reveal(pruned);
    let x = xvec(g, t.lvl as int, m, r);
    assert forall|s: int| 0 <= s < 5 implies !#[trigger] prune_stat(g, t, m, mode, tol, s) by {
        lemma_random_part(g, t.lvl as int, m, r, s);
        assert(10000 * (t.stats()[s] - 20) - spec_stat_slack(mode, tol, g.tiers(), s) <= raw5(x, s)
            < 10000 * (t.stats()[s] - 19) + spec_stat_slack(mode, tol, g.tiers(), s));
    }
    assert(!prune_stat(g, t, m, mode, tol, 0));
    assert(!prune_stat(g, t, m, mode, tol, 1));
    assert(!prune_stat(g, t, m, mode, tol, 2));
    assert(!prune_stat(g, t, m, mode, tol, 3));
    assert(!prune_stat(g, t, m, mode, tol, 4));
}

/// A total BP within the total slack of the observed total passes the
/// pruning by total.
proof fn lemma_sum_ok_window(g: GrowRange, t: Target, p: int, m: [i32; 5], r: [i32; 5], mode: MatchMode, tol: int)
    requires
        g.bprate >= 0,
        is_random_tuple(r),
        m[0] + m[1] + m[2] + m[3] + m[4] == p,
        ({
            let x = xvec(g, t.lvl as int, m, r);
            let sl = spec_sum_slack(mode, tol, g.tiers());
            spec_os(t) - sl * INV_DEN <= INV_DEN * (x[0] + x[1] + x[2] + x[3] + x[4]) <= spec_ous(t) + sl * INV_DEN
        }),
    ensures
        sum_ok(g, t, p, mode, tol),
{
    reveal(sum_ok);
    let x = xvec(g, t.lvl as int, m, r);
    assert(spec_sum_full(g, t.lvl as int, p) == x[0] + x[1] + x[2] + x[3] + x[4]) by {
        lemma_random_share(g.bprate as int, r);
    }
    let sf = spec_sum_full(g, t.lvl as int, p);
    assert(sf * INV_DEN == INV_DEN * sf) by (nonlinear_arith);
}

/// Spent points under the BP bound of every axis stay under its soft limit.
proof fn lemma_manual_ok_window(g: GrowRange, t: Target, p: int, opts: GuessOptions, m: [i32; 5], r: [i32; 5])
    requires
        g.bprate >= 0,
        is_random_tuple(r),
        opts.manual.spec_allows(m),
        forall|i: int| 0 <= i < 5 ==> 0 <= #[trigger] m[i],
        m[0] + m[1] + m[2] + m[3] + m[4] == p,
        forall|i: int| 0 <= i < 5 ==> INV_DEN * #[trigger] xvec(g, t.lvl as int, m, r)[i]
            < spec_stat_to_bp(tseq_up(t), i) + 1000 * INV_DEN,
    ensures
        manual_ok(g, t, p, opts.manual, m),
{
    reveal(manual_ok);
    let mb = opts.manual;
    let x = xvec(g, t.lvl as int, m, r);
    lemma_random_share(g.bprate as int, r);
    assert forall|i: int| 0 <= i < 5 implies man_lo(mb, i) <= #[trigger] m[i] <= man_hi(g, t, p, mb, i) by {
        assert(x[i] >= g.spec_base(i, t.lvl as int) + 1000 * m[i]) by {
            assert(0 <= 10 * g.bprate * r[i]);
            if i == 0 {} else if i == 1 {} else if i == 2 {} else if i == 3 {} else {}
        }
        lemma_soft_bound_wide(x[i], g.spec_base(i, t.lvl as int), m[i] as int, spec_stat_to_bp(tseq_up(t), i));
        assert(m[i] <= soft_floor(g, t, i));
        assert(mb.spec_lo(i) <= m[i] <= mb.spec_hi(i));
        assert(0 <= m[0] && 0 <= m[1] && 0 <= m[2] && 0 <= m[3] && 0 <= m[4]);
        assert(m[i] <= p) by {
            if i == 0 {} else if i == 1 {} else if i == 2 {} else if i == 3 {} else {}
        }
    }
    assert(man_lo(mb, 0) <= m[0] <= man_hi(g, t, p, mb, 0));
    assert(man_lo(mb, 1) <= m[1] <= man_hi(g, t, p, mb, 1));
    assert(man_lo(mb, 2) <= m[2] <= man_hi(g, t, p, mb, 2));
    assert(man_lo(mb, 3) <= m[3] <= man_hi(g, t, p, mb, 3));
    assert(man_lo(mb, 4) <= m[4] <= man_hi(g, t, p, mb, 4));
}

/// The BP bound of every axis, from raw stats within `w` of their
/// observed intervals: the axis stays 700 units of `INV_DEN` (thousandths)
/// under the soft limit's BP.
proof fn lemma_axis_bound(y: Seq<int>, t: Target, w: int, i: int)
    requires
        y.len() == 5,
        0 <= w <= 3000,
        0 <= i < 5,
        forall|s: int| 0 <= s < 5 ==> 10000 * (t.stats()[s] - 20) - w <= #[trigger] raw5(y, s)
            < 10000 * (t.stats()[s] - 19) + w,
    ensures
        INV_DEN * y[i] < spec_stat_to_bp(tseq_up(t), i) + 700 * INV_DEN,
{
    let v = raws(y);
    let lo = seq![t.hp - 20, t.mp - 20, t.atk - 20, t.def - 20, t.agi - 20];
    let hi = seq![t.hp - 19, t.mp - 19, t.atk - 19, t.def - 19, t.agi - 19];
    assert(INV_DEN * y[i] == adj_apply(v, i)) by {
        lemma_adj_left_inverse(y);
        if i == 0 {} else if i == 1 {} else if i == 2 {} else if i == 3 {} else {}
    }
    lemma_stat_to_bp_values(t);
    assert forall|j: int| 0 <= j < 5 implies 10000 * #[trigger] lo[j] - w <= v[j] < 10000 * (lo[j] + 1) + w
        && hi[j] == lo[j] + 1 by {
        assert(raw5(y, j) == v[j]);
        if j == 0 {} else if j == 1 {} else if j == 2 {} else if j == 3 {} else {}
    }
    lemma_row_upper_wide(v, lo, hi, i, w);
}

/// A match up to a nudge of at most `tol` per axis (none at all outside
/// the observer rule) passes every shortcut of the search.
proof fn lemma_shifted_match_passes(g: GrowRange, t: Target, p: int, opts: GuessOptions, m: [i32; 5], r: [i32; 5],
    mode: MatchMode, y: Seq<int>)
    requires
        mode != MatchMode::Tolerant,
        0 <= spec_tol(opts, mode, t.lvl as int) <= 300,
        g.bprate >= 0,
        is_random_tuple(r),
        opts.manual.spec_allows(m),
        forall|i: int| 0 <= i < 5 ==> 0 <= #[trigger] m[i],
        m[0] + m[1] + m[2] + m[3] + m[4] == p,
        y.len() == 5,
        spec_stats_equal(y, t.stats()),
        mode == MatchMode::Observer ==> nudged_from(xvec(g, t.lvl as int, m, r), y, g.tiers(), spec_tol(opts, mode, t.lvl as int), 0),
        mode != MatchMode::Observer ==> y == xvec(g, t.lvl as int, m, r),
    ensures
        sum_ok(g, t, p, mode, spec_tol(opts, mode, t.lvl as int)),
        manual_ok(g, t, p, opts.manual, m),
        !pruned(g, t, m, mode, spec_tol(opts, mode, t.lvl as int)),
{
    let tol = spec_tol(opts, mode, t.lvl as int);
    let x = xvec(g, t.lvl as int, m, r);
    let tiers = g.tiers();
    assert forall|s: int| 0 <= s < 5 implies 10000 * (t.stats()[s] - 20) <= #[trigger] raw5(y, s)
        < 10000 * (t.stats()[s] - 19) by {
        assert(hit(y, t.stats(), s));
        lemma_hit_bounds(raw5(y, s), t.stats()[s] as int);
    }
    if mode == MatchMode::Observer {
        assert forall|s: int| 0 <= s < 5 implies 10000 * (t.stats()[s] - 20) - spec_stat_slack(mode, tol, tiers, s)
            <= #[trigger] raw5(x, s) < 10000 * (t.stats()[s] - 19) + spec_stat_slack(mode, tol, tiers, s) by {
            lemma_stat_move(x, y, tiers, tol, s);
            assert(10000 * (t.stats()[s] - 20) <= raw5(y, s) < 10000 * (t.stats()[s] - 19));
        }
        lemma_sum_move(x, y, tiers, tol);
    } else {
        assert(tol == 0);
        assert forall|s: int| 0 <= s < 5 implies 10000 * (t.stats()[s] - 20) - spec_stat_slack(mode, tol, tiers, s)
            <= #[trigger] raw5(x, s) < 10000 * (t.stats()[s] - 19) + spec_stat_slack(mode, tol, tiers, s) by {
            assert(10000 * (t.stats()[s] - 20) <= raw5(y, s) < 10000 * (t.stats()[s] - 19));
        }
    }
    lemma_not_pruned_window(g, t, m, r, mode, tol);
    // the total
    assert forall|s: int| 0 <= s < 5 implies 10000 * (t.stats()[s] - 20) - 0 <= #[trigger] raw5(y, s)
        < 10000 * (t.stats()[s] - 19) + 0 by {
        assert(10000 * (t.stats()[s] - 20) <= raw5(y, s) < 10000 * (t.stats()[s] - 19));
    }
    lemma_sum_window(y, t, 0);
    let sl = spec_sum_slack(mode, tol, tiers);
    let sx = x[0] + x[1] + x[2] + x[3] + x[4];
    let sy = y[0] + y[1] + y[2] + y[3] + y[4];
    assert(sy - sl <= sx <= sy + sl);
    assert(INV_DEN * (sy - sl) <= INV_DEN * sx <= INV_DEN * (sy + sl));
    assert(spec_os(t) - sl * INV_DEN <= INV_DEN * sx <= spec_ous(t) + sl * INV_DEN);
    lemma_sum_ok_window(g, t, p, m, r, mode, tol);
    // the soft limits
    assert forall|i: int| 0 <= i < 5 implies INV_DEN * #[trigger] xvec(g, t.lvl as int, m, r)[i]
        < spec_stat_to_bp(tseq_up(t), i) + 1000 * INV_DEN by {
        lemma_axis_bound(y, t, 0, i);
        assert(x[i] <= y[i] + tol);
        assert(INV_DEN * x[i] <= INV_DEN * y[i] + INV_DEN * tol);
    }
    lemma_manual_ok_window(g, t, p, opts, m, r);
}

/// A match within the tolerant band, with a tolerance of at most 300,
/// passes every shortcut of the search.
proof fn lemma_band_match_passes(g: GrowRange, t: Target, p: int, opts: GuessOptions, m: [i32; 5], r: [i32; 5])
    requires
        0 <= spec_tol(opts, MatchMode::Tolerant, t.lvl as int) <= 300,
        g.bprate >= 0,
        is_random_tuple(r),
        opts.manual.spec_allows(m),
        forall|i: int| 0 <= i < 5 ==> 0 <= #[trigger] m[i],
        m[0] + m[1] + m[2] + m[3] + m[4] == p,
        spec_within_band(xvec(g, t.lvl as int, m, r), t.stats(), spec_tol(opts, MatchMode::Tolerant, t.lvl as int)),
    ensures
        sum_ok(g, t, p, MatchMode::Tolerant, spec_tol(opts, MatchMode::Tolerant, t.lvl as int)),
        manual_ok(g, t, p, opts.manual, m),
        !pruned(g, t, m, MatchMode::Tolerant, spec_tol(opts, MatchMode::Tolerant, t.lvl as int)),
{
    let mode = MatchMode::Tolerant;
    let tol = spec_tol(opts, mode, t.lvl as int);
    let x = xvec(g, t.lvl as int, m, r);
    let w = 10 * tol;
    assert forall|s: int| 0 <= s < 5 implies 10000 * (t.stats()[s] - 20) - w <= #[trigger] raw5(x, s)
        < 10000 * (t.stats()[s] - 19) + w by {
        assert(band(x, t.stats(), tol, s)) by {
            if s == 0 {} else if s == 1 {} else if s == 2 {} else if s == 3 {} else {}
        }
    }
    lemma_not_pruned_window(g, t, m, r, mode, tol);
    lemma_sum_window(x, t, w);
    assert(283500 * w <= tol * INV_DEN);
    lemma_sum_ok_window(g, t, p, m, r, mode, tol);
    assert forall|i: int| 0 <= i < 5 implies INV_DEN * #[trigger] xvec(g, t.lvl as int, m, r)[i]
        < spec_stat_to_bp(tseq_up(t), i) + 1000 * INV_DEN by {
        lemma_axis_bound(x, t, w, i);
    }
    lemma_manual_ok_window(g, t, p, opts, m, r);
}

/// `(g, m, r)` explains the observed stats, stated directly: tiers the
/// request allows, spent points that are not negative, within the bounds
/// and adding up to `p`, a legal random split inside the searched window,
/// and a match of the stats (and of the catch-level stats, if given) under
/// `mode`.
pub open spec fn direct_sol(catalog: GrowRange, t: Target, p: int, mode: MatchMode, opts: GuessOptions,
    g: GrowRange, m: [i32; 5], r: [i32; 5]) -> bool
{
    let tol = spec_tol(opts, mode, t.lvl as int);
    &&& grow_ok(catalog, opts, g)
    &&& forall|i: int| 0 <= i < 5 ==> 0 <= #[trigger] m[i]
    &&& opts.manual.spec_allows(m)
    &&& m[0] + m[1] + m[2] + m[3] + m[4] == p
    &&& is_random_tuple(r)
    &&& random_ok(g, t, m, opts, r)
    &&& main_accept(g, t, mode, tol, m, r) is Some
    &&& catch_accept(g, opts, mode, tol, r) is Some
}

/// The pruning drops nothing the match accepts: with ability rates not
/// negative and a tolerance in `0..=300` thousandths, every direct
/// explanation passes the shortcuts on the total BP, on each stat and on
/// the soft limits of the spent points, so it is a solution of the search.
pub proof fn lemma_pruning_keeps_every_match(catalog: GrowRange, t: Target, p: int, mode: MatchMode,
    opts: GuessOptions, g: GrowRange, m: [i32; 5], r: [i32; 5])
    requires
        direct_sol(catalog, t, p, mode, opts, g, m, r),
        g.bprate >= 0,
        0 <= spec_tol(opts, mode, t.lvl as int) <= 300,
    ensures
        is_sol(catalog, t, p, mode, opts, g, m, r),
{
    let tol = spec_tol(opts, mode, t.lvl as int);
    let x = xvec(g, t.lvl as int, m, r);
    if mode == MatchMode::Tolerant {
        assert(spec_within_band(x, t.stats(), tol));
        lemma_band_match_passes(g, t, p, opts, m, r);
    } else if mode == MatchMode::Observer && !spec_stats_equal(x, t.stats()) {
        assert(nudged_match(x, t.stats(), g.tiers(), tol, 0));
        let y = lemma_nudge_witness(x, t.stats(), g.tiers(), tol, 0);
        lemma_shifted_match_passes(g, t, p, opts, m, r, mode, y);
    } else {
        assert(spec_stats_equal(x, t.stats()));
        if mode == MatchMode::Observer {
            assert forall|j: int| 0 <= j < 5 implies {
                ||| #[trigger] x[j] == x[j]
                ||| (0 <= j && movable(g.tiers(), j) && (x[j] == x[j] - tol || x[j] == x[j] + tol))
            } by {}
        }
        lemma_shifted_match_passes(g, t, p, opts, m, r, mode, x);
    }
    reveal(is_sol);
}

/// A solution of the search with spent points that are not negative and a
/// legal random split is a direct explanation.
pub proof fn lemma_solution_is_direct(catalog: GrowRange, t: Target, p: int, mode: MatchMode,
    opts: GuessOptions, g: GrowRange, m: [i32; 5], r: [i32; 5])
    requires
        is_sol(catalog, t, p, mode, opts, g, m, r),
        forall|i: int| 0 <= i < 5 ==> 0 <= #[trigger] m[i],
        is_random_tuple(r),
    ensures
        direct_sol(catalog, t, p, mode, opts, g, m, r),
{
    reveal(is_sol);
    reveal(manual_ok);
    let mb = opts.manual;
    assert forall|i: int| 0 <= i < 5 implies mb.spec_lo(i) <= #[trigger] m[i] <= mb.spec_hi(i) by {
        assert(man_lo(mb, i) <= m[i] <= man_hi(g, t, p, mb, i)) by {
            if i == 0 {} else if i == 1 {} else if i == 2 {} else if i == 3 {} else {}
        }
    }
}

/// `solve` is complete over the direct statement: with no cap on the count,
/// every direct explanation for the spent points and match mode the answer
/// names (ability rate not negative, tolerance in `0..=300`) is among its
/// candidates; and each candidate whose spent points are not negative is a
/// direct explanation.
#[verifier::rlimit(80)]
#[verifier::spinoff_prover]
pub proof fn lemma_solve_answers_every_direct_match(catalog: GrowRange, t: Target, opts: GuessOptions,
    out: GuessOutcome, g: GrowRange, m: [i32; 5], r: [i32; 5])
    requires
        solve_result(catalog, t, opts, out),
        opts.limit == 0,
        g.bprate >= 0,
        0 <= spec_tol(opts, out.mode, t.lvl as int) <= 300,
        direct_sol(catalog, t, out.point as int, out.mode, opts, g, m, r),
    ensures
        cin(out.candidates@, mk_cand(catalog, t, out.mode, opts, g, m, r)),
        forall|k: int| 0 <= k < out.candidates@.len() && (forall|i: int| 0 <= i < 5 ==> 0 <= #[trigger] out.candidates@[k].manual[i])
            ==> direct_sol(catalog, t, out.point as int, out.mode, opts, #[trigger] out.candidates@[k].grow,
                out.candidates@[k].manual, out.candidates@[k].random),
{
    let p = out.point as int;
    lemma_pruning_keeps_every_match(catalog, t, p, out.mode, opts, g, m, r);
    let full = spec_full_point(t, opts);
    let l = ladder(opts.mode, t.lvl, full as i32);
    assert(out.candidates@.len() > 0) by {
        if out.candidates@.len() == 0 {
            assert(p >= 0);
            assert(has_sol(catalog, t, p, out.mode, opts));
            if opts.mode == MatchMode::Auto {
                let n = if t.lvl != 1 { 2int } else { 1int };
                assert(l[2 * n] == (full as i32, MatchMode::Tolerant));
                assert(l[2 * n].0 >= 0 && has_sol(catalog, t, l[2 * n].0 as int, l[2 * n].1, opts));
            } else {
                assert(l[0] == (full as i32, opts.mode));
                assert(l[0].0 >= 0 && has_sol(catalog, t, l[0].0 as int, l[0].1, opts));
            }
        }
    }
    assert(search_result(catalog, t, out.point as int, out.mode, opts, out.candidates@));
    assert(covered(out.candidates@, mk_cand(catalog, t, out.mode, opts, g, m, r), 0));
    lemma_candidates_are_direct(catalog, t, opts, out);
}

proof fn lemma_candidates_are_direct(catalog: GrowRange, t: Target, opts: GuessOptions, out: GuessOutcome)
    requires
        solve_result(catalog, t, opts, out),
    ensures
        forall|k: int| 0 <= k < out.candidates@.len() && (forall|i: int| 0 <= i < 5 ==> 0 <= #[trigger] out.candidates@[k].manual[i])
            ==> direct_sol(catalog, t, out.point as int, out.mode, opts, #[trigger] out.candidates@[k].grow,
                out.candidates@[k].manual, out.candidates@[k].random),
{
    if out.candidates@.len() > 0 {
        let l = ladder(opts.mode, t.lvl, spec_full_point(t, opts) as i32);
        assert(exists|k: int| 0 <= k < l.len() && l[k] == (out.point, out.mode) && out.point >= 0
            && search_result(catalog, t, out.point as int, out.mode, opts, out.candidates@));
        assert forall|k2: int| 0 <= k2 < out.candidates@.len() && (forall|i: int| 0 <= i < 5 ==> 0 <= #[trigger] out.candidates@[k2].manual[i])
            implies direct_sol(catalog, t, out.point as int, out.mode, opts, #[trigger] out.candidates@[k2].grow,
                out.candidates@[k2].manual, out.candidates@[k2].random) by {
            let c = out.candidates@[k2];
            assert(is_sol(catalog, t, out.point as int, out.mode, opts, c.grow, c.manual, c.random));
            assert(is_random_tuple(c.random));
            lemma_solution_is_direct(catalog, t, out.point as int, out.mode, opts, c.grow, c.manual, c.random);
        }
    }
}

} // verus!
