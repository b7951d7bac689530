//! A pet computed forward is found again: the stats of any tiers, spent
//! points and random tiers the search visits are solved by them.
use vstd::prelude::*;
use crate::bp::m10;
use crate::guess::{
    is_sol, grow_ok, sum_ok, manual_ok, pruned, prune_stat, random_ok, main_accept, catch_accept, spec_tol,
    spec_sum_full, spec_sum_slack, spec_stat_slack, spec_os, spec_ous, soft_floor, man_lo, man_hi,
    xvec, mvec, raw5, hit, spec_stats_equal, tseq, tseq_up, row_min, row_max, is_random_tuple, in_random_bounds,
    GuessOptions, GuessOutcome, MatchMode, RandomSearch, Target, solve_result, search_result, has_sol,
    ladder, spec_full_point, mk_cand, cin, covered, Candidate, sorted_c, key_lt,
};
use crate::grow::GrowRange;
use crate::matrix::{adj, adj_apply, spec_stat_to_bp, INV_DEN};

verus! {

/// The raw stats of a BP vector, `[hp, mp, atk, def, agi]`.
pub open spec fn raws(x: Seq<int>) -> Seq<int> {
    seq![raw5(x, 0), raw5(x, 1), raw5(x, 2), raw5(x, 3), raw5(x, 4)]
}

pub(crate) proof fn lemma_m10_values()
    ensures
        m10(0, 0) == 80 && m10(0, 1) == 20 && m10(0, 2) == 30 && m10(0, 3) == 30 && m10(0, 4) == 10,
        m10(1, 0) == 10 && m10(1, 1) == 20 && m10(1, 2) == 20 && m10(1, 3) == 20 && m10(1, 4) == 100,
        m10(2, 0) == 2 && m10(2, 1) == 27 && m10(2, 2) == 3 && m10(2, 3) == 3 && m10(2, 4) == 2,
        m10(3, 0) == 2 && m10(3, 1) == 3 && m10(3, 2) == 30 && m10(3, 3) == 3 && m10(3, 4) == 2,
        m10(4, 0) == 1 && m10(4, 1) == 2 && m10(4, 2) == 2 && m10(4, 3) == 20 && m10(4, 4) == 1,
{
}

pub(crate) proof fn lemma_adj_values(v: Seq<int>)
    ensures
        adj_apply(v, 0) == 50724 * v[0] - 3087 * v[1] - 25980 * v[2] - 41880 * v[3] - 62820 * v[4],
        adj_apply(v, 1) == -2997 * v[0] - 2331 * v[1] + 147810 * v[2] - 9300 * v[3] - 13950 * v[4],
        adj_apply(v, 2) == -2664 * v[0] - 2072 * v[1] - 10410 * v[2] + 133530 * v[3] - 12400 * v[4],
        adj_apply(v, 3) == -1791 * v[0] - 1393 * v[1] - 11310 * v[2] - 9390 * v[3] + 198610 * v[4],
        adj_apply(v, 4) == -3582 * v[0] + 39753 * v[1] - 22620 * v[2] - 18780 * v[3] - 28170 * v[4],
{
    assert(adj(0, 0) == 50724 && adj(0, 1) == -3087 && adj(0, 2) == -25980 && adj(0, 3) == -41880 && adj(0, 4) == -62820);
    assert(adj(1, 0) == -2997 && adj(1, 1) == -2331 && adj(1, 2) == 147810 && adj(1, 3) == -9300 && adj(1, 4) == -13950);
    assert(adj(2, 0) == -2664 && adj(2, 1) == -2072 && adj(2, 2) == -10410 && adj(2, 3) == 133530 && adj(2, 4) == -12400);
    assert(adj(3, 0) == -1791 && adj(3, 1) == -1393 && adj(3, 2) == -11310 && adj(3, 3) == -9390 && adj(3, 4) == 198610);
    assert(adj(4, 0) == -3582 && adj(4, 1) == 39753 && adj(4, 2) == -22620 && adj(4, 3) == -18780 && adj(4, 4) == -28170);
}

/// The exact inverse undoes the forward rows from the other side too:
/// applied to the raw stats of a BP vector it gives `INV_DEN` times it.
pub(crate) proof fn lemma_adj_left_inverse(x: Seq<int>)
    ensures
        adj_apply(raws(x), 0) == INV_DEN * x[0],
        adj_apply(raws(x), 1) == INV_DEN * x[1],
        adj_apply(raws(x), 2) == INV_DEN * x[2],
        adj_apply(raws(x), 3) == INV_DEN * x[3],
        adj_apply(raws(x), 4) == INV_DEN * x[4],
{
    lemma_m10_values();
    let v = raws(x);
    lemma_adj_values(v);
    assert(v[0] == 80 * x[0] + 20 * x[1] + 30 * x[2] + 30 * x[3] + 10 * x[4]);
    assert(v[1] == 10 * x[0] + 20 * x[1] + 20 * x[2] + 20 * x[3] + 100 * x[4]);
    assert(v[2] == 2 * x[0] + 27 * x[1] + 3 * x[2] + 3 * x[3] + 2 * x[4]);
    assert(v[3] == 2 * x[0] + 3 * x[1] + 30 * x[2] + 3 * x[3] + 2 * x[4]);
    assert(v[4] == 1 * x[0] + 2 * x[1] + 2 * x[2] + 20 * x[3] + 1 * x[4]);
}

pub(crate) proof fn lemma_stat_to_bp_values(t: Target)
    ensures
        forall|i: int| 0 <= i < 5 ==> #[trigger] spec_stat_to_bp(tseq(t), i)
            == 10000 * adj_apply(seq![t.hp - 20, t.mp - 20, t.atk - 20, t.def - 20, t.agi - 20], i),
        forall|i: int| 0 <= i < 5 ==> #[trigger] spec_stat_to_bp(tseq_up(t), i)
            == 10000 * adj_apply(seq![t.hp - 19, t.mp - 19, t.atk - 19, t.def - 19, t.agi - 19], i),
{
    let a = tseq(t).map(|k: int, x: int| x - crate::bp::PROP_BASE);
    let b = tseq_up(t).map(|k: int, x: int| x - crate::bp::PROP_BASE);
    assert(a =~= seq![t.hp - 20, t.mp - 20, t.atk - 20, t.def - 20, t.agi - 20]);
    assert(b =~= seq![t.hp - 19, t.mp - 19, t.atk - 19, t.def - 19, t.agi - 19]);
}


/// A raw stat that floors to `t` lies in `[10000 * (t - 20), 10000 * (t - 19))`.
pub(crate) proof fn lemma_hit_bounds(v: int, t: int)
    requires
        v / 10000 + 20 == t,
    ensures
        10000 * (t - 20) <= v < 10000 * (t - 19),
{
    vstd::arithmetic::div_mod::lemma_fundamental_div_mod(v, 10000);
    vstd::arithmetic::div_mod::lemma_mod_bound(v, 10000);
}

proof fn lemma_raw_bounds(g: GrowRange, t: Target, m: [i32; 5], r: [i32; 5])
    requires
        spec_stats_equal(xvec(g, t.lvl as int, m, r), t.stats()),
    ensures
        ({
            let v = raws(xvec(g, t.lvl as int, m, r));
            &&& 10000 * (t.hp - 20) <= v[0] < 10000 * (t.hp - 19)
            &&& 10000 * (t.mp - 20) <= v[1] < 10000 * (t.mp - 19)
            &&& 10000 * (t.atk - 20) <= v[2] < 10000 * (t.atk - 19)
            &&& 10000 * (t.def - 20) <= v[3] < 10000 * (t.def - 19)
            &&& 10000 * (t.agi - 20) <= v[4] < 10000 * (t.agi - 19)
        }),
{
    let x = xvec(g, t.lvl as int, m, r);
    assert(hit(x, t.stats(), 0) && hit(x, t.stats(), 1) && hit(x, t.stats(), 2) && hit(x, t.stats(), 3) && hit(x, t.stats(), 4));
    lemma_hit_bounds(raw5(x, 0), t.hp as int);
    lemma_hit_bounds(raw5(x, 1), t.mp as int);
    lemma_hit_bounds(raw5(x, 2), t.atk as int);
    lemma_hit_bounds(raw5(x, 3), t.def as int);
    lemma_hit_bounds(raw5(x, 4), t.agi as int);
}

/// The random tiers add `10 * bprate * r[i]` thousandths on each axis,
/// `100 * bprate` in all, none of it negative.
pub(crate) proof fn lemma_random_share(b: int, r: [i32; 5])
    requires
        b >= 0,
        is_random_tuple(r),
    ensures
        10 * b * r[0] + 10 * b * r[1] + 10 * b * r[2] + 10 * b * r[3] + 10 * b * r[4] == 100 * b,
        forall|i: int| 0 <= i < 5 ==> 0 <= #[trigger] (10 * b * r[i]),
{
    let (r0, r1, r2, r3, r4) = (r[0] as int, r[1] as int, r[2] as int, r[3] as int, r[4] as int);
    assert(10 * b * r0 + 10 * b * r1 + 10 * b * r2 + 10 * b * r3 + 10 * b * r4 == 100 * b) by (nonlinear_arith)
        requires
            r0 + r1 + r2 + r3 + r4 == 10,
    ;
    assert forall|i: int| 0 <= i < 5 implies 0 <= #[trigger] (10 * b * r[i]) by {
        let ri = r[i] as int;
        assert(0 <= 10 * b * ri) by (nonlinear_arith)
            requires
                b >= 0,
                ri >= 0,
        ;
    }
}

/// The five rows of the inverse added up: the total BP per raw stat.
pub(crate) proof fn lemma_adj_sum(v: Seq<int>)
    ensures
        adj_apply(v, 0) + adj_apply(v, 1) + adj_apply(v, 2) + adj_apply(v, 3) + adj_apply(v, 4)
            == 39690 * v[0] + 30870 * v[1] + 77490 * v[2] + 54180 * v[3] + 81270 * v[4],
{
    lemma_adj_values(v);
}

/// The total BP of an exact solution lies in the interval its stats give.
proof fn lemma_sum_ok_exact(g: GrowRange, t: Target, p: int, m: [i32; 5], r: [i32; 5])
    requires
        g.bprate >= 0,
        is_random_tuple(r),
        m[0] + m[1] + m[2] + m[3] + m[4] == p,
        spec_stats_equal(xvec(g, t.lvl as int, m, r), t.stats()),
    ensures
        sum_ok(g, t, p, MatchMode::Exact, 0),
{
    reveal(sum_ok);
    let x = xvec(g, t.lvl as int, m, r);
    let v = raws(x);
    let lo = seq![t.hp - 20, t.mp - 20, t.atk - 20, t.def - 20, t.agi - 20];
    let hi = seq![t.hp - 19, t.mp - 19, t.atk - 19, t.def - 19, t.agi - 19];
    let sum = x[0] + x[1] + x[2] + x[3] + x[4];
    assert(sum * INV_DEN == 39690 * v[0] + 30870 * v[1] + 77490 * v[2] + 54180 * v[3] + 81270 * v[4]) by {
        lemma_adj_left_inverse(x);
        lemma_adj_sum(v);
        assert(INV_DEN == 3828510);
    }
    assert(spec_os(t) == 10000 * (39690 * lo[0] + 30870 * lo[1] + 77490 * lo[2] + 54180 * lo[3] + 81270 * lo[4])) by {
        lemma_stat_to_bp_values(t);
        lemma_adj_sum(lo);
    }
    assert(spec_ous(t) == 10000 * (39690 * hi[0] + 30870 * hi[1] + 77490 * hi[2] + 54180 * hi[3] + 81270 * hi[4])) by {
        lemma_stat_to_bp_values(t);
        lemma_adj_sum(hi);
    }
    assert(spec_sum_full(g, t.lvl as int, p) == sum) by {
        lemma_random_share(g.bprate as int, r);
    }
    assert(spec_sum_slack(MatchMode::Exact, 0, g.tiers()) == 0);
    lemma_raw_bounds(g, t, m, r);
}

/// A row of the inverse applied to raw stats inside their observed
/// intervals stays below the row applied to the upper ends plus one point
/// (less one unit of `INV_DEN`): the negative entries lose at most one
/// interval width each.
proof fn lemma_row_upper(v: Seq<int>, lo: Seq<int>, hi: Seq<int>, i: int)
    requires
        0 <= i < 5,
        forall|j: int| 0 <= j < 5 ==> 10000 * #[trigger] lo[j] <= v[j] < 10000 * (lo[j] + 1) && hi[j] == lo[j] + 1,
    ensures
        adj_apply(v, i) < 10000 * adj_apply(hi, i) + 1000 * INV_DEN - INV_DEN,
{
    lemma_adj_values(v);
    lemma_adj_values(hi);
    assert(INV_DEN == 3828510);
    assert(10000 * lo[0] <= v[0] < 10000 * (lo[0] + 1) && hi[0] == lo[0] + 1);
    assert(10000 * lo[1] <= v[1] < 10000 * (lo[1] + 1) && hi[1] == lo[1] + 1);
    assert(10000 * lo[2] <= v[2] < 10000 * (lo[2] + 1) && hi[2] == lo[2] + 1);
    assert(10000 * lo[3] <= v[3] < 10000 * (lo[3] + 1) && hi[3] == lo[3] + 1);
    assert(10000 * lo[4] <= v[4] < 10000 * (lo[4] + 1) && hi[4] == lo[4] + 1);
}

proof fn lemma_soft_bound(xi: int, base: int, mi: int, up: int, vi: int)
    requires
        INV_DEN * xi == vi,
        vi < up + 1000 * INV_DEN - INV_DEN,
        xi >= base + 1000 * mi,
    ensures
        mi <= (up - base * INV_DEN + 1000 * INV_DEN) / (1000 * INV_DEN),
{
    let d = INV_DEN as int;
    let k = 1000 * d;
    let num = up - base * d + k;
    assert(d == 3828510);
    assert(mi * k < num) by (nonlinear_arith)
        requires
            d == 3828510,
            k == 1000 * d,
            num == up - base * d + k,
            d * xi == vi,
            vi < up + k - d,
            xi >= base + 1000 * mi,
    ;
    let q = num / k;
    vstd::arithmetic::div_mod::lemma_fundamental_div_mod(num, k);
    vstd::arithmetic::div_mod::lemma_mod_bound(num, k);
    assert(mi <= q) by (nonlinear_arith)
        requires
            mi * k < num,
            num == k * q + num % k,
            0 <= num % k < k,
            k > 0,
    ;
}

/// The spent points of an exact solution stay under the soft limit of
/// every axis: the observed BP upper end, plus one point.
proof fn lemma_soft_floor_holds(g: GrowRange, t: Target, m: [i32; 5], r: [i32; 5], i: int)
    requires
        0 <= i < 5,
        g.bprate >= 0,
        is_random_tuple(r),
        spec_stats_equal(xvec(g, t.lvl as int, m, r), t.stats()),
    ensures
        m[i] <= soft_floor(g, t, i),
{
    let x = xvec(g, t.lvl as int, m, r);
    let v = raws(x);
    let base = g.spec_base(i, t.lvl as int);
    let up = spec_stat_to_bp(tseq_up(t), i);
    assert(INV_DEN * x[i] == adj_apply(v, i)) by {
        lemma_adj_left_inverse(x);
        if i == 0 {} else if i == 1 {} else if i == 2 {} else if i == 3 {} else {}
    }
    assert(adj_apply(v, i) < up + 1000 * INV_DEN - INV_DEN) by {
        let lo = seq![t.hp - 20, t.mp - 20, t.atk - 20, t.def - 20, t.agi - 20];
        let hi = seq![t.hp - 19, t.mp - 19, t.atk - 19, t.def - 19, t.agi - 19];
        lemma_raw_bounds(g, t, m, r);
        lemma_stat_to_bp_values(t);
        assert forall|j: int| 0 <= j < 5 implies 10000 * #[trigger] lo[j] <= v[j] < 10000 * (lo[j] + 1) && hi[j] == lo[j] + 1 by {
            if j == 0 {} else if j == 1 {} else if j == 2 {} else if j == 3 {} else {}
        }
        lemma_row_upper(v, lo, hi, i);
    }
    assert(x[i] >= base + 1000 * m[i]) by {
        lemma_random_share(g.bprate as int, r);
        assert(0 <= 10 * g.bprate * r[i]);
        if i == 0 {} else if i == 1 {} else if i == 2 {} else if i == 3 {} else {}
    }
    lemma_soft_bound(x[i], base, m[i] as int, up, adj_apply(v, i));
}

/// The spent points of an exact solution are in the range the search
/// gives them.
proof fn lemma_manual_ok_exact(g: GrowRange, t: Target, p: int, opts: GuessOptions, m: [i32; 5], r: [i32; 5])
    requires
        g.bprate >= 0,
        is_random_tuple(r),
        opts.manual.spec_allows(m),
        forall|i: int| 0 <= i < 5 ==> 0 <= #[trigger] m[i],
        m[0] + m[1] + m[2] + m[3] + m[4] == p,
        spec_stats_equal(xvec(g, t.lvl as int, m, r), t.stats()),
    ensures
        manual_ok(g, t, p, opts.manual, m),
{
    reveal(manual_ok);
    let mb = opts.manual;
    assert forall|i: int| 0 <= i < 5 implies man_lo(mb, i) <= #[trigger] m[i] <= man_hi(g, t, p, mb, i) by {
        lemma_soft_floor_holds(g, t, m, r, i);
        assert(mb.spec_lo(i) <= m[i] <= mb.spec_hi(i));
        assert(0 <= m[0] && 0 <= m[1] && 0 <= m[2] && 0 <= m[3] && 0 <= m[4]);
        assert(m[i] <= p) by {
            if i == 0 {} else if i == 1 {} else if i == 2 {} else if i == 3 {} else {}
        }
    }
    assert(man_lo(mb, 0) <= m[0] <= man_hi(g, t, p, mb, 0));
    assert(man_lo(mb, 1) <= m[1] <= man_hi(g, t, p, mb, 1));
    assert(man_lo(mb, 2) <= m[2] <= man_hi(g, t, p, mb, 2));
    assert(man_lo(mb, 3) <= m[3] <= man_hi(g, t, p, mb, 3));
    assert(man_lo(mb, 4) <= m[4] <= man_hi(g, t, p, mb, 4));
}


pub(crate) proof fn lemma_raw_split(x: Seq<int>, y: Seq<int>, w0: int, w1: int, w2: int, w3: int, w4: int, b: int, s: int)
    requires
        0 <= s < 5,
        x[0] == y[0] + w0 && x[1] == y[1] + w1 && x[2] == y[2] + w2 && x[3] == y[3] + w3 && x[4] == y[4] + w4,
        0 <= w0 && 0 <= w1 && 0 <= w2 && 0 <= w3 && 0 <= w4,
        w0 + w1 + w2 + w3 + w4 == 100 * b,
    ensures
        row_min(s) * 100 * b <= raw5(x, s) - raw5(y, s) <= row_max(s) * 100 * b,
{
    lemma_m10_values();
    let q = raw5(x, s) - raw5(y, s);
    let lo = row_min(s);
    let hi = row_max(s);
    if s == 0 {
        assert(q == 80 * w0 + 20 * w1 + 30 * w2 + 30 * w3 + 10 * w4);
        assert(lo == 10 && hi == 80);
    } else if s == 1 {
        assert(q == 10 * w0 + 20 * w1 + 20 * w2 + 20 * w3 + 100 * w4);
        assert(lo == 10 && hi == 100);
    } else if s == 2 {
        assert(q == 2 * w0 + 27 * w1 + 3 * w2 + 3 * w3 + 2 * w4);
        assert(lo == 2 && hi == 27);
    } else if s == 3 {
        assert(q == 2 * w0 + 3 * w1 + 30 * w2 + 3 * w3 + 2 * w4);
        assert(lo == 2 && hi == 30);
    } else {
        assert(q == 1 * w0 + 2 * w1 + 2 * w2 + 20 * w3 + 1 * w4);
        assert(lo == 1 && hi == 20);
    }
    assert(lo * (w0 + w1 + w2 + w3 + w4) <= q <= hi * (w0 + w1 + w2 + w3 + w4));
    assert(lo * 100 * b == lo * (w0 + w1 + w2 + w3 + w4) && hi * 100 * b == hi * (w0 + w1 + w2 + w3 + w4)) by (nonlinear_arith)
        requires
            w0 + w1 + w2 + w3 + w4 == 100 * b,
    ;
}

/// Of a raw stat, the random tiers add between the least and the most
/// coefficient of its row times `100 * bprate`.
pub(crate) proof fn lemma_random_part(g: GrowRange, lvl: int, m: [i32; 5], r: [i32; 5], s: int)
    requires
        0 <= s < 5,
        g.bprate >= 0,
        is_random_tuple(r),
    ensures
        row_min(s) * 100 * g.bprate <= raw5(xvec(g, lvl, m, r), s) - raw5(mvec(g, lvl, m), s) <= row_max(s) * 100 * g.bprate,
{
    let b = g.bprate as int;
    lemma_random_share(b, r);
    let w0 = 10 * b * r[0];
    let w1 = 10 * b * r[1];
    let w2 = 10 * b * r[2];
    let w3 = 10 * b * r[3];
    let w4 = 10 * b * r[4];
    assert(0 <= w0 && 0 <= w1 && 0 <= w2 && 0 <= w3 && 0 <= w4);
    lemma_raw_split(xvec(g, lvl, m, r), mvec(g, lvl, m), w0, w1, w2, w3, w4, b, s);
}

/// The pruning never drops an exact solution: each stat of it lies within
/// what the random tiers can add to the points before them.
proof fn lemma_not_pruned_exact(g: GrowRange, t: Target, m: [i32; 5], r: [i32; 5])
    requires
        g.bprate >= 0,
        is_random_tuple(r),
        spec_stats_equal(xvec(g, t.lvl as int, m, r), t.stats()),
    ensures
        !pruned(g, t, m, MatchMode::Exact, 0),
{
    reveal(pruned);
    let x = xvec(g, t.lvl as int, m, r);
    assert forall|s: int| 0 <= s < 5 implies !#[trigger] prune_stat(g, t, m, MatchMode::Exact, 0, s) by {
        lemma_random_part(g, t.lvl as int, m, r, s);
        assert(hit(x, t.stats(), s));
        lemma_hit_bounds(raw5(x, s), t.stats()[s] as int);
        assert(spec_stat_slack(MatchMode::Exact, 0, g.tiers(), s) == 0);
    }
    assert(!prune_stat(g, t, m, MatchMode::Exact, 0, 0));
    assert(!prune_stat(g, t, m, MatchMode::Exact, 0, 1));
    assert(!prune_stat(g, t, m, MatchMode::Exact, 0, 2));
    assert(!prune_stat(g, t, m, MatchMode::Exact, 0, 3));
    assert(!prune_stat(g, t, m, MatchMode::Exact, 0, 4));
}

/// A pet computed forward is a solution of the exact search over all
/// random tiers: tiers the search visits, spent points its bounds allow
/// (adding up to `p`), a random tuple inside its bounds, and stats that
/// are the floors of the resulting BP.
pub proof fn lemma_forward_pet_is_a_solution(catalog: GrowRange, t: Target, p: int, opts: GuessOptions, g: GrowRange,
    m: [i32; 5], r: [i32; 5])
    requires
        opts.random == RandomSearch::Exhaustive,
        opts.catch is None,
        grow_ok(catalog, opts, g),
        g.bprate >= 0,
        is_random_tuple(r),
        in_random_bounds(opts.random_bounds, r),
        opts.manual.spec_allows(m),
        forall|i: int| 0 <= i < 5 ==> 0 <= #[trigger] m[i],
        m[0] + m[1] + m[2] + m[3] + m[4] == p,
        spec_stats_equal(xvec(g, t.lvl as int, m, r), t.stats()),
    ensures
        is_sol(catalog, t, p, MatchMode::Exact, opts, g, m, r),
{
    reveal(is_sol);
    assert(spec_tol(opts, MatchMode::Exact, t.lvl as int) == 0);
    lemma_sum_ok_exact(g, t, p, m, r);
    lemma_manual_ok_exact(g, t, p, opts, m, r);
    lemma_not_pruned_exact(g, t, m, r);
    assert(random_ok(g, t, m, opts, r)) by {
        reveal(crate::guess::random_ok);
    }
    assert(main_accept(g, t, MatchMode::Exact, 0, m, r) == Some(false));
    assert(catch_accept(g, opts, MatchMode::Exact, 0, r) == Some(false));
}

/// Options that differ from `o` in the match mode alone.
pub open spec fn with_mode(o: GuessOptions, mode: MatchMode) -> GuessOptions {
    GuessOptions { mode, ..o }
}

/// The solutions and their records do not read the options' own match
/// mode, only the one they are asked under.
pub proof fn lemma_mode_field_unread(catalog: GrowRange, t: Target, p: int, mode: MatchMode, o: GuessOptions,
    other: MatchMode, g: GrowRange, m: [i32; 5], r: [i32; 5])
    ensures
        is_sol(catalog, t, p, mode, with_mode(o, other), g, m, r) == is_sol(catalog, t, p, mode, o, g, m, r),
        mk_cand(catalog, t, mode, with_mode(o, other), g, m, r) == mk_cand(catalog, t, mode, o, g, m, r),
{
    reveal(is_sol);
    reveal(random_ok);
    reveal(mk_cand);
}

/// Stats that come out exactly: every rule of the pair accepts them as
/// exact, so the record is the same under either.
proof fn lemma_exact_record(catalog: GrowRange, t: Target, opts: GuessOptions, g: GrowRange, m: [i32; 5], r: [i32; 5])
    requires
        spec_stats_equal(xvec(g, t.lvl as int, m, r), t.stats()),
        match opts.catch {
            None => true,
            Some(c) => spec_stats_equal(crate::guess::catch_vec(g, c.lvl as int, r), c.stats()),
        },
    ensures
        mk_cand(catalog, t, MatchMode::Exact, opts, g, m, r) == mk_cand(catalog, t, MatchMode::Observer, opts, g, m, r),
        main_accept(g, t, MatchMode::Exact, 0, m, r) == Some(false),
        catch_accept(g, opts, MatchMode::Exact, 0, r) == Some(false),
{
    reveal(mk_cand);
}

/// An exact solution is one of the observer rule too, under the same
/// record, not marked approximate.
proof fn lemma_exact_is_plain_observer(catalog: GrowRange, t: Target, p: int, opts: GuessOptions,
    g: GrowRange, m: [i32; 5], r: [i32; 5])
    requires
        spec_tol(opts, MatchMode::Observer, t.lvl as int) >= 0,
        is_sol(catalog, t, p, MatchMode::Exact, with_mode(opts, MatchMode::Exact), g, m, r),
    ensures
        is_sol(catalog, t, p, MatchMode::Observer, with_mode(opts, MatchMode::Observer), g, m, r),
        mk_cand(catalog, t, MatchMode::Observer, with_mode(opts, MatchMode::Observer), g, m, r)
            == mk_cand(catalog, t, MatchMode::Exact, with_mode(opts, MatchMode::Exact), g, m, r),
        !mk_cand(catalog, t, MatchMode::Exact, with_mode(opts, MatchMode::Exact), g, m, r).approximate,
{
    lemma_mode_field_unread(catalog, t, p, MatchMode::Exact, opts, MatchMode::Exact, g, m, r);
    lemma_mode_field_unread(catalog, t, p, MatchMode::Observer, opts, MatchMode::Observer, g, m, r);
    crate::guess::lemma_observer_covers_exact(catalog, t, p, opts, g, m, r);
    assert(main_accept(g, t, MatchMode::Exact, 0, m, r) is Some && catch_accept(g, opts, MatchMode::Exact, 0, r) is Some) by {
        reveal(is_sol);
    }
    lemma_exact_record(catalog, t, opts, g, m, r);
    reveal(mk_cand);
}

/// A solution of the observer rule not marked approximate is an exact one,
/// under the same record.
proof fn lemma_plain_observer_is_exact(catalog: GrowRange, t: Target, p: int, opts: GuessOptions,
    g: GrowRange, m: [i32; 5], r: [i32; 5])
    requires
        is_sol(catalog, t, p, MatchMode::Observer, with_mode(opts, MatchMode::Observer), g, m, r),
        !mk_cand(catalog, t, MatchMode::Observer, with_mode(opts, MatchMode::Observer), g, m, r).approximate,
        is_random_tuple(r),
        g.bprate >= 0,
    ensures
        is_sol(catalog, t, p, MatchMode::Exact, with_mode(opts, MatchMode::Exact), g, m, r),
        mk_cand(catalog, t, MatchMode::Observer, with_mode(opts, MatchMode::Observer), g, m, r)
            == mk_cand(catalog, t, MatchMode::Exact, with_mode(opts, MatchMode::Exact), g, m, r),
{
    lemma_mode_field_unread(catalog, t, p, MatchMode::Exact, opts, MatchMode::Exact, g, m, r);
    lemma_mode_field_unread(catalog, t, p, MatchMode::Observer, opts, MatchMode::Observer, g, m, r);
    let tol = spec_tol(opts, MatchMode::Observer, t.lvl as int);
    assert(main_accept(g, t, MatchMode::Observer, tol, m, r) == Some(false)
        && catch_accept(g, opts, MatchMode::Observer, tol, r) == Some(false)) by {
        reveal(is_sol);
        reveal(mk_cand);
    }
    lemma_exact_record(catalog, t, opts, g, m, r);
    assert(m[0] + m[1] + m[2] + m[3] + m[4] == p) by {
        reveal(is_sol);
        reveal(manual_ok);
    }
    lemma_sum_ok_exact(g, t, p, m, r);
    lemma_not_pruned_exact(g, t, m, r);
    assert(is_sol(catalog, t, p, MatchMode::Exact, opts, g, m, r)) by {
        reveal(is_sol);
    }
}

/// Dropping records from a list in key order leaves it in key order, and
/// keeps nothing that was not there.
proof fn lemma_filter_keeps_order(s: Seq<Candidate>, keep: spec_fn(Candidate) -> bool)
    requires
        sorted_c(s),
    ensures
        sorted_c(s.filter(keep)),
    decreases s.len(),
{
    reveal(Seq::filter);
    if s.len() > 0 {
        let d = s.drop_last();
        assert(sorted_c(d));
        lemma_filter_keeps_order(d, keep);
        let f = d.filter(keep);
        if keep(s.last()) {
            assert forall|i: int| 0 <= i < f.len() implies #[trigger] key_lt(f[i], s.last()) by {
                assert(f.contains(f[i]));
                d.lemma_filter_contains_rev(keep, f[i]);
                let k = choose|k: int| 0 <= k < d.len() && d[k] == f[i];
                assert(s[k] == f[i]);
            }
            let o = f.push(s.last());
            assert forall|a: int, b: int| 0 <= a < b < o.len() implies key_lt(#[trigger] o[a], #[trigger] o[b]) by {
                if b < f.len() {
                    assert(o[a] == f[a] && o[b] == f[b]);
                } else {
                    assert(o[a] == f[a]);
                }
            }
        }
    }
}

/// Under the observer rule, with a tolerance not below zero, a guess for
/// the same number of spent points loses no exact answer and marks none of
/// them approximate: every candidate of the exact guess is one of the
/// observer guess, and the observer candidates not marked approximate are,
/// in order, exactly the candidates of the exact guess. (Ability rates are
/// taken not negative, as every catalog pet's is.)
pub proof fn lemma_observer_keeps_the_exact_answer(catalog: GrowRange, t: Target, opts: GuessOptions,
    e: GuessOutcome, w: GuessOutcome)
    requires
        solve_result(catalog, t, with_mode(opts, MatchMode::Exact), e),
        solve_result(catalog, t, with_mode(opts, MatchMode::Observer), w),
        opts.limit == 0,
        e.point == w.point,
        spec_tol(opts, MatchMode::Observer, t.lvl as int) >= 0,
        catalog.bprate >= 0,
        opts.target_grow matches Some(tg) ==> tg.bprate >= 0,
    ensures
        forall|i: int| 0 <= i < e.candidates@.len() ==> cin(w.candidates@, #[trigger] e.candidates@[i]),
        w.candidates@.filter(|c: Candidate| !c.approximate) == e.candidates@,
{
    let oe = with_mode(opts, MatchMode::Exact);
    let ow = with_mode(opts, MatchMode::Observer);
    let plain = |c: Candidate| !c.approximate;
    let f = w.candidates@.filter(plain);
    let full = spec_full_point(t, opts);
    assert(spec_full_point(t, oe) == full && spec_full_point(t, ow) == full);
    let le = ladder(MatchMode::Exact, t.lvl, full as i32);
    let lw = ladder(MatchMode::Observer, t.lvl, full as i32);
    assert(le.len() == lw.len());
    assert forall|k: int| 0 <= k < le.len() implies #[trigger] le[k].0 == lw[k].0 && le[k].1 == MatchMode::Exact
        && lw[k].1 == MatchMode::Observer by {}
    assert(spec_tol(ow, MatchMode::Observer, t.lvl as int) == spec_tol(opts, MatchMode::Observer, t.lvl as int));
    if e.candidates@.len() > 0 {
        let ke = choose|k: int| 0 <= k < le.len() && le[k] == (e.point, e.mode) && e.point >= 0
            && search_result(catalog, t, e.point as int, e.mode, oe, e.candidates@)
            && forall|j: int| 0 <= j < k && le[j].0 >= 0 ==> !has_sol(catalog, t, le[j].0 as int, le[j].1, oe);
        let p = e.point as int;
        assert(e.mode == MatchMode::Exact);
        let c0 = e.candidates@[0];
        lemma_exact_is_plain_observer(catalog, t, p, opts, c0.grow, c0.manual, c0.random);
        assert(has_sol(catalog, t, lw[ke].0 as int, lw[ke].1, ow));
        assert(w.candidates@.len() > 0);
        let kw = choose|k: int| 0 <= k < lw.len() && lw[k] == (w.point, w.mode) && w.point >= 0
            && search_result(catalog, t, w.point as int, w.mode, ow, w.candidates@)
            && forall|j: int| 0 <= j < k && lw[j].0 >= 0 ==> !has_sol(catalog, t, lw[j].0 as int, lw[j].1, ow);
        assert(w.mode == MatchMode::Observer);
        // every exact solution is a plain observer candidate
        assert forall|g: GrowRange, m: [i32; 5], r: [i32; 5]| is_sol(catalog, t, p, MatchMode::Exact, oe, g, m, r)
            implies #[trigger] cin(f, mk_cand(catalog, t, MatchMode::Exact, oe, g, m, r))
                && cin(w.candidates@, mk_cand(catalog, t, MatchMode::Exact, oe, g, m, r)) by {
            lemma_exact_is_plain_observer(catalog, t, p, opts, g, m, r);
            let c = mk_cand(catalog, t, MatchMode::Exact, oe, g, m, r);
            assert(covered(w.candidates@, mk_cand(catalog, t, MatchMode::Observer, ow, g, m, r), 0));
            let k = choose|k: int| 0 <= k < w.candidates@.len() && w.candidates@[k] == c;
            w.candidates@.lemma_filter_contains(plain, k);
            assert(f.contains(c));
        }
        // every plain observer candidate is an exact solution
        assert forall|i: int| 0 <= i < f.len() implies
            #[trigger] f[i] == mk_cand(catalog, t, MatchMode::Exact, oe, f[i].grow, f[i].manual, f[i].random)
                && is_sol(catalog, t, p, MatchMode::Exact, oe, f[i].grow, f[i].manual, f[i].random) by {
            let c = f[i];
            assert(f.contains(c));
            w.candidates@.lemma_filter_contains_rev(plain, c);
            w.candidates@.lemma_filter_pred(plain, i);
            let j = choose|j: int| 0 <= j < w.candidates@.len() && w.candidates@[j] == c;
            assert(is_sol(catalog, t, p, MatchMode::Observer, ow, c.grow, c.manual, c.random));
            assert(c == mk_cand(catalog, t, MatchMode::Observer, ow, c.grow, c.manual, c.random));
            assert(is_random_tuple(c.random));
            assert(grow_ok(catalog, ow, c.grow)) by {
                reveal(is_sol);
            }
            lemma_plain_observer_is_exact(catalog, t, p, opts, c.grow, c.manual, c.random);
        }
        lemma_filter_keeps_order(w.candidates@, plain);
        assert(search_result(catalog, t, p, MatchMode::Exact, oe, f));
        crate::answer::lemma_search_answer_unique(catalog, t, p, MatchMode::Exact, oe, f, e.candidates@);
        assert forall|i: int| 0 <= i < e.candidates@.len() implies cin(w.candidates@, #[trigger] e.candidates@[i]) by {
            let c = e.candidates@[i];
            assert(is_sol(catalog, t, p, MatchMode::Exact, oe, c.grow, c.manual, c.random));
            assert(cin(w.candidates@, mk_cand(catalog, t, MatchMode::Exact, oe, c.grow, c.manual, c.random)));
        }
    } else {
        if f.len() > 0 {
            let i = 0int;
            let c = f[i];
            assert(f.contains(c));
            w.candidates@.lemma_filter_contains_rev(plain, c);
            w.candidates@.lemma_filter_pred(plain, i);
            let kw = choose|k: int| 0 <= k < lw.len() && lw[k] == (w.point, w.mode) && w.point >= 0
                && search_result(catalog, t, w.point as int, w.mode, ow, w.candidates@)
                && forall|j: int| 0 <= j < k && lw[j].0 >= 0 ==> !has_sol(catalog, t, lw[j].0 as int, lw[j].1, ow);
            let p = w.point as int;
            let j = choose|j: int| 0 <= j < w.candidates@.len() && w.candidates@[j] == c;
            assert(is_sol(catalog, t, p, MatchMode::Observer, ow, c.grow, c.manual, c.random));
            assert(c == mk_cand(catalog, t, MatchMode::Observer, ow, c.grow, c.manual, c.random));
            assert(is_random_tuple(c.random));
            assert(grow_ok(catalog, ow, c.grow)) by {
                reveal(is_sol);
            }
            lemma_plain_observer_is_exact(catalog, t, p, opts, c.grow, c.manual, c.random);
            assert(has_sol(catalog, t, le[kw].0 as int, le[kw].1, oe));
        }
        assert(f =~= e.candidates@);
    }
}

/// The match mode of the first rung a guess tries: `Auto` starts exact.
pub open spec fn first_mode(mode: MatchMode) -> MatchMode {
    if mode == MatchMode::Auto { MatchMode::Exact } else { mode }
}

/// A guess over all random tiers, with no cap on the count, finds every
/// pet computed forward with the points the guess assumes spent, whatever
/// the match mode, as long as
/// the tolerance of its first rung is not negative: it answers with those
/// points under that rung's mode and lists that pet's tiers, spent points
/// and random tiers.
pub proof fn lemma_guess_finds_the_pet(catalog: GrowRange, t: Target, opts: GuessOptions, out: GuessOutcome,
    g: GrowRange, m: [i32; 5], r: [i32; 5])
    requires
        solve_result(catalog, t, opts, out),
        opts.limit == 0,
        spec_tol(opts, first_mode(opts.mode), t.lvl as int) >= 0,
        0 <= spec_full_point(t, opts) <= i32::MAX,
        opts.random == RandomSearch::Exhaustive,
        opts.catch is None,
        grow_ok(catalog, opts, g),
        g.bprate >= 0,
        is_random_tuple(r),
        in_random_bounds(opts.random_bounds, r),
        opts.manual.spec_allows(m),
        forall|i: int| 0 <= i < 5 ==> 0 <= #[trigger] m[i],
        m[0] + m[1] + m[2] + m[3] + m[4] == spec_full_point(t, opts),
        spec_stats_equal(xvec(g, t.lvl as int, m, r), t.stats()),
    ensures
        out.point == spec_full_point(t, opts),
        out.mode == first_mode(opts.mode),
        cin(out.candidates@, mk_cand(catalog, t, first_mode(opts.mode), opts, g, m, r)),
{
    let full = spec_full_point(t, opts);
    let mode = first_mode(opts.mode);
    lemma_forward_pet_is_a_solution(catalog, t, full, opts, g, m, r);
    if mode == MatchMode::Observer {
        crate::guess::lemma_observer_covers_exact(catalog, t, full, opts, g, m, r);
    } else if mode == MatchMode::Tolerant {
        crate::guess::lemma_tolerant_covers_exact(catalog, t, full, opts, g, m, r);
    }
    assert(is_sol(catalog, t, full, mode, opts, g, m, r));
    let l = ladder(opts.mode, t.lvl, full as i32);
    assert(l[0] == (full as i32, mode));
    assert(has_sol(catalog, t, full, mode, opts));
    assert(l[0].0 >= 0);
    assert(out.candidates@.len() > 0);
    let k = choose|k: int| 0 <= k < l.len() && l[k] == (out.point, out.mode) && out.point >= 0
        && search_result(catalog, t, out.point as int, out.mode, opts, out.candidates@)
        && forall|j: int| 0 <= j < k && l[j].0 >= 0 ==> !has_sol(catalog, t, l[j].0 as int, l[j].1, opts);
    assert(k == 0);
    assert(covered(out.candidates@, mk_cand(catalog, t, mode, opts, g, m, r), opts.limit));
}

} // verus!
