//! The solver: from observed stats back to the actual tiers, the spent level
//! points and the random tiers.
//!
//! A pet's BP at a level is, per axis,
//! `tier * bprate + rate(tier) * (lvl - 1) + bprate * random + manual`,
//! with the random tiers adding up to 10 and the manual points adding up to
//! the points spent. The solver enumerates the tiers (the catalog value minus
//! a loss per axis), the manual points and the random tiers, and keeps those
//! whose forward calculation matches the observed stats.
use vstd::prelude::*;
use crate::arith::div_floor;
use crate::bp::{Bp, Stat, m10, spec_raw, raw_stat, BP_LIMIT, bp_in_range};
use crate::enumerate::{sum_tuples, in_sum_box, lex_sorted, holds, fits_i32, lex_lt5};
use crate::grow::{GrowRange, LossBounds, RandomBounds, RANDOM_POOL, MAX_LOST_PER_AXIS};
use crate::matrix::{arr_seq, adj_col, spec_stat_to_bp, INV_DEN, minv8_apply};
use crate::tolerance::{spec_nudge_count, spec_nudge, tier_nudges, level_span_tolerance, spec_adaptive_tolerance, TOL_MAX};

verus! {

/// Observed pet: level plus five stats in display order hp mp atk def agi.
#[derive(Debug, Clone, Copy, PartialEq, Eq)]
pub struct Target {
    pub lvl: i32,
    pub hp: i64,
    pub mp: i64,
    pub atk: i64,
    pub def: i64,
    pub agi: i64,
}

impl Target {
    pub open spec fn stats(self) -> [i64; 5] {
        [self.hp, self.mp, self.atk, self.def, self.agi]
    }

    pub fn new(lvl: i32, hp: i64, mp: i64, atk: i64, def: i64, agi: i64) -> (t: Self)
        ensures
            t == (Target { lvl, hp, mp, atk, def, agi }),
    {
        Target { lvl, hp, mp, atk, def, agi }
    }

    /// Stats `[hp, mp, atk, def, agi]`.
    pub fn to_array(self) -> (a: [i64; 5])
        ensures
            a == self.stats(),
    {
        [self.hp, self.mp, self.atk, self.def, self.agi]
    }

    /// Every stat plus one: the upper end of the interval each floored stat stands for.
    pub fn plus_one(self) -> (t: Self)
        requires
            self.hp < i64::MAX,
            self.mp < i64::MAX,
            self.atk < i64::MAX,
            self.def < i64::MAX,
            self.agi < i64::MAX,
        ensures
            t == (Target {
                lvl: self.lvl,
                hp: (self.hp + 1) as i64,
                mp: (self.mp + 1) as i64,
                atk: (self.atk + 1) as i64,
                def: (self.def + 1) as i64,
                agi: (self.agi + 1) as i64,
            }),
    {
        Target::new(self.lvl, self.hp + 1, self.mp + 1, self.atk + 1, self.def + 1, self.agi + 1)
    }
}

/// How observed stats are matched.
#[derive(Debug, Clone, Copy, PartialEq, Eq)]
pub enum MatchMode {
    /// The floored stats equal the observed ones.
    Exact,
    /// Axes whose tier sits on an irregular spot of the rate table may be
    /// shifted by the tolerance before flooring.
    Observer,
    /// Every raw stat may stray from its interval by the tolerance.
    Tolerant,
    /// Exact, then Observer, then Tolerant: the first that finds anything.
    Auto,
}

impl Default for MatchMode {
    fn default() -> (m: Self)
        ensures
            m == MatchMode::Observer,
    {
        MatchMode::Observer
    }
}

/// How the random tiers are searched.
#[derive(Debug, Clone, Copy, PartialEq, Eq)]
pub enum RandomSearch {
    /// Around the algebraic first guess, `radius` either way on the first four axes.
    Ball { radius: i32 },
    /// Every tuple adding up to 10.
    Exhaustive,
}

impl Default for RandomSearch {
    fn default() -> (r: Self)
        ensures
            r == (RandomSearch::Ball { radius: 1 }),
    {
        RandomSearch::Ball { radius: 1 }
    }
}

/// Per-axis bounds `[lo, hi]` on the spent level points, axis order `[HP, ATK, DEF, AGI, MP]`.
#[derive(Debug, Clone, Copy, PartialEq, Eq)]
pub struct ManualBounds(pub [[i32; 2]; 5]);

impl Default for ManualBounds {
    fn default() -> (b: Self)
        ensures
            b == ManualBounds::spec_free(),
    {
        ManualBounds::free()
    }
}

impl ManualBounds {
    pub open spec fn spec_lo(self, i: int) -> int {
        self.0[i][0] as int
    }

    pub open spec fn spec_hi(self, i: int) -> int {
        self.0[i][1] as int
    }

    pub open spec fn spec_free() -> ManualBounds {
        ManualBounds([[0, i32::MAX], [0, i32::MAX], [0, i32::MAX], [0, i32::MAX], [0, i32::MAX]])
    }

    pub open spec fn spec_allows(self, m: [i32; 5]) -> bool {
        forall|i: int| 0 <= i < 5 ==> self.spec_lo(i) <= #[trigger] m[i] <= self.spec_hi(i)
    }

    /// Per-axis `[lo, hi]`.
    pub fn new(bounds: [[i32; 2]; 5]) -> (b: Self)
        ensures
            b.0 == bounds,
    {
        ManualBounds(bounds)
    }

    /// No limit.
    pub fn free() -> (b: Self)
        ensures
            b == Self::spec_free(),
    {
        let b = ManualBounds([[0, i32::MAX]; 5]);
        assert(b.0 =~= Self::spec_free().0);
        b
    }

    /// No point spent anywhere.
    pub fn zero() -> (b: Self)
        ensures
            forall|i: int| 0 <= i < 5 ==> #[trigger] b.0[i] == [0i32, 0i32],
    {
        ManualBounds([[0, 0]; 5])
    }

    /// Every point on axis `axis` (an axis past the fifth leaves all at zero).
    pub fn single(axis: usize) -> (b: Self)
        ensures
            forall|i: int| 0 <= i < 5 ==> #[trigger] b.0[i] == if i == axis { [0, i32::MAX] } else { [0i32, 0i32] },
    {
        let mut b = [[0i32, 0i32]; 5];
        if axis < 5 {
            b[axis] = [0, i32::MAX];
        }
        ManualBounds(b)
    }

    /// Exactly these points per axis.
    pub fn fixed(points: [i32; 5]) -> (b: Self)
        ensures
            forall|i: int| 0 <= i < 5 ==> #[trigger] b.0[i] == [points[i], points[i]],
    {
        let b = ManualBounds([
            [points[0], points[0]],
            [points[1], points[1]],
            [points[2], points[2]],
            [points[3], points[3]],
            [points[4], points[4]],
        ]);
        assert forall|i: int| 0 <= i < 5 implies #[trigger] b.0[i] == [points[i], points[i]] by {
            if i == 0 {} else if i == 1 {} else if i == 2 {} else if i == 3 {} else {}
        }
        b
    }

    /// Points only on the chosen axes, any number of them.
    pub fn mixed(axes: [bool; 5]) -> (b: Self)
        ensures
            forall|i: int| 0 <= i < 5 ==> #[trigger] b.0[i] == if axes[i] { [0, i32::MAX] } else { [0i32, 0i32] },
    {
        let b = ManualBounds([
            if axes[0] { [0, i32::MAX] } else { [0, 0] },
            if axes[1] { [0, i32::MAX] } else { [0, 0] },
            if axes[2] { [0, i32::MAX] } else { [0, 0] },
            if axes[3] { [0, i32::MAX] } else { [0, 0] },
            if axes[4] { [0, i32::MAX] } else { [0, 0] },
        ]);
        assert forall|i: int| 0 <= i < 5 implies #[trigger] b.0[i] == if axes[i] { [0, i32::MAX] } else { [0i32, 0i32] } by {
            if i == 0 {} else if i == 1 {} else if i == 2 {} else if i == 3 {} else {}
        }
        b
    }

    pub fn lo(&self, axis: usize) -> (r: i32)
        requires
            axis < 5,
        ensures
            r == self.spec_lo(axis as int),
    {
        self.0[axis][0]
    }

    pub fn hi(&self, axis: usize) -> (r: i32)
        requires
            axis < 5,
        ensures
            r == self.spec_hi(axis as int),
    {
        self.0[axis][1]
    }

    /// Whether these spent points are within the bounds.
    pub fn allows(&self, manual: [i32; 5]) -> (r: bool)
        ensures
            r == self.spec_allows(manual),
    {
        let r = manual[0] >= self.lo(0) && manual[0] <= self.hi(0) && manual[1] >= self.lo(1)
            && manual[1] <= self.hi(1) && manual[2] >= self.lo(2) && manual[2] <= self.hi(2)
            && manual[3] >= self.lo(3) && manual[3] <= self.hi(3) && manual[4] >= self.lo(4)
            && manual[4] <= self.hi(4);
        proof {
            if r {
                assert forall|i: int| 0 <= i < 5 implies self.spec_lo(i) <= #[trigger] manual[i] <= self.spec_hi(i) by {
                    if i == 0 {} else if i == 1 {} else if i == 2 {} else if i == 3 {} else {}
                }
            }
        }
        r
    }

    pub open spec fn spec_min_total(self) -> int {
        self.spec_lo(0) + self.spec_lo(1) + self.spec_lo(2) + self.spec_lo(3) + self.spec_lo(4)
    }

    /// Sum of the lower bounds: fewer points than this can never fit.
    pub fn min_total(&self) -> (r: i32)
        requires
            i32::MIN <= self.spec_min_total() <= i32::MAX,
        ensures
            r == self.spec_min_total(),
    {
        let s: i64 = self.lo(0) as i64 + self.lo(1) as i64 + self.lo(2) as i64 + self.lo(3) as i64 + self.lo(4) as i64;
        s as i32
    }
}

/// Every random tuple adding up to `RANDOM_POOL`, in lexicographic order (1001 of them).
pub fn for_each_random_tuple() -> (out: Vec<[i32; 5]>)
    ensures
        lex_sorted(out@),
        forall|m: int| 0 <= m < out@.len() ==> is_random_tuple(#[trigger] out@[m]),
        forall|t: [i32; 5]| is_random_tuple(t) ==> holds(out@, t),
{
    let b = RandomBounds::default();
    assert(b.lo(0) == 0);
    assert(b.hi(0) == RANDOM_POOL);
    assert(b.lo(1) == 0 && b.hi(1) == RANDOM_POOL);
    assert(b.lo(2) == 0 && b.hi(2) == RANDOM_POOL);
    assert(b.lo(3) == 0 && b.hi(3) == RANDOM_POOL);
    assert(b.lo(4) == 0 && b.hi(4) == RANDOM_POOL);
    let out = for_each_random_tuple_within(b);
    proof {
        assert forall|t: [i32; 5]| is_random_tuple(t) <==> in_random_bounds(b, t) by {}
    }
    out
}

/// The tuples inside bounds are, in order, the full list of random tuples
/// with those outside the bounds left out: what `for_each_random_tuple_within`
/// lists is `for_each_random_tuple` filtered by the bounds.
pub proof fn lemma_tuples_within_are_the_filtered_list(b: RandomBounds, all: Seq<[i32; 5]>, within: Seq<[i32; 5]>)
    requires
        forall|i: int| 0 <= i < 5 ==> 0 <= #[trigger] b.lo(i) <= b.hi(i) <= RANDOM_POOL,
        lex_sorted(all),
        forall|m: int| 0 <= m < all.len() ==> is_random_tuple(#[trigger] all[m]),
        forall|t: [i32; 5]| is_random_tuple(t) ==> holds(all, t),
        lex_sorted(within),
        forall|m: int| 0 <= m < within.len() ==> in_random_bounds(b, #[trigger] within[m]),
        forall|t: [i32; 5]| in_random_bounds(b, t) ==> holds(within, t),
    ensures
        within == all.filter(|t: [i32; 5]| in_random_bounds(b, t)),
{
    let keep = |t: [i32; 5]| in_random_bounds(b, t);
    let f = all.filter(keep);
    crate::enumerate::lemma_lex_filter_sorted(all, keep);
    assert(b.lo(0) >= 0 && b.lo(1) >= 0 && b.lo(2) >= 0 && b.lo(3) >= 0 && b.lo(4) >= 0);
    assert forall|t: [i32; 5]| holds(f, t) <==> holds(within, t) by {
        if holds(f, t) {
            let q = choose|q: int| 0 <= q < f.len() && f[q] == t;
            all.lemma_filter_pred(keep, q);
        }
        if holds(within, t) {
            assert(in_random_bounds(b, t));
            assert(is_random_tuple(t));
            let q = choose|q: int| 0 <= q < all.len() && all[q] == t;
            all.lemma_filter_contains(keep, q);
            assert(f.contains(t));
        }
    }
    crate::enumerate::lemma_lex_sorted_unique(f, within);
}

/// Nonnegative and adding up to `RANDOM_POOL`.
pub open spec fn is_random_tuple(t: [i32; 5]) -> bool {
    &&& 0 <= t[0] && 0 <= t[1] && 0 <= t[2] && 0 <= t[3] && 0 <= t[4]
    &&& t[0] + t[1] + t[2] + t[3] + t[4] == RANDOM_POOL
}

/// Inside the per-axis random bounds and adding up to `RANDOM_POOL`.
pub open spec fn in_random_bounds(b: RandomBounds, t: [i32; 5]) -> bool {
    &&& b.lo(0) <= t[0] <= b.hi(0)
    &&& b.lo(1) <= t[1] <= b.hi(1)
    &&& b.lo(2) <= t[2] <= b.hi(2)
    &&& b.lo(3) <= t[3] <= b.hi(3)
    &&& b.lo(4) <= t[4] <= b.hi(4)
    &&& t[0] + t[1] + t[2] + t[3] + t[4] == RANDOM_POOL
}

/// Every random tuple inside `b` adding up to `RANDOM_POOL`, in lexicographic order.
pub fn for_each_random_tuple_within(b: RandomBounds) -> (out: Vec<[i32; 5]>)
    ensures
        lex_sorted(out@),
        forall|m: int| 0 <= m < out@.len() ==> in_random_bounds(b, #[trigger] out@[m]),
        forall|t: [i32; 5]| in_random_bounds(b, t) ==> holds(out@, t),
{
    let a0 = b.axis(0);
    let a1 = b.axis(1);
    let a2 = b.axis(2);
    let a3 = b.axis(3);
    let a4 = b.axis(4);
    let lo: [i64; 5] = [a0[0] as i64, a1[0] as i64, a2[0] as i64, a3[0] as i64, a4[0] as i64];
    let hi: [i64; 5] = [a0[1] as i64, a1[1] as i64, a2[1] as i64, a3[1] as i64, a4[1] as i64];
    assert(fits_i32(lo, hi)) by {
        assert forall|j: int| 0 <= j < 5 implies i32::MIN <= #[trigger] lo[j] <= i32::MAX && i32::MIN <= hi[j] <= i32::MAX by {
            if j == 0 {} else if j == 1 {} else if j == 2 {} else if j == 3 {} else {}
        }
    }
    let out = sum_tuples(lo, hi, RANDOM_POOL as i64);
    proof {
        assert forall|t: [i32; 5]| in_random_bounds(b, t) <==> in_sum_box(lo, hi, 10, t) by {
            if in_random_bounds(b, t) {
                crate::enumerate::lemma_mk_box(lo, hi, t);
            }
            if in_sum_box(lo, hi, 10, t) {
                crate::enumerate::lemma_box_facts(lo, hi, t);
            }
        }
    }
    out
}

/// Per-axis possible loss `[fewest, most]`: the catalog tiers minus the
/// candidate's, where a candidate above the catalog value on some axes
/// shifts the range of the others.
pub open spec fn spec_possible_lost(g: [i32; 5], cat: [i32; 5], i: int) -> (int, int) {
    let over = |k: int| if g[k] - cat[k] > 0 { g[k] - cat[k] } else { 0 };
    let sure = over(0) + over(1) + over(2) + over(3) + over(4);
    let other = sure - (g[i] - cat[i]);
    let local_max = 10 - other;
    let lo = if cat[i] - g[i] > 0 { cat[i] - g[i] } else { 0 };
    let hi = if cat[i] + local_max - g[i] < MAX_LOST_PER_AXIS { cat[i] + local_max - g[i] } else { MAX_LOST_PER_AXIS as int };
    (if lo > i32::MAX { i32::MAX as int } else { lo }, if hi < i32::MIN { i32::MIN as int } else { hi })
}

/// The fewest tiers an axis can have lost is how far the candidate sits
/// under the catalog there: a candidate `k >= 0` tiers under the catalog on
/// axis `i` has certainly lost `k` of them and no more is certain, one at
/// or above the catalog may have lost none; and over the five axes the
/// certain losses add up to at least the candidate's whole loss, catalog
/// total minus candidate total.
pub proof fn lemma_fewest_lost_is_the_drop(g: [i32; 5], cat: [i32; 5])
    requires
        forall|i: int| 0 <= i < 5 ==> #[trigger] cat[i] - g[i] <= i32::MAX,
    ensures
        forall|i: int| 0 <= i < 5 ==> 0 <= #[trigger] spec_possible_lost(g, cat, i).0,
        forall|i: int| 0 <= i < 5 ==> cat[i] - g[i] <= #[trigger] spec_possible_lost(g, cat, i).0,
        forall|i: int| 0 <= i < 5 && g[i] <= cat[i] ==> #[trigger] spec_possible_lost(g, cat, i).0 == cat[i] - g[i],
        forall|i: int| 0 <= i < 5 && g[i] >= cat[i] ==> #[trigger] spec_possible_lost(g, cat, i).0 == 0,
        spec_possible_lost(g, cat, 0).0 + spec_possible_lost(g, cat, 1).0 + spec_possible_lost(g, cat, 2).0
            + spec_possible_lost(g, cat, 3).0 + spec_possible_lost(g, cat, 4).0
            >= (cat[0] + cat[1] + cat[2] + cat[3] + cat[4]) - (g[0] + g[1] + g[2] + g[3] + g[4]),
{
    assert(cat[0] - g[0] <= i32::MAX && cat[1] - g[1] <= i32::MAX && cat[2] - g[2] <= i32::MAX
        && cat[3] - g[3] <= i32::MAX && cat[4] - g[4] <= i32::MAX);
}

/// In a candidate's record, the fewest tiers lost on each axis is at least
/// how far its tier sits under the catalog's, never negative, and over the
/// five axes at least the tiers it lost in all (`lost_bp`).
pub proof fn lemma_record_counts_every_lost_tier(catalog: GrowRange, t: Target, mode: MatchMode, opts: GuessOptions,
    g: GrowRange, m: [i32; 5], r: [i32; 5])
    requires
        forall|i: int| 0 <= i < 5 ==> #[trigger] catalog.tiers()[i] - g.tiers()[i] <= i32::MAX,
        i32::MIN <= catalog.spec_sum() - g.spec_sum() <= i32::MAX,
    ensures
        ({
            let c = mk_cand(catalog, t, mode, opts, g, m, r);
            &&& forall|i: int| 0 <= i < 5 ==> 0 <= #[trigger] c.possible_lost[i][0]
                && catalog.tiers()[i] - c.grow.tiers()[i] <= c.possible_lost[i][0]
            &&& c.possible_lost[0][0] + c.possible_lost[1][0] + c.possible_lost[2][0] + c.possible_lost[3][0]
                + c.possible_lost[4][0] >= c.lost_bp
        }),
{
    reveal(mk_cand);
    let gt = g.tiers();
    let ct = catalog.tiers();
    lemma_fewest_lost_is_the_drop(gt, ct);
    assert forall|i: int| 0 <= i < 5 implies 0 <= #[trigger] spec_possible_lost(gt, ct, i).0 <= i32::MAX by {}
    let c = mk_cand(catalog, t, mode, opts, g, m, r);
    assert(c.possible_lost == lost_arr(g, catalog));
    assert forall|i: int| 0 <= i < 5 implies #[trigger] c.possible_lost[i][0] == spec_possible_lost(gt, ct, i).0 by {
        if i == 0 {} else if i == 1 {} else if i == 2 {} else if i == 3 {} else {}
    }
    assert(c.lost_bp == catalog.spec_sum() - g.spec_sum());
}

fn possible_lost_axis(g: [i32; 5], cat: [i32; 5], sure: i64, i: usize) -> (r: [i32; 2])
    requires
        i < 5,
        sure == ({
            let over = |k: int| if g[k] - cat[k] > 0 { g[k] - cat[k] } else { 0 };
            over(0) + over(1) + over(2) + over(3) + over(4)
        }),
    ensures
        r[0] == spec_possible_lost(g, cat, i as int).0,
        r[1] == spec_possible_lost(g, cat, i as int).1,
{
    let other: i64 = sure - (g[i] as i64 - cat[i] as i64);
    let local_max: i64 = 10 - other;
    let lo: i64 = if cat[i] as i64 - g[i] as i64 > 0 { cat[i] as i64 - g[i] as i64 } else { 0 };
    let h: i64 = cat[i] as i64 + local_max - g[i] as i64;
    let hi: i64 = if h < MAX_LOST_PER_AXIS as i64 { h } else { MAX_LOST_PER_AXIS as i64 };
    [if lo > i32::MAX as i64 { i32::MAX } else { lo as i32 }, if hi < i32::MIN as i64 { i32::MIN } else { hi as i32 }]
}

/// Per-axis possible loss `[fewest, most]` of the candidate tiers `grow`
/// against the catalog tiers.
pub fn possible_lost_range(grow: GrowRange, catalog: GrowRange) -> (r: [[i32; 2]; 5])
    ensures
        forall|i: int| 0 <= i < 5 ==> #[trigger] r[i][0] == spec_possible_lost(grow.tiers(), catalog.tiers(), i).0
            && r[i][1] == spec_possible_lost(grow.tiers(), catalog.tiers(), i).1,
        forall|i: int| 0 <= i < 5 ==> 0 <= #[trigger] r[i][0] && r[i][1] <= MAX_LOST_PER_AXIS,
{
    let g = grow.to_array();
    let c = catalog.to_array();
    let o0: i64 = if g[0] as i64 - c[0] as i64 > 0 { g[0] as i64 - c[0] as i64 } else { 0 };
    let o1: i64 = if g[1] as i64 - c[1] as i64 > 0 { g[1] as i64 - c[1] as i64 } else { 0 };
    let o2: i64 = if g[2] as i64 - c[2] as i64 > 0 { g[2] as i64 - c[2] as i64 } else { 0 };
    let o3: i64 = if g[3] as i64 - c[3] as i64 > 0 { g[3] as i64 - c[3] as i64 } else { 0 };
    let o4: i64 = if g[4] as i64 - c[4] as i64 > 0 { g[4] as i64 - c[4] as i64 } else { 0 };
    let sure = o0 + o1 + o2 + o3 + o4;
    let r = [
        possible_lost_axis(g, c, sure, 0),
        possible_lost_axis(g, c, sure, 1),
        possible_lost_axis(g, c, sure, 2),
        possible_lost_axis(g, c, sure, 3),
        possible_lost_axis(g, c, sure, 4),
    ];
    assert forall|i: int| 0 <= i < 5 implies #[trigger] r[i][0] == spec_possible_lost(g, c, i).0
        && r[i][1] == spec_possible_lost(g, c, i).1 by {
        if i == 0 {} else if i == 1 {} else if i == 2 {} else if i == 3 {} else {}
    }
    r
}

// ── matching ─────────────────────────────────────────────────────────────

/// Raw stat `s` of a BP vector given as a sequence, ten-thousandths.
pub open spec fn raw5(x: Seq<int>, s: int) -> int {
    m10(s, 0) * x[0] + m10(s, 1) * x[1] + m10(s, 2) * x[2] + m10(s, 3) * x[3] + m10(s, 4) * x[4]
}

/// Stat `s` floors to the observed value.
pub open spec fn hit(x: Seq<int>, t: [i64; 5], s: int) -> bool {
    raw5(x, s) / 10000 + 20 == t[s]
}

/// All five floored stats equal the observed ones.
pub open spec fn spec_stats_equal(x: Seq<int>, t: [i64; 5]) -> bool {
    hit(x, t, 0) && hit(x, t, 1) && hit(x, t, 2) && hit(x, t, 3) && hit(x, t, 4)
}

/// Raw stat `s` lies in the observed interval widened by `tol` thousandths of a point.
pub open spec fn band(x: Seq<int>, t: [i64; 5], tol: int, s: int) -> bool {
    10000 * (t[s] - 20) - 10 * tol <= raw5(x, s) < 10000 * (t[s] - 19) + 10 * tol
}

pub open spec fn spec_within_band(x: Seq<int>, t: [i64; 5], tol: int) -> bool {
    band(x, t, tol, 0) && band(x, t, tol, 1) && band(x, t, tol, 2) && band(x, t, tol, 3) && band(x, t, tol, 4)
}

/// Some choice of per-axis offsets, from axis `a` on, makes the stats match.
pub open spec fn nudged_match(x: Seq<int>, t: [i64; 5], tiers: [i32; 5], tol: int, a: int) -> bool
    decreases 5 - a,
{
    if a >= 5 || a < 0 {
        spec_stats_equal(x, t)
    } else {
        let n = spec_nudge_count(tiers[a] as int);
        ||| nudged_match(x, t, tiers, tol, a + 1)
        ||| (n >= 2 && nudged_match(x.update(a, x[a] - tol), t, tiers, tol, a + 1))
        ||| (n >= 3 && nudged_match(x.update(a, x[a] + tol), t, tiers, tol, a + 1))
    }
}

/// Whether a BP vector matches the observed stats under `mode`, and if so
/// whether the match needed the tolerance.
pub open spec fn spec_accept(mode: MatchMode, tol: int, tiers: [i32; 5], x: Seq<int>, t: [i64; 5]) -> Option<bool> {
    match mode {
        MatchMode::Tolerant => if spec_within_band(x, t, tol) { Some(true) } else { None },
        MatchMode::Observer => if spec_stats_equal(x, t) {
            Some(false)
        } else if nudged_match(x, t, tiers, tol, 0) {
            Some(true)
        } else {
            None
        },
        _ => if spec_stats_equal(x, t) { Some(false) } else { None },
    }
}

/// Axis `i` is one whose offsets go beyond zero.
pub open spec fn movable(tiers: [i32; 5], i: int) -> bool {
    spec_nudge_count(tiers[i] as int) > 1
}

pub open spec fn abs_i(x: int) -> int {
    if x < 0 { -x } else { x }
}

/// Widening of stat `s` (ten-thousandths) the pruning allows for.
pub open spec fn spec_stat_slack(mode: MatchMode, tol: int, tiers: [i32; 5], s: int) -> int {
    match mode {
        MatchMode::Tolerant => 10 * tol,
        MatchMode::Observer => tol * (
            (if movable(tiers, 0) { abs_i(m10(s, 0)) } else { 0 })
            + (if movable(tiers, 1) { abs_i(m10(s, 1)) } else { 0 })
            + (if movable(tiers, 2) { abs_i(m10(s, 2)) } else { 0 })
            + (if movable(tiers, 3) { abs_i(m10(s, 3)) } else { 0 })
            + (if movable(tiers, 4) { abs_i(m10(s, 4)) } else { 0 })),
        _ => 0,
    }
}

/// Widening of the total BP (thousandths) the pruning allows for.
pub open spec fn spec_sum_slack(mode: MatchMode, tol: int, tiers: [i32; 5]) -> int {
    match mode {
        MatchMode::Tolerant => tol,
        MatchMode::Observer => tol * (
            (if movable(tiers, 0) { 1int } else { 0 }) + (if movable(tiers, 1) { 1int } else { 0 })
            + (if movable(tiers, 2) { 1int } else { 0 }) + (if movable(tiers, 3) { 1int } else { 0 })
            + (if movable(tiers, 4) { 1int } else { 0 })),
        _ => 0,
    }
}

pub open spec fn small_lim(j: int, a: int) -> int {
    0x4000_0000_0000_0000_0000_0000int + (if j < a { 0x1_0000_0000int } else { 0int })
}

pub open spec fn bp_small(x: [i128; 5], a: int) -> bool {
    forall|j: int| 0 <= j < 5 ==> -small_lim(j, a) <= #[trigger] x[j] <= small_lim(j, a)
}

proof fn lemma_small_in_range(x: [i128; 5], a: int)
    requires
        bp_small(x, a),
    ensures
        bp_in_range(x),
{
    assert forall|j: int| 0 <= j < 5 implies -BP_LIMIT <= #[trigger] x[j] <= BP_LIMIT by {
        assert(bp_small(x, a));
    }
}

/// Whether the floored stats of `x` equal `t`.
fn stats_equal(x: &[i128; 5], t: &[i64; 5]) -> (r: bool)
    requires
        bp_in_range(*x),
    ensures
        r == spec_stats_equal(arr_seq(*x), *t),
{
    let mut s: usize = 0;
    while s < 5
        invariant
            0 <= s <= 5,
            bp_in_range(*x),
            forall|k: int| 0 <= k < s ==> hit(arr_seq(*x), *t, k),
        decreases 5 - s,
    {
        let raw = raw_stat(x, s);
        assert(raw == raw5(arr_seq(*x), s as int));
        let q = div_floor(raw, 10000);
        if q + 20 != t[s] as i128 {
            return false;
        }
        s = s + 1;
    }
    true
}

/// Whether every raw stat of `x` lies in its interval widened by `tol`.
fn within_band(x: &[i128; 5], t: &[i64; 5], tol: i32) -> (r: bool)
    requires
        bp_in_range(*x),
    ensures
        r == spec_within_band(arr_seq(*x), *t, tol as int),
{
    let mut s: usize = 0;
    while s < 5
        invariant
            0 <= s <= 5,
            bp_in_range(*x),
            forall|k: int| 0 <= k < s ==> band(arr_seq(*x), *t, tol as int, k),
        decreases 5 - s,
    {
        let raw = raw_stat(x, s);
        assert(raw == raw5(arr_seq(*x), s as int));
        let lo: i128 = 10000 * (t[s] as i128 - 20) - 10 * tol as i128;
        let hi: i128 = 10000 * (t[s] as i128 - 19) + 10 * tol as i128;
        if !(lo <= raw && raw < hi) {
            return false;
        }
        s = s + 1;
    }
    true
}

/// Tries every combination of per-axis offsets from axis `a` on.
fn nudge_search(x: [i128; 5], t: &[i64; 5], tiers: &[i32; 5], tol: i32, a: usize) -> (r: bool)
    requires
        a <= 5,
        bp_small(x, a as int),
    ensures
        r == nudged_match(arr_seq(x), *t, *tiers, tol as int, a as int),
    decreases 5 - a,
{
    if a >= 5 {
        proof { lemma_small_in_range(x, a as int); }
        return stats_equal(&x, t);
    }
    let (nudges, count) = tier_nudges(tiers[a], if tol == i32::MIN { 0 } else { tol });
    let ghost xs = arr_seq(x);
    assert(bp_small(x, a as int + 1)) by {
        assert forall|j: int| 0 <= j < 5 implies -small_lim(j, a + 1) <= #[trigger] x[j] <= small_lim(j, a + 1) by {
            assert(bp_small(x, a as int));
        }
    }
    if nudge_search(x, t, tiers, tol, a + 1) {
        return true;
    }
    if count >= 2 {
        let mut y = x;
        y[a] = x[a] - tol as i128;
        assert(arr_seq(y) =~= xs.update(a as int, xs[a as int] - tol));
        assert(bp_small(y, a as int + 1)) by {
            assert forall|j: int| 0 <= j < 5 implies -small_lim(j, a + 1) <= #[trigger] y[j] <= small_lim(j, a + 1) by {
                assert(bp_small(x, a as int));
                if j != a { assert(y[j] == x[j]); }
            }
        }
        if nudge_search(y, t, tiers, tol, a + 1) {
            return true;
        }
    }
    if count >= 3 {
        let mut y = x;
        y[a] = x[a] + tol as i128;
        assert(arr_seq(y) =~= xs.update(a as int, xs[a as int] + tol));
        assert(bp_small(y, a as int + 1)) by {
            assert forall|j: int| 0 <= j < 5 implies -small_lim(j, a + 1) <= #[trigger] y[j] <= small_lim(j, a + 1) by {
                assert(bp_small(x, a as int));
                if j != a { assert(y[j] == x[j]); }
            }
        }
        if nudge_search(y, t, tiers, tol, a + 1) {
            return true;
        }
    }
    false
}

/// The comparison rule for one candidate tier set: mode, tolerance, and the
/// widening the pruning has to allow for.
#[derive(Debug, Clone, Copy)]
struct Matcher {
    mode: MatchMode,
    tol: i32,
    tiers: [i32; 5],
    stat_slack: [i128; 5],
    sum_slack: i128,
}

impl Matcher {
    spec fn wf(self) -> bool {
        &&& forall|s: int| 0 <= s < 5 ==> #[trigger] self.stat_slack[s] == spec_stat_slack(self.mode, self.tol as int, self.tiers, s)
        &&& self.sum_slack == spec_sum_slack(self.mode, self.tol as int, self.tiers)
    }

    fn new(mode: MatchMode, tol: i32, grow: GrowRange) -> (m: Self)
        ensures
            m.wf(),
            m.mode == mode,
            m.tol == tol,
            m.tiers == grow.tiers(),
    {
        let tiers = grow.to_array();
        let t = tol as i128;
        let mv0 = is_movable(tiers[0]);
        let mv1 = is_movable(tiers[1]);
        let mv2 = is_movable(tiers[2]);
        let mv3 = is_movable(tiers[3]);
        let mv4 = is_movable(tiers[4]);
        let (stat_slack, sum_slack): ([i128; 5], i128) = match mode {
            MatchMode::Tolerant => ([10 * t, 10 * t, 10 * t, 10 * t, 10 * t], t),
            MatchMode::Observer => {
                let w = |c0: i128, c1: i128, c2: i128, c3: i128, c4: i128| -> (r: i128)
                    requires
                        0 <= c0 <= 100 && 0 <= c1 <= 100 && 0 <= c2 <= 100 && 0 <= c3 <= 100 && 0 <= c4 <= 100,
                    ensures
                        r == (if mv0 { c0 } else { 0 }) + (if mv1 { c1 } else { 0 }) + (if mv2 { c2 } else { 0 })
                            + (if mv3 { c3 } else { 0 }) + (if mv4 { c4 } else { 0 }),
                {
                    (if mv0 { c0 } else { 0 }) + (if mv1 { c1 } else { 0 }) + (if mv2 { c2 } else { 0 })
                        + (if mv3 { c3 } else { 0 }) + (if mv4 { c4 } else { 0 })
                };
                let s0 = w(80, 20, 30, 30, 10);
                let s1 = w(10, 20, 20, 20, 100);
                let s2 = w(2, 27, 3, 3, 2);
                let s3 = w(2, 3, 30, 3, 2);
                let s4 = w(1, 2, 2, 20, 1);
                let n = w(1, 1, 1, 1, 1);
                assert(0 <= s0 <= 500 && 0 <= s1 <= 500 && 0 <= s2 <= 500 && 0 <= s3 <= 500 && 0 <= s4 <= 500);
                proof {
                    assert(abs_i(m10(0, 0)) == 80 && abs_i(m10(0, 1)) == 20 && abs_i(m10(0, 2)) == 30 && abs_i(m10(0, 3)) == 30 && abs_i(m10(0, 4)) == 10);
                    assert(abs_i(m10(1, 0)) == 10 && abs_i(m10(1, 1)) == 20 && abs_i(m10(1, 2)) == 20 && abs_i(m10(1, 3)) == 20 && abs_i(m10(1, 4)) == 100);
                    assert(abs_i(m10(2, 0)) == 2 && abs_i(m10(2, 1)) == 27 && abs_i(m10(2, 2)) == 3 && abs_i(m10(2, 3)) == 3 && abs_i(m10(2, 4)) == 2);
                    assert(abs_i(m10(3, 0)) == 2 && abs_i(m10(3, 1)) == 3 && abs_i(m10(3, 2)) == 30 && abs_i(m10(3, 3)) == 3 && abs_i(m10(3, 4)) == 2);
                    assert(abs_i(m10(4, 0)) == 1 && abs_i(m10(4, 1)) == 2 && abs_i(m10(4, 2)) == 2 && abs_i(m10(4, 3)) == 20 && abs_i(m10(4, 4)) == 1);
                }
                ([mul_small(t, s0), mul_small(t, s1), mul_small(t, s2), mul_small(t, s3), mul_small(t, s4)], mul_small(t, n))
            },
            _ => ([0, 0, 0, 0, 0], 0),
        };
        let m = Matcher { mode, tol, tiers, stat_slack, sum_slack };
        assert forall|s: int| 0 <= s < 5 implies #[trigger] m.stat_slack[s] == spec_stat_slack(mode, tol as int, tiers, s) by {
            if s == 0 {} else if s == 1 {} else if s == 2 {} else if s == 3 {} else {}
        }
        m
    }

    /// Whether `x` matches `t`; `Some(true)` when only the tolerance made it match.
    fn accepts(&self, x: &[i128; 5], t: &[i64; 5]) -> (r: Option<bool>)
        requires
            bp_small(*x, 0),
        ensures
            r == spec_accept(self.mode, self.tol as int, self.tiers, arr_seq(*x), *t),
    {
        proof { lemma_small_in_range(*x, 0); }
        match self.mode {
            MatchMode::Tolerant => if within_band(x, t, self.tol) { Some(true) } else { None },
            MatchMode::Observer => if stats_equal(x, t) {
                Some(false)
            } else if nudge_search(*x, t, &self.tiers, self.tol, 0) {
                Some(true)
            } else {
                None
            },
            _ => if stats_equal(x, t) { Some(false) } else { None },
        }
    }
}

fn mul_small(t: i128, s: i128) -> (r: i128)
    requires
        -0x1_0000_0000 <= t <= 0x1_0000_0000,
        0 <= s <= 500,
    ensures
        r == t * s,
{
    assert(-0x1_0000_0000_0000 <= t * s <= 0x1_0000_0000_0000) by (nonlinear_arith)
        requires
            -0x1_0000_0000 <= t <= 0x1_0000_0000,
            0 <= s <= 500,
    ;
    t * s
}

fn is_movable(tier: i32) -> (r: bool)
    ensures
        r == (spec_nudge_count(tier as int) > 1),
{
    let (_, n) = tier_nudges(tier, 0);
    n > 1
}

// ── the search ───────────────────────────────────────────────────────────

/// Solver parameters.
#[derive(Debug, Clone, Copy, PartialEq, Eq)]
pub struct GuessOptions {
    /// Level points known not to be spent.
    pub not_order_point: i32,
    /// Check only these tiers instead of sweeping the loss box.
    pub target_grow: Option<GrowRange>,
    pub mode: MatchMode,
    pub random: RandomSearch,
    /// Per-axis bounds on the spent points.
    pub manual: ManualBounds,
    /// Stats observed at the catch level (no points spent then).
    pub catch: Option<Target>,
    /// Per-axis loss range.
    pub loss: LossBounds,
    /// Per-axis random-tier range.
    pub random_bounds: RandomBounds,
    /// Stop after this many solutions; 0 means no limit.
    pub limit: usize,
    /// Overrides the tolerance (thousandths of a point).
    pub tolerance: Option<i32>,
}

impl Default for GuessOptions {
    fn default() -> (o: Self)
        ensures
            o.not_order_point == 0,
            o.target_grow is None,
            o.mode == MatchMode::Observer,
            o.random == (RandomSearch::Ball { radius: 1 }),
            o.manual == ManualBounds::spec_free(),
            o.catch is None,
            forall|i: int| 0 <= i < 5 ==> #[trigger] o.loss.lo(i) == 0 && o.loss.hi(i) == MAX_LOST_PER_AXIS,
            forall|i: int| 0 <= i < 5 ==> #[trigger] o.random_bounds.lo(i) == 0 && o.random_bounds.hi(i) == RANDOM_POOL,
            o.limit == 0,
            o.tolerance is None,
    {
        let loss = LossBounds::default();
        let random_bounds = RandomBounds::default();
        let o = GuessOptions {
            not_order_point: 0,
            target_grow: None,
            mode: MatchMode::Observer,
            random: RandomSearch::Ball { radius: 1 },
            manual: ManualBounds::free(),
            catch: None,
            loss,
            random_bounds,
            limit: 0,
            tolerance: None,
        };
        assert forall|i: int| 0 <= i < 5 implies #[trigger] o.loss.lo(i) == 0 && o.loss.hi(i) == MAX_LOST_PER_AXIS by {
            assert(loss.lo(i) == 0);
        }
        o
    }
}

/// One solution.
#[derive(Debug, Clone, Copy, PartialEq, Eq)]
pub struct Candidate {
    /// The actual tiers.
    pub grow: GrowRange,
    /// Spent points, axis order `[HP, ATK, DEF, AGI, MP]`.
    pub manual: [i32; 5],
    /// Random tiers, adding up to 10.
    pub random: [i32; 5],
    /// The BP they give (thousandths).
    pub bp: Bp,
    /// The stats that BP gives, wis and res included.
    pub stat: Stat,
    /// Catalog tier total minus actual tier total.
    pub lost_bp: i32,
    /// Per-axis possible loss `[fewest, most]`.
    pub possible_lost: [[i32; 2]; 5],
    /// Whether only the tolerance made it match.
    pub approximate: bool,
}

/// What `solve` returns.
#[derive(Debug, Clone, PartialEq, Eq)]
pub struct GuessOutcome {
    pub candidates: Vec<Candidate>,
    /// The match mode that produced them (`Auto` resolved).
    pub mode: MatchMode,
    /// The number of spent points behind them.
    pub point: i32,
}

pub open spec fn catch_level(opts: GuessOptions) -> int {
    match opts.catch {
        Some(c) => c.lvl as int,
        None => 0,
    }
}

/// The tolerance a mode uses (thousandths of a point).
pub open spec fn spec_tol(opts: GuessOptions, mode: MatchMode, lvl: int) -> int {
    match mode {
        MatchMode::Observer => match opts.tolerance {
            Some(t) => t as int,
            None => spec_adaptive_tolerance(catch_level(opts), lvl),
        },
        MatchMode::Tolerant => match opts.tolerance {
            Some(t) => t as int,
            None => TOL_MAX as int,
        },
        _ => 0,
    }
}

impl GuessOptions {
    fn tol(&self, mode: MatchMode, lvl: i32) -> (t: i32)
        ensures
            t == spec_tol(*self, mode, lvl as int),
    {
        match mode {
            MatchMode::Observer => match self.tolerance {
                Some(t) => t,
                None => level_span_tolerance(lvl, match self.catch { Some(c) => c.lvl, None => 0 }),
            },
            MatchMode::Tolerant => match self.tolerance {
                Some(t) => t,
                None => TOL_MAX,
            },
            _ => 0,
        }
    }
}

pub open spec fn tseq(t: Target) -> Seq<int> {
    seq![t.hp as int, t.mp as int, t.atk as int, t.def as int, t.agi as int]
}

pub open spec fn tseq_up(t: Target) -> Seq<int> {
    seq![t.hp + 1, t.mp + 1, t.atk + 1, t.def + 1, t.agi + 1]
}

/// Lower end of the observed total BP (thousandths, times `INV_DEN`): the
/// total BP behind the observed stats.
pub open spec fn spec_os(t: Target) -> int {
    spec_stat_to_bp(tseq(t), 0) + spec_stat_to_bp(tseq(t), 1) + spec_stat_to_bp(tseq(t), 2)
        + spec_stat_to_bp(tseq(t), 3) + spec_stat_to_bp(tseq(t), 4)
}

/// Upper end of the observed total BP (thousandths, times `INV_DEN`): the
/// total BP behind the observed stats plus one each.
pub open spec fn spec_ous(t: Target) -> int {
    spec_stat_to_bp(tseq_up(t), 0) + spec_stat_to_bp(tseq_up(t), 1) + spec_stat_to_bp(tseq_up(t), 2)
        + spec_stat_to_bp(tseq_up(t), 3) + spec_stat_to_bp(tseq_up(t), 4)
}

/// Total BP (thousandths) of tiers `g` at the target level with `p` points spent.
pub open spec fn spec_sum_full(g: GrowRange, lvl: int, p: int) -> int {
    g.spec_base(0, lvl) + g.spec_base(1, lvl) + g.spec_base(2, lvl) + g.spec_base(3, lvl)
        + g.spec_base(4, lvl) + 100 * g.bprate + 1000 * p
}

/// The total BP of these tiers lies in the observed interval, widened by the slack.
#[verifier::opaque]
pub open spec fn sum_ok(g: GrowRange, t: Target, p: int, mode: MatchMode, tol: int) -> bool {
    let sf = spec_sum_full(g, t.lvl as int, p);
    let sl = spec_sum_slack(mode, tol, g.tiers());
    sf * INV_DEN >= spec_os(t) - sl * INV_DEN && sf * INV_DEN <= spec_ous(t) + sl * INV_DEN
}

/// Floor of the soft limit of axis `i`: the observed BP upper end minus the
/// base BP, plus one point.
pub open spec fn soft_floor(g: GrowRange, t: Target, i: int) -> int {
    (spec_stat_to_bp(tseq_up(t), i) - g.spec_base(i, t.lvl as int) * INV_DEN + 1000 * INV_DEN) / (1000 * INV_DEN)
}

pub open spec fn max_i(a: int, b: int) -> int {
    if a > b { a } else { b }
}

pub open spec fn min_i(a: int, b: int) -> int {
    if a < b { a } else { b }
}

/// Lower end of the spent points on axis `i`.
pub open spec fn man_lo(mb: ManualBounds, i: int) -> int {
    if i == 4 { max_i(mb.spec_lo(4), 0) } else { mb.spec_lo(i) }
}

/// Upper end of the spent points on axis `i`: soft limit, points available
/// and the bound, the first two saturated into `i32` as the cast does.
pub open spec fn man_hi(g: GrowRange, t: Target, p: int, mb: ManualBounds, i: int) -> int {
    if i == 4 {
        max_i(min_i(mb.spec_hi(4), soft_floor(g, t, 4)), -1)
    } else {
        min_i(max_i(min_i(soft_floor(g, t, i), p), i32::MIN as int), mb.spec_hi(i))
    }
}

/// The spent points `m` are in range and add up to `p`.
#[verifier::opaque]
pub open spec fn manual_ok(g: GrowRange, t: Target, p: int, mb: ManualBounds, m: [i32; 5]) -> bool {
    &&& man_lo(mb, 0) <= m[0] <= man_hi(g, t, p, mb, 0)
    &&& man_lo(mb, 1) <= m[1] <= man_hi(g, t, p, mb, 1)
    &&& man_lo(mb, 2) <= m[2] <= man_hi(g, t, p, mb, 2)
    &&& man_lo(mb, 3) <= m[3] <= man_hi(g, t, p, mb, 3)
    &&& man_lo(mb, 4) <= m[4] <= man_hi(g, t, p, mb, 4)
    &&& m[0] + m[1] + m[2] + m[3] + m[4] == p
}

/// BP before the random tiers: base plus spent points (thousandths).
pub open spec fn mvec(g: GrowRange, lvl: int, m: [i32; 5]) -> Seq<int> {
    seq![
        g.spec_base(0, lvl) + 1000 * m[0],
        g.spec_base(1, lvl) + 1000 * m[1],
        g.spec_base(2, lvl) + 1000 * m[2],
        g.spec_base(3, lvl) + 1000 * m[3],
        g.spec_base(4, lvl) + 1000 * m[4],
    ]
}

/// Smallest and largest coefficient of stat row `s`.
pub open spec fn row_min(s: int) -> int {
    if s == 0 { 10 } else if s == 1 { 10 } else if s == 2 { 2 } else if s == 3 { 2 } else { 1 }
}

pub open spec fn row_max(s: int) -> int {
    if s == 0 { 80 } else if s == 1 { 100 } else if s == 2 { 27 } else if s == 3 { 30 } else { 20 }
}

/// Stat `s` cannot reach its observed interval whatever the random tiers are.
pub open spec fn prune_stat(g: GrowRange, t: Target, m: [i32; 5], mode: MatchMode, tol: int, s: int) -> bool {
    let ms = raw5(mvec(g, t.lvl as int, m), s);
    let slack = spec_stat_slack(mode, tol, g.tiers(), s);
    let need_lo = 10000 * (t.stats()[s] - 19) - ms + slack;
    let need_hi = 10000 * (t.stats()[s] - 20) - ms - slack;
    need_lo <= row_min(s) * 100 * g.bprate || need_hi > row_max(s) * 100 * g.bprate
}

#[verifier::opaque]
pub open spec fn pruned(g: GrowRange, t: Target, m: [i32; 5], mode: MatchMode, tol: int) -> bool {
    ||| prune_stat(g, t, m, mode, tol, 0)
    ||| prune_stat(g, t, m, mode, tol, 1)
    ||| prune_stat(g, t, m, mode, tol, 2)
    ||| prune_stat(g, t, m, mode, tol, 3)
    ||| prune_stat(g, t, m, mode, tol, 4)
}

pub open spec fn sat_i32(x: int) -> int {
    if x < i32::MIN { i32::MIN as int } else if x > i32::MAX { i32::MAX as int } else { x }
}

/// Gap between the observed stats, at the middle of their intervals, and
/// the raw stats of the BP before random tiers (ten-thousandths).
pub open spec fn gap(g: GrowRange, t: Target, m: [i32; 5]) -> Seq<int> {
    let x = mvec(g, t.lvl as int, m);
    seq![
        10000 * t.hp - 195000 - raw5(x, 0),
        10000 * t.mp - 195000 - raw5(x, 1),
        10000 * t.atk - 195000 - raw5(x, 2),
        10000 * t.def - 195000 - raw5(x, 3),
        10000 * t.agi - 195000 - raw5(x, 4),
    ]
}

/// `num / q` rounded half up, saturated into `i32`; 0 when `q` is 0.
pub open spec fn round_seed(num: int, q: int) -> int {
    if q == 0 {
        0
    } else if q > 0 {
        sat_i32((2 * num + q) / (2 * q))
    } else {
        sat_i32((-2 * num - q) / (-2 * q))
    }
}

/// First guess of random tier `i`: the rounded inverse applied to the gap,
/// divided by the ability rate, rounded half up.
#[verifier::opaque]
pub open spec fn seed(g: GrowRange, t: Target, m: [i32; 5], i: int) -> int {
    round_seed(minv8_apply(gap(g, t, m), i), 10000000000 * g.bprate)
}

/// Random tiers searched for these tiers and spent points.
#[verifier::opaque]
pub open spec fn random_ok(g: GrowRange, t: Target, m: [i32; 5], opts: GuessOptions, r: [i32; 5]) -> bool {
    &&& in_random_bounds(opts.random_bounds, r)
    &&& match opts.random {
        RandomSearch::Exhaustive => true,
        RandomSearch::Ball { radius } => {
            &&& seed(g, t, m, 0) - radius <= r[0] <= seed(g, t, m, 0) + radius
            &&& seed(g, t, m, 1) - radius <= r[1] <= seed(g, t, m, 1) + radius
            &&& seed(g, t, m, 2) - radius <= r[2] <= seed(g, t, m, 2) + radius
            &&& seed(g, t, m, 3) - radius <= r[3] <= seed(g, t, m, 3) + radius
        },
    }
}

/// The full BP (thousandths): base, spent points and random tiers.
pub open spec fn xvec(g: GrowRange, lvl: int, m: [i32; 5], r: [i32; 5]) -> Seq<int> {
    seq![
        g.spec_base(0, lvl) + 1000 * m[0] + 10 * g.bprate * r[0],
        g.spec_base(1, lvl) + 1000 * m[1] + 10 * g.bprate * r[1],
        g.spec_base(2, lvl) + 1000 * m[2] + 10 * g.bprate * r[2],
        g.spec_base(3, lvl) + 1000 * m[3] + 10 * g.bprate * r[3],
        g.spec_base(4, lvl) + 1000 * m[4] + 10 * g.bprate * r[4],
    ]
}

/// BP at the catch level: base and random tiers, nothing spent yet.
pub open spec fn catch_vec(g: GrowRange, lvl: int, r: [i32; 5]) -> Seq<int> {
    seq![
        g.spec_base(0, lvl) + 10 * g.bprate * r[0],
        g.spec_base(1, lvl) + 10 * g.bprate * r[1],
        g.spec_base(2, lvl) + 10 * g.bprate * r[2],
        g.spec_base(3, lvl) + 10 * g.bprate * r[3],
        g.spec_base(4, lvl) + 10 * g.bprate * r[4],
    ]
}

pub open spec fn main_accept(g: GrowRange, t: Target, mode: MatchMode, tol: int, m: [i32; 5], r: [i32; 5]) -> Option<bool> {
    spec_accept(mode, tol, g.tiers(), xvec(g, t.lvl as int, m, r), t.stats())
}

pub open spec fn catch_accept(g: GrowRange, opts: GuessOptions, mode: MatchMode, tol: int, r: [i32; 5]) -> Option<bool> {
    match opts.catch {
        None => Some(false),
        Some(c) => spec_accept(mode, tol, g.tiers(), catch_vec(g, c.lvl as int, r), c.stats()),
    }
}

/// Tiers the search visits.
pub open spec fn grow_ok(catalog: GrowRange, opts: GuessOptions, g: GrowRange) -> bool {
    &&& g.spec_contains(catalog)
    &&& match opts.target_grow {
        Some(tg) => g == tg,
        None => g.bprate == catalog.bprate && catalog.in_loss_box(opts.loss, g.tiers()),
    }
}

/// `(g, m, r)` is a solution of the search with `p` points spent under `mode`.
#[verifier::opaque]
pub open spec fn is_sol(catalog: GrowRange, t: Target, p: int, mode: MatchMode, opts: GuessOptions,
    g: GrowRange, m: [i32; 5], r: [i32; 5]) -> bool
{
    let tol = spec_tol(opts, mode, t.lvl as int);
    &&& grow_ok(catalog, opts, g)
    &&& sum_ok(g, t, p, mode, tol)
    &&& manual_ok(g, t, p, opts.manual, m)
    &&& !pruned(g, t, m, mode, tol)
    &&& random_ok(g, t, m, opts, r)
    &&& main_accept(g, t, mode, tol, m, r) is Some
    &&& catch_accept(g, opts, mode, tol, r) is Some
}

pub open spec fn bp_of(x: Seq<int>) -> Bp {
    Bp { hp: x[0] as i128, atk: x[1] as i128, def: x[2] as i128, agi: x[3] as i128, mp: x[4] as i128 }
}

pub open spec fn lost_arr(g: GrowRange, catalog: GrowRange) -> [[i32; 2]; 5] {
    [
        [spec_possible_lost(g.tiers(), catalog.tiers(), 0).0 as i32, spec_possible_lost(g.tiers(), catalog.tiers(), 0).1 as i32],
        [spec_possible_lost(g.tiers(), catalog.tiers(), 1).0 as i32, spec_possible_lost(g.tiers(), catalog.tiers(), 1).1 as i32],
        [spec_possible_lost(g.tiers(), catalog.tiers(), 2).0 as i32, spec_possible_lost(g.tiers(), catalog.tiers(), 2).1 as i32],
        [spec_possible_lost(g.tiers(), catalog.tiers(), 3).0 as i32, spec_possible_lost(g.tiers(), catalog.tiers(), 3).1 as i32],
        [spec_possible_lost(g.tiers(), catalog.tiers(), 4).0 as i32, spec_possible_lost(g.tiers(), catalog.tiers(), 4).1 as i32],
    ]
}

/// The candidate record of a solution.
#[verifier::opaque]
pub open spec fn mk_cand(catalog: GrowRange, t: Target, mode: MatchMode, opts: GuessOptions,
    g: GrowRange, m: [i32; 5], r: [i32; 5]) -> Candidate
{
    let tol = spec_tol(opts, mode, t.lvl as int);
    let bp = bp_of(xvec(g, t.lvl as int, m, r));
    Candidate {
        grow: g,
        manual: m,
        random: r,
        bp,
        stat: bp.spec_calc(),
        lost_bp: (catalog.spec_sum() - g.spec_sum()) as i32,
        possible_lost: lost_arr(g, catalog),
        approximate: main_accept(g, t, mode, tol, m, r) == Some(true)
            || catch_accept(g, opts, mode, tol, r) == Some(true),
    }
}

/// `c` comes before the solution `(g, m, r)`: by tiers, then spent points,
/// then random tiers.
pub open spec fn before(c: Candidate, g: GrowRange, m: [i32; 5], r: [i32; 5]) -> bool {
    ||| lex_lt5(c.grow.tiers(), g.tiers())
    ||| c.grow.tiers() == g.tiers() && lex_lt5(c.manual, m)
    ||| c.grow.tiers() == g.tiers() && c.manual == m && lex_lt5(c.random, r)
}

/// Order of solutions: by tiers, then spent points, then random tiers.
pub open spec fn key_lt(a: Candidate, b: Candidate) -> bool {
    before(a, b.grow, b.manual, b.random)
}

pub open spec fn sorted_c(s: Seq<Candidate>) -> bool {
    forall|a: int, b: int| 0 <= a < b < s.len() ==> key_lt(#[trigger] s[a], #[trigger] s[b])
}

pub open spec fn cin(s: Seq<Candidate>, c: Candidate) -> bool {
    exists|i: int| 0 <= i < s.len() && s[i] == c
}

/// `c` is in `s`, or `s` is full and `c` comes after its last element.
pub open spec fn covered(s: Seq<Candidate>, c: Candidate, limit: usize) -> bool {
    ||| cin(s, c)
    ||| (limit > 0 && s.len() == limit && key_lt(s[s.len() - 1], c))
}

/// Every element of `s` is the record of a solution.
pub open spec fn sound(catalog: GrowRange, t: Target, p: int, mode: MatchMode, opts: GuessOptions,
    s: Seq<Candidate>) -> bool
{
    forall|i: int| 0 <= i < s.len() ==> #[trigger] s[i] == mk_cand(catalog, t, mode, opts, s[i].grow, s[i].manual, s[i].random)
        && is_sol(catalog, t, p, mode, opts, s[i].grow, s[i].manual, s[i].random)
}

/// `out` is the first `limit` solutions (all of them when `limit` is 0) in order.
pub open spec fn search_result(catalog: GrowRange, t: Target, p: int, mode: MatchMode, opts: GuessOptions,
    out: Seq<Candidate>) -> bool
{
    &&& sorted_c(out)
    &&& sound(catalog, t, p, mode, opts, out)
    &&& forall|g: GrowRange, m: [i32; 5], r: [i32; 5]| is_sol(catalog, t, p, mode, opts, g, m, r)
        ==> covered(out, mk_cand(catalog, t, mode, opts, g, m, r), opts.limit)
    &&& opts.limit > 0 ==> out.len() <= opts.limit
}

/// `n` is `o` with elements appended, none once `o` was full.
pub open spec fn extends(o: Seq<Candidate>, n: Seq<Candidate>, limit: usize) -> bool {
    &&& n.len() >= o.len()
    &&& forall|i: int| 0 <= i < o.len() ==> #[trigger] n[i] == o[i]
    &&& (limit > 0 && o.len() >= limit) ==> n.len() == o.len()
}

proof fn lemma_extends_covered(o: Seq<Candidate>, n: Seq<Candidate>, c: Candidate, limit: usize)
    requires
        extends(o, n, limit),
        covered(o, c, limit),
    ensures
        covered(n, c, limit),
{
    if cin(o, c) {
        let i = choose|i: int| 0 <= i < o.len() && o[i] == c;
        assert(n[i] == c);
    } else {
        assert(n.len() == o.len());
        assert(n[n.len() - 1] == o[o.len() - 1]);
    }
}

proof fn lemma_extends_trans(a: Seq<Candidate>, b: Seq<Candidate>, c: Seq<Candidate>, limit: usize)
    requires
        extends(a, b, limit),
        extends(b, c, limit),
    ensures
        extends(a, c, limit),
{
    assert forall|i: int| 0 <= i < a.len() implies #[trigger] c[i] == a[i] by {
        assert(c[i] == b[i]);
    }
}

proof fn lemma_covered_push(s: Seq<Candidate>, x: Candidate, c: Candidate, limit: usize)
    requires
        covered(s, c, limit),
        limit == 0 || s.len() < limit,
    ensures
        covered(s.push(x), c, limit),
{
    let i = choose|i: int| 0 <= i < s.len() && s[i] == c;
    assert(s.push(x)[i] == c);
}

/// `c` comes before every solution with tiers `g`.
pub open spec fn below_g(c: Candidate, g: GrowRange) -> bool {
    lex_lt5(c.grow.tiers(), g.tiers())
}

/// `c` comes before every solution with tiers `g` and spent points `m`.
pub open spec fn below_gm(c: Candidate, g: GrowRange, m: [i32; 5]) -> bool {
    ||| lex_lt5(c.grow.tiers(), g.tiers())
    ||| c.grow.tiers() == g.tiers() && lex_lt5(c.manual, m)
}


proof fn lemma_raw5_bound(v: Seq<int>, s: int, lim: int)
    requires
        0 <= s < 5,
        lim >= 0,
        v.len() == 5,
        forall|j: int| 0 <= j < 5 ==> -lim <= #[trigger] v[j] <= lim,
    ensures
        -256 * lim <= raw5(v, s) <= 256 * lim,
{
    assert(-lim <= v[0] <= lim && -lim <= v[1] <= lim && -lim <= v[2] <= lim && -lim <= v[3] <= lim && -lim <= v[4] <= lim);
    if s == 0 {
        assert(raw5(v, s) == 80 * v[0] + 20 * v[1] + 30 * v[2] + 30 * v[3] + 10 * v[4]);
    } else if s == 1 {
        assert(raw5(v, s) == 10 * v[0] + 20 * v[1] + 20 * v[2] + 20 * v[3] + 100 * v[4]);
    } else if s == 2 {
        assert(raw5(v, s) == 2 * v[0] + 27 * v[1] + 3 * v[2] + 3 * v[3] + 2 * v[4]);
    } else if s == 3 {
        assert(raw5(v, s) == 2 * v[0] + 3 * v[1] + 30 * v[2] + 3 * v[3] + 2 * v[4]);
    } else {
        assert(raw5(v, s) == 1 * v[0] + 2 * v[1] + 2 * v[2] + 20 * v[3] + 1 * v[4]);
    }
}

/// `floor(num / q + 1/2)` for `q != 0`, saturated into `i32`; 0 when `q == 0`.
fn round_half_up(num: i128, q: i128) -> (c: i32)
    requires
        -0x1_0000_0000_0000_0000_0000_0000_0000 <= num <= 0x1_0000_0000_0000_0000_0000_0000_0000,
        -0x1_0000_0000_0000_0000_0 <= q <= 0x1_0000_0000_0000_0000_0,
    ensures
        c == round_seed(num as int, q as int),
{
    if q == 0 {
        return 0;
    }
    let a: i128 = 2 * num;
    let d: i128 = 2 * q;
    let v = if q > 0 { div_floor(a + q, d) } else { div_floor(0 - a - q, 0 - d) };
    if v < i32::MIN as i128 {
        i32::MIN
    } else if v > i32::MAX as i128 {
        i32::MAX
    } else {
        v as i32
    }
}

/// The first guess of the random tiers for tiers `g` and spent points `m`,
/// given the five raw stats `ms` of the BP before random tiers.
fn seeds(g: GrowRange, t: Target, m: [i32; 5], ms: &[i128; 5]) -> (c: [i32; 5])
    requires
        forall|s: int| 0 <= s < 5 ==> #[trigger] ms[s] == raw5(mvec(g, t.lvl as int, m), s),
        forall|s: int| 0 <= s < 5 ==> -0x1_0000_0000_0000_0000_0000 <= #[trigger] ms[s] <= 0x1_0000_0000_0000_0000_0000,
    ensures
        forall|i: int| 0 <= i < 5 ==> #[trigger] c[i] == seed(g, t, m, i),
{
    assert(-0x1_0000_0000_0000_0000_0000 <= ms[0] <= 0x1_0000_0000_0000_0000_0000);
    assert(-0x1_0000_0000_0000_0000_0000 <= ms[1] <= 0x1_0000_0000_0000_0000_0000);
    assert(-0x1_0000_0000_0000_0000_0000 <= ms[2] <= 0x1_0000_0000_0000_0000_0000);
    assert(-0x1_0000_0000_0000_0000_0000 <= ms[3] <= 0x1_0000_0000_0000_0000_0000);
    assert(-0x1_0000_0000_0000_0000_0000 <= ms[4] <= 0x1_0000_0000_0000_0000_0000);
    let n: [i128; 5] = [
        10000 * t.hp as i128 - 195000 - ms[0],
        10000 * t.mp as i128 - 195000 - ms[1],
        10000 * t.atk as i128 - 195000 - ms[2],
        10000 * t.def as i128 - 195000 - ms[3],
        10000 * t.agi as i128 - 195000 - ms[4],
    ];
    assert(arr_seq(n) =~= gap(g, t, m));
    assert(crate::matrix::small(n, 0x1_0000_0000_0000_0000_0000_0)) by {
        assert forall|j: int| 0 <= j < 5 implies -0x1_0000_0000_0000_0000_0000_0 <= #[trigger] n[j] <= 0x1_0000_0000_0000_0000_0000_0 by {
            if j == 0 {} else if j == 1 {} else if j == 2 {} else if j == 3 {} else {}
        }
    }
    let q: i128 = 10000000000 * g.bprate as i128;
    let c = [
        round_half_up(crate::matrix::apply_inv_row(&n, 0), q),
        round_half_up(crate::matrix::apply_inv_row(&n, 1), q),
        round_half_up(crate::matrix::apply_inv_row(&n, 2), q),
        round_half_up(crate::matrix::apply_inv_row(&n, 3), q),
        round_half_up(crate::matrix::apply_inv_row(&n, 4), q),
    ];
    assert forall|i: int| 0 <= i < 5 implies #[trigger] c[i] == seed(g, t, m, i) by {
        reveal(seed);
        if i == 0 {} else if i == 1 {} else if i == 2 {} else if i == 3 {} else {}
    }
    c
}

/// Lower and upper ends of the random tiers searched: the bounds, narrowed on
/// the first four axes to `radius` around the first guess.
fn ball_box(rb: &RandomBounds, c: &[i32; 5], radius: i32) -> (lh: ([i64; 5], [i64; 5]))
    ensures
        fits_i32(lh.0, lh.1),
        forall|r: [i32; 5]| #[trigger] in_sum_box(lh.0, lh.1, 10, r) <==> {
            &&& in_random_bounds(*rb, r)
            &&& c[0] - radius <= r[0] <= c[0] + radius
            &&& c[1] - radius <= r[1] <= c[1] + radius
            &&& c[2] - radius <= r[2] <= c[2] + radius
            &&& c[3] - radius <= r[3] <= c[3] + radius
        },
{
    let a0 = rb.axis(0);
    let a1 = rb.axis(1);
    let a2 = rb.axis(2);
    let a3 = rb.axis(3);
    let a4 = rb.axis(4);
    let (l0, h0) = ball_axis(a0, c[0], radius);
    let (l1, h1) = ball_axis(a1, c[1], radius);
    let (l2, h2) = ball_axis(a2, c[2], radius);
    let (l3, h3) = ball_axis(a3, c[3], radius);
    let lo: [i64; 5] = [l0, l1, l2, l3, a4[0] as i64];
    let hi: [i64; 5] = [h0, h1, h2, h3, a4[1] as i64];
    assert(fits_i32(lo, hi)) by {
        assert forall|j: int| 0 <= j < 5 implies i32::MIN <= #[trigger] lo[j] <= i32::MAX && i32::MIN <= hi[j] <= i32::MAX by {
            if j == 0 {} else if j == 1 {} else if j == 2 {} else if j == 3 {} else {}
        }
    }
    proof {
        assert forall|r: [i32; 5]| in_sum_box(lo, hi, 10, r) <==> {
            &&& in_random_bounds(*rb, r)
            &&& c[0] - radius <= r[0] <= c[0] + radius
            &&& c[1] - radius <= r[1] <= c[1] + radius
            &&& c[2] - radius <= r[2] <= c[2] + radius
            &&& c[3] - radius <= r[3] <= c[3] + radius
        } by {
            if in_sum_box(lo, hi, 10, r) {
                crate::enumerate::lemma_sum_box_facts(lo, hi, 10, r);
            } else {
                if in_random_bounds(*rb, r) && c[0] - radius <= r[0] <= c[0] + radius
                    && c[1] - radius <= r[1] <= c[1] + radius && c[2] - radius <= r[2] <= c[2] + radius
                    && c[3] - radius <= r[3] <= c[3] + radius {
                    crate::enumerate::lemma_mk_box(lo, hi, r);
                }
            }
        }
    }
    (lo, hi)
}

/// One of the first four axes of `ball_box`: `[max(lo, c - radius), min(hi, c + radius)]`,
/// kept inside `-1..=11` (the bounds are inside `0..=10`).
fn ball_axis(a: [i32; 2], c: i32, radius: i32) -> (r: (i64, i64))
    requires
        0 <= a[0] <= a[1] <= 10,
    ensures
        -1 <= r.0 <= 11,
        -1 <= r.1 <= 11,
        r.0 == max_i(a[0] as int, min_i(c - radius, 11)),
        r.1 == min_i(a[1] as int, max_i(c + radius, -1)),
{
    let l: i64 = c as i64 - radius as i64;
    let l2: i64 = if l < 11 { l } else { 11 };
    let lo: i64 = if (a[0] as i64) > l2 { a[0] as i64 } else { l2 };
    let h: i64 = c as i64 + radius as i64;
    let h2: i64 = if h > -1 { h } else { -1 };
    let hi: i64 = if (a[1] as i64) < h2 { a[1] as i64 } else { h2 };
    (lo, hi)
}

/// `v + 10 * bprate * r` per axis (thousandths).
fn add_random(v: &[i128; 5], bprate: i32, r: &[i32; 5]) -> (x: [i128; 5])
    requires
        forall|i: int| 0 <= i < 5 ==> -0x2_0000_0000_0000_0000_0 <= #[trigger] v[i] <= 0x2_0000_0000_0000_0000_0,
        forall|i: int| 0 <= i < 5 ==> 0 <= #[trigger] r[i] <= 10,
    ensures
        forall|i: int| 0 <= i < 5 ==> #[trigger] x[i] == v[i] + 10 * bprate * r[i],
        bp_small(x, 0),
{
    let mut x: [i128; 5] = [0; 5];
    let mut i: usize = 0;
    while i < 5
        invariant
            0 <= i <= 5,
            forall|j: int| 0 <= j < 5 ==> -0x2_0000_0000_0000_0000_0 <= #[trigger] v[j] <= 0x2_0000_0000_0000_0000_0,
            forall|j: int| 0 <= j < 5 ==> 0 <= #[trigger] r[j] <= 10,
            forall|j: int| 0 <= j < i ==> #[trigger] x[j] == v[j] + 10 * bprate * r[j],
            forall|j: int| 0 <= j < i ==> -0x4_0000_0000_0000_0000_0 <= #[trigger] x[j] <= 0x4_0000_0000_0000_0000_0,
        decreases 5 - i,
    {
        let ri = r[i];
        assert(-0x100_0000_0000 <= 10 * (bprate as int) * (ri as int) <= 0x100_0000_0000) by (nonlinear_arith)
            requires
                0 <= ri <= 10,
                i32::MIN <= bprate <= i32::MAX,
        ;
        let d: i128 = 10 * bprate as i128 * ri as i128;
        x[i] = v[i] + d;
        i = i + 1;
    }
    assert(bp_small(x, 0)) by {
        assert forall|j: int| 0 <= j < 5 implies -small_lim(j, 0) <= #[trigger] x[j] <= small_lim(j, 0) by {}
    }
    x
}

/// The random tiers searched for tiers `g` and spent points `m`, in order:
/// every tuple `random_ok` admits, and nothing else.
fn random_candidates(g: GrowRange, t: Target, m: [i32; 5], opts: &GuessOptions, ms: &[i128; 5]) -> (rs: Vec<[i32; 5]>)
    requires
        forall|s: int| 0 <= s < 5 ==> #[trigger] ms[s] == raw5(mvec(g, t.lvl as int, m), s),
        forall|s: int| 0 <= s < 5 ==> -0x1_0000_0000_0000_0000_0000 <= #[trigger] ms[s] <= 0x1_0000_0000_0000_0000_0000,
    ensures
        lex_sorted(rs@),
        forall|j: int| 0 <= j < rs@.len() ==> random_ok(g, t, m, *opts, #[trigger] rs@[j]),
        forall|r: [i32; 5]| random_ok(g, t, m, *opts, r) ==> holds(rs@, r),
{
    reveal(random_ok);
    let rb = opts.random_bounds;
    match opts.random {
        RandomSearch::Exhaustive => for_each_random_tuple_within(rb),
        RandomSearch::Ball { radius } => {
            let c = seeds(g, t, m, ms);
            let (lo, hi) = ball_box(&rb, &c, radius);
            let rs = sum_tuples(lo, hi, 10);
            proof {
                assert forall|r: [i32; 5]| random_ok(g, t, m, *opts, r) <==> in_sum_box(lo, hi, 10, r) by {
                    reveal(random_ok);
                    assert(opts.random == (RandomSearch::Ball { radius }));
                    assert(c[0] == seed(g, t, m, 0));
                    assert(c[1] == seed(g, t, m, 1));
                    assert(c[2] == seed(g, t, m, 2));
                    assert(c[3] == seed(g, t, m, 3));
                    assert(in_sum_box(lo, hi, 10, r) <==> {
                        &&& in_random_bounds(rb, r)
                        &&& c[0] - radius <= r[0] <= c[0] + radius
                        &&& c[1] - radius <= r[1] <= c[1] + radius
                        &&& c[2] - radius <= r[2] <= c[2] + radius
                        &&& c[3] - radius <= r[3] <= c[3] + radius
                    });
                }
            }
            rs
        },
    }
}

proof fn lemma_mk_fields(catalog: GrowRange, t: Target, mode: MatchMode, opts: GuessOptions,
    g: GrowRange, m: [i32; 5], r: [i32; 5])
    ensures
        mk_cand(catalog, t, mode, opts, g, m, r).grow == g,
        mk_cand(catalog, t, mode, opts, g, m, r).manual == m,
        mk_cand(catalog, t, mode, opts, g, m, r).random == r,
{
    reveal(mk_cand);
}

/// What the search fixed before it reaches the random tiers of `(g, m)`.
#[verifier::opaque]
pub open spec fn prefix_ok(catalog: GrowRange, t: Target, p: int, mode: MatchMode, opts: GuessOptions,
    g: GrowRange, m: [i32; 5]) -> bool
{
    let tol = spec_tol(opts, mode, t.lvl as int);
    &&& grow_ok(catalog, opts, g)
    &&& sum_ok(g, t, p, mode, tol)
    &&& manual_ok(g, t, p, opts.manual, m)
    &&& !pruned(g, t, m, mode, tol)
}

proof fn lemma_sol_split(catalog: GrowRange, t: Target, p: int, mode: MatchMode, opts: GuessOptions,
    g: GrowRange, m: [i32; 5], r: [i32; 5])
    ensures
        is_sol(catalog, t, p, mode, opts, g, m, r) <==> {
            &&& prefix_ok(catalog, t, p, mode, opts, g, m)
            &&& random_ok(g, t, m, opts, r)
            &&& main_accept(g, t, mode, spec_tol(opts, mode, t.lvl as int), m, r) is Some
            &&& catch_accept(g, opts, mode, spec_tol(opts, mode, t.lvl as int), r) is Some
        },
{
    reveal(is_sol);
    reveal(prefix_ok);
}

proof fn lemma_random_ok_bounds(g: GrowRange, t: Target, m: [i32; 5], opts: GuessOptions, r: [i32; 5])
    requires
        random_ok(g, t, m, opts, r),
        forall|i: int| 0 <= i < 5 ==> 0 <= #[trigger] opts.random_bounds.lo(i) && opts.random_bounds.hi(i) <= 10,
    ensures
        0 <= r[0] <= 10 && 0 <= r[1] <= 10 && 0 <= r[2] <= 10 && 0 <= r[3] <= 10 && 0 <= r[4] <= 10,
{
    reveal(random_ok);
    assert(0 <= opts.random_bounds.lo(0) && opts.random_bounds.hi(0) <= 10);
    assert(0 <= opts.random_bounds.lo(1) && opts.random_bounds.hi(1) <= 10);
    assert(0 <= opts.random_bounds.lo(2) && opts.random_bounds.hi(2) <= 10);
    assert(0 <= opts.random_bounds.lo(3) && opts.random_bounds.hi(3) <= 10);
    assert(0 <= opts.random_bounds.lo(4) && opts.random_bounds.hi(4) <= 10);
}

/// Checks one random tuple for tiers `g` and spent points `m`: the record of
/// the solution, or `None` when `(g, m, r)` is none.
#[verifier::loop_isolation(false)]
fn try_random(
    catalog: GrowRange,
    t: Target,
    p: i32,
    mode: MatchMode,
    opts: &GuessOptions,
    g: GrowRange,
    m: [i32; 5],
    r: [i32; 5],
    matcher: &Matcher,
    mv: &[i128; 5],
    catch_base: &[i128; 5],
    lost_bp: i32,
    possible_lost: [[i32; 2]; 5],
) -> (res: Option<Candidate>)
    requires
        matcher.wf(),
        matcher.mode == mode,
        matcher.tol == spec_tol(*opts, mode, t.lvl as int),
        matcher.tiers == g.tiers(),
        arr_seq(*mv) == mvec(g, t.lvl as int, m),
        forall|i: int| 0 <= i < 5 ==> -0x2_0000_0000_0000_0000_0 <= #[trigger] mv[i] <= 0x2_0000_0000_0000_0000_0,
        forall|i: int| 0 <= i < 5 ==> -0x2_0000_0000_0000_0000_0 <= #[trigger] catch_base[i] <= 0x2_0000_0000_0000_0000_0,
        match opts.catch {
            Some(c) => forall|i: int| 0 <= i < 5 ==> #[trigger] catch_base[i] == g.spec_base(i, c.lvl as int),
            None => true,
        },
        lost_bp == (catalog.spec_sum() - g.spec_sum()) as i32,
        possible_lost == lost_arr(g, catalog),
        prefix_ok(catalog, t, p as int, mode, *opts, g, m),
        random_ok(g, t, m, *opts, r),
        0 <= r[0] <= 10 && 0 <= r[1] <= 10 && 0 <= r[2] <= 10 && 0 <= r[3] <= 10 && 0 <= r[4] <= 10,
    ensures
        match res {
            Some(c) => c == mk_cand(catalog, t, mode, *opts, g, m, r) && is_sol(catalog, t, p as int, mode, *opts, g, m, r),
            None => !is_sol(catalog, t, p as int, mode, *opts, g, m, r),
        },
{
    proof { lemma_sol_split(catalog, t, p as int, mode, *opts, g, m, r); }
    assert forall|i: int| 0 <= i < 5 implies 0 <= #[trigger] r[i] <= 10 by {
        if i == 0 {} else if i == 1 {} else if i == 2 {} else if i == 3 {} else {}
    }
    let ts = t.to_array();
    let x = add_random(mv, g.bprate, &r);
    assert(arr_seq(x) =~= xvec(g, t.lvl as int, m, r));
    let main = matcher.accepts(&x, &ts);
    let n1 = match main {
        None => { return None; },
        Some(n) => n,
    };
    let caught: Option<bool> = match opts.catch {
        None => Some(false),
        Some(c) => {
            let cx = add_random(catch_base, g.bprate, &r);
            assert(arr_seq(cx) =~= catch_vec(g, c.lvl as int, r));
            let cs = c.to_array();
            matcher.accepts(&cx, &cs)
        },
    };
    let n2 = match caught {
        None => { return None; },
        Some(n) => n,
    };
    proof { lemma_small_in_range(x, 0); }
    let bp = Bp::from_array(x);
    let stat = bp.calc_real_num();
    let cand = Candidate { grow: g, manual: m, random: r, bp, stat, lost_bp, possible_lost, approximate: n1 || n2 };
    proof {
        reveal(mk_cand);
        assert(bp == bp_of(xvec(g, t.lvl as int, m, r)));
    }
    Some(cand)
}

/// Re-establishes the loop facts of `emit_random` after the solution at
/// position `k` of `rs` was appended.
proof fn lemma_push_step(
    catalog: GrowRange, t: Target, p: int, mode: MatchMode, opts: GuessOptions,
    g: GrowRange, m: [i32; 5], rs: Seq<[i32; 5]>, k: int,
    o0: Seq<Candidate>, prev: Seq<Candidate>, cand: Candidate,
)
    requires
        0 <= k < rs.len(),
        lex_sorted(rs),
        cand == mk_cand(catalog, t, mode, opts, g, m, rs[k]),
        is_sol(catalog, t, p, mode, opts, g, m, rs[k]),
        opts.limit == 0 || prev.len() < opts.limit,
        extends(o0, prev, opts.limit),
        sorted_c(prev),
        sound(catalog, t, p, mode, opts, prev),
        forall|i: int| o0.len() <= i < prev.len() ==> (#[trigger] prev[i]).grow == g && prev[i].manual == m,
        forall|i: int, j: int| 0 <= i < prev.len() && k <= j < rs.len() ==> before(#[trigger] prev[i], g, m, #[trigger] rs[j]),
        forall|j: int| 0 <= j < k && is_sol(catalog, t, p, mode, opts, g, m, #[trigger] rs[j])
            ==> covered(prev, mk_cand(catalog, t, mode, opts, g, m, rs[j]), opts.limit),
    ensures
        ({
            let out = prev.push(cand);
            &&& extends(o0, out, opts.limit)
            &&& sorted_c(out)
            &&& sound(catalog, t, p, mode, opts, out)
            &&& forall|i: int| o0.len() <= i < out.len() ==> (#[trigger] out[i]).grow == g && out[i].manual == m
            &&& forall|i: int, j: int| 0 <= i < out.len() && k + 1 <= j < rs.len() ==> before(#[trigger] out[i], g, m, #[trigger] rs[j])
            &&& forall|j: int| 0 <= j < k + 1 && is_sol(catalog, t, p, mode, opts, g, m, #[trigger] rs[j])
                ==> covered(out, mk_cand(catalog, t, mode, opts, g, m, rs[j]), opts.limit)
        }),
{
    let out = prev.push(cand);
    lemma_mk_fields(catalog, t, mode, opts, g, m, rs[k]);
    assert forall|j: int| 0 <= j < k + 1 && is_sol(catalog, t, p, mode, opts, g, m, #[trigger] rs[j])
        implies covered(out, mk_cand(catalog, t, mode, opts, g, m, rs[j]), opts.limit) by {
        if j < k {
            lemma_covered_push(prev, cand, mk_cand(catalog, t, mode, opts, g, m, rs[j]), opts.limit);
        } else {
            assert(out[prev.len() as int] == cand);
        }
    }
    assert forall|i: int, j: int| 0 <= i < out.len() && k + 1 <= j < rs.len()
        implies before(#[trigger] out[i], g, m, #[trigger] rs[j]) by {
        if i < prev.len() {
            assert(before(prev[i], g, m, rs[j]));
        } else {
            assert(lex_lt5(rs[k], rs[j]));
        }
    }
    assert forall|a: int, b: int| 0 <= a < b < out.len() implies key_lt(#[trigger] out[a], #[trigger] out[b]) by {
        if b == prev.len() {
            assert(before(prev[a], g, m, rs[k]));
        } else {
            assert(key_lt(prev[a], prev[b]));
        }
    }
    assert forall|i: int| 0 <= i < o0.len() implies #[trigger] out[i] == o0[i] by {
        assert(prev[i] == o0[i]);
    }
    assert forall|i: int| 0 <= i < out.len() implies #[trigger] out[i] == mk_cand(catalog, t, mode, opts, out[i].grow, out[i].manual, out[i].random)
        && is_sol(catalog, t, p, mode, opts, out[i].grow, out[i].manual, out[i].random) by {
        if i < prev.len() {
            assert(out[i] == prev[i]);
        }
    }
}

/// Tries every random tuple for tiers `g` and spent points `m`, appending
/// the solutions in order until `opts.limit` is reached.
#[verifier::loop_isolation(false)]
fn emit_random(
    catalog: GrowRange,
    t: Target,
    p: i32,
    mode: MatchMode,
    opts: &GuessOptions,
    g: GrowRange,
    m: [i32; 5],
    matcher: &Matcher,
    mv: &[i128; 5],
    ms: &[i128; 5],
    catch_base: &[i128; 5],
    lost_bp: i32,
    possible_lost: [[i32; 2]; 5],
    out: &mut Vec<Candidate>,
)
    requires
        matcher.wf(),
        matcher.mode == mode,
        matcher.tol == spec_tol(*opts, mode, t.lvl as int),
        matcher.tiers == g.tiers(),
        arr_seq(*mv) == mvec(g, t.lvl as int, m),
        forall|i: int| 0 <= i < 5 ==> -0x2_0000_0000_0000_0000_0 <= #[trigger] mv[i] <= 0x2_0000_0000_0000_0000_0,
        forall|s: int| 0 <= s < 5 ==> #[trigger] ms[s] == raw5(mvec(g, t.lvl as int, m), s),
        forall|s: int| 0 <= s < 5 ==> -0x1_0000_0000_0000_0000_0000 <= #[trigger] ms[s] <= 0x1_0000_0000_0000_0000_0000,
        forall|i: int| 0 <= i < 5 ==> -0x2_0000_0000_0000_0000_0 <= #[trigger] catch_base[i] <= 0x2_0000_0000_0000_0000_0,
        match opts.catch {
            Some(c) => forall|i: int| 0 <= i < 5 ==> #[trigger] catch_base[i] == g.spec_base(i, c.lvl as int),
            None => true,
        },
        lost_bp == (catalog.spec_sum() - g.spec_sum()) as i32,
        possible_lost == lost_arr(g, catalog),
        prefix_ok(catalog, t, p as int, mode, *opts, g, m),
        sorted_c(old(out)@),
        sound(catalog, t, p as int, mode, *opts, old(out)@),
        forall|i: int| 0 <= i < old(out)@.len() ==> #[trigger] below_gm(old(out)@[i], g, m),
        opts.limit > 0 ==> old(out)@.len() <= opts.limit,
    ensures
        extends(old(out)@, final(out)@, opts.limit),
        sorted_c(final(out)@),
        sound(catalog, t, p as int, mode, *opts, final(out)@),
        forall|i: int| old(out)@.len() <= i < final(out)@.len() ==> (#[trigger] final(out)@[i]).grow == g
            && final(out)@[i].manual == m,
        forall|r: [i32; 5]| is_sol(catalog, t, p as int, mode, *opts, g, m, r)
            ==> covered(final(out)@, mk_cand(catalog, t, mode, *opts, g, m, r), opts.limit),
        opts.limit > 0 ==> final(out)@.len() <= opts.limit,
{
    let ghost o0 = out@;
    let rb = opts.random_bounds;
    let b0 = rb.axis(0);
    let b1 = rb.axis(1);
    let b2 = rb.axis(2);
    let b3 = rb.axis(3);
    let b4 = rb.axis(4);
    assert forall|i: int| 0 <= i < 5 implies 0 <= #[trigger] opts.random_bounds.lo(i) && opts.random_bounds.hi(i) <= 10 by {
        if i == 0 {} else if i == 1 {} else if i == 2 {} else if i == 3 {} else {}
    }
    let rs = random_candidates(g, t, m, opts, ms);
    assert forall|i: int, j: int| 0 <= i < out@.len() && 0 <= j < rs@.len() implies before(#[trigger] out@[i], g, m, #[trigger] rs@[j]) by {
        assert(below_gm(o0[i], g, m));
    }
    let mut k: usize = 0;
    while k < rs.len() && !(opts.limit > 0 && out.len() >= opts.limit)
        invariant
            0 <= k <= rs@.len(),
            extends(o0, out@, opts.limit),
            sorted_c(out@),
            sound(catalog, t, p as int, mode, *opts, out@),
            forall|i: int| o0.len() <= i < out@.len() ==> (#[trigger] out@[i]).grow == g && out@[i].manual == m,
            forall|i: int, j: int| 0 <= i < out@.len() && k <= j < rs@.len() ==> before(#[trigger] out@[i], g, m, #[trigger] rs@[j]),
            forall|j: int| 0 <= j < k && is_sol(catalog, t, p as int, mode, *opts, g, m, #[trigger] rs@[j])
                ==> covered(out@, mk_cand(catalog, t, mode, *opts, g, m, rs@[j]), opts.limit),
            opts.limit > 0 ==> out@.len() <= opts.limit,
        decreases rs@.len() - k,
    {
        let r = rs[k];
        assert(random_ok(g, t, m, *opts, r));
        proof { lemma_random_ok_bounds(g, t, m, *opts, r); }
        let found = try_random(catalog, t, p, mode, opts, g, m, r, matcher, mv, catch_base, lost_bp, possible_lost);
        let ghost prev = out@;
        if let Some(cand) = found {
            out.push(cand);
            proof {
                lemma_push_step(catalog, t, p as int, mode, *opts, g, m, rs@, k as int, o0, prev, cand);
            }
        }
        k = k + 1;
    }
    proof {
        assert forall|r: [i32; 5]| is_sol(catalog, t, p as int, mode, *opts, g, m, r)
            implies covered(out@, mk_cand(catalog, t, mode, *opts, g, m, r), opts.limit) by {
            lemma_sol_split(catalog, t, p as int, mode, *opts, g, m, r);
            assert(holds(rs@, r));
            let j = choose|j: int| 0 <= j < rs@.len() && rs@[j] == r;
            if j >= k {
                let last = out@.len() - 1;
                assert(before(out@[last], g, m, rs@[j]));
                lemma_mk_fields(catalog, t, mode, *opts, g, m, r);
            }
        }
    }
}

proof fn lemma_base_bounds(g: GrowRange, lvl: int)
    requires
        i32::MIN <= lvl <= i32::MAX,
    ensures
        forall|i: int| 0 <= i < 5 ==> -0x1_0000_0000_0000_0000_0 <= #[trigger] g.spec_base(i, lvl) <= 0x1_0000_0000_0000_0000_0,
{
    crate::grow::lemma_axis_base_bound(g.hp as int, g.bprate as int, lvl);
    crate::grow::lemma_axis_base_bound(g.atk as int, g.bprate as int, lvl);
    crate::grow::lemma_axis_base_bound(g.def as int, g.bprate as int, lvl);
    crate::grow::lemma_axis_base_bound(g.agi as int, g.bprate as int, lvl);
    crate::grow::lemma_axis_base_bound(g.mp as int, g.bprate as int, lvl);
    assert forall|i: int| 0 <= i < 5 implies -0x1_0000_0000_0000_0000_0 <= #[trigger] g.spec_base(i, lvl) <= 0x1_0000_0000_0000_0000_0 by {
        if i == 0 {} else if i == 1 {} else if i == 2 {} else if i == 3 {} else {}
    }
}

/// BP before random tiers (`base + spent points`) and its five raw stats.
fn spent_bp(g: GrowRange, t: Target, m: [i32; 5], base: &[i128; 5]) -> (res: ([i128; 5], [i128; 5]))
    requires
        forall|i: int| 0 <= i < 5 ==> #[trigger] base[i] == g.spec_base(i, t.lvl as int),
        forall|i: int| 0 <= i < 5 ==> -0x1_0000_0000_0000_0000_0 <= #[trigger] base[i] <= 0x1_0000_0000_0000_0000_0,
    ensures
        arr_seq(res.0) == mvec(g, t.lvl as int, m),
        forall|i: int| 0 <= i < 5 ==> -0x2_0000_0000_0000_0000_0 <= #[trigger] res.0[i] <= 0x2_0000_0000_0000_0000_0,
        forall|s: int| 0 <= s < 5 ==> #[trigger] res.1[s] == raw5(mvec(g, t.lvl as int, m), s),
        forall|s: int| 0 <= s < 5 ==> -0x1_0000_0000_0000_0000_0000 <= #[trigger] res.1[s] <= 0x1_0000_0000_0000_0000_0000,
{
    assert(-0x1_0000_0000_0000_0000_0 <= base[0] <= 0x1_0000_0000_0000_0000_0);
    assert(-0x1_0000_0000_0000_0000_0 <= base[1] <= 0x1_0000_0000_0000_0000_0);
    assert(-0x1_0000_0000_0000_0000_0 <= base[2] <= 0x1_0000_0000_0000_0000_0);
    assert(-0x1_0000_0000_0000_0000_0 <= base[3] <= 0x1_0000_0000_0000_0000_0);
    assert(-0x1_0000_0000_0000_0000_0 <= base[4] <= 0x1_0000_0000_0000_0000_0);
    let mv: [i128; 5] = [
        base[0] + 1000 * m[0] as i128,
        base[1] + 1000 * m[1] as i128,
        base[2] + 1000 * m[2] as i128,
        base[3] + 1000 * m[3] as i128,
        base[4] + 1000 * m[4] as i128,
    ];
    assert(arr_seq(mv) =~= mvec(g, t.lvl as int, m));
    assert forall|i: int| 0 <= i < 5 implies -0x2_0000_0000_0000_0000_0 <= #[trigger] mv[i] <= 0x2_0000_0000_0000_0000_0 by {
        if i == 0 {} else if i == 1 {} else if i == 2 {} else if i == 3 {} else {}
    }
    assert(bp_in_range(mv));
    let ms: [i128; 5] = [raw_stat(&mv, 0), raw_stat(&mv, 1), raw_stat(&mv, 2), raw_stat(&mv, 3), raw_stat(&mv, 4)];
    assert forall|s: int| 0 <= s < 5 implies #[trigger] ms[s] == raw5(mvec(g, t.lvl as int, m), s)
        && -0x1_0000_0000_0000_0000_0000 <= ms[s] <= 0x1_0000_0000_0000_0000_0000 by {
        lemma_raw5_bound(arr_seq(mv), s, 0x2_0000_0000_0000_0000_0);
        if s == 0 {} else if s == 1 {} else if s == 2 {} else if s == 3 {} else {}
    }
    (mv, ms)
}

proof fn lemma_slack_bound(mode: MatchMode, tol: int, tiers: [i32; 5], s: int)
    requires
        -0x1_0000_0000 <= tol <= 0x1_0000_0000,
        0 <= s < 5,
    ensures
        -0x1_0000_0000_0000 <= spec_stat_slack(mode, tol, tiers, s) <= 0x1_0000_0000_0000,
        -0x1_0000_0000_0000 <= spec_sum_slack(mode, tol, tiers) <= 0x1_0000_0000_0000,
{
    if mode == MatchMode::Observer {
        let n = (if movable(tiers, 0) { 1int } else { 0 }) + (if movable(tiers, 1) { 1int } else { 0 })
            + (if movable(tiers, 2) { 1int } else { 0 }) + (if movable(tiers, 3) { 1int } else { 0 })
            + (if movable(tiers, 4) { 1int } else { 0 });
        assert(-0x1_0000_0000_0000 <= tol * n <= 0x1_0000_0000_0000) by (nonlinear_arith)
            requires
                -0x1_0000_0000 <= tol <= 0x1_0000_0000,
                0 <= n <= 5,
        ;
        let x = (if movable(tiers, 0) { abs_i(m10(s, 0)) } else { 0 })
            + (if movable(tiers, 1) { abs_i(m10(s, 1)) } else { 0 })
            + (if movable(tiers, 2) { abs_i(m10(s, 2)) } else { 0 })
            + (if movable(tiers, 3) { abs_i(m10(s, 3)) } else { 0 })
            + (if movable(tiers, 4) { abs_i(m10(s, 4)) } else { 0 });
        assert(0 <= x <= 500) by {
            assert(0 <= abs_i(m10(s, 0)) <= 100 && 0 <= abs_i(m10(s, 1)) <= 100 && 0 <= abs_i(m10(s, 2)) <= 100
                && 0 <= abs_i(m10(s, 3)) <= 100 && 0 <= abs_i(m10(s, 4)) <= 100) by {
                if s == 0 {} else if s == 1 {} else if s == 2 {} else if s == 3 {} else {}
            }
        }
        assert(-0x1_0000_0000_0000 <= tol * x <= 0x1_0000_0000_0000) by (nonlinear_arith)
            requires
                -0x1_0000_0000 <= tol <= 0x1_0000_0000,
                0 <= x <= 500,
        ;
    }
}

/// What the random tiers can add to stat `s` at least and at most (ten-thousandths).
fn reach(s: usize, bprate: i32) -> (r: (i128, i128))
    requires
        s < 5,
    ensures
        r.0 == row_min(s as int) * 100 * bprate,
        r.1 == row_max(s as int) * 100 * bprate,
{
    let b: i128 = bprate as i128;
    let (lo, hi): (i128, i128) = if s == 0 {
        (10, 80)
    } else if s == 1 {
        (10, 100)
    } else if s == 2 {
        (2, 27)
    } else if s == 3 {
        (2, 30)
    } else {
        (1, 20)
    };
    assert(lo == row_min(s as int) && hi == row_max(s as int));
    assert(-0x1_0000_0000_0000 <= lo * 100 * b <= 0x1_0000_0000_0000 && -0x1_0000_0000_0000 <= hi * 100 * b <= 0x1_0000_0000_0000)
        by (nonlinear_arith)
        requires
            1 <= lo <= 100,
            1 <= hi <= 100,
            i32::MIN <= b <= i32::MAX,
    ;
    (lo * 100 * b, hi * 100 * b)
}

/// Whether the random tiers can no longer bring some stat into its interval.
#[verifier::loop_isolation(false)]
fn is_pruned(g: GrowRange, t: Target, m: [i32; 5], matcher: &Matcher, ms: &[i128; 5]) -> (r: bool)
    requires
        matcher.wf(),
        matcher.tiers == g.tiers(),
        -0x1_0000_0000 <= matcher.tol <= 0x1_0000_0000,
        forall|s: int| 0 <= s < 5 ==> #[trigger] ms[s] == raw5(mvec(g, t.lvl as int, m), s),
        forall|s: int| 0 <= s < 5 ==> -0x1_0000_0000_0000_0000_0000 <= #[trigger] ms[s] <= 0x1_0000_0000_0000_0000_0000,
    ensures
        r == pruned(g, t, m, matcher.mode, matcher.tol as int),
{
    reveal(pruned);
    let ts = t.to_array();
    let mut s: usize = 0;
    while s < 5
        invariant
            0 <= s <= 5,
            matcher.wf(),
            ts == t.stats(),
            forall|j: int| 0 <= j < 5 ==> #[trigger] ms[j] == raw5(mvec(g, t.lvl as int, m), j),
            forall|j: int| 0 <= j < 5 ==> -0x1_0000_0000_0000_0000_0000 <= #[trigger] ms[j] <= 0x1_0000_0000_0000_0000_0000,
            forall|j: int| 0 <= j < s ==> !prune_stat(g, t, m, matcher.mode, matcher.tol as int, j),
        decreases 5 - s,
    {
        let slack = matcher.stat_slack[s];
        assert(slack == spec_stat_slack(matcher.mode, matcher.tol as int, g.tiers(), s as int));
        proof { lemma_slack_bound(matcher.mode, matcher.tol as int, g.tiers(), s as int); }
        let need_lo: i128 = 10000 * (ts[s] as i128 - 19) - ms[s] + slack;
        let need_hi: i128 = 10000 * (ts[s] as i128 - 20) - ms[s] - slack;
        let (lo_reach, hi_reach) = reach(s, g.bprate);
        assert(ts[s as int] == t.stats()[s as int]);
        if need_lo <= lo_reach || need_hi > hi_reach {
            assert(prune_stat(g, t, m, matcher.mode, matcher.tol as int, s as int));
            return true;
        }
        s = s + 1;
    }
    false
}

/// Floor of the soft limit of axis `i` (see `soft_floor`).
fn soft_floor_exec(g: GrowRange, t: Target, i: usize, base: i128, up: i128) -> (r: i128)
    requires
        i < 5,
        base == g.spec_base(i as int, t.lvl as int),
        -0x1_0000_0000_0000_0000_0 <= base <= 0x1_0000_0000_0000_0000_0,
        up == spec_stat_to_bp(tseq_up(t), i as int),
        -0x4_0000_0000_0000_0000_0000_0000 <= up <= 0x4_0000_0000_0000_0000_0000_0000,
    ensures
        r == soft_floor(g, t, i as int),
{
    div_floor(up - base * INV_DEN + 1000 * INV_DEN, 1000 * INV_DEN)
}

/// `[man_lo, man_hi]` of axis `i`.
fn man_axis(g: GrowRange, t: Target, p: i32, mb: &ManualBounds, i: usize, base: i128, up: i128) -> (r: (i64, i64))
    requires
        i < 5,
        base == g.spec_base(i as int, t.lvl as int),
        -0x1_0000_0000_0000_0000_0 <= base <= 0x1_0000_0000_0000_0000_0,
        up == spec_stat_to_bp(tseq_up(t), i as int),
        -0x4_0000_0000_0000_0000_0000_0000 <= up <= 0x4_0000_0000_0000_0000_0000_0000,
    ensures
        r.0 == man_lo(*mb, i as int),
        r.1 == man_hi(g, t, p as int, *mb, i as int),
        i32::MIN <= r.0 <= i32::MAX,
        i32::MIN <= r.1 <= i32::MAX,
{
    let sf = soft_floor_exec(g, t, i, base, up);
    if i < 4 {
        let a: i128 = if sf < p as i128 { sf } else { p as i128 };
        let b: i128 = if a > i32::MIN as i128 { a } else { i32::MIN as i128 };
        let h: i128 = if b < mb.hi(i) as i128 { b } else { mb.hi(i) as i128 };
        (mb.lo(i) as i64, h as i64)
    } else {
        let h4a: i128 = if (mb.hi(4) as i128) < sf { mb.hi(4) as i128 } else { sf };
        let h4: i128 = if h4a > -1 { h4a } else { -1 };
        let l4: i64 = if mb.lo(4) > 0 { mb.lo(4) as i64 } else { 0 };
        (l4, h4 as i64)
    }
}

/// The box whose tuples adding up to `p` are exactly the spent points the
/// search tries for tiers `g`.
fn manual_box(g: GrowRange, t: Target, p: i32, mb: &ManualBounds, base: &[i128; 5], up: &[i128; 5]) -> (lh: ([i64; 5], [i64; 5]))
    requires
        forall|i: int| 0 <= i < 5 ==> #[trigger] base[i] == g.spec_base(i, t.lvl as int),
        forall|i: int| 0 <= i < 5 ==> -0x1_0000_0000_0000_0000_0 <= #[trigger] base[i] <= 0x1_0000_0000_0000_0000_0,
        forall|i: int| 0 <= i < 5 ==> #[trigger] up[i] == spec_stat_to_bp(tseq_up(t), i),
        forall|i: int| 0 <= i < 5 ==> -0x4_0000_0000_0000_0000_0000_0000 <= #[trigger] up[i] <= 0x4_0000_0000_0000_0000_0000_0000,
    ensures
        fits_i32(lh.0, lh.1),
        forall|m: [i32; 5]| #[trigger] in_sum_box(lh.0, lh.1, p as int, m) <==> manual_ok(g, t, p as int, *mb, m),
{
    let (l0, h0) = man_axis(g, t, p, mb, 0, base[0], up[0]);
    let (l1, h1) = man_axis(g, t, p, mb, 1, base[1], up[1]);
    let (l2, h2) = man_axis(g, t, p, mb, 2, base[2], up[2]);
    let (l3, h3) = man_axis(g, t, p, mb, 3, base[3], up[3]);
    let (l4, h4) = man_axis(g, t, p, mb, 4, base[4], up[4]);
    let lo: [i64; 5] = [l0, l1, l2, l3, l4];
    let hi: [i64; 5] = [h0, h1, h2, h3, h4];
    assert(fits_i32(lo, hi)) by {
        assert forall|j: int| 0 <= j < 5 implies i32::MIN <= #[trigger] lo[j] <= i32::MAX && i32::MIN <= hi[j] <= i32::MAX by {
            if j == 0 {} else if j == 1 {} else if j == 2 {} else if j == 3 {} else {}
        }
    }
    proof {
        reveal(manual_ok);
        assert(lo[0] == man_lo(*mb, 0) && hi[0] == man_hi(g, t, p as int, *mb, 0));
        assert(lo[1] == man_lo(*mb, 1) && hi[1] == man_hi(g, t, p as int, *mb, 1));
        assert(lo[2] == man_lo(*mb, 2) && hi[2] == man_hi(g, t, p as int, *mb, 2));
        assert(lo[3] == man_lo(*mb, 3) && hi[3] == man_hi(g, t, p as int, *mb, 3));
        assert(lo[4] == man_lo(*mb, 4) && hi[4] == man_hi(g, t, p as int, *mb, 4));
        assert forall|m: [i32; 5]| #[trigger] in_sum_box(lo, hi, p as int, m) <==> manual_ok(g, t, p as int, *mb, m) by {
            if in_sum_box(lo, hi, p as int, m) {
                crate::enumerate::lemma_sum_box_facts(lo, hi, p as int, m);
            }
            if manual_ok(g, t, p as int, *mb, m) {
                crate::enumerate::lemma_mk_box(lo, hi, m);
            }
        }
    }
    (lo, hi)
}

proof fn lemma_prefix(catalog: GrowRange, t: Target, p: int, mode: MatchMode, opts: GuessOptions,
    g: GrowRange, m: [i32; 5])
    ensures
        prefix_ok(catalog, t, p, mode, opts, g, m) <==> {
            &&& grow_ok(catalog, opts, g)
            &&& sum_ok(g, t, p, mode, spec_tol(opts, mode, t.lvl as int))
            &&& manual_ok(g, t, p, opts.manual, m)
            &&& !pruned(g, t, m, mode, spec_tol(opts, mode, t.lvl as int))
        },
{
    reveal(prefix_ok);
}

/// Re-establishes the loop facts of `handle_grow_range` after the spent
/// points at position `k` of `ms` were tried.
proof fn lemma_handle_step(
    catalog: GrowRange, t: Target, p: int, mode: MatchMode, opts: GuessOptions,
    g: GrowRange, ms: Seq<[i32; 5]>, k: int,
    o0: Seq<Candidate>, prev: Seq<Candidate>, out: Seq<Candidate>,
)
    requires
        0 <= k < ms.len(),
        lex_sorted(ms),
        extends(o0, prev, opts.limit),
        extends(prev, out, opts.limit),
        forall|i: int| o0.len() <= i < prev.len() ==> (#[trigger] prev[i]).grow == g,
        forall|i: int| prev.len() <= i < out.len() ==> (#[trigger] out[i]).grow == g && out[i].manual == ms[k],
        forall|i: int, j: int| 0 <= i < prev.len() && k <= j < ms.len() ==> below_gm(#[trigger] prev[i], g, #[trigger] ms[j]),
        forall|j: int, r: [i32; 5]| 0 <= j < k && #[trigger] is_sol(catalog, t, p, mode, opts, g, ms[j], r)
            ==> covered(prev, mk_cand(catalog, t, mode, opts, g, ms[j], r), opts.limit),
        forall|r: [i32; 5]| #[trigger] is_sol(catalog, t, p, mode, opts, g, ms[k], r)
            ==> covered(out, mk_cand(catalog, t, mode, opts, g, ms[k], r), opts.limit),
    ensures
        extends(o0, out, opts.limit),
        forall|i: int| o0.len() <= i < out.len() ==> (#[trigger] out[i]).grow == g,
        forall|i: int, j: int| 0 <= i < out.len() && k + 1 <= j < ms.len() ==> below_gm(#[trigger] out[i], g, #[trigger] ms[j]),
        forall|j: int, r: [i32; 5]| 0 <= j < k + 1 && #[trigger] is_sol(catalog, t, p, mode, opts, g, ms[j], r)
            ==> covered(out, mk_cand(catalog, t, mode, opts, g, ms[j], r), opts.limit),
{
    lemma_extends_trans(o0, prev, out, opts.limit);
    assert forall|i: int| o0.len() <= i < out.len() implies (#[trigger] out[i]).grow == g by {
        if i < prev.len() {
            assert(out[i] == prev[i]);
        }
    }
    assert forall|i: int, j: int| 0 <= i < out.len() && k + 1 <= j < ms.len() implies below_gm(#[trigger] out[i], g, #[trigger] ms[j]) by {
        if i < prev.len() {
            assert(out[i] == prev[i]);
            assert(below_gm(prev[i], g, ms[j]));
        } else {
            assert(lex_lt5(ms[k], ms[j]));
        }
    }
    assert forall|j: int, r: [i32; 5]| 0 <= j < k + 1 && #[trigger] is_sol(catalog, t, p, mode, opts, g, ms[j], r)
        implies covered(out, mk_cand(catalog, t, mode, opts, g, ms[j], r), opts.limit) by {
        if j < k {
            lemma_extends_covered(prev, out, mk_cand(catalog, t, mode, opts, g, ms[j], r), opts.limit);
        }
    }
}



/// `sum_ok`, given the total BP of the tiers and the slack.
fn sum_check(g: GrowRange, t: Target, p: i32, mode: MatchMode, tol: i32, sf: i128, sl: i128, os: i128, ous: i128) -> (r: bool)
    requires
        sf == spec_sum_full(g, t.lvl as int, p as int),
        sl == spec_sum_slack(mode, tol as int, g.tiers()),
        os == spec_os(t),
        ous == spec_ous(t),
        -0x40_0000_0000_0000_0000_0000_0000 <= os <= 0x40_0000_0000_0000_0000_0000_0000,
        -0x40_0000_0000_0000_0000_0000_0000 <= ous <= 0x40_0000_0000_0000_0000_0000_0000,
        forall|i: int| 0 <= i < 5 ==> -0x1_0000_0000_0000_0000_0 <= #[trigger] g.spec_base(i, t.lvl as int) <= 0x1_0000_0000_0000_0000_0,
    ensures
        r == sum_ok(g, t, p as int, mode, tol as int),
{
    proof {
        reveal(sum_ok);
        lemma_slack_bound(mode, tol as int, g.tiers(), 0);
        assert(-0x1_0000_0000_0000_0000_0 <= g.spec_base(0, t.lvl as int) <= 0x1_0000_0000_0000_0000_0);
        assert(-0x1_0000_0000_0000_0000_0 <= g.spec_base(1, t.lvl as int) <= 0x1_0000_0000_0000_0000_0);
        assert(-0x1_0000_0000_0000_0000_0 <= g.spec_base(2, t.lvl as int) <= 0x1_0000_0000_0000_0000_0);
        assert(-0x1_0000_0000_0000_0000_0 <= g.spec_base(3, t.lvl as int) <= 0x1_0000_0000_0000_0000_0);
        assert(-0x1_0000_0000_0000_0000_0 <= g.spec_base(4, t.lvl as int) <= 0x1_0000_0000_0000_0000_0);
    }
    sf * INV_DEN >= os - sl * INV_DEN && sf * INV_DEN <= ous + sl * INV_DEN
}

/// Catalog tier total minus the tier total (wrapping into `i32`), and the per-axis possible loss.
fn lost_fields(g: GrowRange, catalog: GrowRange) -> (r: (i32, [[i32; 2]; 5]))
    ensures
        r.0 == (catalog.spec_sum() - g.spec_sum()) as i32,
        r.1 == lost_arr(g, catalog),
{
    let csum: i64 = catalog.hp as i64 + catalog.atk as i64 + catalog.def as i64 + catalog.agi as i64 + catalog.mp as i64;
    let gsum: i64 = g.hp as i64 + g.atk as i64 + g.def as i64 + g.agi as i64 + g.mp as i64;
    let lost_bp: i32 = (csum - gsum) as i32;
    let possible_lost = possible_lost_range(g, catalog);
    let ghost la = lost_arr(g, catalog);
    assert(possible_lost =~= la) by {
        assert forall|i: int| 0 <= i < 5 implies possible_lost[i] =~= #[trigger] la[i] by {
            let a = spec_possible_lost(g.tiers(), catalog.tiers(), i);
            assert(possible_lost[i][0] == spec_possible_lost(g.tiers(), catalog.tiers(), i).0);
            assert(possible_lost[i][1] == spec_possible_lost(g.tiers(), catalog.tiers(), i).1);
            assert(a.0 as i32 == possible_lost[i][0]);
            assert(a.1 as i32 == possible_lost[i][1]);
            if i == 0 {} else if i == 1 {} else if i == 2 {} else if i == 3 {} else {}
        }
    }
    (lost_bp, possible_lost)
}

/// Base BP at the catch level (zeros without one).
fn catch_base_of(g: GrowRange, catch: Option<Target>) -> (b: [i128; 5])
    ensures
        forall|i: int| 0 <= i < 5 ==> -0x2_0000_0000_0000_0000_0 <= #[trigger] b[i] <= 0x2_0000_0000_0000_0000_0,
        match catch {
            Some(c) => forall|i: int| 0 <= i < 5 ==> #[trigger] b[i] == g.spec_base(i, c.lvl as int),
            None => true,
        },
{
    match catch {
        Some(c) => {
            proof { lemma_base_bounds(g, c.lvl as int); }
            let b = g.calc_bp_at_level(c.lvl, None).base_bp.to_array();
            assert forall|i: int| 0 <= i < 5 implies -0x2_0000_0000_0000_0000_0 <= #[trigger] b[i] <= 0x2_0000_0000_0000_0000_0 by {
                assert(b[i] == g.spec_base(i, c.lvl as int));
            }
            b
        },
        None => [0; 5],
    }
}

/// What the search computes once per candidate tier set.
struct Prep {
    matcher: Matcher,
    base: [i128; 5],
    mlist: Vec<[i32; 5]>,
    lost_bp: i32,
    possible_lost: [[i32; 2]; 5],
    catch_base: [i128; 5],
}

/// The per-tier-set part of the search: `None` when the total BP rules the
/// tiers out, else the matcher, the base BP and the spent-point candidates.
fn prepare(
    catalog: GrowRange,
    t: Target,
    p: i32,
    mode: MatchMode,
    opts: &GuessOptions,
    g: GrowRange,
    os: i128,
    ous: i128,
    up: &[i128; 5],
) -> (res: Option<Prep>)
    requires
        os == spec_os(t),
        ous == spec_ous(t),
        -0x40_0000_0000_0000_0000_0000_0000 <= os <= 0x40_0000_0000_0000_0000_0000_0000,
        -0x40_0000_0000_0000_0000_0000_0000 <= ous <= 0x40_0000_0000_0000_0000_0000_0000,
        forall|i: int| 0 <= i < 5 ==> #[trigger] up[i] == spec_stat_to_bp(tseq_up(t), i),
        forall|i: int| 0 <= i < 5 ==> -0x4_0000_0000_0000_0000_0000_0000 <= #[trigger] up[i] <= 0x4_0000_0000_0000_0000_0000_0000,
    ensures
        match res {
            None => !sum_ok(g, t, p as int, mode, spec_tol(*opts, mode, t.lvl as int)),
            Some(pr) => {
                &&& sum_ok(g, t, p as int, mode, spec_tol(*opts, mode, t.lvl as int))
                &&& pr.matcher.wf()
                &&& pr.matcher.mode == mode
                &&& pr.matcher.tol == spec_tol(*opts, mode, t.lvl as int)
                &&& pr.matcher.tiers == g.tiers()
                &&& forall|i: int| 0 <= i < 5 ==> #[trigger] pr.base[i] == g.spec_base(i, t.lvl as int)
                &&& forall|i: int| 0 <= i < 5 ==> -0x1_0000_0000_0000_0000_0 <= #[trigger] pr.base[i] <= 0x1_0000_0000_0000_0000_0
                &&& lex_sorted(pr.mlist@)
                &&& forall|j: int| 0 <= j < pr.mlist@.len() ==> manual_ok(g, t, p as int, opts.manual, #[trigger] pr.mlist@[j])
                &&& forall|m: [i32; 5]| manual_ok(g, t, p as int, opts.manual, m) ==> holds(pr.mlist@, m)
                &&& pr.lost_bp == (catalog.spec_sum() - g.spec_sum()) as i32
                &&& pr.possible_lost == lost_arr(g, catalog)
                &&& forall|i: int| 0 <= i < 5 ==> -0x2_0000_0000_0000_0000_0 <= #[trigger] pr.catch_base[i] <= 0x2_0000_0000_0000_0000_0
                &&& match opts.catch {
                    Some(c) => forall|i: int| 0 <= i < 5 ==> #[trigger] pr.catch_base[i] == g.spec_base(i, c.lvl as int),
                    None => true,
                }
            },
        },
{
    let tol = opts.tol(mode, t.lvl);
    let matcher = Matcher::new(mode, tol, g);
    let at = g.calc_bp_at_level(t.lvl, Some(p));
    proof {
        lemma_base_bounds(g, t.lvl as int);
    }
    if !sum_check(g, t, p, mode, tol, at.sum_full_bp, matcher.sum_slack, os, ous) {
        return None;
    }
    let base = at.base_bp.to_array();
    let (lo, hi) = manual_box(g, t, p, &opts.manual, &base, up);
    let mlist = sum_tuples(lo, hi, p as i64);
    let (lost_bp, possible_lost) = lost_fields(g, catalog);
    let catch_base = catch_base_of(g, opts.catch);
    proof {
        assert forall|m: [i32; 5]| manual_ok(g, t, p as int, opts.manual, m) implies holds(mlist@, m) by {
            assert(in_sum_box(lo, hi, p as int, m));
        }
        assert forall|j: int| 0 <= j < mlist@.len() implies manual_ok(g, t, p as int, opts.manual, #[trigger] mlist@[j]) by {
            assert(in_sum_box(lo, hi, p as int, mlist@[j]));
        }
    }
    Some(Prep { matcher, base, mlist, lost_bp, possible_lost, catch_base })
}

/// Tries every spent-point distribution for tiers `g`, appending the
/// solutions in order until `opts.limit` is reached.
#[verifier::loop_isolation(false)]
fn handle_grow_range(
    catalog: GrowRange,
    t: Target,
    p: i32,
    mode: MatchMode,
    opts: &GuessOptions,
    g: GrowRange,
    os: i128,
    ous: i128,
    up: &[i128; 5],
    out: &mut Vec<Candidate>,
)
    requires
        os == spec_os(t),
        ous == spec_ous(t),
        -0x40_0000_0000_0000_0000_0000_0000 <= os <= 0x40_0000_0000_0000_0000_0000_0000,
        -0x40_0000_0000_0000_0000_0000_0000 <= ous <= 0x40_0000_0000_0000_0000_0000_0000,
        forall|i: int| 0 <= i < 5 ==> #[trigger] up[i] == spec_stat_to_bp(tseq_up(t), i),
        forall|i: int| 0 <= i < 5 ==> -0x4_0000_0000_0000_0000_0000_0000 <= #[trigger] up[i] <= 0x4_0000_0000_0000_0000_0000_0000,
        grow_ok(catalog, *opts, g),
        sorted_c(old(out)@),
        sound(catalog, t, p as int, mode, *opts, old(out)@),
        forall|i: int| 0 <= i < old(out)@.len() ==> #[trigger] below_g(old(out)@[i], g),
        opts.limit > 0 ==> old(out)@.len() <= opts.limit,
    ensures
        extends(old(out)@, final(out)@, opts.limit),
        sorted_c(final(out)@),
        sound(catalog, t, p as int, mode, *opts, final(out)@),
        forall|i: int| old(out)@.len() <= i < final(out)@.len() ==> (#[trigger] final(out)@[i]).grow == g,
        forall|m: [i32; 5], r: [i32; 5]| #[trigger] is_sol(catalog, t, p as int, mode, *opts, g, m, r)
            ==> covered(final(out)@, mk_cand(catalog, t, mode, *opts, g, m, r), opts.limit),
        opts.limit > 0 ==> final(out)@.len() <= opts.limit,
{
    let ghost o0 = out@;
    let prep = prepare(catalog, t, p, mode, opts, g, os, ous, up);
    let pr = match prep {
        None => {
            proof {
                assert forall|m: [i32; 5], r: [i32; 5]| #[trigger] is_sol(catalog, t, p as int, mode, *opts, g, m, r)
                    implies covered(out@, mk_cand(catalog, t, mode, *opts, g, m, r), opts.limit) by {
                    lemma_sol_split(catalog, t, p as int, mode, *opts, g, m, r);
                    lemma_prefix(catalog, t, p as int, mode, *opts, g, m);
                }
            }
            return;
        },
        Some(pr) => pr,
    };
    let matcher = pr.matcher;
    let base = pr.base;
    let mlist = pr.mlist;
    let lost_bp = pr.lost_bp;
    let possible_lost = pr.possible_lost;
    let catch_base = pr.catch_base;
    assert forall|i: int, j: int| 0 <= i < out@.len() && 0 <= j < mlist@.len() implies below_gm(#[trigger] out@[i], g, #[trigger] mlist@[j]) by {
        assert(below_g(o0[i], g));
    }
    let mut k: usize = 0;
    while k < mlist.len() && !(opts.limit > 0 && out.len() >= opts.limit)
        invariant
            0 <= k <= mlist@.len(),
            extends(o0, out@, opts.limit),
            sorted_c(out@),
            sound(catalog, t, p as int, mode, *opts, out@),
            forall|i: int| o0.len() <= i < out@.len() ==> (#[trigger] out@[i]).grow == g,
            forall|i: int, j: int| 0 <= i < out@.len() && k <= j < mlist@.len() ==> below_gm(#[trigger] out@[i], g, #[trigger] mlist@[j]),
            forall|j: int, r: [i32; 5]| 0 <= j < k && #[trigger] is_sol(catalog, t, p as int, mode, *opts, g, mlist@[j], r)
                ==> covered(out@, mk_cand(catalog, t, mode, *opts, g, mlist@[j], r), opts.limit),
            opts.limit > 0 ==> out@.len() <= opts.limit,
        decreases mlist@.len() - k,
    {
        let m = mlist[k];
        let (mv, ms) = spent_bp(g, t, m, &base);
        let pr = is_pruned(g, t, m, &matcher, &ms);
        let ghost prev = out@;
        if !pr {
            proof {
                lemma_prefix(catalog, t, p as int, mode, *opts, g, m);
                assert(manual_ok(g, t, p as int, opts.manual, m));
                assert forall|i: int| 0 <= i < out@.len() implies #[trigger] below_gm(out@[i], g, m) by {
                    assert(below_gm(out@[i], g, mlist@[k as int]));
                }
            }
            emit_random(catalog, t, p, mode, opts, g, m, &matcher, &mv, &ms, &catch_base, lost_bp, possible_lost, out);
            proof {
                lemma_handle_step(catalog, t, p as int, mode, *opts, g, mlist@, k as int, o0, prev, out@);
            }
        } else {
            proof {
                assert forall|r: [i32; 5]| #[trigger] is_sol(catalog, t, p as int, mode, *opts, g, mlist@[k as int], r)
                    implies covered(out@, mk_cand(catalog, t, mode, *opts, g, mlist@[k as int], r), opts.limit) by {
                    lemma_sol_split(catalog, t, p as int, mode, *opts, g, m, r);
                    lemma_prefix(catalog, t, p as int, mode, *opts, g, m);
                }
                lemma_handle_step(catalog, t, p as int, mode, *opts, g, mlist@, k as int, o0, prev, out@);
            }
        }
        k = k + 1;
    }
    proof {
        assert forall|m: [i32; 5], r: [i32; 5]| #[trigger] is_sol(catalog, t, p as int, mode, *opts, g, m, r)
            implies covered(out@, mk_cand(catalog, t, mode, *opts, g, m, r), opts.limit) by {
            lemma_sol_split(catalog, t, p as int, mode, *opts, g, m, r);
            lemma_prefix(catalog, t, p as int, mode, *opts, g, m);
            assert(holds(mlist@, m));
            let j = choose|j: int| 0 <= j < mlist@.len() && mlist@[j] == m;
            if j >= k {
                let last = out@.len() - 1;
                assert(below_gm(out@[last], g, mlist@[j]));
                lemma_mk_fields(catalog, t, mode, *opts, g, m, r);
            }
        }
    }
}

proof fn lemma_stat_to_bp_bound(t: Seq<int>, i: int)
    requires
        t.len() == 5,
        0 <= i < 5,
        forall|j: int| 0 <= j < 5 ==> i64::MIN <= #[trigger] t[j] <= i64::MAX + 1,
    ensures
        -0x1_0000_0000_0000_0000_0000_0000 <= spec_stat_to_bp(t, i) <= 0x1_0000_0000_0000_0000_0000_0000,
{
    let v = t.map(|k: int, x: int| x - crate::bp::PROP_BASE);
    assert(i64::MIN <= t[0] <= i64::MAX + 1 && i64::MIN <= t[1] <= i64::MAX + 1 && i64::MIN <= t[2] <= i64::MAX + 1
        && i64::MIN <= t[3] <= i64::MAX + 1 && i64::MIN <= t[4] <= i64::MAX + 1);
    assert(v[0] == t[0] - 20 && v[1] == t[1] - 20 && v[2] == t[2] - 20 && v[3] == t[3] - 20 && v[4] == t[4] - 20);
    let a = crate::matrix::adj_apply(v, i);
    if i == 0 {
        assert(a == 50724 * v[0] - 3087 * v[1] - 25980 * v[2] - 41880 * v[3] - 62820 * v[4]);
    } else if i == 1 {
        assert(a == -2997 * v[0] - 2331 * v[1] + 147810 * v[2] - 9300 * v[3] - 13950 * v[4]);
    } else if i == 2 {
        assert(a == -2664 * v[0] - 2072 * v[1] - 10410 * v[2] + 133530 * v[3] - 12400 * v[4]);
    } else if i == 3 {
        assert(a == -1791 * v[0] - 1393 * v[1] - 11310 * v[2] - 9390 * v[3] + 198610 * v[4]);
    } else {
        assert(a == -3582 * v[0] + 39753 * v[1] - 22620 * v[2] - 18780 * v[3] - 28170 * v[4]);
    }
}

/// The observed BP interval: total of the lower end, total of the upper end,
/// and the upper end per axis.
fn observed(t: Target) -> (r: (i128, i128, [i128; 5]))
    requires
        t.hp < i64::MAX,
        t.mp < i64::MAX,
        t.atk < i64::MAX,
        t.def < i64::MAX,
        t.agi < i64::MAX,
    ensures
        r.0 == spec_os(t),
        r.1 == spec_ous(t),
        -0x40_0000_0000_0000_0000_0000_0000 <= r.0 <= 0x40_0000_0000_0000_0000_0000_0000,
        -0x40_0000_0000_0000_0000_0000_0000 <= r.1 <= 0x40_0000_0000_0000_0000_0000_0000,
        forall|i: int| 0 <= i < 5 ==> #[trigger] r.2[i] == spec_stat_to_bp(tseq_up(t), i),
        forall|i: int| 0 <= i < 5 ==> -0x4_0000_0000_0000_0000_0000_0000 <= #[trigger] r.2[i] <= 0x4_0000_0000_0000_0000_0000_0000,
{
    let lo = crate::matrix::stat_to_bp(t.hp, t.mp, t.atk, t.def, t.agi);
    let u = t.plus_one();
    let up = crate::matrix::stat_to_bp(u.hp, u.mp, u.atk, u.def, u.agi);
    assert(seq![t.hp as int, t.mp as int, t.atk as int, t.def as int, t.agi as int] =~= tseq(t));
    assert(seq![u.hp as int, u.mp as int, u.atk as int, u.def as int, u.agi as int] =~= tseq_up(t));
    proof {
        assert forall|i: int| 0 <= i < 5 implies -0x1_0000_0000_0000_0000_0000_0000 <= #[trigger] spec_stat_to_bp(tseq(t), i) <= 0x1_0000_0000_0000_0000_0000_0000
            && -0x1_0000_0000_0000_0000_0000_0000 <= spec_stat_to_bp(tseq_up(t), i) <= 0x1_0000_0000_0000_0000_0000_0000 by {
            lemma_stat_to_bp_bound(tseq(t), i);
            lemma_stat_to_bp_bound(tseq_up(t), i);
        }
        assert(lo[0] == spec_stat_to_bp(tseq(t), 0) && up[0] == spec_stat_to_bp(tseq_up(t), 0));
        assert(lo[1] == spec_stat_to_bp(tseq(t), 1) && up[1] == spec_stat_to_bp(tseq_up(t), 1));
        assert(lo[2] == spec_stat_to_bp(tseq(t), 2) && up[2] == spec_stat_to_bp(tseq_up(t), 2));
        assert(lo[3] == spec_stat_to_bp(tseq(t), 3) && up[3] == spec_stat_to_bp(tseq_up(t), 3));
        assert(lo[4] == spec_stat_to_bp(tseq(t), 4) && up[4] == spec_stat_to_bp(tseq_up(t), 4));
    }
    let os = lo[0] + lo[1] + lo[2] + lo[3] + lo[4];
    let ous = up[0] + up[1] + up[2] + up[3] + up[4];
    (os, ous, up)
}

/// Re-establishes the loop facts of `search` after the tiers at position
/// `k` of `gs` were tried.
proof fn lemma_search_step(
    catalog: GrowRange, t: Target, p: int, mode: MatchMode, opts: GuessOptions,
    gs: Seq<GrowRange>, k: int,
    prev: Seq<Candidate>, out: Seq<Candidate>,
)
    requires
        0 <= k < gs.len(),
        crate::grow::lex_sorted_grows(gs),
        extends(prev, out, opts.limit),
        forall|i: int| prev.len() <= i < out.len() ==> (#[trigger] out[i]).grow == gs[k],
        forall|i: int, j: int| 0 <= i < prev.len() && k <= j < gs.len() ==> below_g(#[trigger] prev[i], #[trigger] gs[j]),
        forall|j: int, m: [i32; 5], r: [i32; 5]| 0 <= j < k && #[trigger] is_sol(catalog, t, p, mode, opts, gs[j], m, r)
            ==> covered(prev, mk_cand(catalog, t, mode, opts, gs[j], m, r), opts.limit),
        forall|m: [i32; 5], r: [i32; 5]| #[trigger] is_sol(catalog, t, p, mode, opts, gs[k], m, r)
            ==> covered(out, mk_cand(catalog, t, mode, opts, gs[k], m, r), opts.limit),
    ensures
        forall|i: int, j: int| 0 <= i < out.len() && k + 1 <= j < gs.len() ==> below_g(#[trigger] out[i], #[trigger] gs[j]),
        forall|j: int, m: [i32; 5], r: [i32; 5]| 0 <= j < k + 1 && #[trigger] is_sol(catalog, t, p, mode, opts, gs[j], m, r)
            ==> covered(out, mk_cand(catalog, t, mode, opts, gs[j], m, r), opts.limit),
{
    assert forall|i: int, j: int| 0 <= i < out.len() && k + 1 <= j < gs.len() implies below_g(#[trigger] out[i], #[trigger] gs[j]) by {
        if i < prev.len() {
            assert(out[i] == prev[i]);
            assert(below_g(prev[i], gs[j]));
        } else {
            assert(crate::enumerate::lex_lt5(gs[k].tiers(), gs[j].tiers()));
        }
    }
    assert forall|j: int, m: [i32; 5], r: [i32; 5]| 0 <= j < k + 1 && #[trigger] is_sol(catalog, t, p, mode, opts, gs[j], m, r)
        implies covered(out, mk_cand(catalog, t, mode, opts, gs[j], m, r), opts.limit) by {
        if j < k {
            lemma_extends_covered(prev, out, mk_cand(catalog, t, mode, opts, gs[j], m, r), opts.limit);
        }
    }
}

/// The tier sets the search visits, in order.
fn grow_candidates(catalog: GrowRange, opts: &GuessOptions) -> (gs: Vec<GrowRange>)
    ensures
        crate::grow::lex_sorted_grows(gs@),
        forall|g: GrowRange| grow_ok(catalog, *opts, g) ==> exists|j: int| 0 <= j < gs@.len() && gs@[j] == g,
        forall|j: int| 0 <= j < gs@.len() && (#[trigger] gs@[j]).spec_contains(catalog) ==> grow_ok(catalog, *opts, gs@[j]),
{
    match opts.target_grow {
        Some(g) => {
            let gs = vec![g];
            assert(gs@[0] == g);
            gs
        },
        None => {
            let gs = catalog.loop_range_within(opts.loss);
            proof {
                assert forall|g: GrowRange| grow_ok(catalog, *opts, g) implies exists|j: int| 0 <= j < gs@.len() && gs@[j] == g by {
                    assert(crate::grow::grows_hold(gs@, g.tiers()));
                    let j = choose|j: int| 0 <= j < gs@.len() && gs@[j].tiers() == g.tiers();
                    let h = gs@[j];
                    assert(h.bprate == catalog.bprate);
                    assert(h.hp == g.hp && h.atk == g.atk && h.def == g.def && h.agi == g.agi && h.mp == g.mp);
                    assert(h == g);
                }
            }
            gs
        },
    }
}

/// The solutions for `point` spent points under `mode`, in order, stopping
/// at `opts.limit` of them.
#[verifier::loop_isolation(false)]
fn search(catalog: GrowRange, target: Target, point: i32, mode: MatchMode, opts: &GuessOptions) -> (out: Vec<Candidate>)
    requires
        target.hp < i64::MAX,
        target.mp < i64::MAX,
        target.atk < i64::MAX,
        target.def < i64::MAX,
        target.agi < i64::MAX,
    ensures
        search_result(catalog, target, point as int, mode, *opts, out@),
{
    let (os, ous, up) = observed(target);
    let gs = grow_candidates(catalog, opts);
    let mut out: Vec<Candidate> = Vec::new();
    let mut k: usize = 0;
    while k < gs.len() && !(opts.limit > 0 && out.len() >= opts.limit)
        invariant
            0 <= k <= gs@.len(),
            sorted_c(out@),
            sound(catalog, target, point as int, mode, *opts, out@),
            forall|i: int, j: int| 0 <= i < out@.len() && k <= j < gs@.len() ==> below_g(#[trigger] out@[i], #[trigger] gs@[j]),
            forall|j: int, m: [i32; 5], r: [i32; 5]| 0 <= j < k && #[trigger] is_sol(catalog, target, point as int, mode, *opts, gs@[j], m, r)
                ==> covered(out@, mk_cand(catalog, target, mode, *opts, gs@[j], m, r), opts.limit),
            opts.limit > 0 ==> out@.len() <= opts.limit,
        decreases gs@.len() - k,
    {
        let g = gs[k];
        let ghost prev = out@;
        if g.contains(catalog) {
            let ghost gk = gs@[k as int];
            assert(grow_ok(catalog, *opts, g));
            assert forall|i: int| 0 <= i < out@.len() implies #[trigger] below_g(out@[i], g) by {
                assert(below_g(out@[i], gs@[k as int]));
            }
            handle_grow_range(catalog, target, point, mode, opts, g, os, ous, &up, &mut out);
            proof {
                lemma_search_step(catalog, target, point as int, mode, *opts, gs@, k as int, prev, out@);
            }
        } else {
            proof {
                assert forall|m: [i32; 5], r: [i32; 5]| #[trigger] is_sol(catalog, target, point as int, mode, *opts, gs@[k as int], m, r)
                    implies covered(out@, mk_cand(catalog, target, mode, *opts, gs@[k as int], m, r), opts.limit) by {
                    lemma_sol_split(catalog, target, point as int, mode, *opts, g, m, r);
                    lemma_prefix(catalog, target, point as int, mode, *opts, g, m);
                }
                assert(extends(prev, out@, opts.limit));
                lemma_search_step(catalog, target, point as int, mode, *opts, gs@, k as int, prev, out@);
            }
        }
        k = k + 1;
    }
    proof {
        assert forall|g: GrowRange, m: [i32; 5], r: [i32; 5]| is_sol(catalog, target, point as int, mode, *opts, g, m, r)
            implies covered(out@, mk_cand(catalog, target, mode, *opts, g, m, r), opts.limit) by {
            lemma_sol_split(catalog, target, point as int, mode, *opts, g, m, r);
            lemma_prefix(catalog, target, point as int, mode, *opts, g, m);
            let j = choose|j: int| 0 <= j < gs@.len() && gs@[j] == g;
            assert(is_sol(catalog, target, point as int, mode, *opts, gs@[j], m, r));
            if j >= k {
                let last = out@.len() - 1;
                assert(below_g(out@[last], gs@[j]));
                lemma_mk_fields(catalog, target, mode, *opts, g, m, r);
            }
        }
    }
    out
}

/// The `(spent points, mode)` pairs `solve` tries, in order: each mode with
/// every available point spent, then (above level 1) with none spent; `Auto`
/// tries Exact, Observer and Tolerant in turn.
pub open spec fn ladder(mode: MatchMode, lvl: i32, full_point: i32) -> Seq<(i32, MatchMode)> {
    let one = |m: MatchMode| if lvl != 1 { seq![(full_point, m), (0i32, m)] } else { seq![(full_point, m)] };
    match mode {
        MatchMode::Auto => one(MatchMode::Exact) + one(MatchMode::Observer) + one(MatchMode::Tolerant),
        _ => one(mode),
    }
}

/// Some `(tiers, spent points, random tiers)` is a solution for `p` points under `mode`.
pub open spec fn has_sol(catalog: GrowRange, t: Target, p: int, mode: MatchMode, opts: GuessOptions) -> bool {
    exists|g: GrowRange, m: [i32; 5], r: [i32; 5]| is_sol(catalog, t, p, mode, opts, g, m, r)
}

/// Points to spend at `target`'s level: `lvl - 1 - not_order_point`.
pub open spec fn spec_full_point(target: Target, opts: GuessOptions) -> int {
    target.lvl - 1 - opts.not_order_point
}

proof fn lemma_search_result_nonempty(catalog: GrowRange, t: Target, p: int, mode: MatchMode, opts: GuessOptions,
    out: Seq<Candidate>)
    requires
        search_result(catalog, t, p, mode, opts, out),
    ensures
        out.len() > 0 <==> has_sol(catalog, t, p, mode, opts),
{
    if out.len() > 0 {
        assert(is_sol(catalog, t, p, mode, opts, out[0].grow, out[0].manual, out[0].random));
    }
    if has_sol(catalog, t, p, mode, opts) {
        let (g, m, r) = choose|g: GrowRange, m: [i32; 5], r: [i32; 5]| is_sol(catalog, t, p, mode, opts, g, m, r);
        assert(covered(out, mk_cand(catalog, t, mode, opts, g, m, r), opts.limit));
    }
}

fn push_rung(attempts: &mut Vec<(i32, MatchMode)>, full_point: i32, lvl: i32, m: MatchMode)
    ensures
        final(attempts)@ == old(attempts)@ + (if lvl != 1 { seq![(full_point, m), (0i32, m)] } else { seq![(full_point, m)] }),
{
    attempts.push((full_point, m));
    if lvl != 1 {
        attempts.push((0, m));
    }
}

/// `out` is what `solve` answers: the solutions of the first rung of the
/// ladder that has any (and none on the rungs before it), or, when no rung
/// has any, nothing at the full point count; every candidate has a legal
/// random tuple and spending the bounds allow.
pub open spec fn solve_result(catalog: GrowRange, target: Target, opts: GuessOptions, out: GuessOutcome) -> bool {
    &&& ({
            let l = ladder(opts.mode, target.lvl, spec_full_point(target, opts) as i32);
            &&& out.candidates@.len() > 0 ==> exists|k: int| 0 <= k < l.len() && l[k] == (out.point, out.mode) && out.point >= 0
                && search_result(catalog, target, out.point as int, out.mode, opts, out.candidates@)
                && forall|j: int| 0 <= j < k && l[j].0 >= 0 ==> !has_sol(catalog, target, l[j].0 as int, l[j].1, opts)
            &&& out.candidates@.len() == 0 ==> {
                &&& forall|k: int| 0 <= k < l.len() && l[k].0 >= 0 ==> !has_sol(catalog, target, l[k].0 as int, l[k].1, opts)
                &&& out.point == spec_full_point(target, opts)
                &&& out.mode == (if opts.mode == MatchMode::Auto { MatchMode::Tolerant } else { opts.mode })
            }
        })
    &&& forall|i: int| 0 <= i < out.candidates@.len() ==> is_random_tuple(#[trigger] out.candidates@[i].random)
            && opts.manual.spec_allows(out.candidates@[i].manual)
}

/// The solver: every `(tiers, spent points, random tiers)` consistent with
/// the observed stats, for the first rung of the ladder that has any.
///
/// The ladder tries each mode first with all `lvl - 1 - not_order_point`
/// points spent, then (above level 1) with none spent, skipping a negative
/// number of points. The outcome records the mode and point count that
/// produced the candidates, or, when no rung produced any, the full point
/// count and the requested mode (`Auto` resolved to `Tolerant`).
pub fn solve(catalog: GrowRange, target: Target, opts: GuessOptions) -> (out: GuessOutcome)
    requires
        i32::MIN <= spec_full_point(target, opts) <= i32::MAX,
        target.hp < i64::MAX,
        target.mp < i64::MAX,
        target.atk < i64::MAX,
        target.def < i64::MAX,
        target.agi < i64::MAX,
    ensures
        solve_result(catalog, target, opts, out),
{    let rb = opts.random_bounds;
    let b0 = rb.axis(0);
    let b1 = rb.axis(1);
    let b2 = rb.axis(2);
    let b3 = rb.axis(3);
    let b4 = rb.axis(4);
    assert forall|i: int| 0 <= i < 5 implies 0 <= #[trigger] opts.random_bounds.lo(i) && opts.random_bounds.hi(i) <= 10 by {
        if i == 0 {} else if i == 1 {} else if i == 2 {} else if i == 3 {} else {}
    }
    let full_point: i32 = (target.lvl as i64 - 1 - opts.not_order_point as i64) as i32;
    assert(full_point as int == spec_full_point(target, opts));
    let ghost l = ladder(opts.mode, target.lvl, full_point);
    let mut attempts: Vec<(i32, MatchMode)> = Vec::new();
    match opts.mode {
        MatchMode::Auto => {
            push_rung(&mut attempts, full_point, target.lvl, MatchMode::Exact);
            push_rung(&mut attempts, full_point, target.lvl, MatchMode::Observer);
            push_rung(&mut attempts, full_point, target.lvl, MatchMode::Tolerant);
        },
        m => {
            push_rung(&mut attempts, full_point, target.lvl, m);
        },
    }
    assert(attempts@ =~= l);
    let mut k: usize = 0;
    while k < attempts.len()
        invariant
            0 <= k <= attempts@.len(),
            attempts@ == l,
            l == ladder(opts.mode, target.lvl, full_point),
            full_point as int == spec_full_point(target, opts),
            forall|i: int| 0 <= i < 5 ==> 0 <= #[trigger] opts.random_bounds.lo(i) && opts.random_bounds.hi(i) <= 10,
            target.hp < i64::MAX && target.mp < i64::MAX && target.atk < i64::MAX && target.def < i64::MAX && target.agi < i64::MAX,
            forall|j: int| 0 <= j < k && l[j].0 >= 0 ==> !has_sol(catalog, target, l[j].0 as int, l[j].1, opts),
        decreases attempts@.len() - k,
    {
        let (point, mode) = attempts[k];
        if point >= 0 {
            let candidates = search(catalog, target, point, mode, &opts);
            proof { lemma_search_result_nonempty(catalog, target, point as int, mode, opts, candidates@); }
            if candidates.len() > 0 {
                proof {
                    assert forall|i: int| 0 <= i < candidates@.len() implies is_random_tuple(#[trigger] candidates@[i].random)
                        && opts.manual.spec_allows(candidates@[i].manual) by {
                        let c = candidates@[i];
                        assert(is_sol(catalog, target, point as int, mode, opts, c.grow, c.manual, c.random));
                        lemma_solution_spends_allowed_points(catalog, target, point as int, mode, opts, c.grow, c.manual, c.random);
                        lemma_sol_split(catalog, target, point as int, mode, opts, c.grow, c.manual, c.random);
                        lemma_random_ok_bounds(c.grow, target, c.manual, opts, c.random);
                        reveal(random_ok);
                    }
                }
                assert(l[k as int] == (point, mode));
                assert(full_point == spec_full_point(target, opts) as i32);
                return GuessOutcome { candidates, mode, point };
            }
        }
        k = k + 1;
    }
    let mode = match opts.mode {
        MatchMode::Auto => MatchMode::Tolerant,
        m => m,
    };
    GuessOutcome { candidates: Vec::new(), mode, point: full_point }
}

// ── laws of the solver ───────────────────────────────────────────────────

proof fn lemma_xvec_in_range(g: GrowRange, lvl: i32, m: [i32; 5], r: [i32; 5])
    ensures
        forall|j: int| 0 <= j < 5 ==> -BP_LIMIT <= #[trigger] xvec(g, lvl as int, m, r)[j] <= BP_LIMIT,
{
    lemma_base_bounds(g, lvl as int);
    assert forall|j: int| 0 <= j < 5 implies -BP_LIMIT <= #[trigger] xvec(g, lvl as int, m, r)[j] <= BP_LIMIT by {
        let b = g.bprate as int;
        let rj = r[j] as int;
        assert(-0x1_0000_0000_0000_0000_0 <= 10 * b * rj <= 0x1_0000_0000_0000_0000_0) by (nonlinear_arith)
            requires
                i32::MIN <= b <= i32::MAX,
                i32::MIN <= rj <= i32::MAX,
        ;
        assert(-0x1_0000_0000_0000_0000_0 <= g.spec_base(j, lvl as int) <= 0x1_0000_0000_0000_0000_0);
        if j == 0 {} else if j == 1 {} else if j == 2 {} else if j == 3 {} else {}
    }
}

/// A solution found without the tolerance reproduces the five observed
/// stats exactly: its forward calculation floors to the target.
pub proof fn lemma_exact_candidate_reproduces(catalog: GrowRange, t: Target, p: int, mode: MatchMode,
    opts: GuessOptions, g: GrowRange, m: [i32; 5], r: [i32; 5])
    requires
        is_sol(catalog, t, p, mode, opts, g, m, r),
        !mk_cand(catalog, t, mode, opts, g, m, r).approximate,
    ensures
        mk_cand(catalog, t, mode, opts, g, m, r).stat.hp == t.hp,
        mk_cand(catalog, t, mode, opts, g, m, r).stat.mp == t.mp,
        mk_cand(catalog, t, mode, opts, g, m, r).stat.atk == t.atk,
        mk_cand(catalog, t, mode, opts, g, m, r).stat.def == t.def,
        mk_cand(catalog, t, mode, opts, g, m, r).stat.agi == t.agi,
{
    reveal(is_sol);
    reveal(mk_cand);
    let tol = spec_tol(opts, mode, t.lvl as int);
    let x = xvec(g, t.lvl as int, m, r);
    assert(main_accept(g, t, mode, tol, m, r) == Some(false));
    assert(spec_stats_equal(x, t.stats()));
    lemma_xvec_in_range(g, t.lvl, m, r);
    let bp = bp_of(x);
    assert(bp.arr()[0] == x[0] && bp.arr()[1] == x[1] && bp.arr()[2] == x[2] && bp.arr()[3] == x[3] && bp.arr()[4] == x[4]);
    assert forall|s: int| 0 <= s < 5 implies #[trigger] bp.spec_stat_of(s) == t.stats()[s] by {
        assert(spec_raw(bp.arr(), s) == raw5(x, s));
        assert(hit(x, t.stats(), s));
    }
    assert(bp.spec_stat_of(0) == t.hp && bp.spec_stat_of(1) == t.mp && bp.spec_stat_of(2) == t.atk
        && bp.spec_stat_of(3) == t.def && bp.spec_stat_of(4) == t.agi);
}

/// Searching every random tuple finds every solution the search around the
/// first guess finds.
pub proof fn lemma_exhaustive_covers_ball(catalog: GrowRange, t: Target, p: int, mode: MatchMode,
    opts: GuessOptions, g: GrowRange, m: [i32; 5], r: [i32; 5])
    requires
        is_sol(catalog, t, p, mode, opts, g, m, r),
    ensures
        is_sol(catalog, t, p, mode, GuessOptions { random: RandomSearch::Exhaustive, ..opts }, g, m, r),
{
    let o2 = GuessOptions { random: RandomSearch::Exhaustive, ..opts };
    reveal(is_sol);
    reveal(prefix_ok);
    reveal(random_ok);
    assert(spec_tol(o2, mode, t.lvl as int) == spec_tol(opts, mode, t.lvl as int));
    assert(grow_ok(catalog, o2, g) == grow_ok(catalog, opts, g));
    assert(catch_accept(g, o2, mode, spec_tol(opts, mode, t.lvl as int), r) == catch_accept(g, opts, mode, spec_tol(opts, mode, t.lvl as int), r));
}

/// No spent points distribution fits when the lower bounds alone add up to
/// more points than there are.
pub proof fn lemma_bounds_over_points_rule_out(catalog: GrowRange, t: Target, p: int, mode: MatchMode,
    opts: GuessOptions, g: GrowRange, m: [i32; 5], r: [i32; 5])
    requires
        opts.manual.spec_min_total() > p,
    ensures
        !is_sol(catalog, t, p, mode, opts, g, m, r),
{
    reveal(is_sol);
    reveal(prefix_ok);
    reveal(manual_ok);
}

/// Every solution spends points the bounds allow, `p` of them in all.
pub proof fn lemma_solution_spends_allowed_points(catalog: GrowRange, t: Target, p: int, mode: MatchMode,
    opts: GuessOptions, g: GrowRange, m: [i32; 5], r: [i32; 5])
    requires
        is_sol(catalog, t, p, mode, opts, g, m, r),
    ensures
        opts.manual.spec_allows(m),
        m[0] + m[1] + m[2] + m[3] + m[4] == p,
{
    reveal(is_sol);
    reveal(prefix_ok);
    reveal(manual_ok);
    assert forall|i: int| 0 <= i < 5 implies opts.manual.spec_lo(i) <= #[trigger] m[i] <= opts.manual.spec_hi(i) by {
        if i == 0 {} else if i == 1 {} else if i == 2 {} else if i == 3 {} else {}
    }
}

/// Narrowing the per-axis bounds on the spent points only removes solutions.
pub proof fn lemma_narrower_manual_bounds_shrink(catalog: GrowRange, t: Target, p: int, mode: MatchMode,
    opts: GuessOptions, wide: ManualBounds, g: GrowRange, m: [i32; 5], r: [i32; 5])
    requires
        forall|i: int| 0 <= i < 5 ==> #[trigger] wide.spec_lo(i) <= opts.manual.spec_lo(i) && opts.manual.spec_hi(i) <= wide.spec_hi(i),
        is_sol(catalog, t, p, mode, opts, g, m, r),
    ensures
        is_sol(catalog, t, p, mode, GuessOptions { manual: wide, ..opts }, g, m, r),
{
    let o2 = GuessOptions { manual: wide, ..opts };
    reveal(is_sol);
    reveal(prefix_ok);
    reveal(manual_ok);
    reveal(random_ok);
    assert(wide.spec_lo(0) <= opts.manual.spec_lo(0) && opts.manual.spec_hi(0) <= wide.spec_hi(0));
    assert(wide.spec_lo(1) <= opts.manual.spec_lo(1) && opts.manual.spec_hi(1) <= wide.spec_hi(1));
    assert(wide.spec_lo(2) <= opts.manual.spec_lo(2) && opts.manual.spec_hi(2) <= wide.spec_hi(2));
    assert(wide.spec_lo(3) <= opts.manual.spec_lo(3) && opts.manual.spec_hi(3) <= wide.spec_hi(3));
    assert(wide.spec_lo(4) <= opts.manual.spec_lo(4) && opts.manual.spec_hi(4) <= wide.spec_hi(4));
    assert(spec_tol(o2, mode, t.lvl as int) == spec_tol(opts, mode, t.lvl as int));
    assert(grow_ok(catalog, o2, g) == grow_ok(catalog, opts, g));
    assert(catch_accept(g, o2, mode, spec_tol(opts, mode, t.lvl as int), r) == catch_accept(g, opts, mode, spec_tol(opts, mode, t.lvl as int), r));
}

proof fn lemma_equal_within_band(x: Seq<int>, t: [i64; 5], tol: int)
    requires
        spec_stats_equal(x, t),
        tol >= 0,
    ensures
        spec_within_band(x, t, tol),
{
    assert(hit(x, t, 0) && hit(x, t, 1) && hit(x, t, 2) && hit(x, t, 3) && hit(x, t, 4));
}

/// Widening every stat by the tolerance keeps every exact solution: with a
/// tolerance of at least zero, each solution of the exact match is one of the
/// tolerant match for the same number of spent points.
pub proof fn lemma_tolerant_covers_exact(catalog: GrowRange, t: Target, p: int,
    opts: GuessOptions, g: GrowRange, m: [i32; 5], r: [i32; 5])
    requires
        spec_tol(opts, MatchMode::Tolerant, t.lvl as int) >= 0,
        is_sol(catalog, t, p, MatchMode::Exact, opts, g, m, r),
    ensures
        is_sol(catalog, t, p, MatchMode::Tolerant, opts, g, m, r),
{
    let tol = spec_tol(opts, MatchMode::Tolerant, t.lvl as int);
    reveal(is_sol);
    reveal(prefix_ok);
    reveal(sum_ok);
    reveal(pruned);
    assert(spec_tol(opts, MatchMode::Exact, t.lvl as int) == 0);
    assert(spec_sum_slack(MatchMode::Tolerant, tol, g.tiers()) == tol);
    assert(spec_sum_slack(MatchMode::Exact, 0, g.tiers()) == 0);
    assert forall|s: int| 0 <= s < 5 implies #[trigger] prune_stat(g, t, m, MatchMode::Tolerant, tol, s)
        ==> prune_stat(g, t, m, MatchMode::Exact, 0, s) by {
        assert(spec_stat_slack(MatchMode::Tolerant, tol, g.tiers(), s) == 10 * tol);
        assert(spec_stat_slack(MatchMode::Exact, 0, g.tiers(), s) == 0);
    }
    assert(!pruned(g, t, m, MatchMode::Tolerant, tol)) by {
        assert(!prune_stat(g, t, m, MatchMode::Exact, 0, 0));
        assert(!prune_stat(g, t, m, MatchMode::Exact, 0, 1));
        assert(!prune_stat(g, t, m, MatchMode::Exact, 0, 2));
        assert(!prune_stat(g, t, m, MatchMode::Exact, 0, 3));
        assert(!prune_stat(g, t, m, MatchMode::Exact, 0, 4));
    }
    assert(sum_ok(g, t, p, MatchMode::Tolerant, tol)) by {
        assert(tol * INV_DEN >= 0) by (nonlinear_arith)
            requires
                tol >= 0,
        ;
    }
    lemma_equal_within_band(xvec(g, t.lvl as int, m, r), t.stats(), tol);
    match opts.catch {
        Some(c) => {
            lemma_equal_within_band(catch_vec(g, c.lvl as int, r), c.stats(), tol);
        },
        None => {},
    }
}

/// The observer rule keeps every exact solution: with a
/// tolerance of at least zero, each solution of the exact match is one of
/// the observer match for the same number of spent points.
pub proof fn lemma_observer_covers_exact(catalog: GrowRange, t: Target, p: int,
    opts: GuessOptions, g: GrowRange, m: [i32; 5], r: [i32; 5])
    requires
        spec_tol(opts, MatchMode::Observer, t.lvl as int) >= 0,
        is_sol(catalog, t, p, MatchMode::Exact, opts, g, m, r),
    ensures
        is_sol(catalog, t, p, MatchMode::Observer, opts, g, m, r),
{
    let tol = spec_tol(opts, MatchMode::Observer, t.lvl as int);
    reveal(is_sol);
    reveal(prefix_ok);
    reveal(sum_ok);
    reveal(pruned);
    assert(spec_tol(opts, MatchMode::Exact, t.lvl as int) == 0);
    assert(spec_sum_slack(MatchMode::Exact, 0, g.tiers()) == 0);
    let n = spec_sum_slack(MatchMode::Observer, tol, g.tiers());
    assert(n >= 0) by {
        let c = (if movable(g.tiers(), 0) { 1int } else { 0 }) + (if movable(g.tiers(), 1) { 1int } else { 0 })
            + (if movable(g.tiers(), 2) { 1int } else { 0 }) + (if movable(g.tiers(), 3) { 1int } else { 0 })
            + (if movable(g.tiers(), 4) { 1int } else { 0 });
        assert(n == tol * c);
        assert(tol * c >= 0) by (nonlinear_arith)
            requires
                tol >= 0,
                c >= 0,
        ;
    }
    assert forall|s: int| 0 <= s < 5 implies #[trigger] prune_stat(g, t, m, MatchMode::Observer, tol, s)
        ==> prune_stat(g, t, m, MatchMode::Exact, 0, s) by {
        let tiers = g.tiers();
        let c = (if movable(tiers, 0) { abs_i(m10(s, 0)) } else { 0 })
            + (if movable(tiers, 1) { abs_i(m10(s, 1)) } else { 0 })
            + (if movable(tiers, 2) { abs_i(m10(s, 2)) } else { 0 })
            + (if movable(tiers, 3) { abs_i(m10(s, 3)) } else { 0 })
            + (if movable(tiers, 4) { abs_i(m10(s, 4)) } else { 0 });
        assert(spec_stat_slack(MatchMode::Observer, tol, tiers, s) == tol * c);
        assert(c >= 0);
        assert(tol * c >= 0) by (nonlinear_arith)
            requires
                tol >= 0,
                c >= 0,
        ;
        assert(spec_stat_slack(MatchMode::Exact, 0, tiers, s) == 0);
    }
    assert(!pruned(g, t, m, MatchMode::Observer, tol)) by {
        assert(!prune_stat(g, t, m, MatchMode::Exact, 0, 0));
        assert(!prune_stat(g, t, m, MatchMode::Exact, 0, 1));
        assert(!prune_stat(g, t, m, MatchMode::Exact, 0, 2));
        assert(!prune_stat(g, t, m, MatchMode::Exact, 0, 3));
        assert(!prune_stat(g, t, m, MatchMode::Exact, 0, 4));
    }
    assert(sum_ok(g, t, p, MatchMode::Observer, tol)) by {
        assert(n * INV_DEN >= 0) by (nonlinear_arith)
            requires
                n >= 0,
        ;
    }
}

/// The stats at the catch level only ever remove solutions: where the
/// tolerance does not change, each solution with them is one without them.
pub proof fn lemma_catch_only_shrinks(catalog: GrowRange, t: Target, p: int, mode: MatchMode,
    opts: GuessOptions, g: GrowRange, m: [i32; 5], r: [i32; 5])
    requires
        spec_tol(GuessOptions { catch: None, ..opts }, mode, t.lvl as int) == spec_tol(opts, mode, t.lvl as int),
        is_sol(catalog, t, p, mode, opts, g, m, r),
    ensures
        is_sol(catalog, t, p, mode, GuessOptions { catch: None, ..opts }, g, m, r),
{
    let o2 = GuessOptions { catch: None, ..opts };
    reveal(is_sol);
    reveal(prefix_ok);
    reveal(random_ok);
    assert(grow_ok(catalog, o2, g) == grow_ok(catalog, opts, g));
    assert(catch_accept(g, o2, mode, spec_tol(opts, mode, t.lvl as int), r) == Some(false));
}

} // verus!
