//! Request and response shapes of the front end, and the small rules that
//! sit between them and the engine: how level points are spread in a
//! forward calculation, which spending bounds a calculation mode implies,
//! how guesses are ranked and refined.
//!
//! Two axis orders meet here. BP-like quantities (tiers, spent points,
//! random tiers) use `[HP, ATK, DEF, AGI, MP]`; stats use the display order
//! hp mp atk def agi (wis res), and only [`StatDto`] does.
use vstd::prelude::*;
use crate::bp::{Bp, Stat};
use crate::grow::{GrowRange, LossBounds, RandomBounds, clamped_pair, MAX_LOSS_BOUND, MAX_LOST_PER_AXIS, RANDOM_POOL};
use crate::guess::{Target, xvec, bp_of, ManualBounds, MatchMode, RandomSearch, GuessOptions, Candidate, GuessOutcome};
use crate::stats::{Distribution, summarizes, loss_fits, lost_at, wsum, in_grow_box, axes_at_least, min_len, lemma_wsum_bound};
use crate::bp::clamp_i64;
use crate::petdata::{Pet, Catalog, race_name, spec_race_name, chars_eq, with_race, RACE_TAB_ORDER};
use crate::search::{Query, eff_lvl, query_bp, spec_points_needed, NEED_SCALE};
use crate::text::{chars_of, trim, string_of, spec_trim};

verus! {

/// Random tiers assumed when a request leaves them out.
pub const DEFAULT_RANDOM: [i32; 5] = [2, 2, 2, 2, 2];

// ── spreading level points ───────────────────────────────────────────────

/// How the level points of a forward calculation are spent.
#[derive(Debug, Clone, Copy, PartialEq, Eq, Structural)]
pub enum PointMode {
    /// Not spent at all.
    Unspent,
    Hp,
    Atk,
    Def,
    Agi,
    Mp,
    /// Spread by the given weights.
    Ratio,
}

impl Default for PointMode {
    fn default() -> (m: Self)
        ensures
            m == PointMode::Unspent,
    {
        PointMode::Unspent
    }
}

/// The positive part of a weight.
pub open spec fn pos(w: i32) -> int {
    if w > 0 { w as int } else { 0 }
}

/// Sum of the positive parts of the weights.
pub open spec fn weight_sum(w: [i32; 5]) -> int {
    pos(w[0]) + pos(w[1]) + pos(w[2]) + pos(w[3]) + pos(w[4])
}

/// Whole points of axis `i` in an exact split of `total` by the weights.
pub open spec fn quota(total: int, w: [i32; 5], i: int) -> int {
    (total * pos(w[i])) / weight_sum(w)
}

/// What is left over on axis `i`, in units of `1 / weight_sum`.
pub open spec fn remainder(total: int, w: [i32; 5], i: int) -> int {
    (total * pos(w[i])) % weight_sum(w)
}

/// The five remainders.
pub open spec fn remainders(total: int, w: [i32; 5]) -> Seq<int> {
    seq![remainder(total, w, 0), remainder(total, w, 1), remainder(total, w, 2), remainder(total, w, 3), remainder(total, w, 4)]
}

/// With remainders `r`, axis `j` gets a left-over point before axis `i`:
/// larger remainder first, the earlier axis on a tie.
pub open spec fn ahead(r: Seq<int>, j: int, i: int) -> bool {
    r[j] > r[i] || (r[j] == r[i] && j < i)
}

pub open spec fn ind(b: bool) -> int {
    if b { 1 } else { 0 }
}

/// Number of axes ahead of axis `i`.
pub open spec fn rank(r: Seq<int>, i: int) -> int {
    ind(ahead(r, 0, i)) + ind(ahead(r, 1, i)) + ind(ahead(r, 2, i)) + ind(ahead(r, 3, i)) + ind(ahead(r, 4, i))
}

/// Points not handed out as whole quotas.
pub open spec fn leftover(total: int, w: [i32; 5]) -> int {
    total - (quota(total, w, 0) + quota(total, w, 1) + quota(total, w, 2) + quota(total, w, 3) + quota(
        total,
        w,
        4,
    ))
}

/// Largest-remainder share of axis `i`: its quota, plus one point when it
/// is among the `leftover` axes with the largest remainders.
pub open spec fn share(total: int, w: [i32; 5], i: int) -> int {
    quota(total, w, i) + ind(rank(remainders(total, w), i) < leftover(total, w))
}

/// `total` points split by the weights with the largest-remainder method
/// (nothing when no weight is positive).
pub open spec fn spec_largest_remainder(total: int, w: [i32; 5]) -> [i32; 5] {
    if weight_sum(w) <= 0 {
        zero5()
    } else {
        [
            share(total, w, 0) as i32,
            share(total, w, 1) as i32,
            share(total, w, 2) as i32,
            share(total, w, 3) as i32,
            share(total, w, 4) as i32,
        ]
    }
}

/// Everything on one axis.
pub open spec fn on_axis(axis: int, total: i32) -> [i32; 5] {
    [
        if axis == 0 { total } else { 0 },
        if axis == 1 { total } else { 0 },
        if axis == 2 { total } else { 0 },
        if axis == 3 { total } else { 0 },
        if axis == 4 { total } else { 0 },
    ]
}

pub open spec fn zero5() -> [i32; 5] {
    [0i32, 0i32, 0i32, 0i32, 0i32]
}

pub open spec fn sum5(a: [i32; 5]) -> int {
    a[0] + a[1] + a[2] + a[3] + a[4]
}

impl PointMode {
    /// `total` points spread by this mode (nothing when `total` is not positive).
    pub open spec fn spec_allocate(self, total: i32, ratio: [i32; 5]) -> [i32; 5] {
        if total <= 0 {
            zero5()
        } else {
            match self {
                PointMode::Unspent => zero5(),
                PointMode::Hp => on_axis(0, total),
                PointMode::Atk => on_axis(1, total),
                PointMode::Def => on_axis(2, total),
                PointMode::Agi => on_axis(3, total),
                PointMode::Mp => on_axis(4, total),
                PointMode::Ratio => spec_largest_remainder(total as int, ratio),
            }
        }
    }

    /// This mode spends every point it is given.
    pub open spec fn spends_all(self, ratio: [i32; 5]) -> bool {
        self != PointMode::Unspent && (self == PointMode::Ratio ==> weight_sum(ratio) > 0)
    }

    /// Spread `total` points over the five axes. `Ratio` splits by `ratio`
    /// with the largest-remainder method, so the shares add up to `total`.
    pub fn allocate(self, total: i32, ratio: [i32; 5]) -> (out: [i32; 5])
        ensures
            out == self.spec_allocate(total, ratio),
            sum5(out) == if total > 0 && self.spends_all(ratio) { total as int } else { 0 },
            forall|i: int| 0 <= i < 5 ==> 0 <= #[trigger] out[i],
    {
        if total <= 0 {
            return [0; 5];
        }
        let axis: usize = match self {
            PointMode::Unspent => {
                return [0; 5];
            },
            PointMode::Hp => 0,
            PointMode::Atk => 1,
            PointMode::Def => 2,
            PointMode::Agi => 3,
            PointMode::Mp => 4,
            PointMode::Ratio => {
                return largest_remainder(total, ratio);
            },
        };
        let mut out = [0i32; 5];
        out[axis] = total;
        assert(out =~= on_axis(axis as int, total));
        out
    }
}

proof fn lemma_rank_count(r: Seq<int>, k: int)
    requires
        r.len() == 5,
        0 <= k <= 5,
    ensures
        ind(rank(r, 0) < k) + ind(rank(r, 1) < k) + ind(rank(r, 2) < k) + ind(rank(r, 3) < k) + ind(rank(r, 4) < k) == k,
{
    // the ranks are distinct values in 0..5, hence a permutation of 0..5
    assert forall|i: int, j: int| 0 <= i < 5 && 0 <= j < 5 && #[trigger] ahead(r, i, j) implies rank(r, i) < rank(r, j) by {
        assert(ahead(r, 0, i) ==> ahead(r, 0, j));
        assert(ahead(r, 1, i) ==> ahead(r, 1, j));
        assert(ahead(r, 2, i) ==> ahead(r, 2, j));
        assert(ahead(r, 3, i) ==> ahead(r, 3, j));
        assert(ahead(r, 4, i) ==> ahead(r, 4, j));
        assert(!ahead(r, i, i));
    }
    let r0 = rank(r, 0);
    let r1 = rank(r, 1);
    let r2 = rank(r, 2);
    let r3 = rank(r, 3);
    let r4 = rank(r, 4);
    assert(0 <= r0 <= 4 && 0 <= r1 <= 4 && 0 <= r2 <= 4 && 0 <= r3 <= 4 && 0 <= r4 <= 4);
    assert(ahead(r, 0, 1) || ahead(r, 1, 0));
    assert(ahead(r, 0, 2) || ahead(r, 2, 0));
    assert(ahead(r, 0, 3) || ahead(r, 3, 0));
    assert(ahead(r, 0, 4) || ahead(r, 4, 0));
    assert(ahead(r, 1, 2) || ahead(r, 2, 1));
    assert(ahead(r, 1, 3) || ahead(r, 3, 1));
    assert(ahead(r, 1, 4) || ahead(r, 4, 1));
    assert(ahead(r, 2, 3) || ahead(r, 3, 2));
    assert(ahead(r, 2, 4) || ahead(r, 4, 2));
    assert(ahead(r, 3, 4) || ahead(r, 4, 3));
    assert(r0 != r1 && r0 != r2 && r0 != r3 && r0 != r4 && r1 != r2 && r1 != r3 && r1 != r4 && r2 != r3
        && r2 != r4 && r3 != r4);
}

proof fn lemma_split_facts(total: int, w: [i32; 5])
    requires
        0 < total <= i32::MAX,
        weight_sum(w) > 0,
    ensures
        forall|i: int| 0 <= i < 5 ==> 0 <= #[trigger] quota(total, w, i) <= total,
        forall|i: int| 0 <= i < 5 ==> 0 <= #[trigger] remainder(total, w, i) < weight_sum(w),
        0 <= leftover(total, w) <= 4,
        sum5(spec_largest_remainder(total, w)) == total,
        forall|i: int| 0 <= i < 5 ==> 0 <= #[trigger] share(total, w, i) <= total,
{
    let s = weight_sum(w);
    assert forall|i: int| 0 <= i < 5 implies 0 <= #[trigger] quota(total, w, i) <= total
        && 0 <= remainder(total, w, i) < s
        && total * pos(w[i]) == s * quota(total, w, i) + remainder(total, w, i) by {
        let p = pos(w[i]);
        assert(0 <= p <= s);
        assert(0 <= total * p <= total * s) by (nonlinear_arith)
            requires
                0 <= p <= s,
                total > 0,
        ;
        vstd::arithmetic::div_mod::lemma_fundamental_div_mod(total * p, s);
        vstd::arithmetic::div_mod::lemma_div_pos_is_pos(total * p, s);
        vstd::arithmetic::div_mod::lemma_mod_bound(total * p, s);
        assert((total * p) / s <= total) by {
            vstd::arithmetic::div_mod::lemma_div_is_ordered(total * p, total * s, s);
            vstd::arithmetic::div_mod::lemma_div_multiples_vanish(total, s);
        }
    }
    let q = |i: int| quota(total, w, i);
    let rm = |i: int| remainder(total, w, i);
    assert(total * s == total * pos(w[0]) + total * pos(w[1]) + total * pos(w[2]) + total * pos(w[3])
        + total * pos(w[4])) by (nonlinear_arith)
        requires
            s == pos(w[0]) + pos(w[1]) + pos(w[2]) + pos(w[3]) + pos(w[4]),
    ;
    assert(total * pos(w[0]) == s * q(0) + rm(0));
    assert(total * pos(w[1]) == s * q(1) + rm(1));
    assert(total * pos(w[2]) == s * q(2) + rm(2));
    assert(total * pos(w[3]) == s * q(3) + rm(3));
    assert(total * pos(w[4]) == s * q(4) + rm(4));
    let k = leftover(total, w);
    assert(s * k == rm(0) + rm(1) + rm(2) + rm(3) + rm(4)) by (nonlinear_arith)
        requires
            k == total - (q(0) + q(1) + q(2) + q(3) + q(4)),
            total * s == s * q(0) + rm(0) + s * q(1) + rm(1) + s * q(2) + rm(2) + s * q(3) + rm(3) + s
                * q(4) + rm(4),
    ;
    assert(0 <= k <= 4) by (nonlinear_arith)
        requires
            s * k == rm(0) + rm(1) + rm(2) + rm(3) + rm(4),
            0 <= rm(0) < s,
            0 <= rm(1) < s,
            0 <= rm(2) < s,
            0 <= rm(3) < s,
            0 <= rm(4) < s,
            s > 0,
    ;
    let rs = remainders(total, w);
    lemma_rank_count(rs, k);
    assert(sum5(spec_largest_remainder(total, w)) == q(0) + q(1) + q(2) + q(3) + q(4) + ind(rank(rs, 0) < k)
        + ind(rank(rs, 1) < k) + ind(rank(rs, 2) < k) + ind(rank(rs, 3) < k) + ind(rank(rs, 4) < k));
    assert forall|i: int| 0 <= i < 5 implies 0 <= #[trigger] share(total, w, i) <= total by {
        assert(share(total, w, 0) >= 0 && share(total, w, 1) >= 0 && share(total, w, 2) >= 0 && share(
            total,
            w,
            3,
        ) >= 0 && share(total, w, 4) >= 0);
    }
}

/// Quotient and remainder of `t * p` by `sum`.
fn split_axis(t: i128, p: i128, sum: i128) -> (qr: (i128, i128))
    requires
        0 < t <= 0x7fff_ffff,
        0 <= p <= sum <= 0x5_0000_0000,
        sum > 0,
    ensures
        qr.0 == (t * p) / (sum as int),
        qr.1 == (t * p) % (sum as int),
{
    assert(0 <= t * p <= 0x7fff_ffff * 0x5_0000_0000) by (nonlinear_arith)
        requires
            0 <= p <= sum,
            sum <= 0x5_0000_0000,
            0 < t <= 0x7fff_ffff,
    ;
    let prod = t * p;
    (prod / sum, prod % sum)
}

/// Number of axes whose remainder puts them ahead of axis `i`.
fn rank_of(rm: [i128; 5], i: usize) -> (k: i128)
    requires
        i < 5,
    ensures
        k == rank(seq![rm[0] as int, rm[1] as int, rm[2] as int, rm[3] as int, rm[4] as int], i as int),
{
    let ghost r = seq![rm[0] as int, rm[1] as int, rm[2] as int, rm[3] as int, rm[4] as int];
    let a0: i128 = if rm[0] > rm[i] || (rm[0] == rm[i] && 0 < i) { 1 } else { 0 };
    let a1: i128 = if rm[1] > rm[i] || (rm[1] == rm[i] && 1 < i) { 1 } else { 0 };
    let a2: i128 = if rm[2] > rm[i] || (rm[2] == rm[i] && 2 < i) { 1 } else { 0 };
    let a3: i128 = if rm[3] > rm[i] || (rm[3] == rm[i] && 3 < i) { 1 } else { 0 };
    let a4: i128 = if rm[4] > rm[i] || (rm[4] == rm[i] && 4 < i) { 1 } else { 0 };
    assert(a0 == ind(ahead(r, 0, i as int)));
    assert(a1 == ind(ahead(r, 1, i as int)));
    assert(a2 == ind(ahead(r, 2, i as int)));
    assert(a3 == ind(ahead(r, 3, i as int)));
    assert(a4 == ind(ahead(r, 4, i as int)));
    a0 + a1 + a2 + a3 + a4
}

/// `total` points split by `weights` with the largest-remainder method, so
/// the shares add up exactly to `total`; non-positive weights count as zero.
#[verifier::rlimit(50)]
pub fn largest_remainder(total: i32, weights: [i32; 5]) -> (out: [i32; 5])
    requires
        total > 0,
    ensures
        out == spec_largest_remainder(total as int, weights),
        sum5(out) == if weight_sum(weights) > 0 { total as int } else { 0 },
        forall|i: int| 0 <= i < 5 ==> 0 <= #[trigger] out[i],
{
    let p0: i128 = if weights[0] > 0 { weights[0] as i128 } else { 0 };
    let p1: i128 = if weights[1] > 0 { weights[1] as i128 } else { 0 };
    let p2: i128 = if weights[2] > 0 { weights[2] as i128 } else { 0 };
    let p3: i128 = if weights[3] > 0 { weights[3] as i128 } else { 0 };
    let p4: i128 = if weights[4] > 0 { weights[4] as i128 } else { 0 };
    let sum: i128 = p0 + p1 + p2 + p3 + p4;
    if sum <= 0 {
        return [0; 5];
    }
    let ghost w = weights;
    let ghost t = total as int;
    proof {
        lemma_split_facts(t, w);
    }
    let t1 = total as i128;
    let (q0, r0) = split_axis(t1, p0, sum);
    let (q1, r1) = split_axis(t1, p1, sum);
    let (q2, r2) = split_axis(t1, p2, sum);
    let (q3, r3) = split_axis(t1, p3, sum);
    let (q4, r4) = split_axis(t1, p4, sum);
    let rm = [r0, r1, r2, r3, r4];
    assert(seq![rm[0] as int, rm[1] as int, rm[2] as int, rm[3] as int, rm[4] as int] =~= remainders(t, w));
    let left: i128 = t1 - (q0 + q1 + q2 + q3 + q4);
    let k0: i128 = if rank_of(rm, 0) < left { 1 } else { 0 };
    let k1: i128 = if rank_of(rm, 1) < left { 1 } else { 0 };
    let k2: i128 = if rank_of(rm, 2) < left { 1 } else { 0 };
    let k3: i128 = if rank_of(rm, 3) < left { 1 } else { 0 };
    let k4: i128 = if rank_of(rm, 4) < left { 1 } else { 0 };
    assert(q0 + k0 == share(t, w, 0));
    assert(q1 + k1 == share(t, w, 1));
    assert(q2 + k2 == share(t, w, 2));
    assert(q3 + k3 == share(t, w, 3));
    assert(q4 + k4 == share(t, w, 4));
    let out = [(q0 + k0) as i32, (q1 + k1) as i32, (q2 + k2) as i32, (q3 + k3) as i32, (q4 + k4) as i32];
    assert(out =~= spec_largest_remainder(t, w));
    out
}

proof fn lemma_allocate_facts(mode: PointMode, total: i32, ratio: [i32; 5])
    ensures
        sum5(mode.spec_allocate(total, ratio)) == if total > 0 && mode.spends_all(ratio) { total as int } else { 0 },
        forall|i: int| 0 <= i < 5 ==> 0 <= #[trigger] mode.spec_allocate(total, ratio)[i],
{
    if total > 0 && mode == PointMode::Ratio && weight_sum(ratio) > 0 {
        lemma_split_facts(total as int, ratio);
    }
}

// ── forward calculation ──────────────────────────────────────────────────

/// Catalog tiers, axis order `[HP, ATK, DEF, AGI, MP]`, ability rate in hundredths.
#[derive(Debug, Clone, Copy, PartialEq, Eq)]
pub struct GrowDto {
    pub hp: i32,
    pub atk: i32,
    pub def: i32,
    pub agi: i32,
    pub mp: i32,
    pub bprate: i32,
}

impl GrowDto {
    pub open spec fn spec_range(self) -> GrowRange {
        GrowRange { hp: self.hp, atk: self.atk, def: self.def, agi: self.agi, mp: self.mp, bprate: self.bprate }
    }

    pub fn to_range(self) -> (g: GrowRange)
        ensures
            g == self.spec_range(),
    {
        GrowRange::new(self.hp, self.atk, self.def, self.agi, self.mp, self.bprate)
    }

    pub fn from_range(g: GrowRange) -> (d: Self)
        ensures
            d.spec_range() == g,
    {
        GrowDto { hp: g.hp, atk: g.atk, def: g.def, agi: g.agi, mp: g.mp, bprate: g.bprate }
    }
}

/// Stats in display order hp mp atk def agi wis res.
#[derive(Debug, Clone, Copy, PartialEq, Eq)]
pub struct StatDto {
    pub hp: i64,
    pub mp: i64,
    pub atk: i64,
    pub def: i64,
    pub agi: i64,
    pub wis: i64,
    pub res: i64,
}

impl StatDto {
    pub open spec fn spec_of(s: Stat) -> StatDto {
        StatDto { hp: s.hp, mp: s.mp, atk: s.atk, def: s.def, agi: s.agi, wis: s.wis, res: s.res }
    }

    pub fn of(s: Stat) -> (d: Self)
        ensures
            d == Self::spec_of(s),
    {
        StatDto { hp: s.hp, mp: s.mp, atk: s.atk, def: s.def, agi: s.agi, wis: s.wis, res: s.res }
    }
}

/// Observed stats, the input of a guess (wis and res take no part).
#[derive(Debug, Clone, Copy, PartialEq, Eq)]
pub struct TargetDto {
    pub lvl: i32,
    pub hp: i64,
    pub mp: i64,
    pub atk: i64,
    pub def: i64,
    pub agi: i64,
}

impl TargetDto {
    pub open spec fn spec_target(self) -> Target {
        Target { lvl: self.lvl, hp: self.hp, mp: self.mp, atk: self.atk, def: self.def, agi: self.agi }
    }

    pub fn to_target(self) -> (t: Target)
        ensures
            t == self.spec_target(),
    {
        Target::new(self.lvl, self.hp, self.mp, self.atk, self.def, self.agi)
    }
}

pub open spec fn add5(a: [i32; 5], b: [i32; 5]) -> [i32; 5] {
    [
        (a[0] + b[0]) as i32,
        (a[1] + b[1]) as i32,
        (a[2] + b[2]) as i32,
        (a[3] + b[3]) as i32,
        (a[4] + b[4]) as i32,
    ]
}

pub open spec fn fits_i32(x: int) -> bool {
    i32::MIN <= x <= i32::MAX
}

/// A forward calculation: tiers, level, random tiers and how points are spent.
#[derive(Debug, Clone, Copy, PartialEq, Eq)]
pub struct ForwardReq {
    pub grow: GrowDto,
    pub lvl: i32,
    /// Random tiers (adding up to 10); `None` means [`DEFAULT_RANDOM`].
    pub random: Option<[i32; 5]>,
    pub mode: PointMode,
    /// Weights of [`PointMode::Ratio`]; `None` means all equal.
    pub ratio: Option<[i32; 5]>,
    /// Spent points given outright; overrides `mode` and `ratio`.
    pub manual: Option<[i32; 5]>,
    /// Level points not spent (levels before the pet was caught).
    pub not_order_point: i32,
    /// From the level after `lvl` on, spend on this axis instead.
    pub burst: Option<PointMode>,
}

impl ForwardReq {
    /// Level points to spend at `lvl`.
    pub open spec fn spec_point_pool(self, lvl: int) -> int {
        if lvl - 1 - self.not_order_point > 0 { lvl - 1 - self.not_order_point } else { 0 }
    }

    pub open spec fn spec_ratio(self) -> [i32; 5] {
        match self.ratio {
            Some(r) => r,
            None => [1i32, 1i32, 1i32, 1i32, 1i32],
        }
    }

    /// The arithmetic of `manual_at` stays in `i32`.
    pub open spec fn fits(self, lvl: int) -> bool {
        &&& fits_i32(lvl - 1 - self.not_order_point)
        &&& (self.burst is Some ==> fits_i32(self.lvl - 1 - self.not_order_point))
    }

    /// Spent points at `lvl`: all by `mode`; with `burst`, the points up to
    /// `self.lvl` by `mode` and the rest on the burst axis.
    pub open spec fn spec_manual_at(self, lvl: int) -> [i32; 5] {
        match self.manual {
            Some(m) => m,
            None => {
                let total = self.spec_point_pool(lvl);
                match self.burst {
                    None => self.mode.spec_allocate(total as i32, self.spec_ratio()),
                    Some(b) => {
                        let mine = self.spec_point_pool(self.lvl as int);
                        let before = if mine < total { mine } else { total };
                        add5(
                            self.mode.spec_allocate(before as i32, self.spec_ratio()),
                            b.spec_allocate((total - before) as i32, self.spec_ratio()),
                        )
                    },
                }
            },
        }
    }

    fn point_pool(&self, lvl: i32) -> (p: i32)
        requires
            fits_i32(lvl - 1 - self.not_order_point),
        ensures
            p == self.spec_point_pool(lvl as int),
    {
        let p: i64 = lvl as i64 - 1 - self.not_order_point as i64;
        if p > 0 { p as i32 } else { 0 }
    }

    /// Spent points at level `lvl`.
    pub fn manual_at(&self, lvl: i32) -> (m: [i32; 5])
        requires
            self.fits(lvl as int),
        ensures
            m == self.spec_manual_at(lvl as int),
    {
        if let Some(m) = self.manual {
            return m;
        }
        let ratio = match self.ratio {
            Some(r) => r,
            None => [1; 5],
        };
        assert(ratio =~= self.spec_ratio());
        let total = self.point_pool(lvl);
        match self.burst {
            None => self.mode.allocate(total, ratio),
            Some(burst) => {
                let mine = self.point_pool(self.lvl);
                let before = if mine < total { mine } else { total };
                let past = self.mode.allocate(before, ratio);
                let future = burst.allocate(total - before, ratio);
                let m = [
                    past[0] + future[0],
                    past[1] + future[1],
                    past[2] + future[2],
                    past[3] + future[3],
                    past[4] + future[4],
                ];
                assert(m =~= add5(past, future));
                m
            },
        }
    }

    /// The random tiers, or [`DEFAULT_RANDOM`].
    pub fn random_or_default(&self) -> (r: [i32; 5])
        ensures
            r == match self.random {
                Some(x) => x,
                None => [2i32, 2i32, 2i32, 2i32, 2i32],
            },
    {
        match self.random {
            Some(r) => r,
            None => DEFAULT_RANDOM,
        }
    }
}

/// With no spent points given outright and modes that spend everything,
/// the spent points at any level add up to that level's point pool: a
/// burst only moves points to another axis.
pub proof fn lemma_burst_conserves_points(req: ForwardReq, lvl: int)
    requires
        req.fits(lvl),
        req.manual is None,
        req.mode.spends_all(req.spec_ratio()),
        req.burst matches Some(b) ==> b.spends_all(req.spec_ratio()),
    ensures
        sum5(req.spec_manual_at(lvl)) == req.spec_point_pool(lvl),
{
    let total = req.spec_point_pool(lvl);
    let ratio = req.spec_ratio();
    match req.burst {
        None => {
            lemma_allocate_facts(req.mode, total as i32, ratio);
        },
        Some(b) => {
            let mine = req.spec_point_pool(req.lvl as int);
            let before = if mine < total { mine } else { total };
            lemma_allocate_facts(req.mode, before as i32, ratio);
            lemma_allocate_facts(b, (total - before) as i32, ratio);
        },
    }
}

/// A burst onto the axis already in use changes nothing (for every mode
/// but `Ratio`, whose rounding depends on how the points are split).
pub proof fn lemma_burst_on_same_axis_changes_nothing(req: ForwardReq, lvl: int)
    requires
        req.fits(lvl),
        req.burst == Some(req.mode),
        req.mode != PointMode::Ratio,
    ensures
        req.spec_manual_at(lvl) == (ForwardReq { burst: None, ..req }).spec_manual_at(lvl),
{
    let total = req.spec_point_pool(lvl);
    let mine = req.spec_point_pool(req.lvl as int);
    let before = if mine < total { mine } else { total };
    let ratio = req.spec_ratio();
    assert(add5(req.mode.spec_allocate(before as i32, ratio), req.mode.spec_allocate((total - before) as i32, ratio))
        =~= req.mode.spec_allocate(total as i32, ratio));
}

/// A forward calculation over a range of levels.
#[derive(Debug, Clone, Copy, PartialEq, Eq)]
pub struct SeriesReq {
    pub base: ForwardReq,
    pub from: i32,
    pub to: i32,
}

/// One row of a forward calculation.
#[derive(Debug, Clone, Copy, PartialEq, Eq)]
pub struct ForwardRow {
    pub lvl: i32,
    /// BP in thousandths, `[HP, ATK, DEF, AGI, MP]`.
    pub bp: [i128; 5],
    pub bp_sum: i128,
    pub manual: [i32; 5],
    pub stat: StatDto,
}

/// BP at a level: base growth, plus random tiers, plus spent points.
pub fn compose_bp(grow: GrowRange, lvl: i32, random: [i32; 5], manual: [i32; 5]) -> (b: Bp)
    ensures
        b == bp_of(xvec(grow, lvl as int, manual, random)),
        b.in_range(),
{
    let base = grow.calc_bp_at_level(lvl, None).base_bp.to_array();
    let rate = grow.bprate as i128;
    assert forall|j: int| 0 <= j < 5 implies -0x1_0000_0000_0000_0000_0 <= #[trigger] base[j] <= 0x1_0000_0000_0000_0000_0 by {
        crate::grow::lemma_axis_base_bound(grow.tiers()[j] as int, grow.bprate as int, lvl as int);
    }
    let mut out = [0i128; 5];
    let mut i: usize = 0;
    while i < 5
        invariant
            0 <= i <= 5,
            rate == grow.bprate,
            forall|j: int| 0 <= j < 5 ==> #[trigger] base[j] == grow.spec_base(j, lvl as int),
            forall|j: int| 0 <= j < 5 ==> -0x1_0000_0000_0000_0000_0 <= #[trigger] base[j] <= 0x1_0000_0000_0000_0000_0,
            forall|j: int| 0 <= j < i ==> #[trigger] out[j] == grow.spec_base(j, lvl as int) + 1000 * manual[j] + 10 * grow.bprate * random[j],
            forall|j: int| 0 <= j < i ==> -crate::bp::BP_LIMIT <= #[trigger] out[j] <= crate::bp::BP_LIMIT,
        decreases 5 - i,
    {
        proof {
            crate::grow::lemma_axis_base_bound(grow.tiers()[i as int] as int, grow.bprate as int, lvl as int);
        }
        assert(-0x4000_0000_0000_0000_0 <= 10 * rate * (random[i as int] as int) <= 0x4000_0000_0000_0000_0) by (nonlinear_arith)
            requires
                i32::MIN <= rate <= i32::MAX,
                i32::MIN <= random[i as int] <= i32::MAX,
        ;
        let v = base[i] + 1000 * (manual[i] as i128) + 10 * rate * (random[i] as i128);
        out[i] = v;
        i = i + 1;
    }
    let b = Bp::from_array(out);
    assert(b.arr() =~= bp_of(xvec(grow, lvl as int, manual, random)).arr());
    b
}

/// `row` is the forward calculation of `req` at level `lvl`: the points
/// spent by then, the BP they give with the random tiers, and its stats.
pub open spec fn row_of(row: ForwardRow, req: ForwardReq, lvl: int) -> bool {
    let bp = bp_of(xvec(req.grow.spec_range(), lvl, req.spec_manual_at(lvl), match req.random {
        Some(x) => x,
        None => [2i32, 2i32, 2i32, 2i32, 2i32],
    }));
    &&& row.lvl == lvl
    &&& row.manual == req.spec_manual_at(lvl)
    &&& row.bp == bp.arr()
    &&& row.bp_sum == row.bp[0] + row.bp[1] + row.bp[2] + row.bp[3] + row.bp[4]
    &&& row.stat == StatDto::spec_of(bp.spec_calc())
}

/// The row of level `lvl`.
pub fn forward_row(req: &ForwardReq, lvl: i32) -> (row: ForwardRow)
    requires
        req.fits(lvl as int),
    ensures
        row_of(row, *req, lvl as int),
{
    let grow = req.grow.to_range();
    let manual = req.manual_at(lvl);
    let bp = compose_bp(grow, lvl, req.random_or_default(), manual);
    ForwardRow { lvl, bp: bp.to_array(), bp_sum: bp.sum(), manual, stat: StatDto::of(bp.calc_real_num()) }
}

// ── guessing ─────────────────────────────────────────────────────────────

/// How stats are matched, as a request names it.
#[derive(Debug, Clone, Copy, PartialEq, Eq, Structural)]
pub enum MatchModeDto {
    /// Exact, then Observer, then Tolerant.
    Auto,
    Exact,
    /// The observer rule (per-axis offsets of the BP); the default.
    Observer,
    /// Every axis gets the tolerance.
    Tolerant,
}

impl Default for MatchModeDto {
    fn default() -> (m: Self)
        ensures
            m == MatchModeDto::Observer,
    {
        MatchModeDto::Observer
    }
}

impl MatchModeDto {
    pub open spec fn spec_mode(self) -> MatchMode {
        match self {
            MatchModeDto::Auto => MatchMode::Auto,
            MatchModeDto::Exact => MatchMode::Exact,
            MatchModeDto::Observer => MatchMode::Observer,
            MatchModeDto::Tolerant => MatchMode::Tolerant,
        }
    }

    pub fn to_mode(self) -> (m: MatchMode)
        ensures
            m == self.spec_mode(),
    {
        match self {
            MatchModeDto::Auto => MatchMode::Auto,
            MatchModeDto::Exact => MatchMode::Exact,
            MatchModeDto::Observer => MatchMode::Observer,
            MatchModeDto::Tolerant => MatchMode::Tolerant,
        }
    }
}

/// The name of a match mode in responses.
pub fn match_mode_name(m: MatchMode) -> (name: &'static str)
    ensures
        name@ == match m {
            MatchMode::Auto => "auto"@,
            MatchMode::Exact => "exact"@,
            MatchMode::Observer => "observer"@,
            MatchMode::Tolerant => "tolerant"@,
        },
{
    match m {
        MatchMode::Auto => "auto",
        MatchMode::Exact => "exact",
        MatchMode::Observer => "observer",
        MatchMode::Tolerant => "tolerant",
    }
}

/// The eight calculation modes of the main window.
#[derive(Debug, Clone, Copy, PartialEq, Eq, Structural)]
pub enum CalcMode {
    /// Home pet: level points spent freely. The default.
    Smart,
    /// Wild pet: the same freedom; the front end asks for the catch data.
    Wild,
    /// Nothing spent: the `lvl - 1` points were never handed out.
    Unspent,
    Hp,
    Atk,
    Def,
    Agi,
    Mp,
}

impl Default for CalcMode {
    fn default() -> (m: Self)
        ensures
            m == CalcMode::Smart,
    {
        CalcMode::Smart
    }
}

pub open spec fn single_bounds(axis: int) -> ManualBounds {
    ManualBounds([
        if axis == 0 { [0i32, i32::MAX] } else { [0i32, 0i32] },
        if axis == 1 { [0i32, i32::MAX] } else { [0i32, 0i32] },
        if axis == 2 { [0i32, i32::MAX] } else { [0i32, 0i32] },
        if axis == 3 { [0i32, i32::MAX] } else { [0i32, 0i32] },
        if axis == 4 { [0i32, i32::MAX] } else { [0i32, 0i32] },
    ])
}

impl CalcMode {
    pub open spec fn spec_bounds(self) -> ManualBounds {
        match self {
            CalcMode::Smart | CalcMode::Wild => ManualBounds::spec_free(),
            CalcMode::Unspent => ManualBounds([[0i32, 0i32], [0i32, 0i32], [0i32, 0i32], [0i32, 0i32], [0i32, 0i32]]),
            CalcMode::Hp => single_bounds(0),
            CalcMode::Atk => single_bounds(1),
            CalcMode::Def => single_bounds(2),
            CalcMode::Agi => single_bounds(3),
            CalcMode::Mp => single_bounds(4),
        }
    }

    /// The spending bounds the mode itself implies.
    pub fn bounds(self) -> (b: ManualBounds)
        ensures
            b == self.spec_bounds(),
    {
        let b = match self {
            CalcMode::Smart | CalcMode::Wild => ManualBounds::free(),
            CalcMode::Unspent => ManualBounds::zero(),
            CalcMode::Hp => ManualBounds::single(0),
            CalcMode::Atk => ManualBounds::single(1),
            CalcMode::Def => ManualBounds::single(2),
            CalcMode::Agi => ManualBounds::single(3),
            CalcMode::Mp => ManualBounds::single(4),
        };
        assert(b.0 =~= self.spec_bounds().0);
        b
    }

    pub open spec fn spec_takes_manual_plan(self) -> bool {
        self == CalcMode::Smart || self == CalcMode::Wild
    }

    /// Only Smart and Wild read the side panel's spending plan; the other
    /// six fix the spending themselves.
    pub fn takes_manual_plan(self) -> (r: bool)
        ensures
            r == self.spec_takes_manual_plan(),
    {
        match self {
            CalcMode::Smart | CalcMode::Wild => true,
            _ => false,
        }
    }
}

/// The side panel's spending plan.
#[derive(Debug, Clone, Copy, PartialEq, Eq)]
pub enum ManualPlanDto {
    /// No limit.
    Free,
    /// Exactly these points per axis.
    Fixed { points: [i32; 5] },
    /// Points only on the ticked axes, any number.
    Mixed { axes: [bool; 5] },
    /// Per-axis `[lo, hi]`.
    Range { bounds: [[i32; 2]; 5] },
}

impl Default for ManualPlanDto {
    fn default() -> (p: Self)
        ensures
            p == ManualPlanDto::Free,
    {
        ManualPlanDto::Free
    }
}

impl ManualPlanDto {
    pub open spec fn spec_bounds(self) -> ManualBounds {
        match self {
            ManualPlanDto::Free => ManualBounds::spec_free(),
            ManualPlanDto::Fixed { points } => ManualBounds([
                [points[0], points[0]],
                [points[1], points[1]],
                [points[2], points[2]],
                [points[3], points[3]],
                [points[4], points[4]],
            ]),
            ManualPlanDto::Mixed { axes } => ManualBounds([
                if axes[0] { [0i32, i32::MAX] } else { [0i32, 0i32] },
                if axes[1] { [0i32, i32::MAX] } else { [0i32, 0i32] },
                if axes[2] { [0i32, i32::MAX] } else { [0i32, 0i32] },
                if axes[3] { [0i32, i32::MAX] } else { [0i32, 0i32] },
                if axes[4] { [0i32, i32::MAX] } else { [0i32, 0i32] },
            ]),
            ManualPlanDto::Range { bounds } => ManualBounds(bounds),
        }
    }

    /// The spending bounds of this plan.
    pub fn bounds(self) -> (b: ManualBounds)
        ensures
            b == self.spec_bounds(),
    {
        let b = match self {
            ManualPlanDto::Free => ManualBounds::free(),
            ManualPlanDto::Fixed { points } => ManualBounds::fixed(points),
            ManualPlanDto::Mixed { axes } => ManualBounds::mixed(axes),
            ManualPlanDto::Range { bounds } => ManualBounds::new(bounds),
        };
        assert(b.0 =~= self.spec_bounds().0);
        b
    }
}

impl From<ManualPlanDto> for ManualBounds {
    fn from(p: ManualPlanDto) -> (b: ManualBounds) {
        p.bounds()
    }
}

impl vstd::std_specs::convert::FromSpecImpl<ManualPlanDto> for ManualBounds {
    open spec fn obeys_from_spec() -> bool {
        true
    }

    open spec fn from_spec(p: ManualPlanDto) -> ManualBounds {
        p.spec_bounds()
    }
}

/// The search ranges of a guess: per axis the fewest and most tiers lost,
/// and the lowest and highest random tier.
#[derive(Debug, Clone, Copy, PartialEq, Eq)]
pub struct RangeLimitsDto {
    pub loss_min: [i32; 5],
    pub loss_max: [i32; 5],
    pub random_min: [i32; 5],
    pub random_max: [i32; 5],
}

impl Default for RangeLimitsDto {
    /// The default search ranges: lose `0..=4` tiers, random tiers `0..=10`.
    fn default() -> (r: Self)
        ensures
            r.loss_min == zero5(),
            r.loss_max == [MAX_LOST_PER_AXIS, MAX_LOST_PER_AXIS, MAX_LOST_PER_AXIS, MAX_LOST_PER_AXIS, MAX_LOST_PER_AXIS],
            r.random_min == zero5(),
            r.random_max == [RANDOM_POOL, RANDOM_POOL, RANDOM_POOL, RANDOM_POOL, RANDOM_POOL],
    {
        let r = RangeLimitsDto {
            loss_min: [0; 5],
            loss_max: [MAX_LOST_PER_AXIS; 5],
            random_min: [0; 5],
            random_max: [RANDOM_POOL; 5],
        };
        assert(r.loss_min =~= zero5());
        assert(r.random_min =~= zero5());
        assert(r.loss_max =~= [MAX_LOST_PER_AXIS, MAX_LOST_PER_AXIS, MAX_LOST_PER_AXIS, MAX_LOST_PER_AXIS, MAX_LOST_PER_AXIS]);
        assert(r.random_max =~= [RANDOM_POOL, RANDOM_POOL, RANDOM_POOL, RANDOM_POOL, RANDOM_POOL]);
        r
    }
}

impl RangeLimitsDto {
    pub open spec fn rlo(self, i: int) -> int {
        clamped_pair(self.random_min[i] as int, self.random_max[i] as int, RANDOM_POOL as int).0
    }

    pub open spec fn rhi(self, i: int) -> int {
        clamped_pair(self.random_min[i] as int, self.random_max[i] as int, RANDOM_POOL as int).1
    }

    /// Some random tiers within the (clamped) ranges add up to `RANDOM_POOL`.
    pub open spec fn spec_random_satisfiable(self) -> bool {
        self.rlo(0) + self.rlo(1) + self.rlo(2) + self.rlo(3) + self.rlo(4) <= RANDOM_POOL
            <= self.rhi(0) + self.rhi(1) + self.rhi(2) + self.rhi(3) + self.rhi(4)
    }

    /// The loss bounds (each pair ordered, clamped into `0..=MAX_LOSS_BOUND`).
    pub fn loss(&self) -> (b: LossBounds)
        ensures
            forall|i: int|
                0 <= i < 5 ==> #[trigger] b.lo(i) == clamped_pair(self.loss_min[i] as int, self.loss_max[i] as int, MAX_LOSS_BOUND as int).0
                    && b.hi(i) == clamped_pair(self.loss_min[i] as int, self.loss_max[i] as int, MAX_LOSS_BOUND as int).1,
    {
        LossBounds::new(self.loss_min, self.loss_max)
    }

    /// The random-tier bounds (each pair ordered, clamped into `0..=RANDOM_POOL`).
    pub fn random(&self) -> (b: RandomBounds)
        ensures
            forall|i: int|
                0 <= i < 5 ==> #[trigger] b.lo(i) == clamped_pair(self.random_min[i] as int, self.random_max[i] as int, RANDOM_POOL as int).0
                    && b.hi(i) == clamped_pair(self.random_min[i] as int, self.random_max[i] as int, RANDOM_POOL as int).1,
    {
        RandomBounds::new(self.random_min, self.random_max)
    }
}

/// Why a request was refused.
#[derive(Debug, Clone, Copy, PartialEq, Eq, Structural)]
pub enum RequestError {
    /// A level outside `1..=MAX_LEVEL`; for a stat search, one not above 1
    /// either.
    Level { lvl: i32 },
    /// The catch level is not within `1..=lvl`.
    CatchLevel { catch_lvl: i32, lvl: i32 },
    /// No random tiers inside the ranges add up to `RANDOM_POOL`: the sums
    /// of the lower and of the upper ends as given.
    RandomRange { lo: i64, hi: i64 },
    /// A level series from a higher level to a lower one.
    SeriesReversed { from: i32, to: i32 },
    /// A level series of more than `MAX_SERIES_ROWS` levels.
    SeriesTooLong,
    /// Refining or querying before any guess found something.
    NoGuess,
}

/// A guess request.
#[derive(Debug, Clone, Copy, PartialEq, Eq)]
pub struct GuessReq {
    /// Catalog tiers (the upper end).
    pub grow: GrowDto,
    pub target: TargetDto,
    /// Level points known not to be spent.
    pub not_order_point: i32,
    pub calc_mode: CalcMode,
    /// The side panel's spending plan; read only in Smart and Wild.
    pub manual: Option<ManualPlanDto>,
    /// Stats observed at the catch level.
    pub catch_stat: Option<TargetDto>,
    pub mode: MatchModeDto,
    /// Search all 1001 random tuples instead of the neighbourhood of the estimate.
    pub exhaustive: bool,
    /// Tolerance override, thousandths of a point.
    pub tolerance: Option<i32>,
    /// Check only these tiers.
    pub target_grow: Option<GrowDto>,
    /// Stop after this many solutions; 0 means no limit.
    pub limit: usize,
    pub ranges: RangeLimitsDto,
}

pub open spec fn sum_lo(a: [i32; 5]) -> int {
    a[0] + a[1] + a[2] + a[3] + a[4]
}

impl GuessReq {
    pub open spec fn spec_manual_bounds(self) -> ManualBounds {
        match self.manual {
            Some(plan) if self.calc_mode.spec_takes_manual_plan() => plan.spec_bounds(),
            _ => self.calc_mode.spec_bounds(),
        }
    }

    /// The spending bounds of the calculation mode; in Smart and Wild the
    /// side panel's plan wins.
    pub fn manual_bounds(&self) -> (b: ManualBounds)
        ensures
            b == self.spec_manual_bounds(),
    {
        match self.manual {
            Some(plan) => {
                if self.calc_mode.takes_manual_plan() {
                    plan.bounds()
                } else {
                    self.calc_mode.bounds()
                }
            },
            None => self.calc_mode.bounds(),
        }
    }

    pub open spec fn check_catch_spec(self) -> Result<(), RequestError> {
        match self.catch_stat {
            Some(c) if !(1 <= c.lvl <= self.target.lvl) => Err(
                RequestError::CatchLevel { catch_lvl: c.lvl, lvl: self.target.lvl },
            ),
            _ => Ok(()),
        }
    }

    /// The catch level must lie in `1..=` the current level.
    pub fn check_catch(&self) -> (r: Result<(), RequestError>)
        ensures
            r == self.check_catch_spec(),
    {
        match self.catch_stat {
            Some(c) => {
                if 1 <= c.lvl && c.lvl <= self.target.lvl {
                    Ok(())
                } else {
                    Err(RequestError::CatchLevel { catch_lvl: c.lvl, lvl: self.target.lvl })
                }
            },
            None => Ok(()),
        }
    }

    /// Some random tiers inside the ranges must add up to `RANDOM_POOL`.
    pub fn check_ranges(&self) -> (r: Result<(), RequestError>)
        ensures
            r == if self.ranges.spec_random_satisfiable() {
                Ok(())
            } else {
                Err(RequestError::RandomRange { lo: sum_lo(self.ranges.random_min) as i64, hi: sum_lo(self.ranges.random_max) as i64 })
            },
    {
        let rb = self.ranges.random();
        assert(rb.spec_satisfiable() == self.ranges.spec_random_satisfiable());
        if rb.is_satisfiable() {
            return Ok(());
        }
        let a = self.ranges.random_min;
        let b = self.ranges.random_max;
        let lo: i64 = a[0] as i64 + a[1] as i64 + a[2] as i64 + a[3] as i64 + a[4] as i64;
        let hi: i64 = b[0] as i64 + b[1] as i64 + b[2] as i64 + b[3] as i64 + b[4] as i64;
        Err(RequestError::RandomRange { lo, hi })
    }

    pub open spec fn spec_effective_not_order_point(self) -> int {
        if self.calc_mode == CalcMode::Unspent {
            let all = self.target.lvl - 1;
            if all > self.not_order_point { all } else { self.not_order_point as int }
        } else {
            self.not_order_point as int
        }
    }

    /// In the Unspent mode none of the `lvl - 1` points were handed out.
    pub fn effective_not_order_point(&self) -> (p: i32)
        requires
            self.calc_mode == CalcMode::Unspent ==> self.target.lvl > i32::MIN,
        ensures
            p == self.spec_effective_not_order_point(),
    {
        if self.calc_mode == CalcMode::Unspent {
            let all = self.target.lvl - 1;
            if all > self.not_order_point { all } else { self.not_order_point }
        } else {
            self.not_order_point
        }
    }

    /// `o` is what the solver is given for this request.
    pub open spec fn options_of(self, o: GuessOptions) -> bool {
        &&& o.not_order_point == self.spec_effective_not_order_point()
        &&& o.manual == self.spec_manual_bounds()
        &&& o.catch == match self.catch_stat {
            Some(c) => Some(c.spec_target()),
            None => None,
        }
        &&& o.target_grow == match self.target_grow {
            Some(g) => Some(g.spec_range()),
            None => None,
        }
        &&& o.mode == self.mode.spec_mode()
        &&& o.random == if self.exhaustive { RandomSearch::Exhaustive } else { RandomSearch::Ball { radius: 1 } }
        &&& o.limit == self.limit
        &&& o.tolerance == self.tolerance
        &&& forall|i: int|
            0 <= i < 5 ==> #[trigger] o.loss.lo(i) == clamped_pair(self.ranges.loss_min[i] as int, self.ranges.loss_max[i] as int, MAX_LOSS_BOUND as int).0
                && o.loss.hi(i) == clamped_pair(self.ranges.loss_min[i] as int, self.ranges.loss_max[i] as int, MAX_LOSS_BOUND as int).1
        &&& forall|i: int|
            0 <= i < 5 ==> #[trigger] o.random_bounds.lo(i) == clamped_pair(self.ranges.random_min[i] as int, self.ranges.random_max[i] as int, RANDOM_POOL as int).0
                && o.random_bounds.hi(i) == clamped_pair(self.ranges.random_min[i] as int, self.ranges.random_max[i] as int, RANDOM_POOL as int).1
    }

    /// The solver options of this request.
    pub fn options(&self) -> (o: GuessOptions)
        requires
            self.calc_mode == CalcMode::Unspent ==> self.target.lvl > i32::MIN,
        ensures
            self.options_of(o),
    {
        GuessOptions {
            not_order_point: self.effective_not_order_point(),
            manual: self.manual_bounds(),
            catch: match self.catch_stat {
                Some(c) => Some(c.to_target()),
                None => None,
            },
            target_grow: match self.target_grow {
                Some(g) => Some(g.to_range()),
                None => None,
            },
            mode: self.mode.to_mode(),
            random: if self.exhaustive { RandomSearch::Exhaustive } else { RandomSearch::Ball { radius: 1 } },
            limit: self.limit,
            tolerance: self.tolerance,
            loss: self.ranges.loss(),
            random_bounds: self.ranges.random(),
        }
    }
}


/// One solution as the front end shows it.
#[derive(Debug, Clone, Copy, PartialEq, Eq)]
pub struct CandidateDto {
    /// The actual tiers `[HP, ATK, DEF, AGI, MP]`.
    pub grow: [i32; 5],
    /// Per-axis loss: catalog minus actual.
    pub lost: [i32; 5],
    pub lost_bp: i32,
    pub manual: [i32; 5],
    pub random: [i32; 5],
    /// BP in thousandths.
    pub bp: [i128; 5],
    pub stat: StatDto,
    /// Matched only thanks to the tolerance.
    pub approximate: bool,
    /// The candidate's weight; its share is `100 * weight / total_weight` percent.
    pub weight: u64,
}

pub open spec fn spec_candidate_dto(catalog: GrowRange, c: Candidate, weight: u64) -> CandidateDto {
    CandidateDto {
        grow: c.grow.tiers(),
        lost: [
            lost_at(catalog, c, 0) as i32,
            lost_at(catalog, c, 1) as i32,
            lost_at(catalog, c, 2) as i32,
            lost_at(catalog, c, 3) as i32,
            lost_at(catalog, c, 4) as i32,
        ],
        lost_bp: c.lost_bp,
        manual: c.manual,
        random: c.random,
        bp: c.bp.arr(),
        stat: StatDto::spec_of(c.stat),
        approximate: c.approximate,
        weight,
    }
}

fn candidate_dto(catalog: GrowRange, c: &Candidate, weight: u64) -> (d: CandidateDto)
    requires
        loss_fits(catalog, *c),
    ensures
        d == spec_candidate_dto(catalog, *c, weight),
{
    let cat = catalog.to_array();
    let grow = c.grow.to_array();
    assert(i32::MIN <= lost_at(catalog, *c, 0) <= i32::MAX);
    assert(i32::MIN <= lost_at(catalog, *c, 1) <= i32::MAX);
    assert(i32::MIN <= lost_at(catalog, *c, 2) <= i32::MAX);
    assert(i32::MIN <= lost_at(catalog, *c, 3) <= i32::MAX);
    assert(i32::MIN <= lost_at(catalog, *c, 4) <= i32::MAX);
    let lost = [cat[0] - grow[0], cat[1] - grow[1], cat[2] - grow[2], cat[3] - grow[3], cat[4] - grow[4]];
    let d = CandidateDto {
        grow,
        lost,
        lost_bp: c.lost_bp,
        manual: c.manual,
        random: c.random,
        bp: c.bp.to_array(),
        stat: StatDto::of(c.stat),
        approximate: c.approximate,
        weight,
    };
    assert(d.lost =~= spec_candidate_dto(catalog, *c, weight).lost);
    d
}

/// The response to a guess.
#[derive(Debug, Clone, PartialEq, Eq)]
pub struct GuessResp {
    /// The match mode that produced the candidates (`auto` resolved).
    pub mode: &'static str,
    /// The number of spent points behind them.
    pub point: i32,
    /// How many solutions were found.
    pub total: usize,
    /// Whether `candidates` holds only the heaviest ones.
    pub truncated: bool,
    /// Heaviest first.
    pub candidates: Vec<CandidateDto>,
    /// The distribution over all the solutions.
    pub distribution: Option<Distribution>,
}

pub open spec fn spec_mode_name(m: MatchMode) -> Seq<char> {
    match m {
        MatchMode::Auto => "auto"@,
        MatchMode::Exact => "exact"@,
        MatchMode::Observer => "observer"@,
        MatchMode::Tolerant => "tolerant"@,
    }
}

/// With weights `w`, candidate `i` is shown before candidate `j`: heavier
/// first, then fewer tiers lost, then the earlier one.
pub open spec fn ranks_before(w: Seq<u64>, c: Seq<Candidate>, i: int, j: int) -> bool {
    ||| w[i] > w[j]
    ||| w[i] == w[j] && c[i].lost_bp < c[j].lost_bp
    ||| w[i] == w[j] && c[i].lost_bp == c[j].lost_bp && i < j
}

/// `order` lists the `k` first candidates in showing order.
pub open spec fn top_of(w: Seq<u64>, c: Seq<Candidate>, order: Seq<usize>, k: int) -> bool {
    &&& order.len() == k
    &&& forall|a: int| 0 <= a < k ==> #[trigger] order[a] < c.len()
    &&& forall|a: int, b: int| 0 <= a < b < k ==> ranks_before(w, c, #[trigger] order[a] as int, #[trigger] order[b] as int)
    &&& forall|j: int, a: int| 0 <= j < c.len() && !order.contains(j as usize) && 0 <= a < k ==> #[trigger] ranks_before(w, c, order[a] as int, j)
}

fn shown_before(w: &Vec<u64>, c: &[Candidate], i: usize, j: usize) -> (r: bool)
    requires
        i < w@.len(),
        j < w@.len(),
        w@.len() == c@.len(),
    ensures
        r == ranks_before(w@, c@, i as int, j as int),
{
    w[i] > w[j] || (w[i] == w[j] && (c[i].lost_bp < c[j].lost_bp || (c[i].lost_bp == c[j].lost_bp && i < j)))
}

pub open spec fn count_free(s: Seq<bool>, n: int) -> int
    decreases n,
{
    if n <= 0 { 0 } else { count_free(s, n - 1) + if s[n - 1] { 0int } else { 1int } }
}

proof fn lemma_count_free_pos(s: Seq<bool>, n: int)
    requires
        0 <= n <= s.len(),
        count_free(s, n) > 0,
    ensures
        exists|j: int| 0 <= j < n && !s[j],
    decreases n,
{
    if s[n - 1] {
        lemma_count_free_pos(s, n - 1);
    }
}

proof fn lemma_count_free_take(s: Seq<bool>, n: int, j: int)
    requires
        0 <= j < n <= s.len(),
        !s[j],
    ensures
        count_free(s.update(j, true), n) == count_free(s, n) - 1,
    decreases n,
{
    if j < n - 1 {
        lemma_count_free_take(s, n - 1, j);
    } else {
        lemma_count_free_same(s, s.update(j, true), n - 1);
    }
}

proof fn lemma_count_free_same(s: Seq<bool>, t: Seq<bool>, n: int)
    requires
        0 <= n <= s.len(),
        n <= t.len(),
        forall|i: int| 0 <= i < n ==> s[i] == t[i],
    ensures
        count_free(s, n) == count_free(t, n),
    decreases n,
{
    if n > 0 {
        lemma_count_free_same(s, t, n - 1);
    }
}

proof fn lemma_count_free_all(s: Seq<bool>, n: int)
    requires
        0 <= n <= s.len(),
        forall|i: int| 0 <= i < n ==> !s[i],
    ensures
        count_free(s, n) == n,
    decreases n,
{
    if n > 0 {
        lemma_count_free_all(s, n - 1);
    }
}

/// The `k` first candidates in showing order.
fn top_ranked(w: &Vec<u64>, c: &[Candidate], k: usize) -> (order: Vec<usize>)
    requires
        w@.len() == c@.len(),
        k <= c@.len(),
    ensures
        top_of(w@, c@, order@, k as int),
{
    let n = c.len();
    let mut taken: Vec<bool> = Vec::new();
    let mut i: usize = 0;
    while i < n
        invariant
            0 <= i <= n,
            taken@.len() == i,
            forall|j: int| 0 <= j < i ==> !#[trigger] taken@[j],
        decreases n - i,
    {
        taken.push(false);
        i = i + 1;
    }
    proof {
        lemma_count_free_all(taken@, n as int);
    }
    let mut order: Vec<usize> = Vec::new();
    while order.len() < k
        invariant
            n == c@.len(),
            w@.len() == n,
            k <= n,
            taken@.len() == n,
            order@.len() <= k,
            count_free(taken@, n as int) == n - order@.len(),
            forall|j: int| 0 <= j < n ==> (#[trigger] taken@[j] <==> order@.contains(j as usize)),
            forall|a: int| 0 <= a < order@.len() ==> #[trigger] order@[a] < n,
            forall|a: int, b: int| 0 <= a < b < order@.len() ==> ranks_before(w@, c@, #[trigger] order@[a] as int, #[trigger] order@[b] as int),
            forall|j: int, a: int| 0 <= j < n && !taken@[j] && 0 <= a < order@.len() ==> #[trigger] ranks_before(w@, c@, order@[a] as int, j),
        decreases k - order@.len(),
    {
        proof {
            lemma_count_free_pos(taken@, n as int);
        }
        let mut best: usize = n;
        let mut j: usize = 0;
        while j < n
            invariant
                n == c@.len(),
                w@.len() == n,
                taken@.len() == n,
                0 <= j <= n,
                best == n || (best < j && !taken@[best as int]),
                best == n ==> forall|m: int| 0 <= m < j ==> #[trigger] taken@[m],
                best < n ==> forall|m: int| 0 <= m < j && !taken@[m] && m != best ==> ranks_before(w@, c@, best as int, m),
            decreases n - j,
        {
            if !taken[j] && (best == n || shown_before(w, c, j, best)) {
                proof {
                    if best < n {
                        assert forall|m: int| 0 <= m < j + 1 && !taken@[m] && m != j implies ranks_before(w@, c@, j as int, m) by {
                            if m != best {
                                assert(ranks_before(w@, c@, best as int, m));
                            }
                        }
                    }
                }
                best = j;
            } else {
                proof {
                    if best < n && !taken@[j as int] {
                        assert(!ranks_before(w@, c@, j as int, best as int));
                        assert(ranks_before(w@, c@, best as int, j as int));
                    }
                }
            }
            j = j + 1;
        }
        assert(best < n);
        let ghost old_taken = taken@;
        let ghost old_order = order@;
        proof {
            lemma_count_free_take(taken@, n as int, best as int);
        }
        taken.set(best, true);
        order.push(best);
        proof {
            assert forall|x: int| 0 <= x < n implies (#[trigger] taken@[x] <==> order@.contains(x as usize)) by {
                if x == best {
                    assert(order@[order@.len() - 1] == best);
                } else {
                    if old_order.contains(x as usize) {
                        let y = choose|y: int| 0 <= y < old_order.len() && old_order[y] == x as usize;
                        assert(order@[y] == x as usize);
                    }
                    if order@.contains(x as usize) {
                        let y = choose|y: int| 0 <= y < order@.len() && order@[y] == x as usize;
                        assert(old_order[y] == x as usize);
                    }
                }
            }
            assert forall|a: int, b: int| 0 <= a < b < order@.len() implies ranks_before(w@, c@, #[trigger] order@[a] as int, #[trigger] order@[b] as int) by {
                if b == order@.len() - 1 {
                    assert(!old_taken[best as int]);
                    assert(order@[a] == old_order[a]);
                } else {
                    assert(order@[a] == old_order[a]);
                    assert(order@[b] == old_order[b]);
                }
            }
            assert forall|x: int, a: int| 0 <= x < n && !taken@[x] && 0 <= a < order@.len() implies #[trigger] ranks_before(w@, c@, order@[a] as int, x) by {
                assert(x != best);
                assert(!old_taken[x]);
                if a == order@.len() - 1 {
                } else {
                    assert(order@[a] == old_order[a]);
                }
            }
        }
    }
    proof {
        assert forall|x: int, a: int| 0 <= x < n && !order@.contains(x as usize) && 0 <= a < k implies #[trigger] ranks_before(w@, c@, order@[a] as int, x) by {
            assert(!taken@[x]);
        }
    }
    order
}

/// `resp` answers a guess that found `cands` under `mode` with `point`
/// spent points: their distribution, and the heaviest `max_rows` of them
/// (all when `max_rows` is 0) in showing order.
pub open spec fn resp_of(resp: GuessResp, catalog: GrowRange, cands: Seq<Candidate>, mode: MatchMode, point: i32, max_rows: usize) -> bool {
    &&& resp.mode@ == spec_mode_name(mode)
    &&& resp.point == point
    &&& resp.total == cands.len()
    &&& resp.truncated == (max_rows > 0 && cands.len() > max_rows)
    &&& resp.candidates@.len() == if resp.truncated { max_rows as int } else { cands.len() as int }
    &&& cands.len() == 0 ==> resp.distribution is None
    &&& cands.len() > 0 ==> match resp.distribution {
        Some(d) => {
            &&& summarizes(d, catalog, cands)
            &&& exists|order: Seq<usize>| #[trigger] top_of(d.weight@, cands, order, resp.candidates@.len() as int)
                && forall|a: int| 0 <= a < order.len() ==> #[trigger] resp.candidates@[a] == spec_candidate_dto(
                    catalog,
                    cands[order[a] as int],
                    d.weight@[order[a] as int],
                )
        },
        None => false,
    }
}

/// The response to a guess: the distribution over all solutions, the
/// heaviest `max_rows` of them (all when `max_rows` is 0) in showing order.
pub fn build_guess_resp(catalog: GrowRange, outcome: &GuessOutcome, max_rows: usize) -> (resp: GuessResp)
    requires
        forall|i: int| 0 <= i < outcome.candidates@.len() ==> loss_fits(catalog, #[trigger] outcome.candidates@[i]),
    ensures
        resp_of(resp, catalog, outcome.candidates@, outcome.mode, outcome.point, max_rows),
{
    let total = outcome.candidates.len();
    if total == 0 {
        return GuessResp {
            mode: match_mode_name(outcome.mode),
            point: outcome.point,
            total: 0,
            truncated: false,
            candidates: Vec::new(),
            distribution: None,
        };
    }
    let dist = Distribution::summarize(catalog, outcome.candidates.as_slice());
    let truncated = max_rows > 0 && total > max_rows;
    let k = if truncated { max_rows } else { total };
    let order = top_ranked(&dist.weight, outcome.candidates.as_slice(), k);
    let mut candidates: Vec<CandidateDto> = Vec::new();
    let mut a: usize = 0;
    while a < k
        invariant
            0 <= a <= k,
            k <= total,
            total == outcome.candidates@.len(),
            dist.weight@.len() == total,
            top_of(dist.weight@, outcome.candidates@, order@, k as int),
            forall|i: int| 0 <= i < outcome.candidates@.len() ==> loss_fits(catalog, #[trigger] outcome.candidates@[i]),
            candidates@.len() == a,
            forall|b: int| 0 <= b < a ==> #[trigger] candidates@[b] == spec_candidate_dto(
                catalog,
                outcome.candidates@[order@[b] as int],
                dist.weight@[order@[b] as int],
            ),
        decreases k - a,
    {
        let i = order[a];
        assert(i < total);
        candidates.push(candidate_dto(catalog, &outcome.candidates[i], dist.weight[i]));
        a = a + 1;
    }
    let resp = GuessResp {
        mode: match_mode_name(outcome.mode),
        point: outcome.point,
        total,
        truncated,
        candidates,
        distribution: Some(dist),
    };
    proof {
        let d = resp.distribution->0;
        assert(top_of(d.weight@, outcome.candidates@, order@, resp.candidates@.len() as int));
        assert(forall|a: int| 0 <= a < order@.len() ==> #[trigger] resp.candidates@[a] == spec_candidate_dto(
            catalog,
            outcome.candidates@[order@[a] as int],
            d.weight@[order@[a] as int],
        ));
    }
    resp
}

// ── probability queries ──────────────────────────────────────────────────

/// A probability query: a box of tiers, and a threshold on the tier sum of
/// some axes.
#[derive(Debug, Clone, PartialEq, Eq)]
pub struct ProbabilityReq {
    pub lo: [i32; 5],
    pub hi: [i32; 5],
    /// The axes to add up; none means no second answer.
    pub axes: Vec<usize>,
    pub threshold: i32,
}

/// The answers of a probability query, as weights out of `total_weight`.
#[derive(Debug, Clone, Copy, PartialEq, Eq)]
pub struct ProbabilityResp {
    /// Weight of the candidates whose tiers all lie in the box.
    pub in_range: u128,
    /// Weight of the candidates whose tier sum over the axes reaches the threshold.
    pub axis_sum: Option<u128>,
    pub total_weight: u128,
    /// How many candidates were weighed: all of them.
    pub candidates: usize,
}

/// The listed axes that exist.
pub open spec fn real_axes(s: Seq<usize>) -> Seq<usize>
    decreases s.len(),
{
    if s.len() == 0 {
        s
    } else if s.last() < 5 {
        real_axes(s.drop_last()).push(s.last())
    } else {
        real_axes(s.drop_last())
    }
}

proof fn lemma_real_axes(s: Seq<usize>)
    ensures
        forall|k: int| 0 <= k < real_axes(s).len() ==> #[trigger] real_axes(s)[k] < 5,
    decreases s.len(),
{
    if s.len() > 0 {
        lemma_real_axes(s.drop_last());
        let p = real_axes(s.drop_last());
        if s.last() < 5 {
            assert forall|k: int| 0 <= k < p.push(s.last()).len() implies #[trigger] p.push(s.last())[k] < 5 by {
                if k < p.len() {
                    assert(p.push(s.last())[k] == p[k]);
                }
            }
        }
    }
}

impl ProbabilityReq {
    /// Weigh the candidates against the query; `dist` is their distribution.
    pub fn eval(&self, candidates: &[Candidate], dist: &Distribution) -> (r: ProbabilityResp)
        ensures
            r.in_range == wsum(dist.weight@, in_grow_box(candidates@, self.lo, self.hi), min_len(candidates@.len() as int, dist.weight@.len() as int)),
            r.axis_sum == if real_axes(self.axes@).len() == 0 {
                None::<u128>
            } else {
                Some(wsum(dist.weight@, axes_at_least(candidates@, real_axes(self.axes@), self.threshold as int),
                    min_len(candidates@.len() as int, dist.weight@.len() as int)) as u128)
            },
            r.total_weight == dist.total_weight,
            r.candidates == candidates@.len(),
    {
        let mut axes: Vec<usize> = Vec::new();
        let mut k: usize = 0;
        while k < self.axes.len()
            invariant
                0 <= k <= self.axes@.len(),
                axes@ == real_axes(self.axes@.subrange(0, k as int)),
            decreases self.axes@.len() - k,
        {
            assert(self.axes@.subrange(0, k + 1).drop_last() =~= self.axes@.subrange(0, k as int));
            if self.axes[k] < 5 {
                axes.push(self.axes[k]);
            }
            k = k + 1;
        }
        assert(self.axes@.subrange(0, self.axes@.len() as int) =~= self.axes@);
        proof {
            lemma_real_axes(self.axes@);
        }
        let in_range = dist.probability_in_grow_range(candidates, self.lo, self.hi);
        let axis_sum = if axes.len() == 0 {
            None
        } else {
            Some(dist.probability_axis_sum_at_least(candidates, axes.as_slice(), self.threshold))
        };
        ProbabilityResp { in_range, axis_sum, total_weight: dist.total_weight, candidates: candidates.len() }
    }
}

// ── refining a guess ─────────────────────────────────────────────────────

/// Stats as the first seven filter columns: hp mp atk def agi wis res.
pub fn stat_columns(s: Stat) -> (c: [i64; 7])
    ensures
        c == [s.hp, s.mp, s.atk, s.def, s.agi, s.wis, s.res],
{
    [s.hp, s.mp, s.atk, s.def, s.agi, s.wis, s.res]
}

pub open spec fn stat_col(c: Candidate, s: int) -> i64 {
    [c.stat.hp, c.stat.mp, c.stat.atk, c.stat.def, c.stat.agi, c.stat.wis, c.stat.res][s]
}

/// Whole points of a BP value in thousandths, truncated toward zero and
/// saturated to `i64`.
pub open spec fn bp_whole(x: i128) -> i64 {
    clamp_i64(if x >= 0 { x / 1000 } else { -((-x) / 1000) }) as i64
}

pub open spec fn bp_col(c: Candidate, a: int) -> i64 {
    bp_whole(c.bp.arr()[a])
}

pub open spec fn grow_col(c: Candidate, a: int) -> i32 {
    c.grow.tiers()[a]
}

fn bp_whole_of(x: i128) -> (r: i64)
    ensures
        r == bp_whole(x),
{
    let t: i128 = if x >= 0 {
        x / 1000
    } else {
        let y = -(x + 1);
        let q = y / 1000;
        let q = if y % 1000 == 999 { q + 1 } else { q };
        assert(q == (-x) / 1000);
        -q
    };
    if t > i64::MAX as i128 {
        i64::MAX
    } else if t < i64::MIN as i128 {
        i64::MIN
    } else {
        t as i64
    }
}

/// The twelve filters of the follow-up questions (and seven stat filters);
/// `None` leaves a column out.
#[derive(Debug, Clone, Copy, PartialEq, Eq)]
pub struct RefineReq {
    /// hp mp atk def agi wis res.
    pub stat: [Option<i64>; 7],
    /// Whole points of the BP per axis, `[HP, ATK, DEF, AGI, MP]`.
    pub bp: [Option<i64>; 5],
    /// Tiers, `[HP, ATK, DEF, AGI, MP]`.
    pub grow: [Option<i32>; 5],
}

impl RefineReq {
    /// The candidate passes every filled-in column.
    pub open spec fn spec_keeps(self, c: Candidate) -> bool {
        &&& forall|s: int| 0 <= s < 7 ==> (#[trigger] self.stat[s] matches Some(v) ==> v == stat_col(c, s))
        &&& forall|a: int| 0 <= a < 5 ==> (#[trigger] self.bp[a] matches Some(v) ==> v == bp_col(c, a))
        &&& forall|a: int| 0 <= a < 5 ==> (#[trigger] self.grow[a] matches Some(v) ==> v == grow_col(c, a))
    }

    fn keeps(&self, c: &Candidate) -> (r: bool)
        ensures
            r == self.spec_keeps(*c),
    {
        let stat = stat_columns(c.stat);
        let mut s: usize = 0;
        while s < 7
            invariant
                0 <= s <= 7,
                stat == [c.stat.hp, c.stat.mp, c.stat.atk, c.stat.def, c.stat.agi, c.stat.wis, c.stat.res],
                forall|t: int| 0 <= t < s ==> (#[trigger] self.stat[t] matches Some(v) ==> v == stat_col(*c, t)),
            decreases 7 - s,
        {
            if let Some(w) = self.stat[s] {
                if w != stat[s] {
                    return false;
                }
            }
            s = s + 1;
        }
        let bp = c.bp.to_array();
        let mut a: usize = 0;
        while a < 5
            invariant
                0 <= a <= 5,
                bp == c.bp.arr(),
                forall|t: int| 0 <= t < a ==> (#[trigger] self.bp[t] matches Some(v) ==> v == bp_col(*c, t)),
            decreases 5 - a,
        {
            if let Some(w) = self.bp[a] {
                if w != bp_whole_of(bp[a]) {
                    return false;
                }
            }
            a = a + 1;
        }
        let grow = c.grow.to_array();
        let mut a: usize = 0;
        while a < 5
            invariant
                0 <= a <= 5,
                grow == c.grow.tiers(),
                forall|t: int| 0 <= t < a ==> (#[trigger] self.grow[t] matches Some(v) ==> v == grow_col(*c, t)),
            decreases 5 - a,
        {
            if let Some(w) = self.grow[a] {
                if w != grow[a] {
                    return false;
                }
            }
            a = a + 1;
        }
        true
    }

    /// The candidates among the first `n` of `s` that pass, in order.
    pub open spec fn kept(self, s: Seq<Candidate>, n: int) -> Seq<Candidate>
        decreases n,
    {
        if n <= 0 {
            Seq::empty()
        } else if self.spec_keeps(s[n - 1]) {
            self.kept(s, n - 1).push(s[n - 1])
        } else {
            self.kept(s, n - 1)
        }
    }

    pub open spec fn keep_pred(self, s: Seq<Candidate>) -> spec_fn(int) -> bool {
        |i: int| self.spec_keeps(s[i])
    }
}

proof fn lemma_kept_from(req: RefineReq, s: Seq<Candidate>, n: int)
    requires
        0 <= n <= s.len(),
    ensures
        forall|j: int| 0 <= j < req.kept(s, n).len() ==> exists|i: int| 0 <= i < n && s[i] == #[trigger] req.kept(s, n)[j],
    decreases n,
{
    if n > 0 {
        lemma_kept_from(req, s, n - 1);
        if req.spec_keeps(s[n - 1]) {
            assert forall|j: int| 0 <= j < req.kept(s, n).len() implies exists|i: int| 0 <= i < n && s[i] == #[trigger] req.kept(s, n)[j] by {
                if j < req.kept(s, n - 1).len() {
                    assert(req.kept(s, n)[j] == req.kept(s, n - 1)[j]);
                    let i = choose|i: int| 0 <= i < n - 1 && s[i] == #[trigger] req.kept(s, n - 1)[j];
                    assert(s[i] == req.kept(s, n)[j]);
                } else {
                    assert(s[n - 1] == req.kept(s, n)[j]);
                }
            }
        }
    }
}

pub open spec fn sorted_i32(s: Seq<i32>) -> bool {
    forall|i: int, j: int| 0 <= i < j < s.len() ==> #[trigger] s[i] < #[trigger] s[j]
}

pub open spec fn strictly_sorted(s: Seq<i64>) -> bool {
    forall|i: int, j: int| 0 <= i < j < s.len() ==> #[trigger] s[i] < #[trigger] s[j]
}

/// The distinct values of `vals`, in increasing order.
fn distinct_sorted(vals: &Vec<i64>) -> (out: Vec<i64>)
    ensures
        strictly_sorted(out@),
        forall|y: i64| out@.contains(y) <==> vals@.contains(y),
{
    let mut out: Vec<i64> = Vec::new();
    let mut i: usize = 0;
    while i < vals.len()
        invariant
            0 <= i <= vals@.len(),
            strictly_sorted(out@),
            forall|y: i64| out@.contains(y) <==> vals@.subrange(0, i as int).contains(y),
        decreases vals@.len() - i,
    {
        let x = vals[i];
        let mut p: usize = 0;
        while p < out.len() && out[p] < x
            invariant
                0 <= p <= out@.len(),
                forall|q: int| 0 <= q < p ==> #[trigger] out@[q] < x,
            decreases out@.len() - p,
        {
            p = p + 1;
        }
        let ghost before = out@;
        if p < out.len() && out[p] == x {
        } else {
            out.insert(p, x);
            proof {
                assert forall|a: int, b: int| 0 <= a < b < out@.len() implies #[trigger] out@[a] < #[trigger] out@[b] by {
                    if b < p {
                        assert(out@[a] == before[a] && out@[b] == before[b]);
                    } else if b == p {
                        assert(out@[a] == before[a]);
                    } else if a < p {
                        assert(out@[a] == before[a] && out@[b] == before[b - 1]);
                        assert(before[a] < x);
                        assert(p < before.len() ==> before[p as int] > x);
                        if p < before.len() {
                            assert(before[p as int] <= before[b - 1]);
                        }
                    } else if a == p {
                        assert(out@[b] == before[b - 1]);
                        assert(before[p as int] > x);
                        assert(before[p as int] <= before[b - 1]);
                    } else {
                        assert(out@[a] == before[a - 1] && out@[b] == before[b - 1]);
                    }
                }
            }
        }
        proof {
            let old_vals = vals@.subrange(0, i as int);
            let new_vals = vals@.subrange(0, i + 1);
            assert(new_vals =~= old_vals.push(x));
            assert(out@.contains(x)) by {
                assert(out@[p as int] == x);
            }
            assert forall|y: i64| #[trigger] out@.contains(y) implies new_vals.contains(y) by {
                if y == x {
                    assert(new_vals[i as int] == x);
                } else {
                    let a = choose|a: int| 0 <= a < out@.len() && out@[a] == y;
                    let a0 = if out@.len() == before.len() || a < p { a } else { a - 1 };
                    assert(before[a0] == y);
                    assert(before.contains(y));
                    assert(old_vals.contains(y));
                    let k = choose|k: int| 0 <= k < old_vals.len() && old_vals[k] == y;
                    assert(new_vals[k] == y);
                }
            }
            assert forall|y: i64| #[trigger] new_vals.contains(y) implies out@.contains(y) by {
                if y != x {
                    let k = choose|k: int| 0 <= k < new_vals.len() && new_vals[k] == y;
                    assert(k < i);
                    assert(old_vals[k] == y);
                    assert(old_vals.contains(y));
                    assert(before.contains(y));
                    let a = choose|a: int| 0 <= a < before.len() && before[a] == y;
                    let a1 = if out@.len() == before.len() || a < p { a } else { a + 1 };
                    assert(out@[a1] == y);
                }
            }
        }
        i = i + 1;
    }
    assert(vals@.subrange(0, vals@.len() as int) =~= vals@);
    out
}

/// A filter column: a stat, the whole BP of an axis, or the tier of an axis.
#[derive(Debug, Clone, Copy, PartialEq, Eq)]
pub enum Column {
    Stat(usize),
    Bp(usize),
    Grow(usize),
}

pub open spec fn col_ok(col: Column) -> bool {
    match col {
        Column::Stat(s) => s < 7,
        Column::Bp(a) => a < 5,
        Column::Grow(a) => a < 5,
    }
}

pub open spec fn col_value(c: Candidate, col: Column) -> i64 {
    match col {
        Column::Stat(s) => stat_col(c, s as int),
        Column::Bp(a) => bp_col(c, a as int),
        Column::Grow(a) => grow_col(c, a as int) as i64,
    }
}

/// Some candidate of `kept` has the value `y` in column `col`.
pub open spec fn has_value(kept: Seq<Candidate>, col: Column, y: i64) -> bool {
    exists|i: int| 0 <= i < kept.len() && col_value(kept[i], col) == y
}

fn value_of(c: &Candidate, col: Column) -> (v: i64)
    requires
        col_ok(col),
    ensures
        v == col_value(*c, col),
{
    match col {
        Column::Stat(s) => {
            let st = stat_columns(c.stat);
            st[s]
        },
        Column::Bp(a) => {
            let bp = c.bp.to_array();
            bp_whole_of(bp[a])
        },
        Column::Grow(a) => {
            let g = c.grow.to_array();
            g[a] as i64
        },
    }
}

/// The distinct values of a column over `kept`, in increasing order.
fn column_options(kept: &[Candidate], col: Column) -> (out: Vec<i64>)
    requires
        col_ok(col),
    ensures
        strictly_sorted(out@),
        forall|y: i64| #[trigger] out@.contains(y) <==> has_value(kept@, col, y),
{
    let mut vals: Vec<i64> = Vec::new();
    let mut i: usize = 0;
    while i < kept.len()
        invariant
            0 <= i <= kept@.len(),
            col_ok(col),
            vals@.len() == i,
            forall|j: int| 0 <= j < i ==> #[trigger] vals@[j] == col_value(kept@[j], col),
        decreases kept@.len() - i,
    {
        vals.push(value_of(&kept[i], col));
        i = i + 1;
    }
    let out = distinct_sorted(&vals);
    assert forall|y: i64| #[trigger] out@.contains(y) <==> has_value(kept@, col, y) by {
        if vals@.contains(y) {
            let j = choose|j: int| 0 <= j < vals@.len() && vals@[j] == y;
            assert(col_value(kept@[j], col) == y);
        }
        if has_value(kept@, col, y) {
            let j = choose|j: int| 0 <= j < kept@.len() && col_value(kept@[j], col) == y;
            assert(vals@[j] == y);
        }
    }
    out
}

/// The choices of each filter column: the distinct values among the
/// candidates left, in increasing order.
#[derive(Debug, Clone, PartialEq, Eq)]
pub struct RefineOptions {
    pub stat: [Vec<i64>; 7],
    /// Whole points of the BP.
    pub bp: [Vec<i64>; 5],
    pub grow: [Vec<i32>; 5],
}

/// `o` lists the choices of every column over `kept`.
pub open spec fn options_over(o: RefineOptions, kept: Seq<Candidate>) -> bool {
    &&& forall|s: int| 0 <= s < 7 ==> strictly_sorted(#[trigger] o.stat[s]@)
        && forall|y: i64| o.stat[s]@.contains(y) <==> has_value(kept, Column::Stat(s as usize), y)
    &&& forall|a: int| 0 <= a < 5 ==> strictly_sorted(#[trigger] o.bp[a]@)
        && forall|y: i64| o.bp[a]@.contains(y) <==> has_value(kept, Column::Bp(a as usize), y)
    &&& forall|a: int| 0 <= a < 5 ==> sorted_i32(#[trigger] o.grow[a]@)
        && forall|y: i32| o.grow[a]@.contains(y) <==> has_value(kept, Column::Grow(a as usize), y as i64)
}

/// The tier choices of axis `a`, narrowed back to `i32`.
fn grow_options(kept: &[Candidate], a: usize) -> (out: Vec<i32>)
    requires
        a < 5,
    ensures
        sorted_i32(out@),
        forall|y: i32| #[trigger] out@.contains(y) <==> has_value(kept@, Column::Grow(a), y as i64),
{
    let wide = column_options(kept, Column::Grow(a));
    let mut out: Vec<i32> = Vec::new();
    let mut i: usize = 0;
    while i < wide.len()
        invariant
            0 <= i <= wide@.len(),
            a < 5,
            strictly_sorted(wide@),
            forall|y: i64| #[trigger] wide@.contains(y) <==> has_value(kept@, Column::Grow(a), y),
            out@.len() == i,
            forall|j: int| 0 <= j < i ==> #[trigger] out@[j] == wide@[j],
        decreases wide@.len() - i,
    {
        let v = wide[i];
        proof {
            assert(wide@.contains(v));
            let k = choose|k: int| 0 <= k < kept@.len() && col_value(kept@[k], Column::Grow(a)) == v;
            assert(i32::MIN <= v <= i32::MAX);
        }
        out.push(v as i32);
        i = i + 1;
    }
    assert forall|y: i32| #[trigger] out@.contains(y) <==> has_value(kept@, Column::Grow(a), y as i64) by {
        if out@.contains(y) {
            let j = choose|j: int| 0 <= j < out@.len() && out@[j] == y;
            assert(wide@[j] == y as i64);
            assert(wide@.contains(y as i64));
        }
        if has_value(kept@, Column::Grow(a), y as i64) {
            assert(wide@.contains(y as i64));
            let j = choose|j: int| 0 <= j < wide@.len() && wide@[j] == y as i64;
            assert(out@[j] == y);
        }
    }
    out
}

impl RefineOptions {
    /// The choices of every column over `kept`.
    pub fn over(kept: &[Candidate]) -> (o: Self)
        ensures
            options_over(o, kept@),
    {
        let o = RefineOptions {
            stat: [
                column_options(kept, Column::Stat(0)),
                column_options(kept, Column::Stat(1)),
                column_options(kept, Column::Stat(2)),
                column_options(kept, Column::Stat(3)),
                column_options(kept, Column::Stat(4)),
                column_options(kept, Column::Stat(5)),
                column_options(kept, Column::Stat(6)),
            ],
            bp: [
                column_options(kept, Column::Bp(0)),
                column_options(kept, Column::Bp(1)),
                column_options(kept, Column::Bp(2)),
                column_options(kept, Column::Bp(3)),
                column_options(kept, Column::Bp(4)),
            ],
            grow: [
                grow_options(kept, 0),
                grow_options(kept, 1),
                grow_options(kept, 2),
                grow_options(kept, 3),
                grow_options(kept, 4),
            ],
        };
        assert forall|s: int| 0 <= s < 7 implies strictly_sorted(#[trigger] o.stat[s]@)
            && forall|y: i64| o.stat[s]@.contains(y) <==> has_value(kept@, Column::Stat(s as usize), y) by {
            if s == 0 {} else if s == 1 {} else if s == 2 {} else if s == 3 {} else if s == 4 {} else if s == 5 {} else {}
        }
        assert forall|a: int| 0 <= a < 5 implies strictly_sorted(#[trigger] o.bp[a]@)
            && forall|y: i64| o.bp[a]@.contains(y) <==> has_value(kept@, Column::Bp(a as usize), y) by {
            if a == 0 {} else if a == 1 {} else if a == 2 {} else if a == 3 {} else {}
        }
        assert forall|a: int| 0 <= a < 5 implies sorted_i32(#[trigger] o.grow[a]@)
            && forall|y: i32| o.grow[a]@.contains(y) <==> has_value(kept@, Column::Grow(a as usize), y as i64) by {
            if a == 0 {} else if a == 1 {} else if a == 2 {} else if a == 3 {} else {}
        }
        o
    }
}

pub open spec fn only_i64(v: Seq<i64>) -> Option<i64> {
    if v.len() == 1 { Some(v[0]) } else { None }
}

pub open spec fn only_i32(v: Seq<i32>) -> Option<i32> {
    if v.len() == 1 { Some(v[0]) } else { None }
}

/// Per column, the one value every candidate left agrees on, if there is
/// exactly one choice.
#[derive(Debug, Clone, Copy, PartialEq, Eq)]
pub struct RefineSettled {
    pub stat: [Option<i64>; 7],
    pub bp: [Option<i64>; 5],
    pub grow: [Option<i32>; 5],
    /// The twelve follow-up questions (wis, res, the BP and
    /// the tiers of every axis) are all settled.
    pub all: bool,
}

impl RefineSettled {
    pub open spec fn spec_of(o: RefineOptions) -> RefineSettled {
        let stat = [
            only_i64(o.stat[0]@), only_i64(o.stat[1]@), only_i64(o.stat[2]@), only_i64(o.stat[3]@),
            only_i64(o.stat[4]@), only_i64(o.stat[5]@), only_i64(o.stat[6]@),
        ];
        let bp = [only_i64(o.bp[0]@), only_i64(o.bp[1]@), only_i64(o.bp[2]@), only_i64(o.bp[3]@), only_i64(o.bp[4]@)];
        let grow = [only_i32(o.grow[0]@), only_i32(o.grow[1]@), only_i32(o.grow[2]@), only_i32(o.grow[3]@), only_i32(o.grow[4]@)];
        RefineSettled {
            stat,
            bp,
            grow,
            all: stat[5] is Some && stat[6] is Some && bp[0] is Some && bp[1] is Some && bp[2] is Some && bp[3] is Some
                && bp[4] is Some && grow[0] is Some && grow[1] is Some && grow[2] is Some && grow[3] is Some && grow[4] is Some,
        }
    }

    /// A column with exactly one choice is settled; with none (everything
    /// filtered away) it is not.
    pub fn of(o: &RefineOptions) -> (r: Self)
        ensures
            r == Self::spec_of(*o),
    {
        let stat = [
            only_of(&o.stat[0]), only_of(&o.stat[1]), only_of(&o.stat[2]), only_of(&o.stat[3]),
            only_of(&o.stat[4]), only_of(&o.stat[5]), only_of(&o.stat[6]),
        ];
        let bp = [only_of(&o.bp[0]), only_of(&o.bp[1]), only_of(&o.bp[2]), only_of(&o.bp[3]), only_of(&o.bp[4])];
        let grow = [
            only_of_i32(&o.grow[0]), only_of_i32(&o.grow[1]), only_of_i32(&o.grow[2]), only_of_i32(&o.grow[3]),
            only_of_i32(&o.grow[4]),
        ];
        let all = stat[5].is_some() && stat[6].is_some() && bp[0].is_some() && bp[1].is_some() && bp[2].is_some()
            && bp[3].is_some() && bp[4].is_some() && grow[0].is_some() && grow[1].is_some() && grow[2].is_some()
            && grow[3].is_some() && grow[4].is_some();
        let r = RefineSettled { stat, bp, grow, all };
        assert(r.stat =~= Self::spec_of(*o).stat);
        assert(r.bp =~= Self::spec_of(*o).bp);
        assert(r.grow =~= Self::spec_of(*o).grow);
        r
    }
}

fn only_of(v: &Vec<i64>) -> (r: Option<i64>)
    ensures
        r == only_i64(v@),
{
    if v.len() == 1 { Some(v[0]) } else { None }
}

fn only_of_i32(v: &Vec<i32>) -> (r: Option<i32>)
    ensures
        r == only_i32(v@),
{
    if v.len() == 1 { Some(v[0]) } else { None }
}

/// `r` holds, per axis, the fewest and the most tiers any candidate of
/// `kept` lost; `None` when nothing is left.
pub open spec fn narrowed_of(r: Option<[[i32; 2]; 5]>, catalog: GrowRange, kept: Seq<Candidate>) -> bool {
    match r {
        None => kept.len() == 0,
        Some(b) => {
            &&& kept.len() > 0
            &&& forall|a: int| 0 <= a < 5 ==> {
                &&& (exists|i: int| 0 <= i < kept.len() && lost_at(catalog, kept[i], a) == #[trigger] b[a][0])
                &&& (exists|i: int| 0 <= i < kept.len() && lost_at(catalog, kept[i], a) == #[trigger] b[a][1])
                &&& forall|i: int| 0 <= i < kept.len() ==> b[a][0] <= #[trigger] lost_at(catalog, kept[i], a) <= b[a][1]
            }
        },
    }
}

fn axis_loss_span(catalog: GrowRange, kept: &Vec<Candidate>, a: usize) -> (r: [i32; 2])
    requires
        a < 5,
        kept@.len() > 0,
        forall|i: int| 0 <= i < kept@.len() ==> loss_fits(catalog, #[trigger] kept@[i]),
    ensures
        exists|i: int| 0 <= i < kept@.len() && lost_at(catalog, kept@[i], a as int) == r[0],
        exists|i: int| 0 <= i < kept@.len() && lost_at(catalog, kept@[i], a as int) == r[1],
        forall|i: int| 0 <= i < kept@.len() ==> r[0] <= #[trigger] lost_at(catalog, kept@[i], a as int) <= r[1],
{
    let cat = catalog.to_array();
    let g0 = kept[0].grow.to_array();
    assert(i32::MIN <= lost_at(catalog, kept@[0], a as int) <= i32::MAX);
    let first = cat[a] - g0[a];
    let mut lo = first;
    let mut hi = first;
    let mut i: usize = 1;
    while i < kept.len()
        invariant
            1 <= i <= kept@.len(),
            a < 5,
            cat == catalog.tiers(),
            forall|j: int| 0 <= j < kept@.len() ==> loss_fits(catalog, #[trigger] kept@[j]),
            exists|j: int| 0 <= j < i && lost_at(catalog, kept@[j], a as int) == lo,
            exists|j: int| 0 <= j < i && lost_at(catalog, kept@[j], a as int) == hi,
            forall|j: int| 0 <= j < i ==> lo <= #[trigger] lost_at(catalog, kept@[j], a as int) <= hi,
        decreases kept@.len() - i,
    {
        let g = kept[i].grow.to_array();
        assert(i32::MIN <= lost_at(catalog, kept@[i as int], a as int) <= i32::MAX);
        let lost = cat[a] - g[a];
        if lost < lo {
            lo = lost;
        }
        if lost > hi {
            hi = lost;
        }
        i = i + 1;
    }
    [lo, hi]
}

/// Per axis the fewest and most tiers lost over the candidates left, read
/// off every one of them.
pub fn narrowed_loss(catalog: GrowRange, kept: &Vec<Candidate>) -> (r: Option<[[i32; 2]; 5]>)
    requires
        forall|i: int| 0 <= i < kept@.len() ==> loss_fits(catalog, #[trigger] kept@[i]),
    ensures
        narrowed_of(r, catalog, kept@),
{
    if kept.len() == 0 {
        return None;
    }
    let b = [
        axis_loss_span(catalog, kept, 0),
        axis_loss_span(catalog, kept, 1),
        axis_loss_span(catalog, kept, 2),
        axis_loss_span(catalog, kept, 3),
        axis_loss_span(catalog, kept, 4),
    ];
    let r = Some(b);
    assert forall|a: int| 0 <= a < 5 implies {
        &&& (exists|i: int| 0 <= i < kept@.len() && lost_at(catalog, kept@[i], a) == #[trigger] b[a][0])
        &&& (exists|i: int| 0 <= i < kept@.len() && lost_at(catalog, kept@[i], a) == #[trigger] b[a][1])
        &&& forall|i: int| 0 <= i < kept@.len() ==> b[a][0] <= #[trigger] lost_at(catalog, kept@[i], a) <= b[a][1]
    } by {
        if a == 0 {} else if a == 1 {} else if a == 2 {} else if a == 3 {} else {}
    }
    r
}

/// The response to a refinement.
#[derive(Debug, Clone, PartialEq, Eq)]
pub struct RefineResp {
    /// The candidates left, shaped like a guess (weights over the ones left).
    pub result: GuessResp,
    /// How many candidates there were before filtering.
    pub before: usize,
    /// Weight of the candidates left, out of `total_weight`.
    pub kept_weight: u128,
    pub total_weight: u128,
    pub options: RefineOptions,
    pub settled: RefineSettled,
    /// Per axis `[fewest, most]` tiers lost among the candidates left.
    pub narrowed_loss: Option<[[i32; 2]; 5]>,
}

impl RefineReq {
    /// Filter the candidates of the last guess (`dist` is their
    /// distribution) and answer like a guess over the ones left.
    pub fn eval(&self, catalog: GrowRange, cache: &[Candidate], dist: &Distribution, mode: MatchMode, point: i32,
        max_rows: usize) -> (r: RefineResp)
        requires
            dist.weight@.len() == cache@.len(),
            forall|i: int| 0 <= i < cache@.len() ==> loss_fits(catalog, #[trigger] cache@[i]),
        ensures
            resp_of(r.result, catalog, self.kept(cache@, cache@.len() as int), mode, point, max_rows),
            r.before == cache@.len(),
            r.kept_weight == wsum(dist.weight@, self.keep_pred(cache@), cache@.len() as int),
            r.total_weight == dist.total_weight,
            options_over(r.options, self.kept(cache@, cache@.len() as int)),
            r.settled == RefineSettled::spec_of(r.options),
            narrowed_of(r.narrowed_loss, catalog, self.kept(cache@, cache@.len() as int)),
    {
        let n = cache.len();
        let mut kept: Vec<Candidate> = Vec::new();
        let mut kept_weight: u128 = 0;
        let mut i: usize = 0;
        while i < n
            invariant
                0 <= i <= n,
                n == cache@.len(),
                dist.weight@.len() == n,
                kept@ == self.kept(cache@, i as int),
                kept_weight == wsum(dist.weight@, self.keep_pred(cache@), i as int),
            decreases n - i,
        {
            proof {
                lemma_wsum_bound(dist.weight@, self.keep_pred(cache@), i as int);
            }
            assert(i * 0x1_0000_0000_0000_0000 <= 0x1_0000_0000_0000_0000 * 0x1_0000_0000_0000_0000 - 0x1_0000_0000_0000_0000) by (nonlinear_arith)
                requires
                    i < usize::MAX,
            ;
            if self.keeps(&cache[i]) {
                kept.push(cache[i]);
                kept_weight = kept_weight + dist.weight[i] as u128;
            }
            i = i + 1;
        }
        proof {
            lemma_kept_from(*self, cache@, n as int);
            assert forall|j: int| 0 <= j < kept@.len() implies loss_fits(catalog, #[trigger] kept@[j]) by {
                let k = choose|k: int| 0 <= k < n && cache@[k] == #[trigger] self.kept(cache@, n as int)[j];
            }
        }
        let options = RefineOptions::over(kept.as_slice());
        let settled = RefineSettled::of(&options);
        let narrowed = narrowed_loss(catalog, &kept);
        let outcome = GuessOutcome { candidates: kept, mode, point };
        let result = build_guess_resp(catalog, &outcome, max_rows);
        RefineResp {
            result,
            before: n,
            kept_weight,
            total_weight: dist.total_weight,
            options,
            settled,
            narrowed_loss: narrowed,
        }
    }
}

// ── lexicographic order of names ─────────────────────────────────────────

/// `a` sorts before `b`: by code point, a prefix before what extends it.
pub open spec fn chars_lt(a: Seq<char>, b: Seq<char>) -> bool
    decreases a.len(),
{
    if a.len() == 0 {
        b.len() > 0
    } else if b.len() == 0 {
        false
    } else if a[0] != b[0] {
        (a[0] as int) < (b[0] as int)
    } else {
        chars_lt(a.drop_first(), b.drop_first())
    }
}

proof fn lemma_chars_lt_irreflexive(a: Seq<char>)
    ensures
        !chars_lt(a, a),
    decreases a.len(),
{
    if a.len() > 0 {
        lemma_chars_lt_irreflexive(a.drop_first());
    }
}

proof fn lemma_chars_lt_total(a: Seq<char>, b: Seq<char>)
    ensures
        a =~= b || chars_lt(a, b) || chars_lt(b, a),
    decreases a.len(),
{
    if a.len() > 0 && b.len() > 0 && a[0] == b[0] {
        lemma_chars_lt_total(a.drop_first(), b.drop_first());
        if a.drop_first() =~= b.drop_first() {
            assert(a =~= seq![a[0]] + a.drop_first());
            assert(b =~= seq![b[0]] + b.drop_first());
        }
    }
}

proof fn lemma_chars_lt_trans(a: Seq<char>, b: Seq<char>, c: Seq<char>)
    requires
        chars_lt(a, b),
        chars_lt(b, c),
    ensures
        chars_lt(a, c),
    decreases a.len(),
{
    if a.len() > 0 && b.len() > 0 && c.len() > 0 && a[0] == b[0] && b[0] == c[0] {
        lemma_chars_lt_trans(a.drop_first(), b.drop_first(), c.drop_first());
    }
}

proof fn lemma_chars_lt_asym(a: Seq<char>, b: Seq<char>)
    requires
        chars_lt(a, b),
    ensures
        !chars_lt(b, a),
    decreases a.len(),
{
    if a.len() > 0 && b.len() > 0 && a[0] == b[0] {
        lemma_chars_lt_asym(a.drop_first(), b.drop_first());
    }
}

/// Whether `a` sorts before `b`.
pub fn chars_less(a: &[char], b: &[char]) -> (r: bool)
    ensures
        r == chars_lt(a@, b@),
{
    let mut i: usize = 0;
    assert(a@.subrange(0, a@.len() as int) =~= a@);
    assert(b@.subrange(0, b@.len() as int) =~= b@);
    while i < a.len() && i < b.len() && a[i] == b[i]
        invariant
            0 <= i <= a@.len(),
            i <= b@.len(),
            chars_lt(a@, b@) == chars_lt(a@.subrange(i as int, a@.len() as int), b@.subrange(i as int, b@.len() as int)),
        decreases a@.len() - i,
    {
        let ghost x = a@.subrange(i as int, a@.len() as int);
        let ghost y = b@.subrange(i as int, b@.len() as int);
        assert(x.drop_first() =~= a@.subrange(i + 1, a@.len() as int));
        assert(y.drop_first() =~= b@.subrange(i + 1, b@.len() as int));
        i = i + 1;
    }
    let ghost x = a@.subrange(i as int, a@.len() as int);
    let ghost y = b@.subrange(i as int, b@.len() as int);
    if i == a.len() {
        assert(x.len() == 0);
        i < b.len()
    } else if i == b.len() {
        assert(y.len() == 0 && x.len() > 0);
        false
    } else {
        assert(x[0] == a@[i as int] && y[0] == b@[i as int]);
        assert(x[0] != y[0]);
        a[i] < b[i]
    }
}

// ── pets ─────────────────────────────────────────────────────────────────

/// A catalog pet as the front end shows it.
#[derive(Debug, Clone, PartialEq, Eq)]
pub struct PetDto {
    pub id: Option<i32>,
    pub name: String,
    pub race: u8,
    pub race_name: &'static str,
    /// `[HP, ATK, DEF, AGI, MP]`.
    pub grow: [i32; 5],
    pub grow_sum: i64,
    /// Hundredths.
    pub bprate: i32,
    pub skills: Option<i32>,
    pub element: Option<[i32; 4]>,
    pub custom: bool,
}

impl PetDto {
    /// `self` shows the pet `p`.
    pub open spec fn shows(self, p: Pet) -> bool {
        &&& self.id == p.id
        &&& self.name@ == p.name@
        &&& self.race == p.race
        &&& self.race_name@ == spec_race_name(p.race as int)
        &&& self.grow == p.grow
        &&& self.grow_sum == p.grow[0] + p.grow[1] + p.grow[2] + p.grow[3] + p.grow[4]
        &&& self.bprate == p.bprate
        &&& self.skills == p.skills
        &&& self.element == p.element
        &&& self.custom == p.custom
    }

    /// The pet with its derived fields (race name, tier sum).
    pub fn of(p: &Pet) -> (d: Self)
        ensures
            d.shows(*p),
    {
        PetDto {
            id: p.id,
            name: p.name.clone(),
            race: p.race,
            race_name: race_name(p.race),
            grow: p.grow,
            grow_sum: p.grow[0] as i64 + p.grow[1] as i64 + p.grow[2] as i64 + p.grow[3] as i64 + p.grow[4] as i64,
            bprate: p.bprate,
            skills: p.skills,
            element: p.element,
            custom: p.custom,
        }
    }

    /// The pet a user saves: name trimmed, always custom; the derived
    /// fields are not read.
    pub fn into_pet(self) -> (p: Pet)
        ensures
            p.id == self.id,
            p.name@ == spec_trim(self.name@),
            p.race == self.race,
            p.grow == self.grow,
            p.bprate == self.bprate,
            p.skills == self.skills,
            p.element == self.element,
            p.custom,
    {
        let chars = chars_of(self.name.as_str());
        let name = string_of(&trim(&chars));
        Pet {
            id: self.id,
            name,
            race: self.race,
            grow: self.grow,
            bprate: self.bprate,
            skills: self.skills,
            element: self.element,
            custom: true,
        }
    }
}

/// One race tab: its code, name and number of pets.
#[derive(Debug, Clone, Copy, PartialEq, Eq)]
pub struct RaceDto {
    pub code: u8,
    pub name: &'static str,
    pub count: usize,
}

/// A catalog as the front end shows it.
#[derive(Debug, Clone, PartialEq, Eq)]
pub struct CatalogDto {
    /// Where the pets came from.
    pub source: String,
    pub count: usize,
    pub pets: Vec<PetDto>,
    /// The race tabs in the order of the pet window.
    pub races: Vec<RaceDto>,
}

fn race_count(pets: &Vec<Pet>, code: u8) -> (n: usize)
    ensures
        n == with_race(pets@, code, pets@.len() as int).len(),
{
    let mut n: usize = 0;
    let mut i: usize = 0;
    while i < pets.len()
        invariant
            0 <= i <= pets@.len(),
            n == with_race(pets@, code, i as int).len(),
            n <= i,
        decreases pets@.len() - i,
    {
        if pets[i].race == code {
            n = n + 1;
        }
        i = i + 1;
    }
    n
}

impl CatalogDto {
    /// The catalog with every pet shown and the pets counted per race tab.
    /// `self` shows the pets `pets` of the table named `source`, counted
    /// per race tab.
    pub open spec fn describes(self, pets: Seq<Pet>, source: Seq<char>) -> bool {
        &&& self.source@ == source
        &&& self.count == pets.len()
        &&& self.pets@.len() == pets.len()
        &&& forall|i: int| 0 <= i < self.pets@.len() ==> (#[trigger] self.pets@[i]).shows(pets[i])
        &&& self.races@.len() == 10
        &&& forall|k: int| 0 <= k < 10 ==> {
            &&& (#[trigger] self.races@[k]).code == RACE_TAB_ORDER[k]
            &&& self.races@[k].name@ == spec_race_name(RACE_TAB_ORDER[k] as int)
            &&& self.races@[k].count == with_race(pets, RACE_TAB_ORDER[k], pets.len() as int).len()
        }
    }

    pub fn of(c: &Catalog) -> (d: Self)
        ensures
            d.describes(c.pets@, c.source@),
    {
        let mut races: Vec<RaceDto> = Vec::new();
        let mut k: usize = 0;
        while k < 10
            invariant
                0 <= k <= 10,
                races@.len() == k,
                forall|j: int| 0 <= j < k ==> {
                    &&& (#[trigger] races@[j]).code == RACE_TAB_ORDER[j]
                    &&& races@[j].name@ == spec_race_name(RACE_TAB_ORDER[j] as int)
                    &&& races@[j].count == with_race(c.pets@, RACE_TAB_ORDER[j], c.pets@.len() as int).len()
                },
            decreases 10 - k,
        {
            let code = RACE_TAB_ORDER[k];
            races.push(RaceDto { code, name: race_name(code), count: race_count(&c.pets, code) });
            k = k + 1;
        }
        let mut pets: Vec<PetDto> = Vec::new();
        let mut i: usize = 0;
        while i < c.pets.len()
            invariant
                0 <= i <= c.pets@.len(),
                pets@.len() == i,
                forall|j: int| 0 <= j < i ==> (#[trigger] pets@[j]).shows(c.pets@[j]),
            decreases c.pets@.len() - i,
        {
            pets.push(PetDto::of(&c.pets[i]));
            i = i + 1;
        }
        CatalogDto { source: c.source.clone(), count: c.pets.len(), pets, races }
    }
}

// ── searching the catalog by stats ───────────────────────────────────────

/// Find the pets that can reach floors on their stats at a level.
#[derive(Debug, Clone, Copy, PartialEq, Eq)]
pub struct SearchReq {
    /// Target level; must be above 1 and at most `MAX_LEVEL`.
    pub lvl: i32,
    /// Floors on hp mp atk def agi wis res; 0 means none.
    pub floor: [i64; 7],
    /// Fewest skill slots; 0 means any.
    pub skills: i32,
    /// 0 means any; `1..=4` asks for some earth, water, fire or wind.
    pub element: usize,
    /// Random tiers assumed; `None` means [`DEFAULT_RANDOM`].
    pub random: Option<[i32; 5]>,
    /// Most hits returned; 0 means all.
    pub limit: usize,
}

/// A pet that can reach the floors.
#[derive(Debug, Clone, PartialEq, Eq)]
pub struct SearchHit {
    pub pet: PetDto,
    /// Its stats at the level with no point spent.
    pub stat: StatDto,
    /// Points needed to reach every floor, rounded up.
    pub needed: i32,
    /// Points left to spend after that.
    pub spare: i32,
}

/// The answer to a search.
#[derive(Debug, Clone, PartialEq, Eq)]
pub struct SearchResp {
    /// Points available at the level.
    pub available: i32,
    /// How many pets hit.
    pub total: usize,
    pub truncated: bool,
    /// Most spare points first, then by name.
    pub hits: Vec<SearchHit>,
}

pub open spec fn pet_grow(p: Pet) -> GrowRange {
    GrowRange { hp: p.grow[0], atk: p.grow[1], def: p.grow[2], agi: p.grow[3], mp: p.grow[4], bprate: p.bprate }
}

/// Whole points needed for `units` (rounded up).
pub open spec fn whole_points(units: int) -> int {
    (units + NEED_SCALE - 1) / (NEED_SCALE as int)
}

impl SearchReq {
    pub open spec fn query(self) -> Query {
        Query {
            lvl: self.lvl,
            floor: self.floor,
            random: match self.random {
                Some(r) => r,
                None => [2i32, 2i32, 2i32, 2i32, 2i32],
            },
        }
    }

    /// The skill and element filters, read straight off the catalog.
    pub open spec fn spec_passes(self, p: Pet) -> bool {
        &&& (self.skills > 0 ==> match p.skills {
            Some(k) => k >= self.skills,
            None => 0 >= self.skills,
        })
        &&& (self.element > 0 ==> match p.element {
            Some(e) => self.element <= 4 && e[self.element - 1] > 0,
            None => false,
        })
    }

    pub open spec fn base_of(self, p: Pet) -> crate::bp::Stat {
        query_bp(pet_grow(p), eff_lvl(self.lvl as int), self.query().random).spec_calc()
    }

    pub open spec fn units_of(self, p: Pet) -> int {
        spec_points_needed(self.base_of(p), self.floor)
    }

    pub open spec fn available(self) -> int {
        eff_lvl(self.lvl as int) - 1
    }

    /// The pet passes the filters and can reach every floor.
    pub open spec fn spec_hits(self, p: Pet) -> bool {
        self.spec_passes(p) && self.units_of(p) <= self.available() * NEED_SCALE
    }

    pub open spec fn spare_of(self, p: Pet) -> int {
        self.available() - whole_points(self.units_of(p))
    }

    /// Positions of the pets among the first `n` that hit, in order.
    pub open spec fn hit_positions(self, pets: Seq<Pet>, n: int) -> Seq<int>
        decreases n,
    {
        if n <= 0 {
            Seq::empty()
        } else if self.spec_hits(pets[n - 1]) {
            self.hit_positions(pets, n - 1).push(n - 1)
        } else {
            self.hit_positions(pets, n - 1)
        }
    }

    /// With hits at positions `pos`, hit `a` is listed before hit `b`: more
    /// spare points first, then by name, then in catalog order.
    pub open spec fn listed_before(self, pets: Seq<Pet>, pos: Seq<int>, a: int, b: int) -> bool {
        let pa = pets[pos[a]];
        let pb = pets[pos[b]];
        ||| self.spare_of(pa) > self.spare_of(pb)
        ||| self.spare_of(pa) == self.spare_of(pb) && chars_lt(pa.name@, pb.name@)
        ||| self.spare_of(pa) == self.spare_of(pb) && pa.name@ == pb.name@ && a < b
    }

    /// `h` describes the hit of pet `p`.
    pub open spec fn describes(self, h: SearchHit, p: Pet) -> bool {
        &&& h.pet.shows(p)
        &&& h.stat == StatDto::spec_of(self.base_of(p))
        &&& h.needed == whole_points(self.units_of(p))
        &&& h.spare == self.spare_of(p)
    }

    /// Skill slots and element, straight off the catalog.
    fn passes_filters(&self, pet: &Pet) -> (r: bool)
        ensures
            r == self.spec_passes(*pet),
    {
        if self.skills > 0 {
            let have = match pet.skills {
                Some(k) => k,
                None => 0,
            };
            if have < self.skills {
                return false;
            }
        }
        if self.element > 0 {
            match pet.element {
                Some(e) => {
                    if self.element > 4 || e[self.element - 1] <= 0 {
                        return false;
                    }
                },
                None => {
                    return false;
                },
            }
        }
        true
    }
}

proof fn lemma_hit_positions(req: SearchReq, pets: Seq<Pet>, n: int)
    requires
        0 <= n <= pets.len(),
    ensures
        forall|k: int| 0 <= k < req.hit_positions(pets, n).len() ==> 0 <= #[trigger] req.hit_positions(pets, n)[k] < n
            && req.spec_hits(pets[req.hit_positions(pets, n)[k]]),
        forall|k: int, l: int| 0 <= k < l < req.hit_positions(pets, n).len() ==> #[trigger] req.hit_positions(pets, n)[k] < #[trigger] req.hit_positions(pets, n)[l],
    decreases n,
{
    if n > 0 {
        lemma_hit_positions(req, pets, n - 1);
        let prev = req.hit_positions(pets, n - 1);
        if req.spec_hits(pets[n - 1]) {
            let cur = prev.push(n - 1);
            assert(req.hit_positions(pets, n) == cur);
            assert forall|k: int| 0 <= k < cur.len() implies 0 <= #[trigger] cur[k] < n && req.spec_hits(pets[cur[k]]) by {
                if k < prev.len() {
                    assert(cur[k] == prev[k]);
                }
            }
            assert forall|k: int, l: int| 0 <= k < l < cur.len() implies #[trigger] cur[k] < #[trigger] cur[l] by {
                assert(cur[k] == prev[k]);
                if l < prev.len() {
                    assert(cur[l] == prev[l]);
                }
            }
        }
    }
}

proof fn lemma_listed_order(req: SearchReq, pets: Seq<Pet>, pos: Seq<int>)
    requires
        forall|k: int| 0 <= k < pos.len() ==> 0 <= #[trigger] pos[k] < pets.len(),
    ensures
        forall|a: int, b: int, c: int| 0 <= a < pos.len() && 0 <= b < pos.len() && 0 <= c < pos.len()
            && #[trigger] req.listed_before(pets, pos, a, b) && #[trigger] req.listed_before(pets, pos, b, c)
            ==> req.listed_before(pets, pos, a, c),
        forall|a: int, b: int| 0 <= a < pos.len() && 0 <= b < pos.len() && a != b
            ==> #[trigger] req.listed_before(pets, pos, a, b) || #[trigger] req.listed_before(pets, pos, b, a),
        forall|a: int| 0 <= a < pos.len() ==> !#[trigger] req.listed_before(pets, pos, a, a),
        forall|a: int, b: int| 0 <= a < pos.len() && 0 <= b < pos.len() && #[trigger] req.listed_before(pets, pos, a, b)
            ==> !#[trigger] req.listed_before(pets, pos, b, a),
{
    assert forall|a: int, b: int, c: int| 0 <= a < pos.len() && 0 <= b < pos.len() && 0 <= c < pos.len()
        && #[trigger] req.listed_before(pets, pos, a, b) && #[trigger] req.listed_before(pets, pos, b, c)
        implies req.listed_before(pets, pos, a, c) by {
        let na = pets[pos[a]].name@;
        let nb = pets[pos[b]].name@;
        let nc = pets[pos[c]].name@;
        if chars_lt(na, nb) && chars_lt(nb, nc) {
            lemma_chars_lt_trans(na, nb, nc);
        }
    }
    assert forall|a: int, b: int| 0 <= a < pos.len() && 0 <= b < pos.len() && a != b
        implies #[trigger] req.listed_before(pets, pos, a, b) || #[trigger] req.listed_before(pets, pos, b, a) by {
        lemma_chars_lt_total(pets[pos[a]].name@, pets[pos[b]].name@);
    }
    assert forall|a: int| 0 <= a < pos.len() implies !#[trigger] req.listed_before(pets, pos, a, a) by {
        lemma_chars_lt_irreflexive(pets[pos[a]].name@);
    }
    assert forall|a: int, b: int| 0 <= a < pos.len() && 0 <= b < pos.len() && #[trigger] req.listed_before(pets, pos, a, b)
        implies !#[trigger] req.listed_before(pets, pos, b, a) by {
        let na = pets[pos[a]].name@;
        let nb = pets[pos[b]].name@;
        if chars_lt(na, nb) {
            lemma_chars_lt_asym(na, nb);
        }
        if chars_lt(nb, na) {
            lemma_chars_lt_asym(nb, na);
        }
        lemma_chars_lt_irreflexive(na);
    }
}

/// `order` lists the first `k` hits (positions into `pos`) in listing order.
pub open spec fn listed_top(req: SearchReq, pets: Seq<Pet>, pos: Seq<int>, order: Seq<usize>, k: int) -> bool {
    &&& order.len() == k
    &&& forall|a: int| 0 <= a < k ==> #[trigger] order[a] < pos.len()
    &&& forall|a: int, b: int| 0 <= a < b < k ==> req.listed_before(pets, pos, #[trigger] order[a] as int, #[trigger] order[b] as int)
    &&& forall|j: int, a: int| 0 <= j < pos.len() && !order.contains(j as usize) && 0 <= a < k
        ==> #[trigger] req.listed_before(pets, pos, order[a] as int, j)
}

/// The key facts of a hit list: per position, spare points and name.
pub open spec fn keys_of(req: SearchReq, pets: Seq<Pet>, pos: Seq<int>, spares: Seq<i64>, names: Seq<Vec<char>>) -> bool {
    &&& spares.len() == pos.len()
    &&& names.len() == pos.len()
    &&& forall|k: int| 0 <= k < pos.len() ==> 0 <= #[trigger] pos[k] < pets.len()
    &&& forall|k: int| 0 <= k < pos.len() ==> #[trigger] spares[k] == req.spare_of(pets[pos[k]])
    &&& forall|k: int| 0 <= k < pos.len() ==> #[trigger] names[k]@ == pets[pos[k]].name@
}

fn listed_first(Ghost(req): Ghost<SearchReq>, Ghost(pets): Ghost<Seq<Pet>>, Ghost(pos): Ghost<Seq<int>>,
    spares: &Vec<i64>, names: &Vec<Vec<char>>, a: usize, b: usize) -> (r: bool)
    requires
        keys_of(req, pets, pos, spares@, names@),
        a < pos.len(),
        b < pos.len(),
    ensures
        r == req.listed_before(pets, pos, a as int, b as int),
{
    let sa = spares[a];
    let sb = spares[b];
    if sa != sb {
        return sa > sb;
    }
    if chars_less(names[a].as_slice(), names[b].as_slice()) {
        return true;
    }
    chars_eq(names[a].as_slice(), names[b].as_slice()) && a < b
}

/// The first `k` hits in listing order.
fn top_listed(Ghost(req): Ghost<SearchReq>, Ghost(pets): Ghost<Seq<Pet>>, Ghost(pos): Ghost<Seq<int>>,
    spares: &Vec<i64>, names: &Vec<Vec<char>>, k: usize) -> (order: Vec<usize>)
    requires
        keys_of(req, pets, pos, spares@, names@),
        k <= pos.len(),
    ensures
        listed_top(req, pets, pos, order@, k as int),
{
    proof {
        lemma_listed_order(req, pets, pos);
    }
    let n = spares.len();
    let mut taken: Vec<bool> = Vec::new();
    let mut i: usize = 0;
    while i < n
        invariant
            0 <= i <= n,
            taken@.len() == i,
            forall|j: int| 0 <= j < i ==> !#[trigger] taken@[j],
        decreases n - i,
    {
        taken.push(false);
        i = i + 1;
    }
    proof {
        lemma_count_free_all(taken@, n as int);
    }
    let mut order: Vec<usize> = Vec::new();
    while order.len() < k
        invariant
            n == pos.len(),
            keys_of(req, pets, pos, spares@, names@),
            k <= n,
            taken@.len() == n,
            order@.len() <= k,
            count_free(taken@, n as int) == n - order@.len(),
            forall|j: int| 0 <= j < n ==> (#[trigger] taken@[j] <==> order@.contains(j as usize)),
            forall|a: int| 0 <= a < order@.len() ==> #[trigger] order@[a] < n,
            forall|a: int, b: int| 0 <= a < b < order@.len() ==> req.listed_before(pets, pos, #[trigger] order@[a] as int, #[trigger] order@[b] as int),
            forall|j: int, a: int| 0 <= j < n && !taken@[j] && 0 <= a < order@.len() ==> #[trigger] req.listed_before(pets, pos, order@[a] as int, j),
            forall|a: int, b: int, c: int| 0 <= a < pos.len() && 0 <= b < pos.len() && 0 <= c < pos.len()
                && #[trigger] req.listed_before(pets, pos, a, b) && #[trigger] req.listed_before(pets, pos, b, c)
                ==> req.listed_before(pets, pos, a, c),
            forall|a: int, b: int| 0 <= a < pos.len() && 0 <= b < pos.len() && a != b
                ==> #[trigger] req.listed_before(pets, pos, a, b) || #[trigger] req.listed_before(pets, pos, b, a),
            forall|a: int, b: int| 0 <= a < pos.len() && 0 <= b < pos.len() && #[trigger] req.listed_before(pets, pos, a, b)
                ==> !#[trigger] req.listed_before(pets, pos, b, a),
        decreases k - order@.len(),
    {
        proof {
            lemma_count_free_pos(taken@, n as int);
        }
        let mut best: usize = n;
        let mut j: usize = 0;
        while j < n
            invariant
                n == pos.len(),
                keys_of(req, pets, pos, spares@, names@),
                taken@.len() == n,
                0 <= j <= n,
                best == n || (best < j && !taken@[best as int]),
                best == n ==> forall|m: int| 0 <= m < j ==> #[trigger] taken@[m],
                best < n ==> forall|m: int| 0 <= m < j && !taken@[m] && m != best ==> #[trigger] req.listed_before(pets, pos, best as int, m),
                forall|a: int, b: int, c: int| 0 <= a < pos.len() && 0 <= b < pos.len() && 0 <= c < pos.len()
                    && #[trigger] req.listed_before(pets, pos, a, b) && #[trigger] req.listed_before(pets, pos, b, c)
                    ==> req.listed_before(pets, pos, a, c),
                forall|a: int, b: int| 0 <= a < pos.len() && 0 <= b < pos.len() && a != b
                    ==> #[trigger] req.listed_before(pets, pos, a, b) || #[trigger] req.listed_before(pets, pos, b, a),
                forall|a: int, b: int| 0 <= a < pos.len() && 0 <= b < pos.len() && #[trigger] req.listed_before(pets, pos, a, b)
                    ==> !#[trigger] req.listed_before(pets, pos, b, a),
            decreases n - j,
        {
            if !taken[j] && (best == n || listed_first(Ghost(req), Ghost(pets), Ghost(pos), spares, names, j, best)) {
                proof {
                    if best < n {
                        assert forall|m: int| 0 <= m < j + 1 && !taken@[m] && m != j implies #[trigger] req.listed_before(pets, pos, j as int, m) by {
                            if m != best {
                                assert(req.listed_before(pets, pos, best as int, m));
                            }
                        }
                    }
                }
                best = j;
            } else {
                proof {
                    if best < n && !taken@[j as int] {
                        assert(!req.listed_before(pets, pos, j as int, best as int));
                        assert(req.listed_before(pets, pos, best as int, j as int));
                    }
                }
            }
            j = j + 1;
        }
        assert(best < n);
        let ghost old_taken = taken@;
        let ghost old_order = order@;
        proof {
            lemma_count_free_take(taken@, n as int, best as int);
        }
        taken.set(best, true);
        order.push(best);
        proof {
            assert forall|x: int| 0 <= x < n implies (#[trigger] taken@[x] <==> order@.contains(x as usize)) by {
                if x == best {
                    assert(order@[order@.len() - 1] == best);
                } else {
                    if old_order.contains(x as usize) {
                        let y = choose|y: int| 0 <= y < old_order.len() && old_order[y] == x as usize;
                        assert(order@[y] == x as usize);
                    }
                    if order@.contains(x as usize) {
                        let y = choose|y: int| 0 <= y < order@.len() && order@[y] == x as usize;
                        assert(old_order[y] == x as usize);
                    }
                }
            }
            assert forall|a: int, b: int| 0 <= a < b < order@.len() implies req.listed_before(pets, pos, #[trigger] order@[a] as int, #[trigger] order@[b] as int) by {
                if b == order@.len() - 1 {
                    assert(!old_taken[best as int]);
                    assert(order@[a] == old_order[a]);
                } else {
                    assert(order@[a] == old_order[a]);
                    assert(order@[b] == old_order[b]);
                }
            }
            assert forall|x: int, a: int| 0 <= x < n && !taken@[x] && 0 <= a < order@.len() implies #[trigger] req.listed_before(pets, pos, order@[a] as int, x) by {
                assert(x != best);
                assert(!old_taken[x]);
                if a == order@.len() - 1 {
                } else {
                    assert(order@[a] == old_order[a]);
                }
            }
        }
    }
    proof {
        assert forall|x: int, a: int| 0 <= x < n && !order@.contains(x as usize) && 0 <= a < k implies #[trigger] req.listed_before(pets, pos, order@[a] as int, x) by {
            assert(!taken@[x]);
        }
    }
    order
}

impl SearchReq {
    /// Search a catalog: the pets that pass the filters and can reach every
    /// floor, most spare points first, then by name, at most `limit` of them.
    /// `r` answers this search over `pets`: the points available, how many
    /// pets reach the floors, and the first `limit` of them (all when 0) in
    /// listing order.
    pub open spec fn answered_by(self, r: SearchResp, pets: Seq<Pet>) -> bool {
        let pos = self.hit_positions(pets, pets.len() as int);
        &&& r.available == self.available()
        &&& r.total == pos.len()
        &&& r.truncated == (self.limit > 0 && pos.len() > self.limit)
        &&& r.hits@.len() == if r.truncated { self.limit as int } else { pos.len() as int }
        &&& exists|order: Seq<usize>| #[trigger] listed_top(self, pets, pos, order, r.hits@.len() as int)
            && forall|a: int| 0 <= a < order.len() ==> self.describes(#[trigger] r.hits@[a], pets[pos[order[a] as int]])
    }

    pub fn run(&self, catalog: &Catalog) -> (r: SearchResp)
        ensures
            self.answered_by(r, catalog.pets@),
    {
        let random = match self.random {
            Some(r) => r,
            None => DEFAULT_RANDOM,
        };
        let query = Query { lvl: self.lvl, floor: self.floor, random };
        assert(query == self.query());
        let available = query.available_points();
        let ghost pets = catalog.pets@;
        let n = catalog.pets.len();
        let mut pos: Vec<usize> = Vec::new();
        let mut spares: Vec<i64> = Vec::new();
        let mut names: Vec<Vec<char>> = Vec::new();
        let mut i: usize = 0;
        while i < n
            invariant
                0 <= i <= n,
                n == pets.len(),
                pets == catalog.pets@,
                query == self.query(),
                available == self.available(),
                pos@.len() == self.hit_positions(pets, i as int).len(),
                forall|k: int| 0 <= k < pos@.len() ==> #[trigger] pos@[k] as int == self.hit_positions(pets, i as int)[k],
                keys_of(*self, pets, self.hit_positions(pets, i as int), spares@, names@),
            decreases n - i,
        {
            proof {
                lemma_hit_positions(*self, pets, i as int);
            }
            let p = &catalog.pets[i];
            if self.passes_filters(p) {
                let g = GrowRange::from_array(p.grow, p.bprate);
                assert(g == pet_grow(*p));
                let v = query.evaluate(g);
                if v.hit() {
                    assert(self.spec_hits(*p));
                    let whole = (v.needed + 10799) / 10800;
                    assert(whole == whole_points(self.units_of(*p)));
                    assert(whole <= available) by {
                        assert(v.needed <= available * 10800);
                    }
                    let spare: i64 = available as i64 - whole as i64;
                    let ghost before = self.hit_positions(pets, i as int);
                    pos.push(i);
                    spares.push(spare);
                    names.push(chars_of(p.name.as_str()));
                    proof {
                        let after = self.hit_positions(pets, i + 1);
                        assert(after == before.push(i as int));
                        assert forall|k: int| 0 <= k < pos@.len() implies #[trigger] pos@[k] as int == after[k] by {
                            if k < before.len() {
                                assert(after[k] == before[k]);
                            }
                        }
                        assert forall|k: int| 0 <= k < after.len() implies #[trigger] spares@[k] == self.spare_of(pets[after[k]]) by {
                            if k < before.len() {
                                assert(after[k] == before[k]);
                            }
                        }
                        assert forall|k: int| 0 <= k < after.len() implies #[trigger] names@[k]@ == pets[after[k]].name@ by {
                            if k < before.len() {
                                assert(after[k] == before[k]);
                            }
                        }
                        assert forall|k: int| 0 <= k < after.len() implies 0 <= #[trigger] after[k] < pets.len() by {
                            if k < before.len() {
                                assert(after[k] == before[k]);
                            }
                        }
                    }
                } else {
                    assert(!self.spec_hits(*p));
                }
            } else {
                assert(!self.spec_hits(*p));
            }
            i = i + 1;
        }
        let ghost hp = self.hit_positions(pets, n as int);
        let total = pos.len();
        let truncated = self.limit > 0 && total > self.limit;
        let k = if truncated { self.limit } else { total };
        let order = top_listed(Ghost(*self), Ghost(pets), Ghost(hp), &spares, &names, k);
        let mut hits: Vec<SearchHit> = Vec::new();
        let mut a: usize = 0;
        while a < k
            invariant
                0 <= a <= k,
                k <= total,
                total == hp.len(),
                pets == catalog.pets@,
                query == self.query(),
                available == self.available(),
                pos@.len() == hp.len(),
                forall|x: int| 0 <= x < pos@.len() ==> #[trigger] pos@[x] as int == hp[x],
                keys_of(*self, pets, hp, spares@, names@),
                listed_top(*self, pets, hp, order@, k as int),
                hp == self.hit_positions(pets, pets.len() as int),
                hits@.len() == a,
                forall|b: int| 0 <= b < a ==> self.describes(#[trigger] hits@[b], pets[hp[order@[b] as int]]),
            decreases k - a,
        {
            let oa = order[a];
            assert(oa < pos@.len());
            let at = pos[oa];
            proof {
                lemma_hit_positions(*self, pets, pets.len() as int);
                assert(at as int == hp[oa as int]);
                assert(self.spec_hits(pets[hp[oa as int]]));
            }
            let p = &catalog.pets[at];
            let g = GrowRange::from_array(p.grow, p.bprate);
            assert(g == pet_grow(*p));
            let v = query.evaluate(g);
            let whole = (v.needed + 10799) / 10800;
            assert(v.needed <= available * 10800);
            let needed = whole as i32;
            let hit = SearchHit { pet: PetDto::of(p), stat: StatDto::of(v.base), needed, spare: available - needed };
            hits.push(hit);
            a = a + 1;
        }
        let r = SearchResp { available, total, truncated, hits };
        proof {
            assert(listed_top(*self, pets, hp, order@, r.hits@.len() as int));
            assert(forall|b: int| 0 <= b < order@.len() ==> self.describes(#[trigger] r.hits@[b], pets[hp[order@[b] as int]]));
        }
        r
    }
}

// ── constants for the front end ──────────────────────────────────────────

/// A calculation-mode button: the key sent back, the label, and whether the
/// side panel's spending plan applies.
#[derive(Debug, Clone, Copy, PartialEq, Eq)]
pub struct CalcModeInfo {
    pub key: CalcMode,
    pub label: &'static str,
    pub takes_manual_plan: bool,
}

impl CalcModeInfo {
    pub fn new(key: CalcMode, label: &'static str, takes_manual_plan: bool) -> (c: Self)
        ensures
            c == (CalcModeInfo { key, label, takes_manual_plan }),
    {
        CalcModeInfo { key, label, takes_manual_plan }
    }
}

/// Everything the front end needs at start-up.
#[derive(Debug, Clone, PartialEq, Eq)]
pub struct Constants {
    /// Growth rate of every tier `0..=MAX_TIER`, thousandths.
    pub full_rates: Vec<u32>,
    pub max_tier: usize,
    /// Default of the most tiers lost per axis.
    pub max_lost_per_axis: i32,
    /// How far the most tiers lost per axis may be raised.
    pub max_loss_bound: i32,
    pub random_pool: i32,
    /// Hundredths.
    pub default_bprate: i32,
    pub default_random: [i32; 5],
    /// Bounds of the adaptive tolerance, thousandths.
    pub tol_min: i32,
    pub tol_max: i32,
    /// A share within this many hundredths of a percentage point counts as equal.
    pub percent_epsilon_hundredths: i32,
    /// Axis names, `[HP, ATK, DEF, AGI, MP]`.
    pub axis_names: [&'static str; 5],
    /// Stat names in the order of [`StatDto`].
    pub stat_names: [&'static str; 7],
    /// Race names indexed by code; the last is the unknown race.
    pub race_names: Vec<&'static str>,
    pub unknown_race: u8,
    /// The calculation-mode buttons in the order of the main window.
    pub calc_modes: [CalcModeInfo; 8],
}

impl Constants {
    /// The constants the front end is given: the rate table, the bounds and
    /// defaults of a guess, the race names and the calculation modes.
    pub open spec fn spec_ok(self) -> bool {
        &&& self.full_rates@.len() == crate::rates::MAX_TIER + 1
        &&& forall|i: int| 0 <= i <= crate::rates::MAX_TIER ==> Some(#[trigger] self.full_rates@[i]) == crate::rates::spec_full_rate(i)
        &&& self.max_tier == crate::rates::MAX_TIER
        &&& self.max_lost_per_axis == MAX_LOST_PER_AXIS
        &&& self.max_loss_bound == MAX_LOSS_BOUND
        &&& self.random_pool == RANDOM_POOL
        &&& self.default_bprate == crate::grow::DEFAULT_BPRATE
        &&& self.default_random == DEFAULT_RANDOM
        &&& self.tol_min == crate::tolerance::TOL_MIN
        &&& self.tol_max == crate::tolerance::TOL_MAX
        &&& self.percent_epsilon_hundredths == 1
        &&& self.axis_names[0]@ == "體力"@ && self.axis_names[1]@ == "力量"@ && self.axis_names[2]@ == "強度"@
            && self.axis_names[3]@ == "速度"@ && self.axis_names[4]@ == "魔法"@
        &&& self.stat_names[0]@ == "生命"@ && self.stat_names[1]@ == "魔力"@ && self.stat_names[2]@ == "攻擊"@
            && self.stat_names[3]@ == "防禦"@ && self.stat_names[4]@ == "敏捷"@ && self.stat_names[5]@ == "精神"@
            && self.stat_names[6]@ == "回復"@
        &&& self.race_names@.len() == crate::petdata::RACE_UNKNOWN + 1
        &&& forall|i: int| 0 <= i < self.race_names@.len() ==> (#[trigger] self.race_names@[i])@ == spec_race_name(i)
        &&& self.unknown_race == crate::petdata::RACE_UNKNOWN
        &&& forall|i: int| 0 <= i < 8 ==> (#[trigger] self.calc_modes[i]).takes_manual_plan == self.calc_modes[i].key.spec_takes_manual_plan()
        &&& self.calc_modes[0].key == CalcMode::Smart && self.calc_modes[1].key == CalcMode::Wild && self.calc_modes[2].key == CalcMode::Unspent && self.calc_modes[3].key == CalcMode::Hp && self.calc_modes[4].key == CalcMode::Atk && self.calc_modes[5].key == CalcMode::Def && self.calc_modes[6].key == CalcMode::Agi && self.calc_modes[7].key == CalcMode::Mp
        &&& self.calc_modes[0].label@ == "智"@ && self.calc_modes[1].label@ == "野"@ && self.calc_modes[2].label@ == "無"@
            && self.calc_modes[3].label@ == "體"@ && self.calc_modes[4].label@ == "力"@ && self.calc_modes[5].label@ == "防"@
            && self.calc_modes[6].label@ == "敏"@ && self.calc_modes[7].label@ == "魔"@
    }

    pub fn get() -> (c: Self)
        ensures
            c.spec_ok(),
            forall|i: int, j: int| 0 <= i < j < 8 ==> c.calc_modes[i].key != c.calc_modes[j].key,
    {
        let mut race_names: Vec<&'static str> = Vec::new();
        let mut r: u8 = 0;
        while r <= crate::petdata::RACE_UNKNOWN
            invariant
                0 <= r <= crate::petdata::RACE_UNKNOWN + 1,
                race_names@.len() == r,
                forall|i: int| 0 <= i < r ==> (#[trigger] race_names@[i])@ == spec_race_name(i),
            decreases crate::petdata::RACE_UNKNOWN + 1 - r,
        {
            race_names.push(race_name(r));
            r = r + 1;
        }
        let calc_modes = [
            CalcModeInfo::new(CalcMode::Smart, "智", true),
            CalcModeInfo::new(CalcMode::Wild, "野", true),
            CalcModeInfo::new(CalcMode::Unspent, "無", false),
            CalcModeInfo::new(CalcMode::Hp, "體", false),
            CalcModeInfo::new(CalcMode::Atk, "力", false),
            CalcModeInfo::new(CalcMode::Def, "防", false),
            CalcModeInfo::new(CalcMode::Agi, "敏", false),
            CalcModeInfo::new(CalcMode::Mp, "魔", false),
        ];
        let c = Constants {
            full_rates: crate::rates::full_rates(),
            max_tier: crate::rates::MAX_TIER,
            max_lost_per_axis: MAX_LOST_PER_AXIS,
            max_loss_bound: MAX_LOSS_BOUND,
            random_pool: RANDOM_POOL,
            default_bprate: crate::grow::DEFAULT_BPRATE,
            default_random: DEFAULT_RANDOM,
            tol_min: crate::tolerance::TOL_MIN,
            tol_max: crate::tolerance::TOL_MAX,
            percent_epsilon_hundredths: 1,
            axis_names: ["體力", "力量", "強度", "速度", "魔法"],
            stat_names: ["生命", "魔力", "攻擊", "防禦", "敏捷", "精神", "回復"],
            race_names,
            unknown_race: crate::petdata::RACE_UNKNOWN,
            calc_modes,
        };
        assert forall|i: int| 0 <= i < 8 implies (#[trigger] c.calc_modes[i]).takes_manual_plan == c.calc_modes[i].key.spec_takes_manual_plan() by {
            if i == 0 {} else if i == 1 {} else if i == 2 {} else if i == 3 {} else if i == 4 {} else if i == 5 {} else if i == 6 {} else {}
        }
        c
    }
}

} // verus!
