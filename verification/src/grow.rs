//! Growth tiers: five integer tiers plus the ability rate give the BP at a level.
use vstd::prelude::*;
use crate::bp::{Bp, BP_LIMIT, bp_in_range};
use crate::rates::{full_rate_or_zero, spec_full_rate_or_zero, spec_rate_formula};
use crate::enumerate::{box_tuples, in_box, lex_lt5};

verus! {

/// Default ability rate, in hundredths (0.20).
pub const DEFAULT_BPRATE: i32 = 20;

/// Total points of the random tiers: the five axes always add up to 10.
pub const RANDOM_POOL: i32 = 10;

/// Default largest loss per axis.
pub const MAX_LOST_PER_AXIS: i32 = 4;

/// Guard rail on the adjustable loss bounds.
pub const MAX_LOSS_BOUND: i32 = 9;

pub open spec fn clamp(x: int, lo: int, hi: int) -> int {
    if x < lo { lo } else if x > hi { hi } else { x }
}

/// The ordered, clamped pair a user-entered `[lo, hi]` becomes.
pub open spec fn clamped_pair(lo: int, hi: int, cap: int) -> (int, int) {
    let (a, b) = if lo <= hi { (lo, hi) } else { (hi, lo) };
    (clamp(a, 0, cap), clamp(b, 0, cap))
}

fn clamp_pair(lo: i32, hi: i32, cap: i32) -> (r: [i32; 2])
    requires
        cap >= 0,
    ensures
        r[0] == clamped_pair(lo as int, hi as int, cap as int).0,
        r[1] == clamped_pair(lo as int, hi as int, cap as int).1,
        0 <= r[0] <= r[1] <= cap,
{
    let (a, b) = if lo <= hi { (lo, hi) } else { (hi, lo) };
    let ca = if a < 0 { 0 } else if a > cap { cap } else { a };
    let cb = if b < 0 { 0 } else if b > cap { cap } else { b };
    [ca, cb]
}

/// Per-axis loss range `[fewest, most]` tiers lost, axis order `[HP, ATK, DEF, AGI, MP]`.
#[derive(Debug, Clone, Copy, PartialEq, Eq)]
pub struct LossBounds([[i32; 2]; 5]);

impl LossBounds {
    #[verifier::type_invariant]
    spec fn inv(self) -> bool {
        forall|i: int| 0 <= i < 5 ==> 0 <= #[trigger] self.0[i][0] <= self.0[i][1] <= MAX_LOSS_BOUND
    }

    pub closed spec fn lo(self, i: int) -> int {
        self.0[i][0] as int
    }

    pub closed spec fn hi(self, i: int) -> int {
        self.0[i][1] as int
    }


    /// Every axis `0..=MAX_LOST_PER_AXIS`.
    pub fn default() -> (b: Self)
        ensures
            forall|i: int| 0 <= i < 5 ==> #[trigger] b.lo(i) == 0 && b.hi(i) == MAX_LOST_PER_AXIS,
    {
        LossBounds([[0, MAX_LOST_PER_AXIS]; 5])
    }

    /// Builds the bounds axis by axis: a reversed pair is swapped, both ends are
    /// clamped into `0..=MAX_LOSS_BOUND`.
    pub fn new(lo: [i32; 5], hi: [i32; 5]) -> (b: Self)
        ensures
            forall|i: int|
                0 <= i < 5 ==> #[trigger] b.lo(i) == clamped_pair(lo[i] as int, hi[i] as int, MAX_LOSS_BOUND as int).0
                    && b.hi(i) == clamped_pair(lo[i] as int, hi[i] as int, MAX_LOSS_BOUND as int).1,
    {
        let p0 = clamp_pair(lo[0], hi[0], MAX_LOSS_BOUND);
        let p1 = clamp_pair(lo[1], hi[1], MAX_LOSS_BOUND);
        let p2 = clamp_pair(lo[2], hi[2], MAX_LOSS_BOUND);
        let p3 = clamp_pair(lo[3], hi[3], MAX_LOSS_BOUND);
        let p4 = clamp_pair(lo[4], hi[4], MAX_LOSS_BOUND);
        let b = LossBounds([p0, p1, p2, p3, p4]);
        assert forall|i: int| 0 <= i < 5 implies 0 <= #[trigger] b.0[i][0] <= b.0[i][1] <= MAX_LOSS_BOUND by {}
        b
    }

    /// `[fewest, most]` of axis `axis`.
    pub fn axis(&self, axis: usize) -> (r: [i32; 2])
        requires
            axis < 5,
        ensures
            r[0] == self.lo(axis as int),
            r[1] == self.hi(axis as int),
            0 <= r[0] <= r[1] <= MAX_LOSS_BOUND,
    {
        proof { use_type_invariant(self); }
        self.0[axis]
    }

    /// Splits into `(fewest per axis, most per axis)`.
    pub fn split(&self) -> (r: ([i32; 5], [i32; 5]))
        ensures
            forall|i: int| 0 <= i < 5 ==> #[trigger] r.0[i] == self.lo(i) && r.1[i] == self.hi(i),
            forall|i: int| 0 <= i < 5 ==> 0 <= #[trigger] self.lo(i) <= self.hi(i) <= MAX_LOSS_BOUND,
    {
        proof { use_type_invariant(self); }
        let s = self.0;
        let r = ([s[0][0], s[1][0], s[2][0], s[3][0], s[4][0]], [s[0][1], s[1][1], s[2][1], s[3][1], s[4][1]]);
        assert forall|i: int| 0 <= i < 5 implies #[trigger] r.0[i] == self.lo(i) && r.1[i] == self.hi(i) by {
            if i == 0 {} else if i == 1 {} else if i == 2 {} else if i == 3 {} else {}
        }
        r
    }
}

/// Rebuilding loss bounds from what `split` hands out gives the same
/// bounds back: `LossBounds::new(b.split())` is `b`.
pub proof fn lemma_loss_bounds_rebuild(b: LossBounds, parts: ([i32; 5], [i32; 5]), back: LossBounds)
    requires
        forall|i: int| 0 <= i < 5 ==> #[trigger] parts.0[i] == b.lo(i) && parts.1[i] == b.hi(i),
        forall|i: int| 0 <= i < 5 ==> 0 <= #[trigger] b.lo(i) <= b.hi(i) <= MAX_LOSS_BOUND,
        forall|i: int|
            0 <= i < 5 ==> #[trigger] back.lo(i) == clamped_pair(parts.0[i] as int, parts.1[i] as int, MAX_LOSS_BOUND as int).0
                && back.hi(i) == clamped_pair(parts.0[i] as int, parts.1[i] as int, MAX_LOSS_BOUND as int).1,
    ensures
        back == b,
{
    assert forall|i: int| 0 <= i < 5 implies #[trigger] back.0[i] == b.0[i] by {
        assert(back.lo(i) == b.lo(i) && back.hi(i) == b.hi(i));
        assert(back.0[i] =~= b.0[i]);
    }
    assert(back.0 =~= b.0);
}

/// Per-axis range of the random tiers `[lowest, highest]`.
#[derive(Debug, Clone, Copy, PartialEq, Eq)]
pub struct RandomBounds([[i32; 2]; 5]);

impl RandomBounds {
    #[verifier::type_invariant]
    spec fn inv(self) -> bool {
        forall|i: int| 0 <= i < 5 ==> 0 <= #[trigger] self.0[i][0] <= self.0[i][1] <= RANDOM_POOL
    }

    pub closed spec fn lo(self, i: int) -> int {
        self.0[i][0] as int
    }

    pub closed spec fn hi(self, i: int) -> int {
        self.0[i][1] as int
    }


    /// Whether `v` is allowed on axis `axis`.
    pub open spec fn spec_accepts(self, axis: int, v: int) -> bool {
        self.lo(axis) <= v <= self.hi(axis)
    }

    /// Whether some tuple inside the bounds adds up to `RANDOM_POOL`.
    pub open spec fn spec_satisfiable(self) -> bool {
        self.lo(0) + self.lo(1) + self.lo(2) + self.lo(3) + self.lo(4) <= RANDOM_POOL
            <= self.hi(0) + self.hi(1) + self.hi(2) + self.hi(3) + self.hi(4)
    }

    /// Every axis `0..=RANDOM_POOL`.
    pub fn default() -> (b: Self)
        ensures
            forall|i: int| 0 <= i < 5 ==> #[trigger] b.lo(i) == 0 && b.hi(i) == RANDOM_POOL,
    {
        RandomBounds([[0, RANDOM_POOL]; 5])
    }

    /// Builds the bounds axis by axis, clamped into `0..=RANDOM_POOL`, a reversed
    /// pair swapped.
    pub fn new(lo: [i32; 5], hi: [i32; 5]) -> (b: Self)
        ensures
            forall|i: int|
                0 <= i < 5 ==> #[trigger] b.lo(i) == clamped_pair(lo[i] as int, hi[i] as int, RANDOM_POOL as int).0
                    && b.hi(i) == clamped_pair(lo[i] as int, hi[i] as int, RANDOM_POOL as int).1,
    {
        let p0 = clamp_pair(lo[0], hi[0], RANDOM_POOL);
        let p1 = clamp_pair(lo[1], hi[1], RANDOM_POOL);
        let p2 = clamp_pair(lo[2], hi[2], RANDOM_POOL);
        let p3 = clamp_pair(lo[3], hi[3], RANDOM_POOL);
        let p4 = clamp_pair(lo[4], hi[4], RANDOM_POOL);
        let b = RandomBounds([p0, p1, p2, p3, p4]);
        assert forall|i: int| 0 <= i < 5 implies 0 <= #[trigger] b.0[i][0] <= b.0[i][1] <= RANDOM_POOL by {}
        b
    }

    /// `[lowest, highest]` of axis `axis`.
    pub fn axis(&self, axis: usize) -> (r: [i32; 2])
        requires
            axis < 5,
        ensures
            r[0] == self.lo(axis as int),
            r[1] == self.hi(axis as int),
            0 <= r[0] <= r[1] <= RANDOM_POOL,
    {
        proof { use_type_invariant(self); }
        self.0[axis]
    }

    /// Whether some tuple inside the bounds adds up to `RANDOM_POOL`.
    pub fn is_satisfiable(&self) -> (r: bool)
        ensures
            r == self.spec_satisfiable(),
    {
        proof {
            use_type_invariant(self);
        }
        let s = self.0;
        let lo = s[0][0] + s[1][0] + s[2][0] + s[3][0] + s[4][0];
        let hi = s[0][1] + s[1][1] + s[2][1] + s[3][1] + s[4][1];
        lo <= RANDOM_POOL && RANDOM_POOL <= hi
    }

    /// Whether axis `axis` may take the value `v`.
    pub fn accepts(&self, axis: usize, v: i32) -> (r: bool)
        requires
            axis < 5,
        ensures
            r == self.spec_accepts(axis as int, v as int),
    {
        self.0[axis][0] <= v && v <= self.0[axis][1]
    }
}

/// A pet's five growth tiers and its ability rate (hundredths).
#[derive(Debug, Clone, Copy, PartialEq, Eq)]
pub struct GrowRange {
    pub hp: i32,
    pub atk: i32,
    pub def: i32,
    pub agi: i32,
    pub mp: i32,
    pub bprate: i32,
}

/// BP of a pet at a level.
#[derive(Debug, Clone, Copy, PartialEq, Eq)]
pub struct BpAtLevel {
    /// BP without random tiers or spent points, thousandths.
    pub base_bp: Bp,
    /// `sum(base_bp) + 10 * bprate`, thousandths.
    pub sum_base_bp: i128,
    /// `sum_base_bp + level points`, thousandths.
    pub sum_full_bp: i128,
}

/// Base BP of one axis at a level, thousandths: `tier * bprate + rate(tier) * (lvl - 1)`.
pub open spec fn spec_axis_base(tier: int, bprate: int, lvl: int) -> int {
    tier * bprate * 10 + spec_full_rate_or_zero(tier) * (lvl - 1)
}

pub proof fn lemma_axis_base_bound(tier: int, bprate: int, lvl: int)
    requires
        i32::MIN <= tier <= i32::MAX,
        i32::MIN <= bprate <= i32::MAX,
        i32::MIN <= lvl <= i32::MAX,
    ensures
        -0x1_0000_0000_0000_0000_0 <= spec_axis_base(tier, bprate, lvl) <= 0x1_0000_0000_0000_0000_0,
{
    let r = spec_full_rate_or_zero(tier);
    assert(0 <= r <= 4615) by {
        if 0 <= tier <= 110 {
            assert(spec_rate_formula(tier as nat) <= 4615) by (nonlinear_arith)
                requires 0 <= tier <= 110;
        }
    }
    assert(-0x8000_0000_0000_0000_0 <= tier * bprate * 10 <= 0x8000_0000_0000_0000_0) by (nonlinear_arith)
        requires
            i32::MIN <= tier <= i32::MAX,
            i32::MIN <= bprate <= i32::MAX,
    ;
    assert(-0x1_0000_0000_0000 <= r * (lvl - 1) <= 0x1_0000_0000_0000) by (nonlinear_arith)
        requires
            0 <= r <= 4615,
            i32::MIN <= lvl <= i32::MAX,
    ;
}

/// Base BP of one axis at a level, thousandths.
pub fn axis_base(tier: i32, bprate: i32, lvl: i32) -> (b: i128)
    ensures
        b == spec_axis_base(tier as int, bprate as int, lvl as int),
        -0x1_0000_0000_0000_0000_0 <= b <= 0x1_0000_0000_0000_0000_0,
{
    proof {
        lemma_axis_base_bound(tier as int, bprate as int, lvl as int);
    }
    let r = full_rate_or_zero(tier) as i128;
    assert(0 <= r <= 4615) by {
        if 0 <= tier <= 110 {
            assert(spec_rate_formula(tier as nat) <= 4615) by (nonlinear_arith)
                requires 0 <= tier <= 110;
        }
    }
    assert(-0x4000_0000_0000_0000 <= (tier as int) * (bprate as int) <= 0x4000_0000_0000_0000) by (nonlinear_arith)
        requires
            i32::MIN <= tier <= i32::MAX,
            i32::MIN <= bprate <= i32::MAX,
    ;
    let a: i128 = tier as i128 * bprate as i128;
    let l: i128 = lvl as i128 - 1;
    assert(-0x1_0000_0000_0000 <= (r as int) * (l as int) <= 0x1_0000_0000_0000) by (nonlinear_arith)
        requires
            0 <= r <= 4615,
            i32::MIN - 1 <= l <= i32::MAX,
    ;
    let g: i128 = r * l;
    a * 10 + g
}

/// `tier - fewest`, but no lower than -1 (no tier is negative anyway).
fn high_end(tier: i32, fewest: i32) -> (r: i64)
    requires
        0 <= fewest,
    ensures
        r == if tier - fewest < -1 { -1 } else { tier - fewest },
        -1 <= r <= i32::MAX,
{
    let h: i64 = tier as i64 - fewest as i64;
    if h < -1 { -1 } else { h }
}

fn low_end(tier: i32, most: i32) -> (r: i64)
    ensures
        r == if tier - most < 0 { 0 } else { tier - most },
{
    let l: i64 = tier as i64 - most as i64;
    if l < 0 { 0 } else { l }
}

impl GrowRange {
    /// Tiers in axis order `[HP, ATK, DEF, AGI, MP]`.
    pub open spec fn tiers(self) -> [i32; 5] {
        [self.hp, self.atk, self.def, self.agi, self.mp]
    }

    pub open spec fn spec_sum(self) -> int {
        self.hp + self.atk + self.def + self.agi + self.mp
    }

    /// Per axis `self <= other`: these tiers could be `other` after losing some.
    pub open spec fn spec_contains(self, other: GrowRange) -> bool {
        &&& self.hp <= other.hp
        &&& self.atk <= other.atk
        &&& self.def <= other.def
        &&& self.agi <= other.agi
        &&& self.mp <= other.mp
    }

    /// Base BP of axis `i` at level `lvl`.
    pub open spec fn spec_base(self, i: int, lvl: int) -> int {
        spec_axis_base(self.tiers()[i] as int, self.bprate as int, lvl)
    }

    pub fn new(hp: i32, atk: i32, def: i32, agi: i32, mp: i32, bprate: i32) -> (g: Self)
        ensures
            g == (GrowRange { hp, atk, def, agi, mp, bprate }),
    {
        GrowRange { hp, atk, def, agi, mp, bprate }
    }

    pub fn to_array(self) -> (a: [i32; 5])
        ensures
            a == self.tiers(),
    {
        [self.hp, self.atk, self.def, self.agi, self.mp]
    }

    pub fn from_array(a: [i32; 5], bprate: i32) -> (g: Self)
        ensures
            g.tiers() == a,
            g.bprate == bprate,
    {
        GrowRange { hp: a[0], atk: a[1], def: a[2], agi: a[3], mp: a[4], bprate }
    }

    /// Sum of the five tiers.
    pub fn sum(self) -> (s: i32)
        requires
            i32::MIN <= self.spec_sum() <= i32::MAX,
        ensures
            s == self.spec_sum(),
    {
        let s: i64 = self.hp as i64 + self.atk as i64 + self.def as i64 + self.agi as i64 + self.mp as i64;
        s as i32
    }

    /// Per axis `self <= other`. Callers ask `candidate.contains(catalog)`.
    pub fn contains(self, other: GrowRange) -> (r: bool)
        ensures
            r == self.spec_contains(other),
    {
        self.hp <= other.hp && self.atk <= other.atk && self.def <= other.def && self.agi
            <= other.agi && self.mp <= other.mp
    }

    /// BP at a level. `lvlpoint` is the number of level points spent; `None`
    /// means all `lvl - 1` of them.
    pub fn calc_bp_at_level(self, lvl: i32, lvlpoint: Option<i32>) -> (r: BpAtLevel)
        ensures
            forall|i: int| 0 <= i < 5 ==> #[trigger] r.base_bp.arr()[i] == self.spec_base(i, lvl as int),
            r.sum_base_bp == self.spec_base(0, lvl as int) + self.spec_base(1, lvl as int)
                + self.spec_base(2, lvl as int) + self.spec_base(3, lvl as int)
                + self.spec_base(4, lvl as int) + 100 * self.bprate,
            r.sum_full_bp == r.sum_base_bp + 1000 * match lvlpoint {
                Some(p) => p as int,
                None => lvl - 1,
            },
            r.base_bp.in_range(),
    {
        let t = self.to_array();
        let b0 = axis_base(t[0], self.bprate, lvl);
        let b1 = axis_base(t[1], self.bprate, lvl);
        let b2 = axis_base(t[2], self.bprate, lvl);
        let b3 = axis_base(t[3], self.bprate, lvl);
        let b4 = axis_base(t[4], self.bprate, lvl);
        let base_bp = Bp::new(b0, b1, b2, b3, b4);
        let sum_base_bp = b0 + b1 + b2 + b3 + b4 + 100 * (self.bprate as i128);
        let lp: i128 = match lvlpoint {
            Some(p) => p as i128,
            None => lvl as i128 - 1,
        };
        let r = BpAtLevel { base_bp, sum_base_bp, sum_full_bp: sum_base_bp + 1000 * lp };
        assert forall|i: int| 0 <= i < 5 implies #[trigger] r.base_bp.arr()[i] == self.spec_base(i, lvl as int) by {
            if i == 0 {} else if i == 1 {} else if i == 2 {} else if i == 3 {} else {}
        }
        r
    }

    /// Tiers in the loss box of `self` under `bounds`: axis `i` ranges over
    /// `self[i] - most lost ..= self[i] - fewest lost`, never below zero.
    pub open spec fn in_loss_box(self, bounds: LossBounds, t: [i32; 5]) -> bool {
        forall|i: int|
            0 <= i < 5 ==> 0 <= #[trigger] t[i] && self.tiers()[i] - bounds.hi(i) <= t[i]
                <= self.tiers()[i] - bounds.lo(i)
    }

    /// Tiers lost by at most `most` and at least zero on every axis, never below zero.
    pub open spec fn in_uniform_loss_box(self, most: int, t: [i32; 5]) -> bool {
        forall|i: int| 0 <= i < 5 ==> 0 <= #[trigger] t[i] && self.tiers()[i] - most <= t[i] <= self.tiers()[i]
    }

    /// Every candidate tier tuple after losing `0..=4` tiers per axis,
    /// in lexicographic order.
    pub fn loop_range(self) -> (out: Vec<GrowRange>)
        ensures
            lex_sorted_grows(out@),
            forall|k: int| 0 <= k < out@.len() ==> #[trigger] out@[k].bprate == self.bprate
                && self.in_uniform_loss_box(MAX_LOST_PER_AXIS as int, out@[k].tiers()),
            forall|t: [i32; 5]| self.in_uniform_loss_box(MAX_LOST_PER_AXIS as int, t) ==> grows_hold(out@, t),
    {
        let b = LossBounds::default();
        let out = self.loop_range_within(b);
        proof {
            assert(b.lo(0) == 0 && b.hi(0) == MAX_LOST_PER_AXIS);
            assert(b.lo(1) == 0 && b.hi(1) == MAX_LOST_PER_AXIS);
            assert(b.lo(2) == 0 && b.hi(2) == MAX_LOST_PER_AXIS);
            assert(b.lo(3) == 0 && b.hi(3) == MAX_LOST_PER_AXIS);
            assert(b.lo(4) == 0 && b.hi(4) == MAX_LOST_PER_AXIS);
            assert forall|t: [i32; 5]| self.in_uniform_loss_box(MAX_LOST_PER_AXIS as int, t) <==> self.in_loss_box(b, t) by {
                if self.in_uniform_loss_box(MAX_LOST_PER_AXIS as int, t) {
                    assert forall|i: int| 0 <= i < 5 implies 0 <= #[trigger] t[i] && self.tiers()[i] - b.hi(i) <= t[i]
                        <= self.tiers()[i] - b.lo(i) by {
                        assert(b.lo(i) == 0 && b.hi(i) == MAX_LOST_PER_AXIS);
                    }
                }
                if self.in_loss_box(b, t) {
                    assert forall|i: int| 0 <= i < 5 implies 0 <= #[trigger] t[i] && self.tiers()[i] - MAX_LOST_PER_AXIS <= t[i]
                        <= self.tiers()[i] by {
                        assert(b.lo(i) == 0 && b.hi(i) == MAX_LOST_PER_AXIS);
                    }
                }
            }
        }
        out
    }

    /// Every tier tuple in the loss box of `self` under `bounds`, in
    /// lexicographic order, each with `self`'s ability rate.
    pub fn loop_range_within(self, bounds: LossBounds) -> (out: Vec<GrowRange>)
        ensures
            lex_sorted_grows(out@),
            forall|k: int| 0 <= k < out@.len() ==> #[trigger] out@[k].bprate == self.bprate
                && self.in_loss_box(bounds, out@[k].tiers()),
            forall|t: [i32; 5]| self.in_loss_box(bounds, t) ==> grows_hold(out@, t),
    {
        let tier = self.to_array();
        let (min_lost, max_lost) = bounds.split();
        let lo: [i64; 5] = [
            low_end(tier[0], max_lost[0]),
            low_end(tier[1], max_lost[1]),
            low_end(tier[2], max_lost[2]),
            low_end(tier[3], max_lost[3]),
            low_end(tier[4], max_lost[4]),
        ];
        let hi: [i64; 5] = [
            high_end(tier[0], min_lost[0]),
            high_end(tier[1], min_lost[1]),
            high_end(tier[2], min_lost[2]),
            high_end(tier[3], min_lost[3]),
            high_end(tier[4], min_lost[4]),
        ];
        assert forall|j: int| 0 <= j < 5 implies #[trigger] lo[j] == (if tier[j] - max_lost[j] < 0 { 0 } else { tier[j] - max_lost[j] })
            && hi[j] == (if tier[j] - min_lost[j] < -1 { -1 } else { tier[j] - min_lost[j] })
            && 0 <= lo[j] <= i32::MAX && -1 <= hi[j] <= i32::MAX by {
            if j == 0 {} else if j == 1 {} else if j == 2 {} else if j == 3 {} else {}
        }
        assert(crate::enumerate::fits_i32(lo, hi));
        let tuples = box_tuples(lo, hi);
        let mut out: Vec<GrowRange> = Vec::new();
        let mut k: usize = 0;
        while k < tuples.len()
            invariant
                0 <= k <= tuples@.len(),
                out@.len() == k,
                forall|m: int| 0 <= m < k ==> (#[trigger] out@[m]).tiers() == tuples@[m] && out@[m].bprate == self.bprate,
                forall|m: int| 0 <= m < tuples@.len() ==> in_box(lo, hi, #[trigger] tuples@[m]),
            decreases tuples@.len() - k,
        {
            let t = tuples[k];
            out.push(GrowRange::from_array(t, self.bprate));
            k = k + 1;
        }
        proof {
            assert forall|a: int, b: int| 0 <= a < b < out@.len() implies lex_lt5(#[trigger] out@[a].tiers(), #[trigger] out@[b].tiers()) by {
                assert(lex_lt5(tuples@[a], tuples@[b]));
            }
            assert forall|m: int| 0 <= m < out@.len() implies #[trigger] out@[m].bprate == self.bprate
                && self.in_loss_box(bounds, out@[m].tiers()) by {
                let t = tuples@[m];
                assert(in_box(lo, hi, t));
                assert forall|j: int| 0 <= j < 5 implies 0 <= #[trigger] t[j] && self.tiers()[j] - bounds.hi(j) <= t[j]
                    <= self.tiers()[j] - bounds.lo(j) by {
                    assert(lo[j] <= t[j] <= hi[j]);
                }
            }
            assert forall|t: [i32; 5]| self.in_loss_box(bounds, t) implies grows_hold(out@, t) by {
                assert forall|j: int| 0 <= j < 5 implies lo[j] <= #[trigger] t[j] <= hi[j] by {
                    assert(0 <= t[j] && self.tiers()[j] - bounds.hi(j) <= t[j] <= self.tiers()[j] - bounds.lo(j));
                }
                assert(in_box(lo, hi, t));
                let m = choose|m: int| 0 <= m < tuples@.len() && tuples@[m] == t;
                assert(out@[m].tiers() == t);
            }
        }
        out
    }
}

/// Tier tuples sorted in strict lexicographic order.
pub open spec fn lex_sorted_grows(s: Seq<GrowRange>) -> bool {
    forall|a: int, b: int| 0 <= a < b < s.len() ==> lex_lt5(#[trigger] s[a].tiers(), #[trigger] s[b].tiers())
}

/// Some element of `s` has the tiers `t`.
pub open spec fn grows_hold(s: Seq<GrowRange>, t: [i32; 5]) -> bool {
    exists|m: int| 0 <= m < s.len() && s[m].tiers() == t
}

} // verus!
