//! Which pets can reach given stat floors at a level.
//!
//! For each pet the stats at the level with no point spent are computed;
//! each stat short of its floor is closed with the axis that adds the most of
//! it per point, the point counts are added up and compared with the
//! `lvl - 1` points available. Point counts are held in units of 1/10800 of
//! a point, which makes every per-stat cost an integer.
use vstd::prelude::*;
use crate::bp::{Bp, Stat, m10, bp_in_range, spec_raw, spec_stat, stat_base};
use crate::grow::{GrowRange, spec_axis_base};
use crate::rates::{spec_full_rate_or_zero, spec_rate_formula, lemma_table_strictly_increasing};

verus! {

/// Number of stats: hp mp atk def agi wis res.
pub const STATS: usize = 7;

/// Per stat, the axis `[HP, ATK, DEF, AGI, MP]` that adds the most of it per point.
pub const BEST_AXIS: [usize; 7] = [0, 4, 1, 2, 3, 4, 0];

/// Per stat, what one point on the best axis adds, times ten.
pub const BEST_GAIN10: [i64; 7] = [80, 100, 27, 30, 20, 8, 8];

/// Units of a point count: a point is this many units.
pub const NEED_SCALE: i64 = 10800;

/// Per stat, the units of points one stat point costs: `10 * NEED_SCALE / BEST_GAIN10`.
pub const NEED_COST: [i64; 7] = [1350, 1080, 4000, 3600, 5400, 13500, 13500];

pub open spec fn best_axis(s: int) -> int {
    if s == 0 { 0 } else if s == 1 { 4 } else if s == 2 { 1 } else if s == 3 { 2 } else if s == 4 { 3 } else if s == 5 { 4 } else { 0 }
}

pub open spec fn best_gain10(s: int) -> int {
    if s == 0 { 80 } else if s == 1 { 100 } else if s == 2 { 27 } else if s == 3 { 30 } else if s == 4 { 20 } else { 8 }
}

pub open spec fn need_cost(s: int) -> int {
    if s == 0 { 1350 } else if s == 1 { 1080 } else if s == 2 { 4000 } else if s == 3 { 3600 } else if s == 4 { 5400 } else { 13500 }
}

/// The tables agree with the stat matrix: the best axis of each stat is
/// where its row peaks, the gain is that peak, and a stat point costs
/// exactly one gain's worth of units.
pub proof fn lemma_best_axis_is_row_max(s: int)
    requires
        0 <= s < 7,
    ensures
        BEST_AXIS[s] == best_axis(s),
        BEST_GAIN10[s] == best_gain10(s),
        NEED_COST[s] == need_cost(s),
        0 <= best_axis(s) < 5,
        m10(s, best_axis(s)) == best_gain10(s),
        forall|j: int| 0 <= j < 5 ==> #[trigger] m10(s, j) <= best_gain10(s),
        need_cost(s) * best_gain10(s) == 10 * NEED_SCALE,
{
    assert forall|j: int| 0 <= j < 5 implies #[trigger] m10(s, j) <= best_gain10(s) by {
        if s == 0 {} else if s == 1 {} else if s == 2 {} else if s == 3 {} else if s == 4 {} else if s == 5 {} else {}
    }
}

/// One search: a level, floors on the seven stats (0 = none) and the
/// random tiers assumed.
#[derive(Debug, Clone, Copy, PartialEq, Eq)]
pub struct Query {
    /// Level; below 1 counts as 1.
    pub lvl: i32,
    /// Floors on hp mp atk def agi wis res.
    pub floor: [i64; 7],
    /// Random tiers assumed, axis order `[HP, ATK, DEF, AGI, MP]`.
    pub random: [i32; 5],
}

/// How one pet fares against a query.
#[derive(Debug, Clone, Copy, PartialEq, Eq)]
pub struct Verdict {
    /// The stats at the level with no point spent.
    pub base: Stat,
    /// Points needed to reach every floor, in units (`NEED_SCALE` per point).
    pub needed: u128,
    /// Points available, `lvl - 1`, in units.
    pub available: u128,
}

impl Verdict {
    /// The floors can be reached.
    pub fn hit(&self) -> (r: bool)
        ensures
            r == (self.needed <= self.available),
    {
        self.needed <= self.available
    }

    /// Units still missing; 0 on a hit.
    pub fn shortfall(&self) -> (r: u128)
        ensures
            r == if self.needed <= self.available { 0 } else { self.needed - self.available },
    {
        if self.hit() { 0 } else { self.needed - self.available }
    }
}

/// The level a query counts with.
pub open spec fn eff_lvl(lvl: int) -> int {
    if lvl < 1 { 1 } else { lvl }
}

/// BP of a pet at a level with the random tiers and no point spent (thousandths).
pub open spec fn query_bp(grow: GrowRange, lvl: int, random: [i32; 5]) -> Bp {
    Bp {
        hp: (grow.spec_base(0, lvl) + 10 * grow.bprate * random[0]) as i128,
        atk: (grow.spec_base(1, lvl) + 10 * grow.bprate * random[1]) as i128,
        def: (grow.spec_base(2, lvl) + 10 * grow.bprate * random[2]) as i128,
        agi: (grow.spec_base(3, lvl) + 10 * grow.bprate * random[3]) as i128,
        mp: (grow.spec_base(4, lvl) + 10 * grow.bprate * random[4]) as i128,
    }
}

/// The gap of stat `i` below its floor (0 when reached).
pub open spec fn gap(have: int, floor: int) -> int {
    if floor > have { floor - have } else { 0 }
}

/// Units of points needed to close every gap.
pub open spec fn spec_points_needed(base: Stat, floor: [i64; 7]) -> int {
    let have = base.arr();
    gap(have[0], floor[0] as int) * need_cost(0) + gap(have[1], floor[1] as int) * need_cost(1)
        + gap(have[2], floor[2] as int) * need_cost(2) + gap(have[3], floor[3] as int) * need_cost(3)
        + gap(have[4], floor[4] as int) * need_cost(4) + gap(have[5], floor[5] as int) * need_cost(5)
        + gap(have[6], floor[6] as int) * need_cost(6)
}

impl Query {
    /// Some floor is set.
    pub fn has_floor(&self) -> (r: bool)
        ensures
            r == exists|i: int| 0 <= i < 7 && #[trigger] self.floor[i] > 0,
    {
        let mut i: usize = 0;
        while i < 7
            invariant
                0 <= i <= 7,
                forall|k: int| 0 <= k < i ==> #[trigger] self.floor[k] <= 0,
            decreases 7 - i,
        {
            if self.floor[i] > 0 {
                return true;
            }
            i = i + 1;
        }
        false
    }

    /// Points available: `max(lvl, 1) - 1`.
    pub fn available_points(&self) -> (p: i32)
        ensures
            p == eff_lvl(self.lvl as int) - 1,
    {
        if self.lvl < 1 { 0 } else { self.lvl - 1 }
    }

    /// How the pet with these tiers fares.
    pub fn evaluate(&self, grow: GrowRange) -> (v: Verdict)
        ensures
            v.base == query_bp(grow, eff_lvl(self.lvl as int), self.random).spec_calc(),
            v.needed == spec_points_needed(v.base, self.floor),
            v.available == (eff_lvl(self.lvl as int) - 1) * NEED_SCALE,
    {
        let lvl: i32 = if self.lvl < 1 { 1 } else { self.lvl };
        let at = grow.calc_bp_at_level(lvl, None);
        let b = at.base_bp.to_array();
        proof {
            crate::grow::lemma_axis_base_bound(grow.hp as int, grow.bprate as int, lvl as int);
            crate::grow::lemma_axis_base_bound(grow.atk as int, grow.bprate as int, lvl as int);
            crate::grow::lemma_axis_base_bound(grow.def as int, grow.bprate as int, lvl as int);
            crate::grow::lemma_axis_base_bound(grow.agi as int, grow.bprate as int, lvl as int);
            crate::grow::lemma_axis_base_bound(grow.mp as int, grow.bprate as int, lvl as int);
            assert(b[0] == grow.spec_base(0, lvl as int) && b[1] == grow.spec_base(1, lvl as int)
                && b[2] == grow.spec_base(2, lvl as int) && b[3] == grow.spec_base(3, lvl as int)
                && b[4] == grow.spec_base(4, lvl as int));
        }
        let x = [
            b[0] + random_bp(grow.bprate, self.random[0]),
            b[1] + random_bp(grow.bprate, self.random[1]),
            b[2] + random_bp(grow.bprate, self.random[2]),
            b[3] + random_bp(grow.bprate, self.random[3]),
            b[4] + random_bp(grow.bprate, self.random[4]),
        ];
        let bp = Bp::from_array(x);
        assert(bp == query_bp(grow, lvl as int, self.random));
        assert(bp_in_range(x)) by {
            assert forall|j: int| 0 <= j < 5 implies -crate::bp::BP_LIMIT <= #[trigger] x[j] <= crate::bp::BP_LIMIT by {
                if j == 0 {} else if j == 1 {} else if j == 2 {} else if j == 3 {} else {}
            }
        }
        let base = bp.calc_real_num();
        let needed = points_needed(base, self.floor);
        let available: u128 = (lvl as u128 - 1) * 10800;
        Verdict { base, needed, available }
    }
}

/// `10 * bprate * r` thousandths: the BP of `r` random tiers.
fn random_bp(bprate: i32, r: i32) -> (x: i128)
    ensures
        x == 10 * bprate * r,
        -0x1_0000_0000_0000_0000_0 <= x <= 0x1_0000_0000_0000_0000_0,
{
    assert(-0x1_0000_0000_0000_0000_0 <= 10 * (bprate as int) * (r as int) <= 0x1_0000_0000_0000_0000_0) by (nonlinear_arith)
        requires
            i32::MIN <= bprate <= i32::MAX,
            i32::MIN <= r <= i32::MAX,
    ;
    10 * bprate as i128 * r as i128
}

/// Units of points needed to bring every stat of `base` up to its floor,
/// each gap closed on its best axis; gaps are added up as they stand.
pub fn points_needed(base: Stat, floor: [i64; 7]) -> (n: u128)
    ensures
        n == spec_points_needed(base, floor),
{
    let have = base.to_array();
    let mut total: u128 = 0;
    let mut i: usize = 0;
    let cost: [u128; 7] = [1350, 1080, 4000, 3600, 5400, 13500, 13500];
    while i < 7
        invariant
            0 <= i <= 7,
            forall|k: int| 0 <= k < 7 ==> have[k] as int == #[trigger] base.arr()[k],
            forall|k: int| 0 <= k < 7 ==> #[trigger] cost[k] == need_cost(k),
            total == partial_need(base, floor, i as int),
            total <= i * 0x1_0000_0000_0000_0000_0000,
        decreases 7 - i,
    {
        let g: i128 = floor[i] as i128 - have[i] as i128;
        if g > 0 {
            assert(g * cost[i as int] <= 0x1_0000_0000_0000_0000_0000) by (nonlinear_arith)
                requires
                    0 < g <= 0x1_0000_0000_0000_0000,
                    cost[i as int] <= 13500,
            ;
            total = total + g as u128 * cost[i];
        }
        i = i + 1;
    }
    assert(partial_need(base, floor, 7) == spec_points_needed(base, floor)) by {
        reveal_with_fuel(partial_need, 8);
    }
    total
}

/// The points needed cover every stat's shortfall, wis and res included:
/// spent on the axis that adds the most of stat `s` per point (no axis adds
/// more), they raise it by at least its gap below the floor. When `s` is
/// the only stat short of its floor, they raise it by exactly that gap.
pub proof fn lemma_needed_covers_every_gap(base: Stat, floor: [i64; 7], s: int)
    requires
        0 <= s < 7,
    ensures
        forall|j: int| 0 <= j < 5 ==> #[trigger] m10(s, j) <= m10(s, best_axis(s)),
        spec_points_needed(base, floor) * m10(s, best_axis(s)) >= 10 * NEED_SCALE * (floor[s] - base.arr()[s]),
        (forall|t: int| 0 <= t < 7 && t != s ==> base.arr()[t] >= floor[t]) ==> spec_points_needed(base, floor)
            * m10(s, best_axis(s)) == 10 * NEED_SCALE * (if floor[s] > base.arr()[s] { floor[s] - base.arr()[s] } else { 0 }),
{
    lemma_best_axis_is_row_max(s);
    let have = base.arr();
    let n = spec_points_needed(base, floor);
    let b = m10(s, best_axis(s));
    let g = gap(have[s], floor[s] as int);
    assert(g >= 0 && g >= floor[s] - have[s]);
    assert forall|t: int| 0 <= t < 7 implies #[trigger] gap(have[t], floor[t] as int) * need_cost(t) >= 0 by {
        assert(gap(have[t], floor[t] as int) >= 0);
        assert(need_cost(t) > 0);
        assert(gap(have[t], floor[t] as int) * need_cost(t) >= 0) by (nonlinear_arith)
            requires
                gap(have[t], floor[t] as int) >= 0,
                need_cost(t) > 0,
        ;
    }
    let parts = seq![
        gap(have[0], floor[0] as int) * need_cost(0), gap(have[1], floor[1] as int) * need_cost(1),
        gap(have[2], floor[2] as int) * need_cost(2), gap(have[3], floor[3] as int) * need_cost(3),
        gap(have[4], floor[4] as int) * need_cost(4), gap(have[5], floor[5] as int) * need_cost(5),
        gap(have[6], floor[6] as int) * need_cost(6)];
    assert(n == parts[0] + parts[1] + parts[2] + parts[3] + parts[4] + parts[5] + parts[6]);
    assert(parts[s] == g * need_cost(s));
    assert(n >= g * need_cost(s)) by {
        assert(parts[0] >= 0 && parts[1] >= 0 && parts[2] >= 0 && parts[3] >= 0 && parts[4] >= 0 && parts[5] >= 0
            && parts[6] >= 0);
        if s == 0 {} else if s == 1 {} else if s == 2 {} else if s == 3 {} else if s == 4 {} else if s == 5 {} else {}
    }
    if forall|t: int| 0 <= t < 7 && t != s ==> have[t] >= floor[t] {
        assert forall|t: int| 0 <= t < 7 && t != s implies parts[t] == 0 by {
            assert(have[t] >= floor[t]);
            assert(gap(have[t], floor[t] as int) == 0);
        }
        assert(n == g * need_cost(s)) by {
            if s == 0 {} else if s == 1 {} else if s == 2 {} else if s == 3 {} else if s == 4 {} else if s == 5 {} else {}
        }
    }
    assert(g * need_cost(s) * b == g * (10 * NEED_SCALE)) by (nonlinear_arith)
        requires
            need_cost(s) * b == 10 * NEED_SCALE,
    ;
    assert(n * b >= g * need_cost(s) * b) by (nonlinear_arith)
        requires
            n >= g * need_cost(s),
            b > 0,
    ;
    assert(b > 0) by {
        if s == 0 {} else if s == 1 {} else if s == 2 {} else if s == 3 {} else if s == 4 {} else if s == 5 {} else {}
    }
}

/// No point is needed exactly when every one of the seven stats, wis and
/// res included, already reaches its floor.
pub proof fn lemma_needed_zero_iff_reached(base: Stat, floor: [i64; 7])
    ensures
        spec_points_needed(base, floor) == 0 <==> forall|s: int| 0 <= s < 7 ==> #[trigger] base.arr()[s] >= floor[s],
{
    if !(forall|s: int| 0 <= s < 7 ==> #[trigger] base.arr()[s] >= floor[s]) {
        let s = choose|s: int| 0 <= s < 7 && !(#[trigger] base.arr()[s] >= floor[s]);
        lemma_needed_covers_every_gap(base, floor, s);
        assert(floor[s] - base.arr()[s] > 0);
        let b = m10(s, best_axis(s));
        assert(b > 0) by {
            lemma_best_axis_is_row_max(s);
            if s == 0 {} else if s == 1 {} else if s == 2 {} else if s == 3 {} else if s == 4 {} else if s == 5 {} else {}
        }
        assert(spec_points_needed(base, floor) != 0) by {
            if spec_points_needed(base, floor) == 0 {
                assert(spec_points_needed(base, floor) * b == 0) by (nonlinear_arith)
                    requires
                        spec_points_needed(base, floor) == 0,
                ;
            }
        }
    } else {
        let have = base.arr();
        assert forall|t: int| 0 <= t < 7 implies #[trigger] gap(have[t], floor[t] as int) == 0 by {
            assert(have[t] >= floor[t]);
        }
        assert(gap(have[0], floor[0] as int) == 0 && gap(have[1], floor[1] as int) == 0 && gap(have[2], floor[2] as int) == 0
            && gap(have[3], floor[3] as int) == 0 && gap(have[4], floor[4] as int) == 0 && gap(have[5], floor[5] as int) == 0
            && gap(have[6], floor[6] as int) == 0);
    }
}

pub open spec fn partial_need(base: Stat, floor: [i64; 7], n: int) -> int
    decreases n,
{
    if n <= 0 {
        0
    } else {
        partial_need(base, floor, n - 1) + gap(base.arr()[n - 1], floor[n - 1] as int) * need_cost(n - 1)
    }
}


/// The stats of a pet with these tiers at a level, with the random tiers
/// given and no point spent.
pub open spec fn stats_at(grow: GrowRange, lvl: int, random: [i32; 5]) -> Stat {
    query_bp(grow, lvl, random).spec_calc()
}

proof fn lemma_rate_in_table(t: int)
    requires
        0 <= t <= 110,
    ensures
        spec_full_rate_or_zero(t) == spec_rate_formula(t as nat),
{
    assert(spec_rate_formula(t as nat) <= 4615) by (nonlinear_arith)
        requires
            0 <= t <= 110,
    ;
}

proof fn lemma_rate_mono(a: int, b: int)
    requires
        0 <= a <= b <= 110,
    ensures
        spec_full_rate_or_zero(a) <= spec_full_rate_or_zero(b),
    decreases b - a,
{
    lemma_rate_in_table(a);
    lemma_rate_in_table(b);
    if a < b {
        lemma_rate_mono(a, b - 1);
        lemma_rate_in_table(b - 1);
        lemma_table_strictly_increasing(b as nat);
    }
}

proof fn lemma_axis_base_mono(t1: int, t2: int, r: int, l1: int, l2: int)
    requires
        (t1 == t2) || (0 <= t1 <= t2 <= 110 && r >= 0),
        1 <= l1 <= l2,
    ensures
        spec_axis_base(t1, r, l1) <= spec_axis_base(t2, r, l2),
{
    let r1 = spec_full_rate_or_zero(t1) as int;
    let r2 = spec_full_rate_or_zero(t2) as int;
    if t1 != t2 {
        lemma_rate_mono(t1, t2);
    }
    assert(r1 <= r2);
    assert(r1 * (l1 - 1) <= r2 * (l2 - 1)) by (nonlinear_arith)
        requires
            0 <= r1 <= r2,
            1 <= l1 <= l2,
    ;
    assert(t1 * r * 10 <= t2 * r * 10) by (nonlinear_arith)
        requires
            (t1 == t2) || (t1 <= t2 && r >= 0),
    ;
}

proof fn lemma_query_bp_exact(grow: GrowRange, lvl: int, random: [i32; 5], a: int)
    requires
        1 <= lvl <= i32::MAX,
        0 <= a < 5,
    ensures
        query_bp(grow, lvl, random).arr()[a] == grow.spec_base(a, lvl) + 10 * grow.bprate * random[a],
{
    crate::grow::lemma_axis_base_bound(grow.tiers()[a] as int, grow.bprate as int, lvl);
    let br = 10 * grow.bprate * random[a];
    assert(-0x1_0000_0000_0000_0000_0 <= br <= 0x1_0000_0000_0000_0000_0) by (nonlinear_arith)
        requires
            br == 10 * grow.bprate * random[a],
            i32::MIN <= grow.bprate <= i32::MAX,
            i32::MIN <= random[a] <= i32::MAX,
    ;
    if a == 0 {} else if a == 1 {} else if a == 2 {} else if a == 3 {} else {}
}

proof fn lemma_stat_mono(v1: [i128; 5], v2: [i128; 5], s: int)
    requires
        0 <= s < 5,
        forall|j: int| 0 <= j < 5 ==> #[trigger] v1[j] <= v2[j],
    ensures
        spec_stat(spec_raw(v1, s), stat_base(s)) <= spec_stat(spec_raw(v2, s), stat_base(s)),
{
    assert(v1[0] <= v2[0] && v1[1] <= v2[1] && v1[2] <= v2[2] && v1[3] <= v2[3] && v1[4] <= v2[4]);
    assert(spec_raw(v1, s) <= spec_raw(v2, s)) by {
        if s == 0 {
            assert(m10(0, 0) == 80 && m10(0, 1) == 20 && m10(0, 2) == 30 && m10(0, 3) == 30 && m10(0, 4) == 10);
        } else if s == 1 {
            assert(m10(1, 0) == 10 && m10(1, 1) == 20 && m10(1, 2) == 20 && m10(1, 3) == 20 && m10(1, 4) == 100);
        } else if s == 2 {
            assert(m10(2, 0) == 2 && m10(2, 1) == 27 && m10(2, 2) == 3 && m10(2, 3) == 3 && m10(2, 4) == 2);
        } else if s == 3 {
            assert(m10(3, 0) == 2 && m10(3, 1) == 3 && m10(3, 2) == 30 && m10(3, 3) == 3 && m10(3, 4) == 2);
        } else {
            assert(m10(4, 0) == 1 && m10(4, 1) == 2 && m10(4, 2) == 2 && m10(4, 3) == 20 && m10(4, 4) == 1);
        }
    }
    vstd::arithmetic::div_mod::lemma_div_is_ordered(spec_raw(v1, s), spec_raw(v2, s), 10000);
}

proof fn lemma_needed_mono(b1: Stat, b2: Stat, floor: [i64; 7])
    requires
        forall|s: int| 0 <= s < 5 ==> #[trigger] b1.arr()[s] <= b2.arr()[s],
        floor[5] <= b2.wis,
        floor[6] <= b2.res,
    ensures
        spec_points_needed(b2, floor) <= spec_points_needed(b1, floor),
{
    let h1 = b1.arr();
    let h2 = b2.arr();
    assert(h1[0] <= h2[0] && h1[1] <= h2[1] && h1[2] <= h2[2] && h1[3] <= h2[3] && h1[4] <= h2[4]);
    assert(gap(h2[5], floor[5] as int) == 0 && gap(h2[6], floor[6] as int) == 0);
}

proof fn lemma_stats_mono(g1: GrowRange, g2: GrowRange, l1: int, l2: int, random: [i32; 5])
    requires
        1 <= l1 <= l2 <= i32::MAX,
        g1.bprate == g2.bprate,
        g1 == g2 || (g1.bprate >= 0 && forall|a: int| 0 <= a < 5 ==> 0 <= #[trigger] g1.tiers()[a] <= g2.tiers()[a] <= 110),
    ensures
        forall|s: int| 0 <= s < 5 ==> #[trigger] stats_at(g1, l1, random).arr()[s] <= stats_at(g2, l2, random).arr()[s],
{
    let v1 = query_bp(g1, l1, random).arr();
    let v2 = query_bp(g2, l2, random).arr();
    assert forall|j: int| 0 <= j < 5 implies #[trigger] v1[j] <= v2[j] by {
        lemma_query_bp_exact(g1, l1, random, j);
        lemma_query_bp_exact(g2, l2, random, j);
        if g1 == g2 {
            lemma_axis_base_mono(g1.tiers()[j] as int, g2.tiers()[j] as int, g1.bprate as int, l1, l2);
        } else {
            assert(0 <= g1.tiers()[j] <= g2.tiers()[j] <= 110);
            lemma_axis_base_mono(g1.tiers()[j] as int, g2.tiers()[j] as int, g1.bprate as int, l1, l2);
        }
    }
    assert forall|s: int| 0 <= s < 5 implies #[trigger] stats_at(g1, l1, random).arr()[s] <= stats_at(g2, l2, random).arr()[s] by {
        lemma_stat_mono(v1, v2, s);
        let q1 = query_bp(g1, l1, random);
        let q2 = query_bp(g2, l2, random);
        assert(q1.spec_stat_of(s) == spec_stat(spec_raw(v1, s), stat_base(s)));
        assert(q2.spec_stat_of(s) == spec_stat(spec_raw(v2, s), stat_base(s)));
        if s == 0 {} else if s == 1 {} else if s == 2 {} else if s == 3 {} else {}
    }
}

/// With the random tiers fixed and no point spent, a pet's hp, mp, atk,
/// def and agi never drop as it levels up.
pub proof fn lemma_stats_grow_with_level(grow: GrowRange, random: [i32; 5], l1: int, l2: int)
    requires
        1 <= l1 <= l2 <= i32::MAX,
    ensures
        forall|s: int| 0 <= s < 5 ==> #[trigger] stats_at(grow, l1, random).arr()[s] <= stats_at(grow, l2, random).arr()[s],
{
    lemma_stats_mono(grow, grow, l1, l2, random);
}

/// A pet that reaches the floors at a level still reaches them at any
/// higher level: its stats only grow, and so do the points it has. Wis and
/// res are the two stats that some BP lowers, so their floors are taken as
/// met at the higher level.
pub proof fn lemma_higher_level_never_loses_a_hit(grow: GrowRange, random: [i32; 5], floor: [i64; 7], l1: int, l2: int)
    requires
        1 <= l1 <= l2 <= i32::MAX,
        floor[5] <= stats_at(grow, l2, random).wis,
        floor[6] <= stats_at(grow, l2, random).res,
    ensures
        spec_points_needed(stats_at(grow, l2, random), floor) <= spec_points_needed(stats_at(grow, l1, random), floor),
        spec_points_needed(stats_at(grow, l1, random), floor) <= (l1 - 1) * NEED_SCALE
            ==> spec_points_needed(stats_at(grow, l2, random), floor) <= (l2 - 1) * NEED_SCALE,
{
    lemma_stats_mono(grow, grow, l1, l2, random);
    lemma_needed_mono(stats_at(grow, l1, random), stats_at(grow, l2, random), floor);
}

/// A pet whose tiers are no lower on any axis (same ability rate, tiers in
/// the table) needs no more points to reach the floors — the wis and res
/// floors taken as met by the better pet.
pub proof fn lemma_better_pet_is_never_harder_to_hit(weak: GrowRange, strong: GrowRange, random: [i32; 5], floor: [i64; 7], lvl: int)
    requires
        1 <= lvl <= i32::MAX,
        weak.bprate == strong.bprate,
        weak.bprate >= 0,
        forall|a: int| 0 <= a < 5 ==> 0 <= #[trigger] weak.tiers()[a] <= strong.tiers()[a] <= 110,
        floor[5] <= stats_at(strong, lvl, random).wis,
        floor[6] <= stats_at(strong, lvl, random).res,
    ensures
        spec_points_needed(stats_at(strong, lvl, random), floor) <= spec_points_needed(stats_at(weak, lvl, random), floor),
{
    lemma_stats_mono(weak, strong, lvl, lvl, random);
    lemma_needed_mono(stats_at(weak, lvl, random), stats_at(strong, lvl, random), floor);
}

} // verus!
