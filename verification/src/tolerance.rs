//! Matching tolerance, in thousandths of a growth point.
//!
//! `tol = clamp((current level - catch level) / 200, 0.01, 0.1)`, i.e.
//! `clamp(5 * span, 10, 100)` thousandths. The tolerance only ever widens the
//! tiers that sit on the irregular spots of the five-periodic rate table.
use vstd::prelude::*;

verus! {

/// Lower bound of the tolerance (0.01 points).
pub const TOL_MIN: i32 = 10;

/// Upper bound of the tolerance (0.1 points).
pub const TOL_MAX: i32 = 100;

/// Divisor of the level span.
pub const TOL_DIVISOR: i32 = 200;

/// Most offsets tried on one axis.
pub const MAX_NUDGES: usize = 3;

pub open spec fn spec_adaptive_tolerance(lo: int, hi: int) -> int {
    let raw = 5 * (hi - lo);
    if raw < TOL_MIN { TOL_MIN as int } else if raw > TOL_MAX { TOL_MAX as int } else { raw }
}

/// `clamp((hi - lo) / 200, 0.01, 0.1)` in thousandths.
pub fn adaptive_tolerance(lo: i32, hi: i32) -> (t: i32)
    ensures
        t == spec_adaptive_tolerance(lo as int, hi as int),
        TOL_MIN <= t <= TOL_MAX,
{
    let raw: i64 = 5 * (hi as i64 - lo as i64);
    if raw < TOL_MIN as i64 {
        TOL_MIN
    } else if raw > TOL_MAX as i64 {
        TOL_MAX
    } else {
        raw as i32
    }
}

/// The tolerance fed by the level span: current level minus catch level
/// (0 when there is no catch level).
pub fn level_span_tolerance(lvl: i32, catch_lvl: i32) -> (t: i32)
    ensures
        t == spec_adaptive_tolerance(catch_lvl as int, lvl as int),
        TOL_MIN <= t <= TOL_MAX,
{
    adaptive_tolerance(catch_lvl, lvl)
}

/// Euclidean remainder of a tier by five.
pub open spec fn tier_class(tier: int) -> int {
    tier % 5
}

/// How many offsets an axis with this tier tries: three on `n % 5 == 0` (n > 1),
/// two on `n % 5 == 1`, one elsewhere.
pub open spec fn spec_nudge_count(tier: int) -> int {
    if tier_class(tier) == 0 && tier > 1 {
        3
    } else if tier_class(tier) == 1 {
        2
    } else {
        1
    }
}

/// The `k`-th offset of an axis: `0`, then `-tol`, then `+tol`.
pub open spec fn spec_nudge(tol: int, k: int) -> int {
    if k == 0 { 0 } else if k == 1 { -tol } else { tol }
}

/// Offsets to try on an axis of the given tier, and how many of them count.
/// The first offset is always zero.
pub fn tier_nudges(tier: i32, tol: i32) -> (r: ([i32; 3], usize))
    requires
        tol > i32::MIN,
    ensures
        r.1 == spec_nudge_count(tier as int),
        r.0[0] == 0,
        r.1 == 3 ==> r.0[1] == -tol && r.0[2] == tol,
        r.1 == 2 ==> r.0[1] == -tol && r.0[2] == 0,
        r.1 == 1 ==> r.0[1] == 0 && r.0[2] == 0,
{
    let m = tier % 5;
    let rem = if m < 0 { m + 5 } else { m };
    proof {
        assert(rem == (tier as int) % 5);
    }
    if rem == 0 && tier > 1 {
        ([0, -tol, tol], 3)
    } else if rem == 1 {
        ([0, -tol, 0], 2)
    } else {
        ([0, 0, 0], 1)
    }
}

/// `|a - b| <= tol`.
pub fn approx_eq(a: i64, b: i64, tol: i64) -> (r: bool)
    ensures
        r == (-tol <= a - b <= tol),
{
    let d: i128 = a as i128 - b as i128;
    -(tol as i128) <= d && d <= tol as i128
}

/// `lo - tol <= value <= hi + tol`.
pub fn within(value: i64, lo: i64, hi: i64, tol: i64) -> (r: bool)
    ensures
        r == (lo - tol <= value <= hi + tol),
{
    value as i128 >= lo as i128 - tol as i128 && value as i128 <= hi as i128 + tol as i128
}

} // verus!
