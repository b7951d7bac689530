//! The growth-rate table `fullRates`, in thousandths of a growth point.
//!
//! Entry `n` is the growth a pet with tier `n` gains per level. The 111
//! entries (tiers 0..=110) follow one closed form exactly:
//! `40n + 10*floor((n-1)/5) + (5 if n % 5 == 0)` thousandths for `n > 0`, and 0 at `n = 0`.
use vstd::prelude::*;

verus! {

/// Largest tier the table covers.
pub const MAX_TIER: usize = 110;

/// Closed form of the table, in thousandths.
pub open spec fn spec_rate_formula(n: nat) -> nat {
    if n == 0 {
        0
    } else {
        (40 * n + 10 * ((n - 1) as nat / 5) + if n % 5 == 0 { 5nat } else { 0nat }) as nat
    }
}

/// The table entry for `tier`, `None` outside `0..=MAX_TIER`.
pub open spec fn spec_full_rate(tier: int) -> Option<u32> {
    if 0 <= tier <= MAX_TIER {
        Some(spec_rate_formula(tier as nat) as u32)
    } else {
        None
    }
}

/// The table entry with out-of-range tiers read as 0.
pub open spec fn spec_full_rate_or_zero(tier: int) -> u32 {
    match spec_full_rate(tier) {
        Some(r) => r,
        None => 0,
    }
}

/// The closed form of the table for any `n`, in thousandths.
pub fn full_rate_formula(n: u32) -> (r: u64)
    ensures
        r == spec_rate_formula(n as nat),
{
    if n == 0 {
        return 0;
    }
    let n64 = n as u64;
    let step: u64 = (n64 - 1) / 5;
    let bonus: u64 = if n64 % 5 == 0 { 5 } else { 0 };
    40 * n64 + 10 * step + bonus
}

/// Table lookup; `None` outside the table.
pub fn full_rate(tier: i32) -> (r: Option<u32>)
    ensures
        r == spec_full_rate(tier as int),
{
    if tier < 0 || tier > 110 {
        return None;
    }
    let v = full_rate_formula(tier as u32);
    proof {
        assert(spec_rate_formula(tier as nat) <= 4615) by (nonlinear_arith)
            requires
                0 <= tier <= 110,
                v == spec_rate_formula(tier as nat),
        ;
    }
    Some(v as u32)
}

/// Table lookup with out-of-range tiers read as 0.
pub fn full_rate_or_zero(tier: i32) -> (r: u32)
    ensures
        r == spec_full_rate_or_zero(tier as int),
{
    match full_rate(tier) {
        Some(r) => r,
        None => 0,
    }
}

/// The whole table, index = tier.
pub fn full_rates() -> (t: Vec<u32>)
    ensures
        t@.len() == MAX_TIER + 1,
        forall|i: int| 0 <= i <= MAX_TIER ==> Some(#[trigger] t@[i]) == spec_full_rate(i),
{
    let mut t: Vec<u32> = Vec::new();
    let mut i: i32 = 0;
    while i <= 110
        invariant
            0 <= i <= 111,
            t@.len() == i,
            forall|k: int| 0 <= k < i ==> Some(#[trigger] t@[k]) == spec_full_rate(k),
        decreases 111 - i,
    {
        t.push(full_rate_or_zero(i));
        i = i + 1;
    }
    t
}

/// Each table entry is larger than the one before it.
pub proof fn lemma_table_strictly_increasing(n: nat)
    requires
        1 <= n <= MAX_TIER,
    ensures
        spec_rate_formula((n - 1) as nat) < spec_rate_formula(n),
{
    if n >= 2 {
        let a = ((n - 2) as nat) / 5;
        let b = ((n - 1) as nat) / 5;
        assert(a <= b);
    }
}

} // verus!
