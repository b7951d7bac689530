//! Weights of candidate solutions and the distributions built from them.
//!
//! The random tiers split 10 points over five axes. If each point lands on an
//! axis independently and uniformly, the tuple `r` has probability
//! proportional to the multinomial coefficient `10! / (r0! r1! r2! r3! r4!)`,
//! computed as `C(10, r0) C(10-r0, r1) C(10-r0-r1, r2) C(10-r0-r1-r2, r3)`.
//! A distribution keeps these weights as integers; a percentage is
//! `100 * weight / total_weight`.
use vstd::prelude::*;
use crate::grow::{GrowRange, MAX_LOST_PER_AXIS, RANDOM_POOL};
use crate::guess::Candidate;

verus! {

/// `C(n, k)` by Pascal's rule; 0 when `k < 0` or `n < k`.
pub open spec fn spec_binomial(n: int, k: int) -> nat
    decreases n,
{
    if k < 0 || n < k {
        0
    } else if k == 0 || k == n {
        1
    } else {
        spec_binomial(n - 1, k - 1) + spec_binomial(n - 1, k)
    }
}

/// `(k + 1) C(n, k + 1) == (n - k) C(n, k)`.
pub proof fn lemma_binomial_absorption(n: int, k: int)
    requires
        0 <= k < n,
    ensures
        (k + 1) * spec_binomial(n, k + 1) == (n - k) * spec_binomial(n, k),
    decreases n,
{
    if k == 0 {
        lemma_binomial_one(n);
        assert(spec_binomial(n, 0) == 1);
        assert((k + 1) * spec_binomial(n, k + 1) == (n - k) * spec_binomial(n, k)) by (nonlinear_arith)
            requires
                k == 0,
                spec_binomial(n, 1) == n,
                spec_binomial(n, 0) == 1,
        ;
    } else if k + 1 == n {
        assert(spec_binomial(n, k + 1) == 1);
        lemma_binomial_symmetric_one(n);
        assert((k + 1) * spec_binomial(n, k + 1) == (n - k) * spec_binomial(n, k)) by (nonlinear_arith)
            requires
                k + 1 == n,
                spec_binomial(n, k + 1) == 1,
                spec_binomial(n, n - 1) == n,
        ;
    } else {
        // 0 < k < n - 1
        lemma_binomial_absorption(n - 1, k);
        lemma_binomial_absorption(n - 1, k - 1);
        let a = spec_binomial(n - 1, k - 1);
        let b = spec_binomial(n - 1, k);
        let c = spec_binomial(n - 1, k + 1);
        assert(spec_binomial(n, k + 1) == b + c);
        assert(spec_binomial(n, k) == a + b);
        assert((k + 1) * c == (n - 1 - k) * b);
        assert(k * b == (n - k) * a);
        assert((k + 1) * (b + c) == (n - k) * (a + b)) by (nonlinear_arith)
            requires
                (k + 1) * c == (n - 1 - k) * b,
                k * b == (n - k) * a,
        ;
    }
}

proof fn lemma_binomial_one(n: int)
    requires
        n >= 1,
    ensures
        spec_binomial(n, 1) == n,
    decreases n,
{
    if n > 1 {
        lemma_binomial_one(n - 1);
        assert(spec_binomial(n - 1, 0) == 1);
    }
}

proof fn lemma_binomial_symmetric_one(n: int)
    requires
        n >= 1,
    ensures
        spec_binomial(n, n - 1) == n,
    decreases n,
{
    if n > 1 {
        lemma_binomial_symmetric_one(n - 1);
        assert(spec_binomial(n - 1, n - 1) == 1);
    }
}

/// `C(n, k) == C(n, n - k)`.
pub proof fn lemma_binomial_symmetric(n: int, k: int)
    requires
        0 <= k <= n,
    ensures
        spec_binomial(n, k) == spec_binomial(n, n - k),
    decreases n,
{
    if k == 0 || k == n {
    } else {
        lemma_binomial_symmetric(n - 1, k - 1);
        lemma_binomial_symmetric(n - 1, k);
    }
}

/// `C(n, j) <= C(n, k)` for `j <= k <= n - k`.
proof fn lemma_binomial_rising(n: int, j: int, k: int)
    requires
        0 <= j <= k,
        2 * k <= n,
    ensures
        spec_binomial(n, j) <= spec_binomial(n, k),
    decreases k - j,
{
    if j < k {
        lemma_binomial_rising(n, j + 1, k);
        lemma_binomial_absorption(n, j);
        let a = spec_binomial(n, j);
        let b = spec_binomial(n, j + 1);
        assert(a <= b) by (nonlinear_arith)
            requires
                (j + 1) * b == (n - j) * a,
                0 <= j,
                j + 1 <= n - j,
                a >= 0,
        ;
    }
}

/// `C(m, j) <= 2^m`, so small rows stay small.
proof fn lemma_binomial_row_bound(m: int, j: int)
    requires
        0 <= m <= 10,
    ensures
        spec_binomial(m, j) <= 1024,
    decreases m,
{
    lemma_binomial_pow2(m, j);
    assert(pow2_nat(m) <= 1024) by {
        lemma_pow2_mono(m, 10);
        assert(pow2_nat(10) == 1024) by {
            reveal_with_fuel(pow2_nat, 11);
        }
    }
}

pub open spec fn pow2_nat(m: int) -> nat
    decreases m,
{
    if m <= 0 { 1 } else { 2 * pow2_nat(m - 1) }
}

proof fn lemma_pow2_mono(a: int, b: int)
    requires
        0 <= a <= b,
    ensures
        pow2_nat(a) <= pow2_nat(b),
    decreases b - a,
{
    if a < b {
        lemma_pow2_mono(a, b - 1);
    }
}

proof fn lemma_binomial_pow2(m: int, j: int)
    requires
        m >= 0,
    ensures
        spec_binomial(m, j) <= pow2_nat(m),
    decreases m,
{
    lemma_pow2_mono(0, m);
    if j < 0 || m < j || j == 0 || j == m {
    } else {
        lemma_binomial_pow2(m - 1, j - 1);
        lemma_binomial_pow2(m - 1, j);
    }
}

/// `C(n, k)`; 0 when `k < 0` or `n < k`.
pub fn binomial(n: i32, k: i32) -> (c: u64)
    requires
        spec_binomial(n as int, k as int) <= u64::MAX,
    ensures
        c == spec_binomial(n as int, k as int),
{
    if k < 0 || n < k {
        return 0;
    }
    let kk: i32 = if k < n - k { k } else { n - k };
    proof {
        lemma_binomial_symmetric(n as int, k as int);
    }
    let ghost big = spec_binomial(n as int, kk as int);
    assert(big == spec_binomial(n as int, k as int));
    let nn: u128 = n as u128;
    let mut acc: u128 = 1;
    let mut i: u128 = 0;
    while i < kk as u128
        invariant
            0 <= i <= kk,
            2 * kk <= n,
            nn == n,
            big == spec_binomial(n as int, kk as int),
            big <= u64::MAX,
            acc == spec_binomial(n as int, i as int),
        decreases kk - i,
    {
        proof {
            lemma_binomial_absorption(n as int, i as int);
            lemma_binomial_rising(n as int, i as int, kk as int);
        }
        let ghost a = acc as int;
        let ghost b = spec_binomial(n as int, i as int + 1);
        assert(a * (nn - i) <= 0x1_0000_0000_0000_0000_0000_0000) by (nonlinear_arith)
            requires
                0 <= a <= big,
                big <= u64::MAX,
                0 <= nn - i <= 0x8000_0000,
        ;
        let prod: u128 = acc * (nn - i);
        assert(prod == (i + 1) * b);
        let ghost ii = i as int + 1;
        assert((prod as int) / ii == b) by (nonlinear_arith)
            requires
                prod == ii * b,
                ii > 0,
        ;
        acc = prod / (i + 1);
        i = i + 1;
    }
    acc as u64
}

/// Weight of a random tuple: the multinomial coefficient, 0 for a tuple with
/// a negative part or not adding up to `RANDOM_POOL`.
pub open spec fn spec_random_weight(r: [i32; 5]) -> int {
    if r[0] < 0 || r[1] < 0 || r[2] < 0 || r[3] < 0 || r[4] < 0
        || r[0] + r[1] + r[2] + r[3] + r[4] != RANDOM_POOL {
        0
    } else {
        (spec_binomial(10, r[0] as int) * spec_binomial(10 - r[0], r[1] as int)
            * spec_binomial(10 - r[0] - r[1], r[2] as int)
            * spec_binomial(10 - r[0] - r[1] - r[2], r[3] as int)) as int
    }
}

/// Weight of a random tuple (`10! / prod r_i!`).
pub fn random_weight(random: [i32; 5]) -> (w: u64)
    ensures
        w == spec_random_weight(random),
        w <= 0x100_0000_0000,
{
    let r = random;
    if r[0] < 0 || r[1] < 0 || r[2] < 0 || r[3] < 0 || r[4] < 0 {
        return 0;
    }
    let s: i64 = r[0] as i64 + r[1] as i64 + r[2] as i64 + r[3] as i64 + r[4] as i64;
    if s != RANDOM_POOL as i64 {
        return 0;
    }
    proof {
        lemma_binomial_row_bound(10, r[0] as int);
        lemma_binomial_row_bound(10 - r[0], r[1] as int);
        lemma_binomial_row_bound(10 - r[0] - r[1], r[2] as int);
        lemma_binomial_row_bound(10 - r[0] - r[1] - r[2], r[3] as int);
    }
    let c0 = binomial(10, r[0]);
    let c1 = binomial(10 - r[0], r[1]);
    let c2 = binomial(10 - r[0] - r[1], r[2]);
    let c3 = binomial(10 - r[0] - r[1] - r[2], r[3]);
    assert(c0 * c1 <= 0x10_0000) by (nonlinear_arith)
        requires
            c0 <= 1024,
            c1 <= 1024,
    ;
    assert(c0 * c1 * c2 <= 0x4000_0000) by (nonlinear_arith)
        requires
            c0 * c1 <= 0x10_0000,
            c2 <= 1024,
    ;
    assert(c0 * c1 * c2 * c3 <= 0x100_0000_0000) by (nonlinear_arith)
        requires
            c0 * c1 * c2 <= 0x4000_0000,
            c3 <= 1024,
    ;
    c0 * c1 * c2 * c3
}

/// Slots of the total loss: up to `MAX_LOST_PER_AXIS` on each of five axes, plus zero.
pub const TOTAL_LOST_SLOTS: usize = 21;

/// Sum of `w[i]` over the first `n` indices that `keep` selects.
pub open spec fn wsum(w: Seq<u64>, keep: spec_fn(int) -> bool, n: int) -> int
    decreases n,
{
    if n <= 0 {
        0
    } else {
        wsum(w, keep, n - 1) + if keep(n - 1) { w[n - 1] as int } else { 0 }
    }
}

pub proof fn lemma_wsum_bound(w: Seq<u64>, keep: spec_fn(int) -> bool, n: int)
    requires
        0 <= n <= w.len(),
    ensures
        0 <= wsum(w, keep, n) <= n * 0x1_0000_0000_0000_0000,
    decreases n,
{
    if n > 0 {
        lemma_wsum_bound(w, keep, n - 1);
    }
}

proof fn lemma_wsum_none(w: Seq<u64>, keep: spec_fn(int) -> bool, n: int)
    requires
        forall|i: int| 0 <= i < n ==> !#[trigger] keep(i),
    ensures
        wsum(w, keep, n) == 0,
    decreases n,
{
    if n > 0 {
        lemma_wsum_none(w, keep, n - 1);
    }
}

/// Tiers lost on axis `a`: catalog tier minus actual tier.
pub open spec fn lost_at(catalog: GrowRange, c: Candidate, a: int) -> int {
    catalog.tiers()[a] - c.grow.tiers()[a]
}

/// Tiers lost over the five axes.
pub open spec fn lost_total(catalog: GrowRange, c: Candidate) -> int {
    lost_at(catalog, c, 0) + lost_at(catalog, c, 1) + lost_at(catalog, c, 2) + lost_at(catalog, c, 3)
        + lost_at(catalog, c, 4)
}

/// The per-axis loss of a candidate as a tuple.
#[verifier::opaque]
pub open spec fn lost_tuple(catalog: GrowRange, c: Candidate) -> [i32; 5] {
    [
        lost_at(catalog, c, 0) as i32,
        lost_at(catalog, c, 1) as i32,
        lost_at(catalog, c, 2) as i32,
        lost_at(catalog, c, 3) as i32,
        lost_at(catalog, c, 4) as i32,
    ]
}

/// Every loss of a candidate, and its total, fit in `i32`.
pub open spec fn loss_fits(catalog: GrowRange, c: Candidate) -> bool {
    &&& forall|a: int| 0 <= a < 5 ==> i32::MIN <= #[trigger] lost_at(catalog, c, a) <= i32::MAX
    &&& i32::MIN <= lost_total(catalog, c) <= i32::MAX
}

pub open spec fn every() -> spec_fn(int) -> bool {
    |i: int| true
}

pub open spec fn lost_is(catalog: GrowRange, cands: Seq<Candidate>, a: int, l: int) -> spec_fn(int) -> bool {
    |i: int| lost_at(catalog, cands[i], a) == l
}

pub open spec fn random_is(cands: Seq<Candidate>, a: int, r: int) -> spec_fn(int) -> bool {
    |i: int| cands[i].random[a] == r
}

pub open spec fn total_is(catalog: GrowRange, cands: Seq<Candidate>, s: int) -> spec_fn(int) -> bool {
    |i: int| lost_total(catalog, cands[i]) == s
}

/// The total loss of candidate `i` counts (`0..TOTAL_LOST_SLOTS`).
#[verifier::opaque]
pub open spec fn counts(catalog: GrowRange, cands: Seq<Candidate>, i: int) -> bool {
    0 <= lost_total(catalog, cands[i]) < TOTAL_LOST_SLOTS
}

/// Candidate `i` counts and its per-axis loss is `t`.
#[verifier::opaque]
pub open spec fn has_combo(catalog: GrowRange, cands: Seq<Candidate>, i: int, t: [i32; 5]) -> bool {
    counts(catalog, cands, i) && lost_tuple(catalog, cands[i]) == t
}

pub open spec fn combo_is(catalog: GrowRange, cands: Seq<Candidate>, t: [i32; 5]) -> spec_fn(int) -> bool {
    |i: int| has_combo(catalog, cands, i, t)
}

proof fn lemma_tuple_sum(catalog: GrowRange, c: Candidate)
    requires
        loss_fits(catalog, c),
    ensures
        crate::enumerate::sum5(lost_tuple(catalog, c)) == lost_total(catalog, c),
{
    reveal(lost_tuple);
    assert(i32::MIN <= lost_at(catalog, c, 0) <= i32::MAX);
    assert(i32::MIN <= lost_at(catalog, c, 1) <= i32::MAX);
    assert(i32::MIN <= lost_at(catalog, c, 2) <= i32::MAX);
    assert(i32::MIN <= lost_at(catalog, c, 3) <= i32::MAX);
    assert(i32::MIN <= lost_at(catalog, c, 4) <= i32::MAX);
}

proof fn lemma_has_combo(catalog: GrowRange, cands: Seq<Candidate>, i: int, t: [i32; 5])
    ensures
        has_combo(catalog, cands, i, t) <==> (counts(catalog, cands, i) && lost_tuple(catalog, cands[i]) == t),
{
    reveal(has_combo);
}

/// Order of loss tuples: by total, then lexicographically.
pub open spec fn combo_lt(a: [i32; 5], b: [i32; 5]) -> bool {
    crate::enumerate::sum5(a) < crate::enumerate::sum5(b)
        || (crate::enumerate::sum5(a) == crate::enumerate::sum5(b) && crate::enumerate::lex_lt5(a, b))
}

/// One loss tuple and the weight of all candidates that have it.
#[derive(Debug, Clone, Copy, PartialEq, Eq)]
pub struct LostCombo {
    /// Per-axis loss `[HP, ATK, DEF, AGI, MP]`, positive.
    pub lost: [i32; 5],
    /// Sum of `lost`.
    pub total: i32,
    /// Total weight of the candidates with this loss tuple.
    pub weight: u128,
}

/// The weight distribution of a batch of candidates. A share is
/// `100 * weight / total_weight` percent.
#[derive(Debug, Clone, PartialEq, Eq)]
pub struct Distribution {
    /// Weight of each candidate, in the order given.
    pub weight: Vec<u64>,
    /// Sum of the weights; 0 when no candidate has any.
    pub total_weight: u128,
    /// Largest weight (0 without candidates).
    pub max_weight: u64,
    /// Per axis, the weight of losing `0..=4` tiers.
    pub lost_marginal: [[u128; 5]; 5],
    /// Per axis, the weight of each random tier `0..=10`.
    pub random_marginal: [[u128; 11]; 5],
    /// Weight of each total loss `0..=20`.
    pub lost_total_marginal: [u128; 21],
    /// The distinct loss tuples (total loss `0..=20`) with their weights,
    /// ordered by total loss, then lexicographically.
    pub lost_combos: Vec<LostCombo>,
}

/// `d` is the distribution of `cands` against the catalog tiers.
pub open spec fn summarizes(d: Distribution, catalog: GrowRange, cands: Seq<Candidate>) -> bool {
    let n = cands.len() as int;
    let w = d.weight@;
    &&& w.len() == n
    &&& forall|i: int| 0 <= i < n ==> #[trigger] w[i] == spec_random_weight(cands[i].random)
    &&& d.total_weight == wsum(w, every(), n)
    &&& forall|i: int| 0 <= i < n ==> #[trigger] w[i] <= d.max_weight
    &&& (n > 0 ==> exists|i: int| 0 <= i < n && w[i] == d.max_weight)
    &&& (n == 0 ==> d.max_weight == 0)
    &&& forall|a: int, l: int| 0 <= a < 5 && 0 <= l < 5 ==> #[trigger] d.lost_marginal[a][l] == wsum(w, lost_is(catalog, cands, a, l), n)
    &&& forall|a: int, r: int| 0 <= a < 5 && 0 <= r < 11 ==> #[trigger] d.random_marginal[a][r] == wsum(w, random_is(cands, a, r), n)
    &&& forall|s: int| 0 <= s < 21 ==> #[trigger] d.lost_total_marginal[s] == wsum(w, total_is(catalog, cands, s), n)
    &&& combos_of(d.lost_combos@, w, catalog, cands)
}

/// `combos` lists each loss tuple that occurs among the first `n`
/// candidates, with its weight over them, in order.
pub open spec fn combos_inv(combos: Seq<LostCombo>, w: Seq<u64>, catalog: GrowRange, cands: Seq<Candidate>, n: int) -> bool {
    &&& forall|j: int, k: int| 0 <= j < k < combos.len() ==> combo_lt(#[trigger] combos[j].lost, #[trigger] combos[k].lost)
    &&& forall|j: int| 0 <= j < combos.len() ==> (#[trigger] combos[j]).total == crate::enumerate::sum5(combos[j].lost)
        && combos[j].weight == wsum(w, combo_is(catalog, cands, combos[j].lost), n)
        && exists|i: int| 0 <= i < n && #[trigger] has_combo(catalog, cands, i, combos[j].lost)
    &&& forall|i: int| 0 <= i < n && #[trigger] counts(catalog, cands, i)
        ==> exists|j: int| 0 <= j < combos.len() && #[trigger] combos[j].lost == lost_tuple(catalog, cands[i])
}

/// `combos` lists each loss tuple that occurs with its weight, in order.
pub open spec fn combos_of(combos: Seq<LostCombo>, w: Seq<u64>, catalog: GrowRange, cands: Seq<Candidate>) -> bool {
    combos_inv(combos, w, catalog, cands, cands.len() as int)
}

fn candidate_weights(cands: &[Candidate]) -> (w: Vec<u64>)
    ensures
        w@.len() == cands@.len(),
        forall|i: int| 0 <= i < cands@.len() ==> #[trigger] w@[i] == spec_random_weight(cands@[i].random),
{
    let mut w: Vec<u64> = Vec::new();
    let mut i: usize = 0;
    while i < cands.len()
        invariant
            0 <= i <= cands@.len(),
            w@.len() == i,
            forall|j: int| 0 <= j < i ==> #[trigger] w@[j] == spec_random_weight(cands@[j].random),
        decreases cands@.len() - i,
    {
        w.push(random_weight(cands[i].random));
        i = i + 1;
    }
    w
}

/// Sum of the weights and the largest weight.
fn total_and_max(w: &Vec<u64>) -> (r: (u128, u64))
    ensures
        r.0 == wsum(w@, every(), w@.len() as int),
        forall|i: int| 0 <= i < w@.len() ==> #[trigger] w@[i] <= r.1,
        w@.len() > 0 ==> exists|i: int| 0 <= i < w@.len() && w@[i] == r.1,
        w@.len() == 0 ==> r.1 == 0,
{
    let mut total: u128 = 0;
    let mut max: u64 = 0;
    let mut i: usize = 0;
    while i < w.len()
        invariant
            0 <= i <= w@.len(),
            total == wsum(w@, every(), i as int),
            forall|j: int| 0 <= j < i ==> #[trigger] w@[j] <= max,
            i > 0 ==> exists|j: int| 0 <= j < i && w@[j] == max,
            i == 0 ==> max == 0,
        decreases w@.len() - i,
    {
        proof { lemma_wsum_bound(w@, every(), i as int); }
        assert(i * 0x1_0000_0000_0000_0000 <= 0x1_0000_0000_0000_0000 * 0x1_0000_0000_0000_0000) by (nonlinear_arith)
            requires
                i <= usize::MAX,
        ;
        total = total + w[i] as u128;
        if w[i] > max || i == 0 {
            max = w[i];
        }
        i = i + 1;
    }
    (total, max)
}

/// Weight of the candidates losing `l` tiers on axis `a`.
fn lost_cell(catalog: GrowRange, cands: &[Candidate], w: &Vec<u64>, a: usize, l: i32) -> (s: u128)
    requires
        a < 5,
        w@.len() == cands@.len(),
    ensures
        s == wsum(w@, lost_is(catalog, cands@, a as int, l as int), cands@.len() as int),
{
    let cat = catalog.to_array();
    let mut s: u128 = 0;
    let mut i: usize = 0;
    while i < cands.len()
        invariant
            0 <= i <= cands@.len(),
            a < 5,
            cat == catalog.tiers(),
            w@.len() == cands@.len(),
            s == wsum(w@, lost_is(catalog, cands@, a as int, l as int), i as int),
        decreases cands@.len() - i,
    {
        proof { lemma_wsum_bound(w@, lost_is(catalog, cands@, a as int, l as int), i as int); }
        assert(i * 0x1_0000_0000_0000_0000 <= 0x1_0000_0000_0000_0000 * 0x1_0000_0000_0000_0000) by (nonlinear_arith)
            requires
                i <= usize::MAX,
        ;
        let g = cands[i].grow.to_array();
        if cat[a] as i64 - g[a] as i64 == l as i64 {
            s = s + w[i] as u128;
        }
        i = i + 1;
    }
    s
}

/// Weight of the candidates with random tier `r` on axis `a`.
fn random_cell(cands: &[Candidate], w: &Vec<u64>, a: usize, r: i32) -> (s: u128)
    requires
        a < 5,
        w@.len() == cands@.len(),
    ensures
        s == wsum(w@, random_is(cands@, a as int, r as int), cands@.len() as int),
{
    let mut s: u128 = 0;
    let mut i: usize = 0;
    while i < cands.len()
        invariant
            0 <= i <= cands@.len(),
            a < 5,
            w@.len() == cands@.len(),
            s == wsum(w@, random_is(cands@, a as int, r as int), i as int),
        decreases cands@.len() - i,
    {
        proof { lemma_wsum_bound(w@, random_is(cands@, a as int, r as int), i as int); }
        assert(i * 0x1_0000_0000_0000_0000 <= 0x1_0000_0000_0000_0000 * 0x1_0000_0000_0000_0000) by (nonlinear_arith)
            requires
                i <= usize::MAX,
        ;
        if cands[i].random[a] == r {
            s = s + w[i] as u128;
        }
        i = i + 1;
    }
    s
}

/// Total tiers lost by a candidate.
fn lost_total_of(catalog: GrowRange, c: &Candidate) -> (t: i64)
    ensures
        t == lost_total(catalog, *c),
{
    let cat = catalog.to_array();
    let g = c.grow.to_array();
    (cat[0] as i64 - g[0] as i64) + (cat[1] as i64 - g[1] as i64) + (cat[2] as i64 - g[2] as i64)
        + (cat[3] as i64 - g[3] as i64) + (cat[4] as i64 - g[4] as i64)
}

/// Weight of the candidates losing `s` tiers in all.
fn total_cell(catalog: GrowRange, cands: &[Candidate], w: &Vec<u64>, t: i32) -> (s: u128)
    requires
        w@.len() == cands@.len(),
    ensures
        s == wsum(w@, total_is(catalog, cands@, t as int), cands@.len() as int),
{
    let mut s: u128 = 0;
    let mut i: usize = 0;
    while i < cands.len()
        invariant
            0 <= i <= cands@.len(),
            w@.len() == cands@.len(),
            s == wsum(w@, total_is(catalog, cands@, t as int), i as int),
        decreases cands@.len() - i,
    {
        proof { lemma_wsum_bound(w@, total_is(catalog, cands@, t as int), i as int); }
        assert(i * 0x1_0000_0000_0000_0000 <= 0x1_0000_0000_0000_0000 * 0x1_0000_0000_0000_0000) by (nonlinear_arith)
            requires
                i <= usize::MAX,
        ;
        if lost_total_of(catalog, &cands[i]) == t as i64 {
            s = s + w[i] as u128;
        }
        i = i + 1;
    }
    s
}

proof fn lemma_combo_lt_facts()
    ensures
        forall|a: [i32; 5]| !combo_lt(a, a),
        forall|a: [i32; 5], b: [i32; 5], c: [i32; 5]| #[trigger] combo_lt(a, b) && #[trigger] combo_lt(b, c) ==> combo_lt(a, c),
        forall|a: [i32; 5], b: [i32; 5]| a != b ==> #[trigger] combo_lt(a, b) || #[trigger] combo_lt(b, a),
{
    assert forall|a: [i32; 5], b: [i32; 5]| a != b implies #[trigger] combo_lt(a, b) || #[trigger] combo_lt(b, a) by {
        if !(combo_lt(a, b) || combo_lt(b, a)) {
            crate::enumerate::lemma_eq5(a, b);
        }
    }
}

fn tuple_eq(a: [i32; 5], b: [i32; 5]) -> (r: bool)
    ensures
        r == (a == b),
{
    if a[0] == b[0] && a[1] == b[1] && a[2] == b[2] && a[3] == b[3] && a[4] == b[4] {
        proof { crate::enumerate::lemma_eq5(a, b); }
        true
    } else {
        false
    }
}

fn tuple_less(a: [i32; 5], b: [i32; 5]) -> (r: bool)
    ensures
        r == combo_lt(a, b),
{
    let sa: i64 = a[0] as i64 + a[1] as i64 + a[2] as i64 + a[3] as i64 + a[4] as i64;
    let sb: i64 = b[0] as i64 + b[1] as i64 + b[2] as i64 + b[3] as i64 + b[4] as i64;
    if sa != sb {
        return sa < sb;
    }
    a[0] < b[0] || (a[0] == b[0] && (a[1] < b[1] || (a[1] == b[1] && (a[2] < b[2] || (a[2] == b[2] && (a[3] < b[3]
        || (a[3] == b[3] && a[4] < b[4])))))))
}

fn loss_tuple_of(catalog: GrowRange, c: &Candidate) -> (t: [i32; 5])
    requires
        loss_fits(catalog, *c),
    ensures
        t == lost_tuple(catalog, *c),
{
    reveal(lost_tuple);
    let cat = catalog.to_array();
    let g = c.grow.to_array();
    assert(i32::MIN <= lost_at(catalog, *c, 0) <= i32::MAX);
    assert(i32::MIN <= lost_at(catalog, *c, 1) <= i32::MAX);
    assert(i32::MIN <= lost_at(catalog, *c, 2) <= i32::MAX);
    assert(i32::MIN <= lost_at(catalog, *c, 3) <= i32::MAX);
    assert(i32::MIN <= lost_at(catalog, *c, 4) <= i32::MAX);
    [
        (cat[0] as i64 - g[0] as i64) as i32,
        (cat[1] as i64 - g[1] as i64) as i32,
        (cat[2] as i64 - g[2] as i64) as i32,
        (cat[3] as i64 - g[3] as i64) as i32,
        (cat[4] as i64 - g[4] as i64) as i32,
    ]
}

/// Candidate `i` does not count towards any loss tuple: the prefix facts carry over.
proof fn lemma_combo_skip(combos: Seq<LostCombo>, w: Seq<u64>, catalog: GrowRange, cands: Seq<Candidate>, i: int)
    requires
        0 <= i < cands.len(),
        combos_inv(combos, w, catalog, cands, i),
        !counts(catalog, cands, i),
    ensures
        combos_inv(combos, w, catalog, cands, i + 1),
{
    assert forall|j: int| 0 <= j < combos.len() implies (#[trigger] combos[j]).total == crate::enumerate::sum5(combos[j].lost)
        && combos[j].weight == wsum(w, combo_is(catalog, cands, combos[j].lost), i + 1)
        && exists|k: int| 0 <= k < i + 1 && #[trigger] has_combo(catalog, cands, k, combos[j].lost) by {
        lemma_has_combo(catalog, cands, i, combos[j].lost);
        let k = choose|k: int| 0 <= k < i && #[trigger] has_combo(catalog, cands, k, combos[j].lost);
        assert(0 <= k < i + 1);
    }
}

/// Candidate `i` has the loss tuple of entry `j`: its weight goes there.
proof fn lemma_combo_add(combos: Seq<LostCombo>, w: Seq<u64>, catalog: GrowRange, cands: Seq<Candidate>, i: int, j: int)
    requires
        0 <= i < cands.len(),
        i < w.len(),
        combos_inv(combos, w, catalog, cands, i),
        counts(catalog, cands, i),
        0 <= j < combos.len(),
        combos[j].lost == lost_tuple(catalog, cands[i]),
        combos[j].weight + w[i] <= u128::MAX,
    ensures
        combos_inv(combos.update(j, LostCombo { lost: combos[j].lost, total: combos[j].total, weight: (combos[j].weight + w[i]) as u128 }),
            w, catalog, cands, i + 1),
{
    lemma_combo_lt_facts();
    let x = LostCombo { lost: combos[j].lost, total: combos[j].total, weight: (combos[j].weight + w[i]) as u128 };
    let nc = combos.update(j, x);
    assert forall|k: int| 0 <= k < nc.len() implies (#[trigger] nc[k]).total == crate::enumerate::sum5(nc[k].lost)
        && nc[k].weight == wsum(w, combo_is(catalog, cands, nc[k].lost), i + 1)
        && exists|m: int| 0 <= m < i + 1 && #[trigger] has_combo(catalog, cands, m, nc[k].lost) by {
        lemma_has_combo(catalog, cands, i, combos[k].lost);
        if k == j {
            assert(has_combo(catalog, cands, i, combos[j].lost));
            assert(combo_is(catalog, cands, combos[j].lost)(i));
            assert(nc[k].weight == combos[j].weight + w[i]);
            assert(0 <= i < i + 1 && has_combo(catalog, cands, i, nc[k].lost));
        } else {
            assert(combos[k].lost != combos[j].lost) by {
                if k < j {
                    assert(combo_lt(combos[k].lost, combos[j].lost));
                } else {
                    assert(combo_lt(combos[j].lost, combos[k].lost));
                }
            }
            assert(!has_combo(catalog, cands, i, combos[k].lost));
            let m = choose|m: int| 0 <= m < i && #[trigger] has_combo(catalog, cands, m, combos[k].lost);
            assert(0 <= m < i + 1);
        }
    }
    assert forall|m: int| 0 <= m < i + 1 && #[trigger] counts(catalog, cands, m)
        implies exists|k: int| 0 <= k < nc.len() && #[trigger] nc[k].lost == lost_tuple(catalog, cands[m]) by {
        if m == i {
            assert(nc[j].lost == lost_tuple(catalog, cands[m]));
        } else {
            let k = choose|k: int| 0 <= k < combos.len() && #[trigger] combos[k].lost == lost_tuple(catalog, cands[m]);
            assert(nc[k].lost == combos[k].lost);
        }
    }
    assert forall|a: int, b: int| 0 <= a < b < nc.len() implies combo_lt(#[trigger] nc[a].lost, #[trigger] nc[b].lost) by {
        assert(combo_lt(combos[a].lost, combos[b].lost));
    }
}

/// Candidate `i` has a loss tuple not listed yet: it goes in at `j`.
proof fn lemma_combo_insert(combos: Seq<LostCombo>, w: Seq<u64>, catalog: GrowRange, cands: Seq<Candidate>, i: int, j: int,
    t: [i32; 5], total: i32)
    requires
        0 <= i < cands.len(),
        i < w.len(),
        combos_inv(combos, w, catalog, cands, i),
        counts(catalog, cands, i),
        t == lost_tuple(catalog, cands[i]),
        total == crate::enumerate::sum5(t),
        0 <= j <= combos.len(),
        forall|k: int| 0 <= k < j ==> combo_lt(#[trigger] combos[k].lost, t),
        j < combos.len() ==> combos[j].lost != t && !combo_lt(combos[j].lost, t),
    ensures
        combos_inv(combos.insert(j, LostCombo { lost: t, total, weight: w[i] as u128 }), w, catalog, cands, i + 1),
{
    lemma_combo_lt_facts();
    let x = LostCombo { lost: t, total, weight: w[i] as u128 };
    let nc = combos.insert(j, x);
    assert forall|k: int| j <= k < combos.len() implies combo_lt(t, #[trigger] combos[k].lost) by {
        assert(combo_lt(t, combos[j].lost));
        if k > j {
            assert(combo_lt(combos[j].lost, combos[k].lost));
        }
    }
    assert forall|k: int| 0 <= k < combos.len() implies (#[trigger] combos[k]).lost != t by {
        if k < j {
            assert(combo_lt(combos[k].lost, t));
        } else {
            assert(combo_lt(t, combos[k].lost));
        }
    }
    assert forall|m: int| 0 <= m < i implies !#[trigger] has_combo(catalog, cands, m, t) by {
        lemma_has_combo(catalog, cands, m, t);
        if has_combo(catalog, cands, m, t) {
            assert(counts(catalog, cands, m));
            let k = choose|k: int| 0 <= k < combos.len() && #[trigger] combos[k].lost == lost_tuple(catalog, cands[m]);
            assert(combos[k].lost != t);
        }
    }
    assert forall|m: int| 0 <= m < i implies !#[trigger] combo_is(catalog, cands, t)(m) by {
        assert(!has_combo(catalog, cands, m, t));
    }
    lemma_wsum_none(w, combo_is(catalog, cands, t), i);
    lemma_has_combo(catalog, cands, i, t);
    assert(has_combo(catalog, cands, i, t));
    assert forall|k: int| 0 <= k < nc.len() implies (#[trigger] nc[k]).total == crate::enumerate::sum5(nc[k].lost)
        && nc[k].weight == wsum(w, combo_is(catalog, cands, nc[k].lost), i + 1)
        && exists|m: int| 0 <= m < i + 1 && #[trigger] has_combo(catalog, cands, m, nc[k].lost) by {
        if k == j {
            assert(nc[k] == x);
            assert(combo_is(catalog, cands, t)(i));
            assert(0 <= i < i + 1 && has_combo(catalog, cands, i, nc[k].lost));
        } else {
            let ko = if k < j { k } else { k - 1 };
            assert(nc[k] == combos[ko]);
            lemma_has_combo(catalog, cands, i, combos[ko].lost);
            assert(!has_combo(catalog, cands, i, combos[ko].lost));
            let m = choose|m: int| 0 <= m < i && #[trigger] has_combo(catalog, cands, m, combos[ko].lost);
            assert(0 <= m < i + 1);
        }
    }
    assert forall|m: int| 0 <= m < i + 1 && #[trigger] counts(catalog, cands, m)
        implies exists|k: int| 0 <= k < nc.len() && #[trigger] nc[k].lost == lost_tuple(catalog, cands[m]) by {
        if m == i {
            assert(nc[j].lost == t);
        } else {
            let k = choose|k: int| 0 <= k < combos.len() && #[trigger] combos[k].lost == lost_tuple(catalog, cands[m]);
            if k < j {
                assert(nc[k] == combos[k]);
            } else {
                assert(nc[k + 1] == combos[k]);
            }
        }
    }
    assert forall|a: int, b: int| 0 <= a < b < nc.len() implies combo_lt(#[trigger] nc[a].lost, #[trigger] nc[b].lost) by {
        if a < j && b < j {
            assert(combo_lt(combos[a].lost, combos[b].lost));
        } else if a < j && b == j {
        } else if a < j && b > j {
            assert(nc[b] == combos[b - 1]);
            assert(combo_lt(combos[a].lost, combos[b - 1].lost));
        } else if a == j {
            assert(nc[b] == combos[b - 1]);
        } else {
            assert(nc[a] == combos[a - 1] && nc[b] == combos[b - 1]);
            assert(combo_lt(combos[a - 1].lost, combos[b - 1].lost));
        }
    }
}

/// The distinct loss tuples with their weights, ordered by total then lexicographically.
fn lost_combos(catalog: GrowRange, cands: &[Candidate], w: &Vec<u64>) -> (combos: Vec<LostCombo>)
    requires
        w@.len() == cands@.len(),
        forall|i: int| 0 <= i < cands@.len() ==> loss_fits(catalog, #[trigger] cands@[i]),
    ensures
        combos_of(combos@, w@, catalog, cands@),
{
    let mut combos: Vec<LostCombo> = Vec::new();
    let mut i: usize = 0;
    while i < cands.len()
        invariant
            0 <= i <= cands@.len(),
            w@.len() == cands@.len(),
            forall|k: int| 0 <= k < cands@.len() ==> loss_fits(catalog, #[trigger] cands@[k]),
            combos_inv(combos@, w@, catalog, cands@, i as int),
        decreases cands@.len() - i,
    {
        let lt = lost_total_of(catalog, &cands[i]);
        if 0 <= lt && lt < TOTAL_LOST_SLOTS as i64 {
            assert(loss_fits(catalog, cands@[i as int]));
            assert(counts(catalog, cands@, i as int)) by { reveal(counts); }
            let t = loss_tuple_of(catalog, &cands[i]);
            let mut j: usize = 0;
            while j < combos.len() && tuple_less(combos[j].lost, t)
                invariant
                    0 <= j <= combos@.len(),
                    forall|k: int| 0 <= k < j ==> combo_lt(#[trigger] combos@[k].lost, t),
                decreases combos@.len() - j,
            {
                j = j + 1;
            }
            proof {
                lemma_wsum_bound(w@, combo_is(catalog, cands@, t), i as int);
            }
            if j < combos.len() && tuple_eq(combos[j].lost, t) {
                let c = combos[j];
                proof {
                    lemma_wsum_bound(w@, combo_is(catalog, cands@, c.lost), i as int);
                    lemma_combo_add(combos@, w@, catalog, cands@, i as int, j as int);
                }
                assert(i * 0x1_0000_0000_0000_0000 <= 0x1_0000_0000_0000_0000 * 0x1_0000_0000_0000_0000 - 0x1_0000_0000_0000_0000) by (nonlinear_arith)
                    requires
                        i < usize::MAX,
                ;
                combos.set(j, LostCombo { lost: c.lost, total: c.total, weight: c.weight + w[i] as u128 });
            } else {
                assert(i32::MIN <= lost_total(catalog, cands@[i as int]) <= i32::MAX);
                let total: i32 = lt as i32;
                proof {
                    lemma_tuple_sum(catalog, cands@[i as int]);
                    lemma_combo_insert(combos@, w@, catalog, cands@, i as int, j as int, t, total);
                }
                combos.insert(j, LostCombo { lost: t, total, weight: w[i] as u128 });
            }
        } else {
            assert(!counts(catalog, cands@, i as int)) by { reveal(counts); }
            proof { lemma_combo_skip(combos@, w@, catalog, cands@, i as int); }
        }
        i = i + 1;
    }
    combos
}

fn lost_row(catalog: GrowRange, cands: &[Candidate], w: &Vec<u64>, a: usize) -> (r: [u128; 5])
    requires
        w@.len() == cands@.len(),
        a < 5,
    ensures
        forall|k: int| 0 <= k < 5 ==> #[trigger] r[k] == wsum(w@, lost_is(catalog, cands@, a as int, k), cands@.len() as int),
{
    let r = [
        lost_cell(catalog, cands, w, a, 0),
        lost_cell(catalog, cands, w, a, 1),
        lost_cell(catalog, cands, w, a, 2),
        lost_cell(catalog, cands, w, a, 3),
        lost_cell(catalog, cands, w, a, 4),
    ];
    assert forall|k: int| 0 <= k < 5 implies #[trigger] r[k] == wsum(w@, lost_is(catalog, cands@, a as int, k), cands@.len() as int) by {
        if k == 0 {} else if k == 1 {} else if k == 2 {} else if k == 3 {} else {}
    }
    r
}

fn random_row(cands: &[Candidate], w: &Vec<u64>, a: usize) -> (r: [u128; 11])
    requires
        w@.len() == cands@.len(),
        a < 5,
    ensures
        forall|k: int| 0 <= k < 11 ==> #[trigger] r[k] == wsum(w@, random_is(cands@, a as int, k), cands@.len() as int),
{
    let r = [
        random_cell(cands, w, a, 0),
        random_cell(cands, w, a, 1),
        random_cell(cands, w, a, 2),
        random_cell(cands, w, a, 3),
        random_cell(cands, w, a, 4),
        random_cell(cands, w, a, 5),
        random_cell(cands, w, a, 6),
        random_cell(cands, w, a, 7),
        random_cell(cands, w, a, 8),
        random_cell(cands, w, a, 9),
        random_cell(cands, w, a, 10),
    ];
    assert forall|k: int| 0 <= k < 11 implies #[trigger] r[k] == wsum(w@, random_is(cands@, a as int, k), cands@.len() as int) by {
        if k == 0 {} else if k == 1 {} else if k == 2 {} else if k == 3 {} else if k == 4 {} else if k == 5 {} else if k == 6 {} else if k == 7 {} else if k == 8 {} else if k == 9 {} else {}
    }
    r
}

fn total_row(catalog: GrowRange, cands: &[Candidate], w: &Vec<u64>) -> (r: [u128; 21])
    requires
        w@.len() == cands@.len(),
    ensures
        forall|k: int| 0 <= k < 21 ==> #[trigger] r[k] == wsum(w@, total_is(catalog, cands@, k), cands@.len() as int),
{
    let r = [
        total_cell(catalog, cands, w, 0),
        total_cell(catalog, cands, w, 1),
        total_cell(catalog, cands, w, 2),
        total_cell(catalog, cands, w, 3),
        total_cell(catalog, cands, w, 4),
        total_cell(catalog, cands, w, 5),
        total_cell(catalog, cands, w, 6),
        total_cell(catalog, cands, w, 7),
        total_cell(catalog, cands, w, 8),
        total_cell(catalog, cands, w, 9),
        total_cell(catalog, cands, w, 10),
        total_cell(catalog, cands, w, 11),
        total_cell(catalog, cands, w, 12),
        total_cell(catalog, cands, w, 13),
        total_cell(catalog, cands, w, 14),
        total_cell(catalog, cands, w, 15),
        total_cell(catalog, cands, w, 16),
        total_cell(catalog, cands, w, 17),
        total_cell(catalog, cands, w, 18),
        total_cell(catalog, cands, w, 19),
        total_cell(catalog, cands, w, 20),
    ];
    assert forall|k: int| 0 <= k < 21 implies #[trigger] r[k] == wsum(w@, total_is(catalog, cands@, k), cands@.len() as int) by {
        if k == 0 {} else if k == 1 {} else if k == 2 {} else if k == 3 {} else if k == 4 {} else if k == 5 {} else if k == 6 {} else if k == 7 {} else if k == 8 {} else if k == 9 {} else if k == 10 {} else if k == 11 {} else if k == 12 {} else if k == 13 {} else if k == 14 {} else if k == 15 {} else if k == 16 {} else if k == 17 {} else if k == 18 {} else if k == 19 {} else {}
    }
    r
}

/// `x` is settled against `total`: `100 * x / total` is within 0.01 of 100,
/// i.e. `(total - x) * 10000 < total`.
pub open spec fn settled(total: int, x: int) -> bool {
    (total - x) * 10000 < total
}

/// Candidate `i` ties the heaviest: `100 * |w - max| / total < 0.01`.
pub open spec fn is_best(d: Distribution, i: int) -> bool {
    &&& d.total_weight > 0
    &&& (if d.weight@[i] >= d.max_weight { d.weight@[i] - d.max_weight } else { d.max_weight - d.weight@[i] }) * 10000 < d.total_weight
}

/// Some loss of axis `a` is settled.
pub open spec fn axis_settled(d: Distribution, a: int) -> bool {
    exists|l: int| 0 <= l < 5 && settled(d.total_weight as int, #[trigger] d.lost_marginal[a][l] as int)
}

/// First index of `row` holding a positive weight.
pub open spec fn first_positive(row: Seq<u128>, r: int) -> bool {
    0 <= r < row.len() && row[r] > 0 && forall|l: int| 0 <= l < r ==> #[trigger] row[l] == 0
}

/// Tiers of each axis for candidate `i` lie in `[lo, hi]`.
pub open spec fn in_grow_box(cands: Seq<Candidate>, lo: [i32; 5], hi: [i32; 5]) -> spec_fn(int) -> bool {
    |i: int| forall|a: int| 0 <= a < 5 ==> lo[a] <= #[trigger] cands[i].grow.tiers()[a] <= hi[a]
}

/// Sum of the tiers of candidate `c` over the listed axes.
pub open spec fn axes_sum(c: Candidate, axes: Seq<usize>, n: int) -> int
    decreases n,
{
    if n <= 0 { 0 } else { axes_sum(c, axes, n - 1) + c.grow.tiers()[axes[n - 1] as int] }
}

pub open spec fn axes_at_least(cands: Seq<Candidate>, axes: Seq<usize>, threshold: int) -> spec_fn(int) -> bool {
    |i: int| axes_sum(cands[i], axes, axes.len() as int) >= threshold
}

pub open spec fn min_len(a: int, b: int) -> int {
    if a < b { a } else { b }
}

impl Distribution {
    /// A copy of this distribution.
    pub fn copy(&self) -> (d: Self)
        ensures
            d.weight@ == self.weight@,
            d.total_weight == self.total_weight,
            d.max_weight == self.max_weight,
            d.lost_marginal == self.lost_marginal,
            d.random_marginal == self.random_marginal,
            d.lost_total_marginal == self.lost_total_marginal,
            d.lost_combos@ == self.lost_combos@,
    {
        let weight = self.weight.clone();
        let lost_combos = self.lost_combos.clone();
        assert(weight@ =~= self.weight@);
        assert(lost_combos@ =~= self.lost_combos@);
        Distribution {
            weight,
            total_weight: self.total_weight,
            max_weight: self.max_weight,
            lost_marginal: self.lost_marginal,
            random_marginal: self.random_marginal,
            lost_total_marginal: self.lost_total_marginal,
            lost_combos,
        }
    }

    /// The distribution of a batch of candidates against the catalog tiers
    /// (which give back the per-axis loss).
    pub fn summarize(catalog: GrowRange, candidates: &[Candidate]) -> (d: Self)
        requires
            forall|i: int| 0 <= i < candidates@.len() ==> loss_fits(catalog, #[trigger] candidates@[i]),
        ensures
            summarizes(d, catalog, candidates@),
    {
        let weight = candidate_weights(candidates);
        let (total_weight, max_weight) = total_and_max(&weight);
        let lost_marginal = [
            lost_row(catalog, candidates, &weight, 0),
            lost_row(catalog, candidates, &weight, 1),
            lost_row(catalog, candidates, &weight, 2),
            lost_row(catalog, candidates, &weight, 3),
            lost_row(catalog, candidates, &weight, 4),
        ];
        let random_marginal = [
            random_row(candidates, &weight, 0),
            random_row(candidates, &weight, 1),
            random_row(candidates, &weight, 2),
            random_row(candidates, &weight, 3),
            random_row(candidates, &weight, 4),
        ];
        let lost_total_marginal = total_row(catalog, candidates, &weight);
        let lost_combos = lost_combos(catalog, candidates, &weight);
        let d = Distribution {
            weight,
            total_weight,
            max_weight,
            lost_marginal,
            random_marginal,
            lost_total_marginal,
            lost_combos,
        };
        assert forall|a: int, l: int| 0 <= a < 5 && 0 <= l < 5 implies #[trigger] d.lost_marginal[a][l]
            == wsum(d.weight@, lost_is(catalog, candidates@, a, l), candidates@.len() as int) by {
            if a == 0 {} else if a == 1 {} else if a == 2 {} else if a == 3 {} else {}
        }
        assert forall|a: int, r: int| 0 <= a < 5 && 0 <= r < 11 implies #[trigger] d.random_marginal[a][r]
            == wsum(d.weight@, random_is(candidates@, a, r), candidates@.len() as int) by {
            if a == 0 {} else if a == 1 {} else if a == 2 {} else if a == 3 {} else {}
        }
        d
    }

    /// Per axis, the fewest tiers certainly lost: the first loss with a
    /// positive weight (0 when there is none).
    pub fn guaranteed_lost(&self) -> (g: [i32; 5])
        ensures
            forall|a: int| 0 <= a < 5 ==> if exists|l: int| 0 <= l < 5 && #[trigger] self.lost_marginal[a][l] > 0 {
                first_positive(self.lost_marginal[a]@, #[trigger] g[a] as int)
            } else {
                g[a] == 0
            },
    {
        let mut g: [i32; 5] = [0; 5];
        let mut a: usize = 0;
        while a < 5
            invariant
                0 <= a <= 5,
                forall|b: int| 0 <= b < a ==> if exists|l: int| 0 <= l < 5 && #[trigger] self.lost_marginal[b][l] > 0 {
                    first_positive(self.lost_marginal[b]@, #[trigger] g[b] as int)
                } else {
                    g[b] == 0
                },
            decreases 5 - a,
        {
            let row = self.lost_marginal[a];
            let mut l: usize = 0;
            while l < 5 && row[l] == 0
                invariant
                    0 <= l <= 5,
                    forall|k: int| 0 <= k < l ==> #[trigger] row[k] == 0,
                decreases 5 - l,
            {
                l = l + 1;
            }
            g[a] = if l < 5 { l as i32 } else { 0 };
            a = a + 1;
        }
        g
    }

    /// The smallest and largest total loss with a positive weight; `None`
    /// when there is none.
    pub fn lost_total_range(&self) -> (r: Option<(i32, i32)>)
        ensures
            match r {
                None => forall|s: int| 0 <= s < 21 ==> #[trigger] self.lost_total_marginal[s] == 0,
                Some((lo, hi)) => {
                    &&& 0 <= lo <= hi < 21
                    &&& self.lost_total_marginal[lo as int] > 0
                    &&& self.lost_total_marginal[hi as int] > 0
                    &&& forall|s: int| 0 <= s < 21 && (s < lo || s > hi) ==> #[trigger] self.lost_total_marginal[s] == 0
                },
            },
    {
        let t = self.lost_total_marginal;
        let mut lo: usize = 0;
        while lo < 21 && t[lo] == 0
            invariant
                0 <= lo <= 21,
                t == self.lost_total_marginal,
                forall|k: int| 0 <= k < lo ==> #[trigger] t[k] == 0,
            decreases 21 - lo,
        {
            lo = lo + 1;
        }
        if lo == 21 {
            return None;
        }
        let mut hi: usize = 20;
        while hi > lo && t[hi] == 0
            invariant
                lo <= hi <= 20,
                t == self.lost_total_marginal,
                t[lo as int] > 0,
                forall|k: int| hi < k < 21 ==> #[trigger] t[k] == 0,
            decreases hi,
        {
            hi = hi - 1;
        }
        Some((lo as i32, hi as i32))
    }

    /// Indices of the heaviest candidates (ties included), in order; none
    /// when the total weight is 0.
    pub fn best(&self) -> (b: Vec<usize>)
        ensures
            forall|j: int, k: int| 0 <= j < k < b@.len() ==> #[trigger] b@[j] < #[trigger] b@[k],
            forall|j: int| 0 <= j < b@.len() ==> (#[trigger] b@[j]) < self.weight@.len() && is_best(*self, b@[j] as int),
            forall|i: int| 0 <= i < self.weight@.len() && is_best(*self, i) ==> b@.contains(i as usize),
    {
        let mut b: Vec<usize> = Vec::new();
        if self.total_weight == 0 {
            return b;
        }
        let mut i: usize = 0;
        while i < self.weight.len()
            invariant
                0 <= i <= self.weight@.len(),
                self.total_weight > 0,
                forall|j: int, k: int| 0 <= j < k < b@.len() ==> #[trigger] b@[j] < #[trigger] b@[k],
                forall|j: int| 0 <= j < b@.len() ==> (#[trigger] b@[j]) < i && is_best(*self, b@[j] as int),
                forall|k: int| 0 <= k < i && is_best(*self, k) ==> b@.contains(k as usize),
            decreases self.weight@.len() - i,
        {
            let w = self.weight[i];
            let diff: u128 = if w >= self.max_weight { (w - self.max_weight) as u128 } else { (self.max_weight - w) as u128 };
            if diff * 10000 < self.total_weight {
                let ghost old_b = b@;
                b.push(i);
                proof {
                    assert forall|k: int| 0 <= k < i + 1 && is_best(*self, k) implies b@.contains(k as usize) by {
                        if k < i {
                            let j = choose|j: int| 0 <= j < old_b.len() && old_b[j] == k as usize;
                            assert(b@[j] == k as usize);
                        } else {
                            assert(b@[old_b.len() as int] == i);
                        }
                    }
                }
            }
            i = i + 1;
        }
        b
    }

    /// Per axis, the loss that carries (all but 0.01 percent of) the whole
    /// weight, if any.
    pub fn determined_lost(&self) -> (d: [Option<i32>; 5])
        ensures
            forall|a: int| 0 <= a < 5 ==> match #[trigger] d[a] {
                Some(l) => 0 <= l < 5 && settled(self.total_weight as int, self.lost_marginal[a][l as int] as int)
                    && forall|k: int| 0 <= k < l ==> !settled(self.total_weight as int, #[trigger] self.lost_marginal[a][k] as int),
                None => forall|k: int| 0 <= k < 5 ==> !settled(self.total_weight as int, #[trigger] self.lost_marginal[a][k] as int),
            },
    {
        let mut d: [Option<i32>; 5] = [None; 5];
        let mut a: usize = 0;
        while a < 5
            invariant
                0 <= a <= 5,
                forall|b: int| 0 <= b < a ==> match #[trigger] d[b] {
                    Some(l) => 0 <= l < 5 && settled(self.total_weight as int, self.lost_marginal[b][l as int] as int)
                        && forall|k: int| 0 <= k < l ==> !settled(self.total_weight as int, #[trigger] self.lost_marginal[b][k] as int),
                    None => forall|k: int| 0 <= k < 5 ==> !settled(self.total_weight as int, #[trigger] self.lost_marginal[b][k] as int),
                },
            decreases 5 - a,
        {
            let row = self.lost_marginal[a];
            let mut l: usize = 0;
            let mut found: Option<i32> = None;
            while l < 5
                invariant
                    0 <= l <= 5,
                    row == self.lost_marginal[a as int],
                    match found {
                        Some(x) => 0 <= x < l && settled(self.total_weight as int, row[x as int] as int)
                            && forall|k: int| 0 <= k < x ==> !settled(self.total_weight as int, #[trigger] row[k] as int),
                        None => forall|k: int| 0 <= k < l ==> !settled(self.total_weight as int, #[trigger] row[k] as int),
                    },
                decreases 5 - l,
            {
                if found.is_none() && settles(self.total_weight, row[l]) {
                    found = Some(l as i32);
                }
                l = l + 1;
            }
            d[a] = found;
            a = a + 1;
        }
        d
    }

    /// Every axis has a settled loss.
    pub fn is_fully_determined(&self) -> (r: bool)
        ensures
            r == forall|a: int| 0 <= a < 5 ==> #[trigger] axis_settled(*self, a),
    {
        let d = self.determined_lost();
        let r = d[0].is_some() && d[1].is_some() && d[2].is_some() && d[3].is_some() && d[4].is_some();
        proof {
            if r {
                assert forall|a: int| 0 <= a < 5 implies #[trigger] axis_settled(*self, a) by {
                    assert(d[a] is Some);
                    let l = d[a]->0;
                    assert(settled(self.total_weight as int, self.lost_marginal[a][l as int] as int));
                }
            } else {
                let a = if d[0].is_none() { 0 } else if d[1].is_none() { 1 } else if d[2].is_none() { 2 } else if d[3].is_none() { 3 } else { 4int };
                assert(d[a] is None);
                assert(!axis_settled(*self, a));
            }
        }
        r
    }

    /// Weight of the candidates whose tiers lie in `[lo, hi]` on every axis.
    pub fn probability_in_grow_range(&self, candidates: &[Candidate], lo: [i32; 5], hi: [i32; 5]) -> (p: u128)
        ensures
            p == wsum(self.weight@, in_grow_box(candidates@, lo, hi), min_len(candidates@.len() as int, self.weight@.len() as int)),
    {
        let n = if candidates.len() < self.weight.len() { candidates.len() } else { self.weight.len() };
        let mut p: u128 = 0;
        let mut i: usize = 0;
        while i < n
            invariant
                0 <= i <= n,
                n == min_len(candidates@.len() as int, self.weight@.len() as int),
                p == wsum(self.weight@, in_grow_box(candidates@, lo, hi), i as int),
            decreases n - i,
        {
            proof { lemma_wsum_bound(self.weight@, in_grow_box(candidates@, lo, hi), i as int); }
            assert(i * 0x1_0000_0000_0000_0000 <= 0x1_0000_0000_0000_0000 * 0x1_0000_0000_0000_0000 - 0x1_0000_0000_0000_0000) by (nonlinear_arith)
                requires
                    i < usize::MAX,
            ;
            let g = candidates[i].grow.to_array();
            let inside = lo[0] <= g[0] && g[0] <= hi[0] && lo[1] <= g[1] && g[1] <= hi[1] && lo[2] <= g[2] && g[2] <= hi[2]
                && lo[3] <= g[3] && g[3] <= hi[3] && lo[4] <= g[4] && g[4] <= hi[4];
            proof {
                if inside {
                    assert forall|a: int| 0 <= a < 5 implies lo[a] <= #[trigger] candidates@[i as int].grow.tiers()[a] <= hi[a] by {
                        if a == 0 {} else if a == 1 {} else if a == 2 {} else if a == 3 {} else {}
                    }
                }
            }
            if inside {
                p = p + self.weight[i] as u128;
            }
            i = i + 1;
        }
        p
    }

    /// Weight of the candidates whose tiers, summed over `axes`, reach `threshold`.
    pub fn probability_axis_sum_at_least(&self, candidates: &[Candidate], axes: &[usize], threshold: i32) -> (p: u128)
        requires
            forall|k: int| 0 <= k < axes@.len() ==> #[trigger] axes@[k] < 5,
        ensures
            p == wsum(self.weight@, axes_at_least(candidates@, axes@, threshold as int), min_len(candidates@.len() as int, self.weight@.len() as int)),
    {
        let n = if candidates.len() < self.weight.len() { candidates.len() } else { self.weight.len() };
        let mut p: u128 = 0;
        let mut i: usize = 0;
        while i < n
            invariant
                0 <= i <= n,
                n == min_len(candidates@.len() as int, self.weight@.len() as int),
                forall|k: int| 0 <= k < axes@.len() ==> #[trigger] axes@[k] < 5,
                p == wsum(self.weight@, axes_at_least(candidates@, axes@, threshold as int), i as int),
            decreases n - i,
        {
            proof { lemma_wsum_bound(self.weight@, axes_at_least(candidates@, axes@, threshold as int), i as int); }
            assert(i * 0x1_0000_0000_0000_0000 <= 0x1_0000_0000_0000_0000 * 0x1_0000_0000_0000_0000 - 0x1_0000_0000_0000_0000) by (nonlinear_arith)
                requires
                    i < usize::MAX,
            ;
            let sum = axes_total(&candidates[i], axes);
            if sum >= threshold as i128 {
                p = p + self.weight[i] as u128;
            }
            i = i + 1;
        }
        p
    }

    /// Weight of the candidates `pred` accepts (the first `min(n, weights)` of them).
    pub fn probability_where<F: Fn(&Candidate) -> bool>(&self, candidates: &[Candidate], pred: F) -> (p: u128)
        requires
            forall|c: Candidate| #[trigger] pred.requires((&c,)),
        ensures
            exists|sel: Seq<bool>| #![trigger sel.len()] sel.len() == min_len(candidates@.len() as int, self.weight@.len() as int)
                && (forall|i: int| 0 <= i < sel.len() ==> #[trigger] pred.ensures((&candidates@[i],), sel[i]))
                && p == wsum(self.weight@, |i: int| sel[i], sel.len() as int),
    {
        let n = if candidates.len() < self.weight.len() { candidates.len() } else { self.weight.len() };
        let mut p: u128 = 0;
        let mut i: usize = 0;
        let ghost mut sel: Seq<bool> = Seq::empty();
        while i < n
            invariant
                0 <= i <= n,
                n == min_len(candidates@.len() as int, self.weight@.len() as int),
                forall|c: Candidate| #[trigger] pred.requires((&c,)),
                sel.len() == i,
                forall|k: int| 0 <= k < i ==> #[trigger] pred.ensures((&candidates@[k],), sel[k]),
                p == wsum(self.weight@, |k: int| sel[k], i as int),
            decreases n - i,
        {
            proof { lemma_wsum_bound(self.weight@, |k: int| sel[k], i as int); }
            assert(i * 0x1_0000_0000_0000_0000 <= 0x1_0000_0000_0000_0000 * 0x1_0000_0000_0000_0000 - 0x1_0000_0000_0000_0000) by (nonlinear_arith)
                requires
                    i < usize::MAX,
            ;
            let keep = pred(&candidates[i]);
            let ghost old_sel = sel;
            proof {
                sel = sel.push(keep);
                assert forall|k: int| 0 <= k < i ==> #[trigger] old_sel[k] == sel[k] by {}
                lemma_wsum_same_prefix(self.weight@, |k: int| old_sel[k], |k: int| sel[k], i as int);
            }
            if keep {
                p = p + self.weight[i] as u128;
            }
            i = i + 1;
        }
        p
    }
}

proof fn lemma_wsum_same_prefix(w: Seq<u64>, f: spec_fn(int) -> bool, g: spec_fn(int) -> bool, n: int)
    requires
        forall|k: int| 0 <= k < n ==> #[trigger] f(k) == g(k),
    ensures
        wsum(w, f, n) == wsum(w, g, n),
    decreases n,
{
    if n > 0 {
        lemma_wsum_same_prefix(w, f, g, n - 1);
    }
}

/// `(total - x) * 10000 < total`, computed without overflow.
fn settles(total: u128, x: u128) -> (r: bool)
    ensures
        r == settled(total as int, x as int),
{
    if x >= total {
        total > 0 || x > 0
    } else {
        let d = total - x;
        d <= (total - 1) / 10000
    }
}

/// Sum of the tiers of `c` over `axes`.
fn axes_total(c: &Candidate, axes: &[usize]) -> (s: i128)
    requires
        forall|k: int| 0 <= k < axes@.len() ==> #[trigger] axes@[k] < 5,
    ensures
        s == axes_sum(*c, axes@, axes@.len() as int),
{
    let g = c.grow.to_array();
    let mut s: i128 = 0;
    let mut k: usize = 0;
    while k < axes.len()
        invariant
            0 <= k <= axes@.len(),
            g == c.grow.tiers(),
            forall|j: int| 0 <= j < axes@.len() ==> #[trigger] axes@[j] < 5,
            s == axes_sum(*c, axes@, k as int),
            -0x8000_0000 * k <= s <= 0x8000_0000 * k,
        decreases axes@.len() - k,
    {
        s = s + g[axes[k]] as i128;
        k = k + 1;
    }
    s
}


/// The indices whose key is `v`.
pub open spec fn key_is(key: spec_fn(int) -> int, v: int) -> spec_fn(int) -> bool {
    |i: int| key(i) == v
}

/// Weight of the first `n` indices, bin by bin over the keys `0..k`.
pub open spec fn binned(w: Seq<u64>, key: spec_fn(int) -> int, k: int, n: int) -> int
    decreases k,
{
    if k <= 0 {
        0
    } else {
        binned(w, key, k - 1, n) + wsum(w, key_is(key, k - 1), n)
    }
}

/// Sum of the first `k` entries of a row.
pub open spec fn row_total(row: Seq<u128>, k: int) -> int
    decreases k,
{
    if k <= 0 {
        0
    } else {
        row_total(row, k - 1) + row[k - 1] as int
    }
}

proof fn lemma_binned_none(w: Seq<u64>, key: spec_fn(int) -> int, k: int)
    ensures
        binned(w, key, k, 0) == 0,
    decreases k,
{
    if k > 0 {
        lemma_binned_none(w, key, k - 1);
    }
}

proof fn lemma_binned_step(w: Seq<u64>, key: spec_fn(int) -> int, k: int, n: int)
    requires
        n > 0,
    ensures
        binned(w, key, k, n) == binned(w, key, k, n - 1) + if 0 <= key(n - 1) < k { w[n - 1] as int } else { 0 },
    decreases k,
{
    if k > 0 {
        lemma_binned_step(w, key, k - 1, n);
        assert(key_is(key, k - 1)(n - 1) == (key(n - 1) == k - 1));
    }
}

proof fn lemma_binned_all(w: Seq<u64>, key: spec_fn(int) -> int, k: int, n: int)
    requires
        0 <= n,
        forall|i: int| 0 <= i < n ==> 0 <= #[trigger] key(i) < k,
    ensures
        binned(w, key, k, n) == wsum(w, every(), n),
    decreases n,
{
    if n == 0 {
        lemma_binned_none(w, key, k);
    } else {
        lemma_binned_all(w, key, k, n - 1);
        lemma_binned_step(w, key, k, n);
        assert(0 <= key(n - 1) < k);
        assert(every()(n - 1));
    }
}

proof fn lemma_row_is_binned(row: Seq<u128>, w: Seq<u64>, key: spec_fn(int) -> int, k: int, n: int)
    requires
        forall|v: int| 0 <= v < k ==> #[trigger] row[v] == wsum(w, key_is(key, v), n),
    ensures
        row_total(row, k) == binned(w, key, k, n),
    decreases k,
{
    if k > 0 {
        lemma_row_is_binned(row, w, key, k - 1, n);
        assert(row[k - 1] == wsum(w, key_is(key, k - 1), n));
    }
}

/// Each marginal of a summary shares out the whole weight: on every axis
/// the weights of losing `0..=4` tiers add up to the total weight, so do
/// those of each random tier `0..=10`, and so do those of each total loss
/// `0..=20` — for candidates that lose `0..=4` tiers and draw `0..=10`
/// random tiers on each axis.
pub proof fn lemma_marginals_partition(d: Distribution, catalog: GrowRange, cands: Seq<Candidate>)
    requires
        summarizes(d, catalog, cands),
        forall|i: int, a: int| 0 <= i < cands.len() && 0 <= a < 5 ==> 0 <= #[trigger] lost_at(catalog, cands[i], a) <= 4,
        forall|i: int, a: int| 0 <= i < cands.len() && 0 <= a < 5 ==> 0 <= #[trigger] cands[i].random[a] <= 10,
    ensures
        forall|a: int| 0 <= a < 5 ==> row_total(#[trigger] d.lost_marginal[a]@, 5) == d.total_weight,
        forall|a: int| 0 <= a < 5 ==> row_total(#[trigger] d.random_marginal[a]@, 11) == d.total_weight,
        row_total(d.lost_total_marginal@, 21) == d.total_weight,
{
    let n = cands.len() as int;
    let w = d.weight@;
    assert forall|a: int| 0 <= a < 5 implies row_total(#[trigger] d.lost_marginal[a]@, 5) == d.total_weight by {
        let key = |i: int| lost_at(catalog, cands[i], a);
        assert forall|v: int| 0 <= v < 5 implies #[trigger] d.lost_marginal[a]@[v] == wsum(w, key_is(key, v), n) by {
            assert(lost_is(catalog, cands, a, v) =~= key_is(key, v));
            assert(d.lost_marginal[a][v] == wsum(w, lost_is(catalog, cands, a, v), n));
        }
        lemma_row_is_binned(d.lost_marginal[a]@, w, key, 5, n);
        assert forall|i: int| 0 <= i < n implies 0 <= #[trigger] key(i) < 5 by {
            assert(0 <= lost_at(catalog, cands[i], a) <= 4);
        }
        lemma_binned_all(w, key, 5, n);
    }
    assert forall|a: int| 0 <= a < 5 implies row_total(#[trigger] d.random_marginal[a]@, 11) == d.total_weight by {
        let key = |i: int| cands[i].random[a] as int;
        assert forall|v: int| 0 <= v < 11 implies #[trigger] d.random_marginal[a]@[v] == wsum(w, key_is(key, v), n) by {
            assert(random_is(cands, a, v) =~= key_is(key, v));
            assert(d.random_marginal[a][v] == wsum(w, random_is(cands, a, v), n));
        }
        lemma_row_is_binned(d.random_marginal[a]@, w, key, 11, n);
        assert forall|i: int| 0 <= i < n implies 0 <= #[trigger] key(i) < 11 by {
            assert(0 <= cands[i].random[a] <= 10);
        }
        lemma_binned_all(w, key, 11, n);
    }
    let tkey = |i: int| lost_total(catalog, cands[i]);
    assert forall|v: int| 0 <= v < 21 implies #[trigger] d.lost_total_marginal@[v] == wsum(w, key_is(tkey, v), n) by {
        assert(total_is(catalog, cands, v) =~= key_is(tkey, v));
        assert(d.lost_total_marginal[v] == wsum(w, total_is(catalog, cands, v), n));
    }
    lemma_row_is_binned(d.lost_total_marginal@, w, tkey, 21, n);
    assert forall|i: int| 0 <= i < n implies 0 <= #[trigger] tkey(i) < 21 by {
        assert(0 <= lost_at(catalog, cands[i], 0) <= 4);
        assert(0 <= lost_at(catalog, cands[i], 1) <= 4);
        assert(0 <= lost_at(catalog, cands[i], 2) <= 4);
        assert(0 <= lost_at(catalog, cands[i], 3) <= 4);
        assert(0 <= lost_at(catalog, cands[i], 4) <= 4);
    }
    lemma_binned_all(w, tkey, 21, n);
}


/// Sum of the weights of the first `m` loss tuples that `keep` selects.
pub open spec fn combo_weights_where(combos: Seq<LostCombo>, keep: spec_fn([i32; 5]) -> bool, m: int) -> int
    decreases m,
{
    if m <= 0 {
        0
    } else {
        combo_weights_where(combos, keep, m - 1) + if keep(combos[m - 1].lost) { combos[m - 1].weight as int } else { 0 }
    }
}

/// Sum of the weights of the first `m` loss tuples.
pub open spec fn combo_weights(combos: Seq<LostCombo>, m: int) -> int {
    combo_weights_where(combos, |t: [i32; 5]| true, m)
}

/// The candidates whose total loss counts.
pub open spec fn counting(catalog: GrowRange, cands: Seq<Candidate>) -> spec_fn(int) -> bool {
    |i: int| counts(catalog, cands, i)
}

/// The candidates whose total loss counts and whose loss tuple `keep` selects.
pub open spec fn counting_where(catalog: GrowRange, cands: Seq<Candidate>, keep: spec_fn([i32; 5]) -> bool) -> spec_fn(int) -> bool {
    |i: int| counts(catalog, cands, i) && keep(lost_tuple(catalog, cands[i]))
}

spec fn combo_sums(combos: Seq<LostCombo>, w: Seq<u64>, catalog: GrowRange, cands: Seq<Candidate>,
    keep: spec_fn([i32; 5]) -> bool, m: int, n: int) -> int
    decreases m,
{
    if m <= 0 {
        0
    } else {
        combo_sums(combos, w, catalog, cands, keep, m - 1, n)
            + if keep(combos[m - 1].lost) { wsum(w, combo_is(catalog, cands, combos[m - 1].lost), n) } else { 0 }
    }
}

spec fn combo_hits(combos: Seq<LostCombo>, w: Seq<u64>, catalog: GrowRange, cands: Seq<Candidate>,
    keep: spec_fn([i32; 5]) -> bool, m: int, i: int) -> int
    decreases m,
{
    if m <= 0 {
        0
    } else {
        combo_hits(combos, w, catalog, cands, keep, m - 1, i)
            + if keep(combos[m - 1].lost) && has_combo(catalog, cands, i, combos[m - 1].lost) { w[i] as int } else { 0 }
    }
}

proof fn lemma_combo_sums_none(combos: Seq<LostCombo>, w: Seq<u64>, catalog: GrowRange, cands: Seq<Candidate>,
    keep: spec_fn([i32; 5]) -> bool, m: int)
    ensures
        combo_sums(combos, w, catalog, cands, keep, m, 0) == 0,
    decreases m,
{
    if m > 0 {
        lemma_combo_sums_none(combos, w, catalog, cands, keep, m - 1);
    }
}

proof fn lemma_combo_sums_step(combos: Seq<LostCombo>, w: Seq<u64>, catalog: GrowRange, cands: Seq<Candidate>,
    keep: spec_fn([i32; 5]) -> bool, m: int, n: int)
    requires
        n > 0,
    ensures
        combo_sums(combos, w, catalog, cands, keep, m, n)
            == combo_sums(combos, w, catalog, cands, keep, m, n - 1) + combo_hits(combos, w, catalog, cands, keep, m, n - 1),
    decreases m,
{
    if m > 0 {
        lemma_combo_sums_step(combos, w, catalog, cands, keep, m - 1, n);
        assert(combo_is(catalog, cands, combos[m - 1].lost)(n - 1) == has_combo(catalog, cands, n - 1, combos[m - 1].lost));
    }
}

proof fn lemma_combo_hits(combos: Seq<LostCombo>, w: Seq<u64>, catalog: GrowRange, cands: Seq<Candidate>,
    keep: spec_fn([i32; 5]) -> bool, m: int, i: int)
    requires
        0 <= m <= combos.len(),
        forall|j: int, k: int| 0 <= j < k < combos.len() ==> combo_lt(#[trigger] combos[j].lost, #[trigger] combos[k].lost),
    ensures
        combo_hits(combos, w, catalog, cands, keep, m, i)
            == if exists|j: int| 0 <= j < m && #[trigger] has_combo(catalog, cands, i, combos[j].lost) {
                if keep(lost_tuple(catalog, cands[i])) { w[i] as int } else { 0 }
            } else {
                0
            },
    decreases m,
{
    if m > 0 {
        lemma_combo_hits(combos, w, catalog, cands, keep, m - 1, i);
        let t = combos[m - 1].lost;
        if has_combo(catalog, cands, i, t) {
            lemma_has_combo(catalog, cands, i, t);
            assert forall|j: int| 0 <= j < m - 1 implies !#[trigger] has_combo(catalog, cands, i, combos[j].lost) by {
                lemma_has_combo(catalog, cands, i, combos[j].lost);
                assert(combo_lt(combos[j].lost, combos[m - 1].lost));
                if has_combo(catalog, cands, i, combos[j].lost) {
                    assert(combos[j].lost == t);
                }
            }
            assert(has_combo(catalog, cands, i, combos[m - 1].lost));
        } else {
            if exists|j: int| 0 <= j < m && #[trigger] has_combo(catalog, cands, i, combos[j].lost) {
                let j = choose|j: int| 0 <= j < m && #[trigger] has_combo(catalog, cands, i, combos[j].lost);
                assert(j < m - 1);
            }
        }
    }
}

proof fn lemma_combo_sums_count(combos: Seq<LostCombo>, w: Seq<u64>, catalog: GrowRange, cands: Seq<Candidate>,
    keep: spec_fn([i32; 5]) -> bool, n: int)
    requires
        0 <= n <= cands.len(),
        combos_of(combos, w, catalog, cands),
    ensures
        combo_sums(combos, w, catalog, cands, keep, combos.len() as int, n) == wsum(w, counting_where(catalog, cands, keep), n),
    decreases n,
{
    let m = combos.len() as int;
    if n == 0 {
        lemma_combo_sums_none(combos, w, catalog, cands, keep, m);
    } else {
        lemma_combo_sums_count(combos, w, catalog, cands, keep, n - 1);
        lemma_combo_sums_step(combos, w, catalog, cands, keep, m, n);
        lemma_combo_hits(combos, w, catalog, cands, keep, m, n - 1);
        let i = n - 1;
        assert(counting_where(catalog, cands, keep)(i) == (counts(catalog, cands, i) && keep(lost_tuple(catalog, cands[i]))));
        if counts(catalog, cands, i) {
            let j = choose|j: int| 0 <= j < combos.len() && #[trigger] combos[j].lost == lost_tuple(catalog, cands[i]);
            lemma_has_combo(catalog, cands, i, combos[j].lost);
            assert(has_combo(catalog, cands, i, combos[j].lost));
        } else {
            if exists|j: int| 0 <= j < m && #[trigger] has_combo(catalog, cands, i, combos[j].lost) {
                let j = choose|j: int| 0 <= j < m && #[trigger] has_combo(catalog, cands, i, combos[j].lost);
                lemma_has_combo(catalog, cands, i, combos[j].lost);
            }
        }
    }
}

proof fn lemma_combo_weights_are_sums(combos: Seq<LostCombo>, w: Seq<u64>, catalog: GrowRange, cands: Seq<Candidate>,
    keep: spec_fn([i32; 5]) -> bool, m: int)
    requires
        0 <= m <= combos.len(),
        combos_of(combos, w, catalog, cands),
    ensures
        combo_weights_where(combos, keep, m) == combo_sums(combos, w, catalog, cands, keep, m, cands.len() as int),
    decreases m,
{
    if m > 0 {
        lemma_combo_weights_are_sums(combos, w, catalog, cands, keep, m - 1);
        assert(combos[m - 1].weight == wsum(w, combo_is(catalog, cands, combos[m - 1].lost), cands.len() as int));
    }
}

/// The weights of the loss tuples that `keep` selects add up to the weight
/// of the candidates whose total loss counts and whose tuple it selects.
pub proof fn lemma_combos_where(d: Distribution, catalog: GrowRange, cands: Seq<Candidate>, keep: spec_fn([i32; 5]) -> bool)
    requires
        summarizes(d, catalog, cands),
    ensures
        combo_weights_where(d.lost_combos@, keep, d.lost_combos@.len() as int)
            == wsum(d.weight@, counting_where(catalog, cands, keep), cands.len() as int),
{
    lemma_combo_weights_are_sums(d.lost_combos@, d.weight@, catalog, cands, keep, d.lost_combos@.len() as int);
    lemma_combo_sums_count(d.lost_combos@, d.weight@, catalog, cands, keep, cands.len() as int);
}

proof fn lemma_wsum_all(w: Seq<u64>, keep: spec_fn(int) -> bool, n: int)
    requires
        0 <= n,
        forall|i: int| 0 <= i < n ==> #[trigger] keep(i),
    ensures
        wsum(w, keep, n) == wsum(w, every(), n),
    decreases n,
{
    if n > 0 {
        lemma_wsum_all(w, keep, n - 1);
        assert(keep(n - 1));
        assert(every()(n - 1));
    }
}

/// The loss tuples of a summary share out the weight of the candidates
/// whose total loss counts (`0..=20`): their weights add up to it, and so
/// to the whole weight when every candidate's total loss counts.
pub proof fn lemma_combos_partition(d: Distribution, catalog: GrowRange, cands: Seq<Candidate>)
    requires
        summarizes(d, catalog, cands),
    ensures
        combo_weights(d.lost_combos@, d.lost_combos@.len() as int) == wsum(d.weight@, counting(catalog, cands), cands.len() as int),
        (forall|i: int| 0 <= i < cands.len() ==> 0 <= #[trigger] lost_total(catalog, cands[i]) <= 20)
            ==> combo_weights(d.lost_combos@, d.lost_combos@.len() as int) == d.total_weight,
{
    let w = d.weight@;
    let n = cands.len() as int;
    let all = |t: [i32; 5]| true;
    lemma_combos_where(d, catalog, cands, all);
    assert forall|i: int| 0 <= i < n implies #[trigger] counting_where(catalog, cands, all)(i) == counting(catalog, cands)(i) by {}
    lemma_wsum_ext(w, counting_where(catalog, cands, all), counting(catalog, cands), n);
    if forall|i: int| 0 <= i < n ==> 0 <= #[trigger] lost_total(catalog, cands[i]) <= 20 {
        assert forall|i: int| 0 <= i < n implies #[trigger] counting(catalog, cands)(i) by {
            reveal(counts);
            assert(0 <= lost_total(catalog, cands[i]) <= 20);
        }
        lemma_wsum_all(w, counting(catalog, cands), n);
    }
}

/// Folding the loss tuples gives back the other two summaries: those with
/// total `s` weigh what the total-loss marginal says for `s`, and those
/// losing `l` tiers on axis `a` weigh what that axis's marginal says for
/// `l` — for candidates whose losses fit and whose total loss is `0..=20`.
pub proof fn lemma_combos_fold_to_marginals(d: Distribution, catalog: GrowRange, cands: Seq<Candidate>)
    requires
        summarizes(d, catalog, cands),
        forall|i: int| 0 <= i < cands.len() ==> loss_fits(catalog, #[trigger] cands[i]),
        forall|i: int| 0 <= i < cands.len() ==> 0 <= #[trigger] lost_total(catalog, cands[i]) <= 20,
    ensures
        forall|s: int| 0 <= s < 21 ==> #[trigger] d.lost_total_marginal[s]
            == combo_weights_where(d.lost_combos@, |t: [i32; 5]| crate::enumerate::sum5(t) == s, d.lost_combos@.len() as int),
        forall|a: int, l: int| 0 <= a < 5 && 0 <= l < 5 ==> #[trigger] d.lost_marginal[a][l]
            == combo_weights_where(d.lost_combos@, |t: [i32; 5]| t[a] == l, d.lost_combos@.len() as int),
{
    let w = d.weight@;
    let n = cands.len() as int;
    assert forall|s: int| 0 <= s < 21 implies #[trigger] d.lost_total_marginal[s]
        == combo_weights_where(d.lost_combos@, |t: [i32; 5]| crate::enumerate::sum5(t) == s, d.lost_combos@.len() as int) by {
        let keep = |t: [i32; 5]| crate::enumerate::sum5(t) == s;
        lemma_combos_where(d, catalog, cands, keep);
        assert forall|i: int| 0 <= i < n implies #[trigger] counting_where(catalog, cands, keep)(i) == total_is(catalog, cands, s)(i) by {
            reveal(counts);
            lemma_tuple_sum(catalog, cands[i]);
        }
        lemma_wsum_ext(w, counting_where(catalog, cands, keep), total_is(catalog, cands, s), n);
    }
    assert forall|a: int, l: int| 0 <= a < 5 && 0 <= l < 5 implies #[trigger] d.lost_marginal[a][l]
        == combo_weights_where(d.lost_combos@, |t: [i32; 5]| t[a] == l, d.lost_combos@.len() as int) by {
        let keep = |t: [i32; 5]| t[a] == l;
        lemma_combos_where(d, catalog, cands, keep);
        assert forall|i: int| 0 <= i < n implies #[trigger] counting_where(catalog, cands, keep)(i) == lost_is(catalog, cands, a, l)(i) by {
            reveal(counts);
            reveal(lost_tuple);
            assert(0 <= lost_total(catalog, cands[i]) <= 20);
            assert(loss_fits(catalog, cands[i]));
            assert(i32::MIN <= lost_at(catalog, cands[i], a) <= i32::MAX);
            if a == 0 {} else if a == 1 {} else if a == 2 {} else if a == 3 {} else {}
        }
        lemma_wsum_ext(w, counting_where(catalog, cands, keep), lost_is(catalog, cands, a, l), n);
    }
}

proof fn lemma_wsum_ext(w: Seq<u64>, a: spec_fn(int) -> bool, b: spec_fn(int) -> bool, n: int)
    requires
        forall|i: int| 0 <= i < n ==> #[trigger] a(i) == b(i),
    ensures
        wsum(w, a, n) == wsum(w, b, n),
    decreases n,
{
    if n > 0 {
        lemma_wsum_ext(w, a, b, n - 1);
        assert(a(n - 1) == b(n - 1));
    }
}

proof fn lemma_wsum_mono(w: Seq<u64>, a: spec_fn(int) -> bool, b: spec_fn(int) -> bool, n: int)
    requires
        forall|i: int| 0 <= i < n && #[trigger] a(i) ==> b(i),
    ensures
        wsum(w, a, n) <= wsum(w, b, n),
    decreases n,
{
    if n > 0 {
        lemma_wsum_mono(w, a, b, n - 1);
        if a(n - 1) {
            assert(b(n - 1));
        }
    }
}

/// `keep` split into the parts `x` and `y` that share it out.
proof fn lemma_wsum_split(w: Seq<u64>, keep: spec_fn(int) -> bool, x: spec_fn(int) -> bool, y: spec_fn(int) -> bool, n: int)
    requires
        forall|i: int| 0 <= i < n ==> #[trigger] keep(i) == (x(i) || y(i)),
        forall|i: int| 0 <= i < n ==> !(#[trigger] x(i) && y(i)),
    ensures
        wsum(w, keep, n) == wsum(w, x, n) + wsum(w, y, n),
    decreases n,
{
    if n > 0 {
        lemma_wsum_split(w, keep, x, y, n - 1);
        assert(keep(n - 1) == (x(n - 1) || y(n - 1)));
        assert(!(x(n - 1) && y(n - 1)));
    }
}

/// Cutting a box on axis `a` after tier `k` shares its weight out between
/// the two halves: the one up to `k` (`hi1`) and the one from `k + 1` on
/// (`lo2`).
pub proof fn lemma_range_split(d: Distribution, cands: Seq<Candidate>, lo: [i32; 5], hi: [i32; 5], a: int, k: int,
    hi1: [i32; 5], lo2: [i32; 5])
    requires
        0 <= a < 5,
        lo[a] - 1 <= k <= hi[a],
        hi1[a] == k,
        lo2[a] == k + 1,
        forall|b: int| 0 <= b < 5 && b != a ==> #[trigger] hi1[b] == hi[b] && lo2[b] == lo[b],
    ensures
        ({
            let n = min_len(cands.len() as int, d.weight@.len() as int);
            wsum(d.weight@, in_grow_box(cands, lo, hi), n)
                == wsum(d.weight@, in_grow_box(cands, lo, hi1), n) + wsum(d.weight@, in_grow_box(cands, lo2, hi), n)
        }),
{
    let n = min_len(cands.len() as int, d.weight@.len() as int);
    let keep = in_grow_box(cands, lo, hi);
    let x = in_grow_box(cands, lo, hi1);
    let y = in_grow_box(cands, lo2, hi);
    assert forall|i: int| 0 <= i < n implies #[trigger] keep(i) == (x(i) || y(i)) by {
        let t = cands[i].grow.tiers();
        if in_grow_box(cands, lo, hi)(i) {
            if t[a] <= k {
                assert forall|b: int| 0 <= b < 5 implies lo[b] <= #[trigger] cands[i].grow.tiers()[b] <= hi1[b] by {
                    assert(lo[b] <= cands[i].grow.tiers()[b] <= hi[b]);
                }
            } else {
                assert forall|b: int| 0 <= b < 5 implies lo2[b] <= #[trigger] cands[i].grow.tiers()[b] <= hi[b] by {
                    assert(lo[b] <= cands[i].grow.tiers()[b] <= hi[b]);
                    if b != a {
                        assert(hi1[b] == hi[b]);
                    }
                }
            }
        }
        if in_grow_box(cands, lo, hi1)(i) {
            assert(lo[a] <= cands[i].grow.tiers()[a] <= hi1[a]);
            assert forall|b: int| 0 <= b < 5 implies lo[b] <= #[trigger] cands[i].grow.tiers()[b] <= hi[b] by {
                assert(lo[b] <= cands[i].grow.tiers()[b] <= hi1[b]);
            }
        }
        if in_grow_box(cands, lo2, hi)(i) {
            assert(lo2[a] <= cands[i].grow.tiers()[a] <= hi[a]);
            assert forall|b: int| 0 <= b < 5 implies lo[b] <= #[trigger] cands[i].grow.tiers()[b] <= hi[b] by {
                assert(lo2[b] <= cands[i].grow.tiers()[b] <= hi[b]);
                if b != a {
                    assert(hi1[b] == hi[b]);
                }
            }
        }
    }
    assert forall|i: int| 0 <= i < n implies !(#[trigger] x(i) && y(i)) by {
        if x(i) && y(i) {
            assert(lo[a] <= cands[i].grow.tiers()[a] <= hi1[a]);
            assert(lo2[a] <= cands[i].grow.tiers()[a] <= hi[a]);
        }
    }
    lemma_wsum_split(d.weight@, keep, x, y, n);
}

/// A box that holds every candidate holds the whole weight; a box empty on
/// some axis (`lo > hi` there) holds none.
pub proof fn lemma_range_whole_and_empty(d: Distribution, catalog: GrowRange, cands: Seq<Candidate>, lo: [i32; 5], hi: [i32; 5])
    requires
        summarizes(d, catalog, cands),
    ensures
        (forall|i: int| 0 <= i < cands.len() ==> #[trigger] in_grow_box(cands, lo, hi)(i))
            ==> wsum(d.weight@, in_grow_box(cands, lo, hi), min_len(cands.len() as int, d.weight@.len() as int)) == d.total_weight,
        (exists|a: int| 0 <= a < 5 && #[trigger] lo[a] > hi[a])
            ==> wsum(d.weight@, in_grow_box(cands, lo, hi), min_len(cands.len() as int, d.weight@.len() as int)) == 0,
{
    let n = cands.len() as int;
    assert(min_len(cands.len() as int, d.weight@.len() as int) == n);
    if forall|i: int| 0 <= i < n ==> #[trigger] in_grow_box(cands, lo, hi)(i) {
        lemma_wsum_all(d.weight@, in_grow_box(cands, lo, hi), n);
    }
    if exists|a: int| 0 <= a < 5 && #[trigger] lo[a] > hi[a] {
        let a = choose|a: int| 0 <= a < 5 && #[trigger] lo[a] > hi[a];
        assert forall|i: int| 0 <= i < n implies !#[trigger] in_grow_box(cands, lo, hi)(i) by {
            if in_grow_box(cands, lo, hi)(i) {
                assert(lo[a] <= cands[i].grow.tiers()[a] <= hi[a]);
            }
        }
        lemma_wsum_none(d.weight@, in_grow_box(cands, lo, hi), n);
    }
}

/// Raising the threshold on a sum of axes never raises its weight; a
/// threshold that every candidate reaches holds the whole weight.
pub proof fn lemma_axis_sum_monotone(d: Distribution, catalog: GrowRange, cands: Seq<Candidate>, axes: Seq<usize>, t1: int, t2: int)
    requires
        summarizes(d, catalog, cands),
    ensures
        ({
            let n = min_len(cands.len() as int, d.weight@.len() as int);
            &&& t1 <= t2 ==> wsum(d.weight@, axes_at_least(cands, axes, t2), n) <= wsum(d.weight@, axes_at_least(cands, axes, t1), n)
            &&& (forall|i: int| 0 <= i < cands.len() ==> #[trigger] axes_sum(cands[i], axes, axes.len() as int) >= t1)
                ==> wsum(d.weight@, axes_at_least(cands, axes, t1), n) == d.total_weight
        }),
{
    let n = cands.len() as int;
    assert(min_len(cands.len() as int, d.weight@.len() as int) == n);
    if t1 <= t2 {
        lemma_wsum_mono(d.weight@, axes_at_least(cands, axes, t2), axes_at_least(cands, axes, t1), n);
    }
    if forall|i: int| 0 <= i < n ==> #[trigger] axes_sum(cands[i], axes, axes.len() as int) >= t1 {
        assert forall|i: int| 0 <= i < n implies #[trigger] axes_at_least(cands, axes, t1)(i) by {
            assert(axes_sum(cands[i], axes, axes.len() as int) >= t1);
        }
        lemma_wsum_all(d.weight@, axes_at_least(cands, axes, t1), n);
    }
}


/// `f(0) + f(1) + ... + f(k)`.
pub open spec fn sum_to(f: spec_fn(int) -> int, k: int) -> int
    decreases k + 1,
{
    if k < 0 {
        0
    } else {
        sum_to(f, k - 1) + f(k)
    }
}

pub proof fn lemma_sum_ext(f: spec_fn(int) -> int, g: spec_fn(int) -> int, k: int)
    requires
        forall|r: int| 0 <= r <= k ==> #[trigger] f(r) == g(r),
    ensures
        sum_to(f, k) == sum_to(g, k),
    decreases k + 1,
{
    if k >= 0 {
        lemma_sum_ext(f, g, k - 1);
        assert(f(k) == g(k));
    }
}

proof fn lemma_sum_add(f: spec_fn(int) -> int, g: spec_fn(int) -> int, h: spec_fn(int) -> int, k: int)
    requires
        forall|r: int| 0 <= r <= k ==> #[trigger] h(r) == f(r) + g(r),
    ensures
        sum_to(h, k) == sum_to(f, k) + sum_to(g, k),
    decreases k + 1,
{
    if k >= 0 {
        lemma_sum_add(f, g, h, k - 1);
        assert(h(k) == f(k) + g(k));
    }
}

proof fn lemma_sum_scale(f: spec_fn(int) -> int, g: spec_fn(int) -> int, c: int, k: int)
    requires
        forall|r: int| 0 <= r <= k ==> #[trigger] g(r) == c * f(r),
    ensures
        sum_to(g, k) == c * sum_to(f, k),
    decreases k + 1,
{
    if k >= 0 {
        lemma_sum_scale(f, g, c, k - 1);
        assert(g(k) == c * f(k));
        let a = sum_to(f, k - 1);
        let b = f(k);
        assert(c * a + c * b == c * (a + b)) by (nonlinear_arith);
    }
}

proof fn lemma_sum_shift(f: spec_fn(int) -> int, g: spec_fn(int) -> int, k: int)
    requires
        k >= -1,
        f(-1) == 0,
        forall|r: int| 0 <= r <= k + 1 ==> #[trigger] g(r) == f(r - 1),
    ensures
        sum_to(g, k + 1) == sum_to(f, k),
    decreases k + 1,
{
    if k >= 0 {
        lemma_sum_shift(f, g, k - 1);
        assert(g(k + 1) == f(k));
    } else {
        assert(g(0) == f(-1));
        assert(sum_to(g, -1) == 0);
        assert(sum_to(f, -1) == 0);
        assert(sum_to(g, 0) == sum_to(g, -1) + g(0));
    }
}

/// Pascal's rule at the edges too: `C(n + 1, r) == C(n, r - 1) + C(n, r)`.
proof fn lemma_pascal(n: int, r: int)
    requires
        n >= 0,
        0 <= r <= n + 1,
    ensures
        spec_binomial(n + 1, r) == spec_binomial(n, r - 1) + spec_binomial(n, r),
{
}

/// `a` to the power `e` (1 for `e <= 0`).
pub open spec fn pow_int(a: int, e: int) -> int
    decreases e,
{
    if e <= 0 {
        1
    } else {
        a * pow_int(a, e - 1)
    }
}

/// The terms `C(n, r) * a^(n - r)` of the binomial theorem.
pub open spec fn binomial_term(n: int, a: int) -> spec_fn(int) -> int {
    |r: int| spec_binomial(n, r) * pow_int(a, n - r)
}

/// The binomial theorem: `sum_r C(n, r) a^(n - r) == (a + 1)^n`.
pub proof fn lemma_binomial_theorem(n: int, a: int)
    requires
        n >= 0,
    ensures
        sum_to(binomial_term(n, a), n) == pow_int(a + 1, n),
    decreases n,
{
    if n == 0 {
        assert(sum_to(binomial_term(0, a), -1) == 0);
        assert(binomial_term(0, a)(0) == 1);
    } else {
        let m = n - 1;
        lemma_binomial_theorem(m, a);
        let p = binomial_term(m, a);
        let f1 = |r: int| p(r - 1);
        let f2 = |r: int| a * p(r);
        assert forall|r: int| 0 <= r <= n implies #[trigger] binomial_term(n, a)(r) == f1(r) + f2(r) by {
            lemma_pascal(m, r);
            let c1 = spec_binomial(m, r - 1);
            let c2 = spec_binomial(m, r);
            let e = pow_int(a, n - r);
            assert(binomial_term(n, a)(r) == (c1 + c2) * e);
            assert(f1(r) == c1 * pow_int(a, m - (r - 1)));
            assert(m - (r - 1) == n - r);
            if r <= m {
                let e2 = pow_int(a, m - r);
                assert(e == a * e2);
                assert(f2(r) == a * (c2 * e2));
                assert((c1 + c2) * e == c1 * e + a * (c2 * e2)) by (nonlinear_arith)
                    requires
                        e == a * e2,
                ;
            } else {
                assert(c2 == 0);
                let e2 = pow_int(a, m - r);
                assert(f2(r) == a * (c2 * e2));
                assert((c1 + c2) * e == c1 * e + a * (c2 * e2)) by (nonlinear_arith)
                    requires
                        c2 == 0,
                ;
            }
        }
        lemma_sum_add(f1, f2, binomial_term(n, a), n);
        assert(spec_binomial(m, -1) == 0);
        assert(p(-1) == spec_binomial(m, -1) * pow_int(a, m + 1));
        assert(p(-1) == 0);
        lemma_sum_shift(p, f1, m);
        assert forall|r: int| 0 <= r <= n implies #[trigger] f2(r) == a * p(r) by {}
        lemma_sum_scale(p, f2, a, n);
        assert(spec_binomial(m, n) == 0);
        assert(p(n) == spec_binomial(m, n) * pow_int(a, m - n));
        assert(p(n) == 0);
        assert(sum_to(p, n) == sum_to(p, m));
        let q = sum_to(p, m);
        assert(q + a * q == (a + 1) * q) by (nonlinear_arith);
    }
}

/// `n!`.
pub open spec fn factorial(n: int) -> int
    decreases n,
{
    if n <= 0 { 1 } else { n * factorial(n - 1) }
}

/// `C(n, k) * k! * (n - k)! == n!`.
pub proof fn lemma_binomial_factorials(n: int, k: int)
    requires
        0 <= k <= n,
    ensures
        spec_binomial(n, k) * factorial(k) * factorial(n - k) == factorial(n),
    decreases n,
{
    if k == 0 || k == n {
        let c = spec_binomial(n, k) as int;
        let (x, y) = (factorial(k), factorial(n - k));
        assert(c == 1);
        assert(x * y == factorial(n)) by {
            if k == 0 {
                assert(x == 1);
            } else {
                assert(y == 1);
            }
        }
        assert(c * x * y == factorial(n)) by (nonlinear_arith)
            requires
                c == 1,
                x * y == factorial(n),
        ;
    } else {
        lemma_binomial_factorials(n - 1, k - 1);
        lemma_binomial_factorials(n - 1, k);
        let a = spec_binomial(n - 1, k - 1) as int;
        let b = spec_binomial(n - 1, k) as int;
        let fk = factorial(k);
        let fk1 = factorial(k - 1);
        let fnk = factorial(n - k);
        let fnk1 = factorial(n - 1 - k);
        let fn1 = factorial(n - 1);
        assert(fk == k * fk1);
        assert(fnk == (n - k) * fnk1);
        assert(factorial(n) == n * fn1);
        assert(spec_binomial(n, k) == a + b);
        assert(a * fk1 * fnk == fn1);
        assert(b * fk * fnk1 == fn1);
        assert(a * fk * fnk == k * fn1) by (nonlinear_arith)
            requires
                a * fk1 * fnk == fn1,
                fk == k * fk1,
        ;
        assert(b * fk * fnk == (n - k) * fn1) by (nonlinear_arith)
            requires
                b * fk * fnk1 == fn1,
                fnk == (n - k) * fnk1,
        ;
        assert((a + b) * fk * fnk == n * fn1) by (nonlinear_arith)
            requires
                a * fk * fnk == k * fn1,
                b * fk * fnk == (n - k) * fn1,
        ;
        assert(spec_binomial(n, k) * fk * fnk == factorial(n));
    }
}

/// The weight of a random tuple is the multinomial coefficient
/// `10! / (r0! r1! r2! r3! r4!)`: times the parts' factorials it is `10!`.
pub proof fn lemma_random_weight_is_multinomial(r: [i32; 5])
    requires
        0 <= r[0] && 0 <= r[1] && 0 <= r[2] && 0 <= r[3] && 0 <= r[4],
        r[0] + r[1] + r[2] + r[3] + r[4] == RANDOM_POOL,
    ensures
        spec_random_weight(r) * (factorial(r[0] as int) * factorial(r[1] as int) * factorial(r[2] as int)
            * factorial(r[3] as int) * factorial(r[4] as int)) == factorial(10),
{
    let (a, b, c, d, e) = (r[0] as int, r[1] as int, r[2] as int, r[3] as int, r[4] as int);
    let n1 = 10 - a;
    let n2 = n1 - b;
    let n3 = n2 - c;
    lemma_binomial_factorials(10, a);
    lemma_binomial_factorials(n1, b);
    lemma_binomial_factorials(n2, c);
    lemma_binomial_factorials(n3, d);
    assert(n3 - d == e);
    let c0 = spec_binomial(10, a) as int;
    let c1 = spec_binomial(n1, b) as int;
    let c2 = spec_binomial(n2, c) as int;
    let c3 = spec_binomial(n3, d) as int;
    assert(spec_random_weight(r) == c0 * c1 * c2 * c3);
    let (fa, fb, fc, fd, fe) = (factorial(a), factorial(b), factorial(c), factorial(d), factorial(e));
    let x0 = c0 * fa;
    let x1 = c1 * fb;
    let x2 = c2 * fc;
    let x3 = c3 * fd * fe;
    assert(x0 * factorial(n1) == factorial(10));
    assert(factorial(n1) == x1 * factorial(n2));
    assert(factorial(n2) == x2 * factorial(n3));
    assert(factorial(n3) == x3);
    assert(x0 * (x1 * (x2 * x3)) == factorial(10));
    let y = c2 * c3;
    let g = fc * fd * fe;
    assert(x2 * x3 == y * g) by (nonlinear_arith)
        requires
            x2 == c2 * fc,
            x3 == c3 * fd * fe,
            y == c2 * c3,
            g == fc * fd * fe,
    ;
    let y1 = c1 * y;
    let g1 = fb * g;
    assert(x1 * (y * g) == y1 * g1) by (nonlinear_arith)
        requires
            x1 == c1 * fb,
            y1 == c1 * y,
            g1 == fb * g,
    ;
    let y0 = c0 * y1;
    let g0 = fa * g1;
    assert(x0 * (y1 * g1) == y0 * g0) by (nonlinear_arith)
        requires
            x0 == c0 * fa,
            y0 == c0 * y1,
            g0 == fa * g1,
    ;
    assert(y0 == c0 * c1 * c2 * c3) by (nonlinear_arith)
        requires
            y0 == c0 * y1,
            y1 == c1 * y,
            y == c2 * c3,
    ;
    assert(g0 == fa * fb * fc * fd * fe) by (nonlinear_arith)
        requires
            g0 == fa * g1,
            g1 == fb * g,
            g == fc * fd * fe,
    ;
}

/// Weight of the random tuple `r0..r3` with the last part taking what is
/// left of 10.
pub open spec fn tuple_weight(r0: int, r1: int, r2: int, r3: int) -> int {
    spec_random_weight([r0 as i32, r1 as i32, r2 as i32, r3 as i32, (10 - r0 - r1 - r2 - r3) as i32])
}

/// The weights of the random tuples starting `r0, r1, r2`.
pub open spec fn tuples_from3(r0: int, r1: int, r2: int) -> int {
    sum_to(|r3: int| tuple_weight(r0, r1, r2, r3), 10 - r0 - r1 - r2)
}

/// The weights of the random tuples starting `r0, r1`.
pub open spec fn tuples_from2(r0: int, r1: int) -> int {
    sum_to(|r2: int| tuples_from3(r0, r1, r2), 10 - r0 - r1)
}

/// The weights of the random tuples starting `r0`.
pub open spec fn tuples_from1(r0: int) -> int {
    sum_to(|r1: int| tuples_from2(r0, r1), 10 - r0)
}

/// The weights of every random tuple added up: each part runs over what
/// the parts before it leave of 10, the last takes the rest.
pub open spec fn random_total() -> int {
    sum_to(|r0: int| tuples_from1(r0), 10)
}

proof fn lemma_pow_one(e: int)
    ensures
        pow_int(1, e) == 1,
    decreases e,
{
    if e > 0 {
        lemma_pow_one(e - 1);
    }
}

proof fn lemma_tuples_from3(r0: int, r1: int, r2: int)
    requires
        0 <= r0,
        0 <= r1,
        0 <= r2,
        r0 + r1 + r2 <= 10,
    ensures
        tuples_from3(r0, r1, r2) == spec_binomial(10, r0) * spec_binomial(10 - r0, r1) * spec_binomial(10 - r0 - r1, r2)
            * pow_int(2, 10 - r0 - r1 - r2),
{
    let n = 10 - r0 - r1 - r2;
    let k = (spec_binomial(10, r0) * spec_binomial(10 - r0, r1) * spec_binomial(10 - r0 - r1, r2)) as int;
    let f = |r3: int| tuple_weight(r0, r1, r2, r3);
    let b = |r3: int| spec_binomial(n, r3) as int;
    assert forall|r3: int| 0 <= r3 <= n implies #[trigger] f(r3) == k * b(r3) by {
        assert(spec_random_weight([r0 as i32, r1 as i32, r2 as i32, r3 as i32, (10 - r0 - r1 - r2 - r3) as i32])
            == (spec_binomial(10, r0) * spec_binomial(10 - r0, r1) * spec_binomial(10 - r0 - r1, r2)
                * spec_binomial(10 - r0 - r1 - r2, r3)) as int);
    }
    lemma_sum_scale(b, f, k, n);
    assert forall|r3: int| 0 <= r3 <= n implies #[trigger] b(r3) == binomial_term(n, 1)(r3) by {
        lemma_pow_one(n - r3);
    }
    lemma_sum_ext(b, binomial_term(n, 1), n);
    lemma_binomial_theorem(n, 1);
}

proof fn lemma_tuples_from2(r0: int, r1: int)
    requires
        0 <= r0,
        0 <= r1,
        r0 + r1 <= 10,
    ensures
        tuples_from2(r0, r1) == spec_binomial(10, r0) * spec_binomial(10 - r0, r1) * pow_int(3, 10 - r0 - r1),
{
    let n = 10 - r0 - r1;
    let k = (spec_binomial(10, r0) * spec_binomial(10 - r0, r1)) as int;
    let f = |r2: int| tuples_from3(r0, r1, r2);
    assert forall|r2: int| 0 <= r2 <= n implies #[trigger] f(r2) == k * binomial_term(n, 2)(r2) by {
        lemma_tuples_from3(r0, r1, r2);
        let c = spec_binomial(10 - r0 - r1, r2);
        let e = pow_int(2, 10 - r0 - r1 - r2);
        assert(k * c * e == k * (c * e)) by (nonlinear_arith);
    }
    lemma_sum_scale(binomial_term(n, 2), f, k, n);
    lemma_binomial_theorem(n, 2);
}

proof fn lemma_tuples_from1(r0: int)
    requires
        0 <= r0 <= 10,
    ensures
        tuples_from1(r0) == spec_binomial(10, r0) * pow_int(4, 10 - r0),
{
    let n = 10 - r0;
    let k = spec_binomial(10, r0) as int;
    let f = |r1: int| tuples_from2(r0, r1);
    assert forall|r1: int| 0 <= r1 <= n implies #[trigger] f(r1) == k * binomial_term(n, 3)(r1) by {
        lemma_tuples_from2(r0, r1);
        let c = spec_binomial(10 - r0, r1);
        let e = pow_int(3, 10 - r0 - r1);
        assert(k * c * e == k * (c * e)) by (nonlinear_arith);
    }
    lemma_sum_scale(binomial_term(n, 3), f, k, n);
    lemma_binomial_theorem(n, 3);
}

/// The weights of all random tuples add up to `5^10`: each of the ten
/// random tiers falls on one of five axes.
pub proof fn lemma_random_weights_total()
    ensures
        random_total() == pow_int(5, 10),
        pow_int(5, 10) == 9765625,
{
    let f = |r0: int| tuples_from1(r0);
    assert forall|r0: int| 0 <= r0 <= 10 implies #[trigger] f(r0) == binomial_term(10, 4)(r0) by {
        lemma_tuples_from1(r0);
    }
    lemma_sum_ext(f, binomial_term(10, 4), 10);
    lemma_binomial_theorem(10, 4);
    reveal_with_fuel(pow_int, 11);
}

} // verus!
