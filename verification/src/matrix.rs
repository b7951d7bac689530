//! Stats to BP: the exact inverse of the forward matrix, and the rounded
//! inverse the solver uses for its first guess of the random tiers.
//!
//! The forward matrix times ten (`m10`, first five rows) has determinant
//! `-114855300`; its inverse is `adj / INV_DEN` with the integer matrix `adj`
//! below and `INV_DEN = 3828510`.
use vstd::prelude::*;
use crate::bp::{m10, spec_raw, bp_in_range, raw_stat, PROP_BASE};

verus! {

/// Common denominator of the exact inverse.
pub const INV_DEN: i128 = 3828510;

/// Numerators of the exact inverse of the forward matrix (times ten),
/// row = BP axis, column = stat `[hp, mp, atk, def, agi]`.
pub open spec fn adj(i: int, j: int) -> int {
    let row: Seq<int> = if i == 0 {
        seq![50724, -3087, -25980, -41880, -62820]
    } else if i == 1 {
        seq![-2997, -2331, 147810, -9300, -13950]
    } else if i == 2 {
        seq![-2664, -2072, -10410, 133530, -12400]
    } else if i == 3 {
        seq![-1791, -1393, -11310, -9390, 198610]
    } else {
        seq![-3582, 39753, -22620, -18780, -28170]
    };
    row[j]
}

/// The rounded inverse the solver seeds its random-tier guess with, times 10^8.
pub open spec fn minv8(i: int, j: int) -> int {
    let row: Seq<int> = if i == 0 {
        seq![13249019, -806319, -6785930, -10938981, -16408472]
    } else if i == 1 {
        seq![-782811, -608853, 38607709, -2429143, -3643715]
    } else if i == 2 {
        seq![-695832, -541203, -2719073, 34877798, -3238858]
    } else if i == 3 {
        seq![-467806, -363849, -2954152, -2452651, 51876579]
    } else {
        seq![-935612, 10383413, -5908304, -4905303, -7357954]
    };
    row[j]
}

/// `sum_j adj(i, j) * v[j]`.
pub open spec fn adj_apply(v: Seq<int>, i: int) -> int {
    adj(i, 0) * v[0] + adj(i, 1) * v[1] + adj(i, 2) * v[2] + adj(i, 3) * v[3] + adj(i, 4) * v[4]
}

/// Column sums of `adj`: the total BP per stat point, over `INV_DEN`.
pub open spec fn adj_col(j: int) -> int {
    adj(0, j) + adj(1, j) + adj(2, j) + adj(3, j) + adj(4, j)
}

/// `sum_j minv8(i, j) * v[j]`.
pub open spec fn minv8_apply(v: Seq<int>, i: int) -> int {
    minv8(i, 0) * v[0] + minv8(i, 1) * v[1] + minv8(i, 2) * v[2] + minv8(i, 3) * v[3] + minv8(i, 4) * v[4]
}

/// BP (thousandths, times `INV_DEN`) of axis `i` for the stats `t`:
/// `10000 * sum_j adj(i, j) * (t[j] - 20)`.
pub open spec fn spec_stat_to_bp(t: Seq<int>, i: int) -> int {
    10000 * adj_apply(t.map(|k: int, x: int| x - PROP_BASE), i)
}

/// `adj` is the inverse of the forward matrix (times ten) up to `INV_DEN`:
/// applying the forward rows to `adj * v` gives `INV_DEN * v` back.
pub proof fn lemma_adj_inverts_forward(v: Seq<int>, s: int)
    requires
        v.len() == 5,
        0 <= s < 5,
    ensures
        m10(s, 0) * adj_apply(v, 0) + m10(s, 1) * adj_apply(v, 1) + m10(s, 2) * adj_apply(v, 2)
            + m10(s, 3) * adj_apply(v, 3) + m10(s, 4) * adj_apply(v, 4) == INV_DEN * v[s],
{
    assert(adj_apply(v, 0) == (50724) * v[0] + (-3087) * v[1] + (-25980) * v[2] + (-41880) * v[3] + (-62820) * v[4]);
    assert(adj_apply(v, 1) == (-2997) * v[0] + (-2331) * v[1] + (147810) * v[2] + (-9300) * v[3] + (-13950) * v[4]);
    assert(adj_apply(v, 2) == (-2664) * v[0] + (-2072) * v[1] + (-10410) * v[2] + (133530) * v[3] + (-12400) * v[4]);
    assert(adj_apply(v, 3) == (-1791) * v[0] + (-1393) * v[1] + (-11310) * v[2] + (-9390) * v[3] + (198610) * v[4]);
    assert(adj_apply(v, 4) == (-3582) * v[0] + (39753) * v[1] + (-22620) * v[2] + (-18780) * v[3] + (-28170) * v[4]);
    assert(m10(0, 0) == 80);
    assert(m10(0, 1) == 20);
    assert(m10(0, 2) == 30);
    assert(m10(0, 3) == 30);
    assert(m10(0, 4) == 10);
    assert(m10(1, 0) == 10);
    assert(m10(1, 1) == 20);
    assert(m10(1, 2) == 20);
    assert(m10(1, 3) == 20);
    assert(m10(1, 4) == 100);
    assert(m10(2, 0) == 2);
    assert(m10(2, 1) == 27);
    assert(m10(2, 2) == 3);
    assert(m10(2, 3) == 3);
    assert(m10(2, 4) == 2);
    assert(m10(3, 0) == 2);
    assert(m10(3, 1) == 3);
    assert(m10(3, 2) == 30);
    assert(m10(3, 3) == 3);
    assert(m10(3, 4) == 2);
    assert(m10(4, 0) == 1);
    assert(m10(4, 1) == 2);
    assert(m10(4, 2) == 2);
    assert(m10(4, 3) == 20);
    assert(m10(4, 4) == 1);
    let p0 = adj_apply(v, 0);
    let p1 = adj_apply(v, 1);
    let p2 = adj_apply(v, 2);
    let p3 = adj_apply(v, 3);
    let p4 = adj_apply(v, 4);
    if s == 0 {
        assert(80 * p0 + 20 * p1 + 30 * p2 + 30 * p3 + 10 * p4 == INV_DEN * v[0]);
    } else if s == 1 {
        assert(10 * p0 + 20 * p1 + 20 * p2 + 20 * p3 + 100 * p4 == INV_DEN * v[1]);
    } else if s == 2 {
        assert(2 * p0 + 27 * p1 + 3 * p2 + 3 * p3 + 2 * p4 == INV_DEN * v[2]);
    } else if s == 3 {
        assert(2 * p0 + 3 * p1 + 30 * p2 + 3 * p3 + 2 * p4 == INV_DEN * v[3]);
    } else {
        assert(1 * p0 + 2 * p1 + 2 * p2 + 20 * p3 + 1 * p4 == INV_DEN * v[4]);
    }
}

pub open spec fn in_i64(x: int) -> bool {
    i64::MIN <= x <= i64::MAX
}

/// Exact BP behind five observed stats (display order hp mp atk def agi),
/// each axis in thousandths and scaled by `INV_DEN`.
pub fn stat_to_bp(hp: i64, mp: i64, atk: i64, def: i64, agi: i64) -> (b: [i128; 5])
    ensures
        forall|i: int| 0 <= i < 5 ==> #[trigger] b[i] == spec_stat_to_bp(seq![hp as int, mp as int, atk as int, def as int, agi as int], i),
{
    let v: [i128; 5] = [
        hp as i128 - 20,
        mp as i128 - 20,
        atk as i128 - 20,
        def as i128 - 20,
        agi as i128 - 20,
    ];
    let ghost t = seq![hp as int, mp as int, atk as int, def as int, agi as int];
    let ghost tv = t.map(|k: int, x: int| x - PROP_BASE);
    assert(tv[0] == v[0] && tv[1] == v[1] && tv[2] == v[2] && tv[3] == v[3] && tv[4] == v[4]);
    let b0 = adj_row(&v, 0);
    let b1 = adj_row(&v, 1);
    let b2 = adj_row(&v, 2);
    let b3 = adj_row(&v, 3);
    let b4 = adj_row(&v, 4);
    let b = [10000 * b0, 10000 * b1, 10000 * b2, 10000 * b3, 10000 * b4];
    assert forall|i: int| 0 <= i < 5 implies #[trigger] b[i] == spec_stat_to_bp(t, i) by {
        if i == 0 {} else if i == 1 {} else if i == 2 {} else if i == 3 {} else {}
    }
    b
}

pub open spec fn small(v: [i128; 5], lim: int) -> bool {
    forall|j: int| 0 <= j < 5 ==> -lim <= #[trigger] v[j] <= lim
}

pub open spec fn arr_seq(v: [i128; 5]) -> Seq<int> {
    seq![v[0] as int, v[1] as int, v[2] as int, v[3] as int, v[4] as int]
}

/// `sum_j adj(i, j) * v[j]`.
pub fn adj_row(v: &[i128; 5], i: usize) -> (r: i128)
    requires
        i < 5,
        small(*v, 0x1_0000_0000_0000_0000_0000),
    ensures
        r == adj_apply(arr_seq(*v), i as int),
        -0x1_0000_0000_0000_0000_0000_0000_0 <= r <= 0x1_0000_0000_0000_0000_0000_0000_0,
{
    let a = v[0];
    let b = v[1];
    let c = v[2];
    let d = v[3];
    let e = v[4];
    assert(-0x1_0000_0000_0000_0000_0000 <= a <= 0x1_0000_0000_0000_0000_0000);
    assert(-0x1_0000_0000_0000_0000_0000 <= b <= 0x1_0000_0000_0000_0000_0000);
    assert(-0x1_0000_0000_0000_0000_0000 <= c <= 0x1_0000_0000_0000_0000_0000);
    assert(-0x1_0000_0000_0000_0000_0000 <= d <= 0x1_0000_0000_0000_0000_0000);
    assert(-0x1_0000_0000_0000_0000_0000 <= e <= 0x1_0000_0000_0000_0000_0000);
    if i == 0 {
        50724 * a - 3087 * b - 25980 * c - 41880 * d - 62820 * e
    } else if i == 1 {
        147810 * c - 2997 * a - 2331 * b - 9300 * d - 13950 * e
    } else if i == 2 {
        133530 * d - 2664 * a - 2072 * b - 10410 * c - 12400 * e
    } else if i == 3 {
        198610 * e - 1791 * a - 1393 * b - 11310 * c - 9390 * d
    } else {
        39753 * b - 3582 * a - 22620 * c - 18780 * d - 28170 * e
    }
}

/// `sum_j minv8(i, j) * v[j]`: the rounded inverse applied to `v`, times 10^8.
pub fn apply_inv_row(v: &[i128; 5], i: usize) -> (r: i128)
    requires
        i < 5,
        small(*v, 0x1_0000_0000_0000_0000_0000_0),
    ensures
        r == minv8_apply(arr_seq(*v), i as int),
        -0x1_0000_0000_0000_0000_0000_0000_0000 <= r <= 0x1_0000_0000_0000_0000_0000_0000_0000,
{
    let a = v[0];
    let b = v[1];
    let c = v[2];
    let d = v[3];
    let e = v[4];
    assert(-0x1_0000_0000_0000_0000_0000_0 <= a <= 0x1_0000_0000_0000_0000_0000_0);
    assert(-0x1_0000_0000_0000_0000_0000_0 <= b <= 0x1_0000_0000_0000_0000_0000_0);
    assert(-0x1_0000_0000_0000_0000_0000_0 <= c <= 0x1_0000_0000_0000_0000_0000_0);
    assert(-0x1_0000_0000_0000_0000_0000_0 <= d <= 0x1_0000_0000_0000_0000_0000_0);
    assert(-0x1_0000_0000_0000_0000_0000_0 <= e <= 0x1_0000_0000_0000_0000_0000_0);
    if i == 0 {
        13249019 * a - 806319 * b - 6785930 * c - 10938981 * d - 16408472 * e
    } else if i == 1 {
        38607709 * c - 782811 * a - 608853 * b - 2429143 * d - 3643715 * e
    } else if i == 2 {
        34877798 * d - 695832 * a - 541203 * b - 2719073 * c - 3238858 * e
    } else if i == 3 {
        51876579 * e - 467806 * a - 363849 * b - 2954152 * c - 2452651 * d
    } else {
        10383413 * b - 935612 * a - 5908304 * c - 4905303 * d - 7357954 * e
    }
}

/// The rounded inverse applied to `v` (times 10^8).
pub fn apply_inv(v: [i128; 5]) -> (r: [i128; 5])
    requires
        small(v, 0x1_0000_0000_0000_0000_0000_0),
    ensures
        forall|i: int| 0 <= i < 5 ==> #[trigger] r[i] == minv8_apply(arr_seq(v), i),
{
    let r = [apply_inv_row(&v, 0), apply_inv_row(&v, 1), apply_inv_row(&v, 2), apply_inv_row(&v, 3), apply_inv_row(&v, 4)];
    assert forall|i: int| 0 <= i < 5 implies #[trigger] r[i] == minv8_apply(arr_seq(v), i) by {
        if i == 0 {} else if i == 1 {} else if i == 2 {} else if i == 3 {} else {}
    }
    r
}

/// Forward matrix without flooring: the five raw stats (hp mp atk def agi)
/// of a BP vector, in ten-thousandths.
pub fn apply_fwd(bp: [i128; 5]) -> (r: [i128; 5])
    requires
        bp_in_range(bp),
    ensures
        forall|s: int| 0 <= s < 5 ==> #[trigger] r[s] == spec_raw(bp, s),
{
    let r = [raw_stat(&bp, 0), raw_stat(&bp, 1), raw_stat(&bp, 2), raw_stat(&bp, 3), raw_stat(&bp, 4)];
    assert forall|s: int| 0 <= s < 5 implies #[trigger] r[s] == spec_raw(bp, s) by {
        if s == 0 {} else if s == 1 {} else if s == 2 {} else if s == 3 {} else {}
    }
    r
}

} // verus!
