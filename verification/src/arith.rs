//! Exact integer helpers shared by the engine.
use vstd::prelude::*;

verus! {

/// Floor division over the integers for a positive divisor.
pub open spec fn floor_div(a: int, d: int) -> int
    recommends d > 0,
{
    a / d
}

/// `floor(a / d)` for `d > 0`, computed without ever dividing a negative number.
pub fn div_floor(a: i128, d: i128) -> (q: i128)
    requires
        d > 0,
        a > i128::MIN,
    ensures
        q == a / d,
{
    if a >= 0 {
        a / d
    } else {
        let na: i128 = -a;
        let qn: i128 = (na - 1) / d;
        proof {
            lemma_neg_floor(a as int, d as int);
        }
        -qn - 1
    }
}

pub proof fn lemma_neg_floor(a: int, d: int)
    requires
        d > 0,
        a < 0,
    ensures
        a / d == -((-a - 1) / d) - 1,
{
    let q = (-a - 1) / d;
    let r = (-a - 1) % d;
    vstd::arithmetic::div_mod::lemma_fundamental_div_mod(-a - 1, d);
    assert(-a - 1 == d * q + r);
    assert(0 <= r < d);
    // a = d * (-q - 1) + (d - 1 - r)
    assert(a == d * (-q - 1) + (d - 1 - r)) by (nonlinear_arith)
        requires
            -a - 1 == d * q + r,
    ;
    vstd::arithmetic::div_mod::lemma_fundamental_div_mod_converse(a, d, -q - 1, d - 1 - r);
}

} // verus!
