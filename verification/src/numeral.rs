//! Decimal numerals as a floating-point reader accepts them (an optional
//! sign, digits with an optional point, an optional exponent), read exactly
//! as a whole number of hundredths.
use vstd::prelude::*;
use crate::text::{all_digits, digits_val, is_digit, lemma_digits_nonneg, slice_of};

verus! {

/// `10^k` for `k >= 0`.
pub open spec fn pow10(k: int) -> int
    decreases k,
{
    if k <= 0 { 1 } else { 10 * pow10(k - 1) }
}

/// The value of a digit character.
pub open spec fn digit_value(c: char) -> int {
    c as int - '0' as int
}

/// Index of the first character at or after `i` that is `c` or `d`.
pub open spec fn first_of(s: Seq<char>, c: char, d: char, i: int) -> Option<int>
    decreases s.len() - i,
{
    if i < 0 || i >= s.len() {
        None
    } else if s[i] == c || s[i] == d {
        Some(i)
    } else {
        first_of(s, c, d, i + 1)
    }
}

/// A leading sign taken off: whether it was `-`, and the rest.
pub open spec fn sign_off(s: Seq<char>) -> (bool, Seq<char>) {
    if s.len() > 0 && s[0] == '-' {
        (true, s.drop_first())
    } else if s.len() > 0 && s[0] == '+' {
        (false, s.drop_first())
    } else {
        (false, s)
    }
}

/// The exponent after `e`: an optional sign and at least one digit.
pub open spec fn exponent_value(x: Seq<char>) -> Option<int> {
    let (neg, d) = sign_off(x);
    if d.len() > 0 && all_digits(d) {
        Some(if neg { -digits_val(d) } else { digits_val(d) })
    } else {
        None
    }
}

/// The digits of a mantissa without its point, and how many stand before
/// the point; at least one digit.
pub open spec fn mantissa_digits(m: Seq<char>) -> Option<(Seq<char>, int)> {
    let (whole, frac) = match first_of(m, '.', '.', 0) {
        Some(k) => (m.subrange(0, k), m.subrange(k + 1, m.len() as int)),
        None => (m, Seq::<char>::empty()),
    };
    if all_digits(whole) && all_digits(frac) && whole.len() + frac.len() > 0 {
        Some((whole + frac, whole.len() as int))
    } else {
        None
    }
}

/// Every nonzero digit of `d`, digit `j` standing for `10^(top - j)`
/// hundredths, stands for a whole number of hundredths below `10^10`.
pub open spec fn places_ok(d: Seq<char>, top: int) -> bool {
    forall|j: int| 0 <= j < d.len() && #[trigger] d[j] != '0' ==> 0 <= top - j <= 9
}

/// The hundredths the first `n` digits of `d` stand for, digit `j` for
/// `10^(top - j)` of them.
pub open spec fn positional(d: Seq<char>, top: int, n: int) -> int
    decreases n,
{
    if n <= 0 {
        0
    } else {
        positional(d, top, n - 1) + (if d[n - 1] != '0' { digit_value(d[n - 1]) * pow10(top - (n - 1)) } else { 0 })
    }
}

/// The value in hundredths of a mantissa `m` (digits with an optional
/// point) scaled by `10^e`, signed by `neg`: `Some` when it is a whole
/// number of hundredths whose size is at most `i32::MAX`.
pub open spec fn rate_from(neg: bool, m: Seq<char>, ex: Option<int>) -> Option<int> {
    match (mantissa_digits(m), ex) {
        (Some((d, w)), Some(e)) => {
            let top = w + 1 + e;
            let v = positional(d, top, d.len() as int);
            if places_ok(d, top) && v <= i32::MAX {
                Some(if neg { -v } else { v })
            } else {
                None
            }
        },
        _ => None,
    }
}

/// The value, in hundredths, of a numeral `[+-]digits[.digits][(e|E)[+-]digits]`
/// with at least one mantissa digit: `Some` when it is a whole number of
/// hundredths whose size is at most `i32::MAX`.
pub open spec fn spec_parse_rate(s: Seq<char>) -> Option<int> {
    let (neg, u) = sign_off(s);
    match first_of(u, 'e', 'E', 0) {
        Some(k) => rate_from(neg, u.subrange(0, k), exponent_value(u.subrange(k + 1, u.len() as int))),
        None => rate_from(neg, u, Some(0int)),
    }
}

proof fn lemma_positional_grows(d: Seq<char>, top: int, a: int, b: int)
    requires
        0 <= a <= b <= d.len(),
        all_digits(d),
        places_ok(d, top),
    ensures
        positional(d, top, a) <= positional(d, top, b),
    decreases b - a,
{
    if a < b {
        lemma_positional_grows(d, top, a, b - 1);
        if d[b - 1] != '0' {
            assert(is_digit(d[b - 1]));
            lemma_pow10_pos(top - (b - 1));
            assert(digit_value(d[b - 1]) * pow10(top - (b - 1)) >= 0) by (nonlinear_arith)
                requires
                    digit_value(d[b - 1]) >= 0,
                    pow10(top - (b - 1)) >= 1,
            ;
        }
    }
}

proof fn lemma_pow10_pos(k: int)
    ensures
        pow10(k) >= 1,
    decreases k,
{
    if k > 0 {
        lemma_pow10_pos(k - 1);
    }
}

fn first_of_exec(s: &[char], c: char, d: char) -> (r: usize)
    ensures
        r <= s@.len(),
        r < s@.len() ==> first_of(s@, c, d, 0) == Some(r as int),
        r == s@.len() ==> first_of(s@, c, d, 0) is None,
{
    let mut i: usize = 0;
    while i < s.len() && s[i] != c && s[i] != d
        invariant
            0 <= i <= s@.len(),
            first_of(s@, c, d, 0) == first_of(s@, c, d, i as int),
        decreases s@.len() - i,
    {
        i = i + 1;
    }
    i
}

/// `10^p` for `0 <= p <= 9`.
fn pow10_exec(p: i128) -> (r: i64)
    requires
        0 <= p <= 9,
    ensures
        r == pow10(p as int),
        1 <= r <= 1_000_000_000,
{
    proof {
        reveal_with_fuel(pow10, 10);
    }
    if p == 0 {
        1
    } else if p == 1 {
        10
    } else if p == 2 {
        100
    } else if p == 3 {
        1_000
    } else if p == 4 {
        10_000
    } else if p == 5 {
        100_000
    } else if p == 6 {
        1_000_000
    } else if p == 7 {
        10_000_000
    } else if p == 8 {
        100_000_000
    } else {
        1_000_000_000
    }
}

/// Where an exponent is read exactly and where only its sign matters.
pub const EXP_CAP: i128 = 0x4_0000_0000_0000_0000;

fn exponent_exec(x: &[char]) -> (r: Option<(i128, bool)>)
    ensures
        match r {
            None => exponent_value(x@) is None,
            Some((v, big)) => exponent_value(x@) matches Some(e) && (!big ==> e == v && -EXP_CAP < v < EXP_CAP)
                && (big ==> (v == 1 && e >= EXP_CAP) || (v == -1 && e <= -EXP_CAP)),
        },
{
    let n = x.len();
    let (neg, ds): (bool, usize) = if n > 0 && x[0] == '-' {
        (true, 1)
    } else if n > 0 && x[0] == '+' {
        (false, 1)
    } else {
        (false, 0)
    };
    let ghost d = x@.subrange(ds as int, n as int);
    assert(sign_off(x@) == (neg, d)) by {
        if ds == 1 {
            assert(x@.drop_first() =~= d);
        } else {
            assert(x@ =~= d);
        }
    }
    if ds == n {
        assert(d.len() == 0);
        return None;
    }
    let mut acc: i128 = 0;
    assert(x@.subrange(ds as int, ds as int) =~= Seq::<char>::empty());
    let mut i: usize = ds;
    while i < n
        invariant
            ds <= i <= n,
            n == x@.len(),
            d == x@.subrange(ds as int, n as int),
            sign_off(x@) == (neg, d),
            all_digits(x@.subrange(ds as int, i as int)),
            acc == (if digits_val(x@.subrange(ds as int, i as int)) < EXP_CAP { digits_val(x@.subrange(ds as int, i as int)) } else { EXP_CAP as int }),
            0 <= acc <= EXP_CAP,
            digits_val(x@.subrange(ds as int, i as int)) >= 0,
        decreases n - i,
    {
        let c = x[i];
        if !('0' <= c && c <= '9') {
            assert(d[i - ds] == c);
            assert(!is_digit(d[i - ds]));
            assert(!all_digits(d));
            assert(exponent_value(x@) is None);
            return None;
        }
        let ghost pre = x@.subrange(ds as int, i as int);
        let ghost nxt = x@.subrange(ds as int, i + 1);
        assert(nxt.drop_last() =~= pre);
        assert(nxt.last() == c);
        proof {
            lemma_digits_nonneg(pre);
        }
        assert(digits_val(nxt) == 10 * digits_val(pre) + (c as int - '0' as int));
        let dv: i128 = (c as u32 - '0' as u32) as i128;
        if acc >= EXP_CAP / 10 + 1 {
            acc = EXP_CAP;
        } else {
            let t = 10 * acc + dv;
            acc = if t >= EXP_CAP { EXP_CAP } else { t };
        }
        assert(all_digits(nxt)) by {
            assert forall|k: int| 0 <= k < nxt.len() implies is_digit(#[trigger] nxt[k]) by {
                if k < pre.len() {
                    assert(nxt[k] == pre[k]);
                }
            }
        }
        i = i + 1;
    }
    assert(x@.subrange(ds as int, n as int) == d);
    assert(d.len() > 0 && all_digits(d));
    assert(exponent_value(x@) == Some(if neg { -digits_val(d) } else { digits_val(d) }));
    if acc == EXP_CAP {
        Some((if neg { -1 } else { 1 }, true))
    } else {
        Some((if neg { -acc } else { acc }, false))
    }
}

/// The ability rate written as a decimal numeral, in hundredths.
pub fn parse_rate(s: &[char]) -> (r: Option<i32>)
    ensures
        match r {
            Some(v) => spec_parse_rate(s@) == Some(v as int),
            None => spec_parse_rate(s@) is None,
        },
{
    let n = s.len();
    let (neg, start): (bool, usize) = if n > 0 && s[0] == '-' {
        (true, 1)
    } else if n > 0 && s[0] == '+' {
        (false, 1)
    } else {
        (false, 0)
    };
    let u = slice_of(s, start, n);
    assert(sign_off(s@) == (neg, u@)) by {
        if start == 1 {
            assert(s@.drop_first() =~= u@);
        } else {
            assert(s@ =~= u@);
        }
    }
    let k = first_of_exec(u.as_slice(), 'e', 'E');
    let m = slice_of(u.as_slice(), 0, k);
    let ghost ex: Option<int> = if k < u@.len() { exponent_value(u@.subrange(k + 1, u@.len() as int)) } else { Some(0int) };
    assert(spec_parse_rate(s@) == rate_from(neg, m@, ex)) by {
        if k == u@.len() {
            assert(m@ =~= u@);
        }
    }
    let (e, big): (i128, bool) = if k < u.len() {
        let x = slice_of(u.as_slice(), k + 1, u.len());
        match exponent_exec(x.as_slice()) {
            None => {
                return None;
            },
            Some(pair) => pair,
        }
    } else {
        (0, false)
    };
    let ghost ee: int = ex->0;
    assert(ex == Some(ee));
    let dot = first_of_exec(m.as_slice(), '.', '.');
    let mlen = m.len();
    let w = dot;
    let l: usize = if dot < mlen { mlen - 1 } else { mlen };
    let ghost whole = m@.subrange(0, dot as int);
    let ghost frac = if dot < mlen { m@.subrange(dot + 1, mlen as int) } else { Seq::<char>::empty() };
    let ghost dd = whole + frac;
    let ghost top: int = w + 1 + ee;
    assert(dd.len() == l);
    assert(mantissa_digits(m@) == (if all_digits(whole) && all_digits(frac) && whole.len() + frac.len() > 0 {
        Some((dd, w as int))
    } else {
        None
    })) by {
        if dot == mlen {
            assert(whole =~= m@);
        }
    }
    if l == 0 {
        return None;
    }
    let mut acc: i64 = 0;
    let mut j: usize = 0;
    while j < l
        invariant
            0 <= j <= l,
            l == dd.len(),
            dot <= mlen,
            -EXP_CAP <= e <= EXP_CAP,
            mlen == m@.len(),
            w <= mlen,
            mlen <= usize::MAX,
            dd == whole + frac,
            whole == m@.subrange(0, w as int),
            dot < mlen ==> frac == m@.subrange(dot + 1, mlen as int) && w == dot && l == mlen - 1,
            dot == mlen ==> frac.len() == 0 && w == mlen && l == mlen,
            top == w + 1 + ee,
            !big ==> e == ee,
            big ==> (ee >= EXP_CAP || ee <= -EXP_CAP),
            spec_parse_rate(s@) == rate_from(neg, m@, Some(ee)),
            mantissa_digits(m@) == (if all_digits(whole) && all_digits(frac) && whole.len() + frac.len() > 0 {
                Some((dd, w as int))
            } else {
                None
            }),
            forall|q: int| 0 <= q < j ==> is_digit(#[trigger] dd[q]),
            forall|q: int| 0 <= q < j && #[trigger] dd[q] != '0' ==> 0 <= top - q <= 9,
            acc == positional(dd, top, j as int),
            0 <= acc <= i32::MAX,
        decreases l - j,
    {
        proof {
            if j >= w {
                assert(dot < mlen);
            }
        }
        let c = if j < w { m[j] } else { m[j + 1] };
        assert(c == dd[j as int]) by {
            if j < w {
                assert(dd[j as int] == whole[j as int]);
            } else {
                assert(dd[j as int] == frac[j - w]);
                assert(frac[j - w] == m@[j + 1]);
            }
        }
        if !('0' <= c && c <= '9') {
            proof {
                if j < w {
                    assert(whole[j as int] == c);
                    assert(!all_digits(whole));
                } else {
                    assert(frac[j - w] == c);
                    assert(!all_digits(frac));
                }
            }
            return None;
        }
        if c != '0' {
            if big {
                assert(!places_ok(dd, top));
                return None;
            }
            let p: i128 = w as i128 + 1 + e - j as i128;
            assert(p == top - j);
            if p < 0 || p > 9 {
                assert(!places_ok(dd, top));
                return None;
            }
            let dv: i64 = (c as u32 - '0' as u32) as i64;
            assert(dv == digit_value(c));
            let pw = pow10_exec(p);
            assert(0 <= dv * pw <= 9_000_000_000) by (nonlinear_arith)
                requires
                    0 <= dv <= 9,
                    1 <= pw <= 1_000_000_000,
            ;
            acc = acc + dv * pw;
            assert(acc == positional(dd, top, j + 1));
            if acc > 0x7fff_ffff {
                proof {
                    if all_digits(dd) && places_ok(dd, top) {
                        lemma_positional_grows(dd, top, j + 1, l as int);
                    }
                    if !all_digits(dd) {
                        assert(!(all_digits(whole) && all_digits(frac))) by {
                            let q = choose|q: int| 0 <= q < dd.len() && !is_digit(#[trigger] dd[q]);
                            if q < whole.len() {
                                assert(dd[q] == whole[q]);
                            } else {
                                assert(dd[q] == frac[q - whole.len()]);
                            }
                        }
                    }
                }
                return None;
            }
        } else {
            assert(positional(dd, top, j + 1) == positional(dd, top, j as int));
        }
        j = j + 1;
    }
    assert(all_digits(dd));
    assert(all_digits(whole)) by {
        assert forall|q: int| 0 <= q < whole.len() implies is_digit(#[trigger] whole[q]) by {
            assert(dd[q] == whole[q]);
        }
    }
    assert(all_digits(frac)) by {
        assert forall|q: int| 0 <= q < frac.len() implies is_digit(#[trigger] frac[q]) by {
            assert(dd[whole.len() + q] == frac[q]);
        }
    }
    assert(places_ok(dd, top));
    if neg {
        Some(-(acc as i32))
    } else {
        Some(acc as i32)
    }
}

} // verus!
