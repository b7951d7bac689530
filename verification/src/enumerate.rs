//! Lexicographic enumeration of five-component integer tuples.
use vstd::prelude::*;

verus! {

/// `t < (c0, c1, c2, c3, c4)` in lexicographic order.
pub open spec fn lt5(t: [i32; 5], c0: int, c1: int, c2: int, c3: int, c4: int) -> bool {
    ||| t[0] < c0
    ||| t[0] == c0 && t[1] < c1
    ||| t[0] == c0 && t[1] == c1 && t[2] < c2
    ||| t[0] == c0 && t[1] == c1 && t[2] == c2 && t[3] < c3
    ||| t[0] == c0 && t[1] == c1 && t[2] == c2 && t[3] == c3 && t[4] < c4
}

/// Strict lexicographic order on tuples.
pub open spec fn lex_lt5(a: [i32; 5], b: [i32; 5]) -> bool {
    lt5(a, b[0] as int, b[1] as int, b[2] as int, b[3] as int, b[4] as int)
}

pub open spec fn lex_sorted(s: Seq<[i32; 5]>) -> bool {
    forall|a: int, b: int| 0 <= a < b < s.len() ==> lex_lt5(#[trigger] s[a], #[trigger] s[b])
}

pub open spec fn holds(s: Seq<[i32; 5]>, t: [i32; 5]) -> bool {
    exists|m: int| 0 <= m < s.len() && s[m] == t
}

pub open spec fn in_box(lo: [i64; 5], hi: [i64; 5], t: [i32; 5]) -> bool {
    forall|j: int| 0 <= j < 5 ==> lo[j] <= #[trigger] t[j] <= hi[j]
}

pub open spec fn sum5(t: [i32; 5]) -> int {
    t[0] + t[1] + t[2] + t[3] + t[4]
}

/// Inside the box and adding up to `total`.
pub open spec fn in_sum_box(lo: [i64; 5], hi: [i64; 5], total: int, t: [i32; 5]) -> bool {
    in_box(lo, hi, t) && sum5(t) == total
}

pub open spec fn fits_i32(lo: [i64; 5], hi: [i64; 5]) -> bool {
    forall|j: int| 0 <= j < 5 ==> i32::MIN <= #[trigger] lo[j] <= i32::MAX && i32::MIN <= hi[j] <= i32::MAX
}

/// The lexicographic order is a strict total order.
pub proof fn lemma_lex_order(a: [i32; 5], b: [i32; 5], c: [i32; 5])
    ensures
        !lex_lt5(a, a),
        lex_lt5(a, b) ==> !lex_lt5(b, a),
        lex_lt5(a, b) && lex_lt5(b, c) ==> lex_lt5(a, c),
        !lex_lt5(a, b) && !lex_lt5(b, a) ==> a == b,
{
    if !lex_lt5(a, b) && !lex_lt5(b, a) {
        assert(a =~= b);
    }
}

proof fn lemma_lex_prefix_agrees(a: Seq<[i32; 5]>, b: Seq<[i32; 5]>, i: int)
    requires
        lex_sorted(a),
        lex_sorted(b),
        forall|t: [i32; 5]| holds(a, t) <==> holds(b, t),
        0 <= i <= a.len(),
        i <= b.len(),
    ensures
        forall|j: int| 0 <= j < i ==> #[trigger] a[j] == b[j],
    decreases i,
{
    if i > 0 {
        lemma_lex_prefix_agrees(a, b, i - 1);
        let k = i - 1;
        lemma_lex_order(a[k], b[k], a[k]);
        if lex_lt5(a[k], b[k]) {
            assert(holds(a, a[k]));
            let q = choose|q: int| 0 <= q < b.len() && b[q] == a[k];
            if q < k {
                assert(a[q] == b[q]);
            } else if q > k {
                lemma_lex_order(b[k], b[q], a[k]);
            }
        }
        if lex_lt5(b[k], a[k]) {
            assert(holds(b, b[k]));
            let q = choose|q: int| 0 <= q < a.len() && a[q] == b[k];
            if q < k {
                assert(a[q] == b[q]);
            } else if q > k {
                lemma_lex_order(a[k], a[q], b[k]);
            }
        }
    }
}

/// Two lists in strict lexicographic order holding the same tuples are the
/// same list.
pub proof fn lemma_lex_sorted_unique(a: Seq<[i32; 5]>, b: Seq<[i32; 5]>)
    requires
        lex_sorted(a),
        lex_sorted(b),
        forall|t: [i32; 5]| holds(a, t) <==> holds(b, t),
    ensures
        a == b,
{
    let n = if a.len() < b.len() { a.len() as int } else { b.len() as int };
    lemma_lex_prefix_agrees(a, b, n);
    if a.len() < b.len() {
        let x = b[n];
        assert(holds(b, x));
        let q = choose|q: int| 0 <= q < a.len() && a[q] == x;
        assert(b[q] == x);
        lemma_lex_order(x, x, x);
    }
    if b.len() < a.len() {
        let x = a[n];
        assert(holds(a, x));
        let q = choose|q: int| 0 <= q < b.len() && b[q] == x;
        assert(a[q] == x);
        lemma_lex_order(x, x, x);
    }
    assert(a =~= b);
}

/// Dropping tuples from a list in lexicographic order leaves it in that
/// order.
pub proof fn lemma_lex_filter_sorted(s: Seq<[i32; 5]>, keep: spec_fn([i32; 5]) -> bool)
    requires
        lex_sorted(s),
    ensures
        lex_sorted(s.filter(keep)),
    decreases s.len(),
{
    reveal(Seq::filter);
    if s.len() > 0 {
        let d = s.drop_last();
        assert(lex_sorted(d));
        lemma_lex_filter_sorted(d, keep);
        let f = d.filter(keep);
        if keep(s.last()) {
            assert forall|i: int| 0 <= i < f.len() implies #[trigger] lex_lt5(f[i], s.last()) by {
                assert(f.contains(f[i]));
                d.lemma_filter_contains_rev(keep, f[i]);
                let k = choose|k: int| 0 <= k < d.len() && d[k] == f[i];
                assert(s[k] == f[i]);
            }
            let o = f.push(s.last());
            assert forall|a: int, b: int| 0 <= a < b < o.len() implies lex_lt5(#[trigger] o[a], #[trigger] o[b]) by {
                if b < f.len() {
                    assert(o[a] == f[a] && o[b] == f[b]);
                } else {
                    assert(o[a] == f[a]);
                }
            }
        }
    }
}

pub proof fn lemma_eq5(u: [i32; 5], t: [i32; 5])
    requires
        u[0] == t[0],
        u[1] == t[1],
        u[2] == t[2],
        u[3] == t[3],
        u[4] == t[4],
    ensures
        u == t,
{
    assert forall|i: int| 0 <= i < 5 implies u[i] == t[i] by {
        if i == 0 {} else if i == 1 {} else if i == 2 {} else if i == 3 {} else {}
    }
    assert(u =~= t);
}

pub proof fn lemma_box_facts(lo: [i64; 5], hi: [i64; 5], t: [i32; 5])
    requires
        in_box(lo, hi, t),
    ensures
        lo[0] <= t[0] <= hi[0],
        lo[1] <= t[1] <= hi[1],
        lo[2] <= t[2] <= hi[2],
        lo[3] <= t[3] <= hi[3],
        lo[4] <= t[4] <= hi[4],
{
    assert(lo[0] <= t[0] <= hi[0]);
    assert(lo[1] <= t[1] <= hi[1]);
    assert(lo[2] <= t[2] <= hi[2]);
    assert(lo[3] <= t[3] <= hi[3]);
    assert(lo[4] <= t[4] <= hi[4]);
}

pub proof fn lemma_mk_box(lo: [i64; 5], hi: [i64; 5], t: [i32; 5])
    requires
        lo[0] <= t[0] <= hi[0],
        lo[1] <= t[1] <= hi[1],
        lo[2] <= t[2] <= hi[2],
        lo[3] <= t[3] <= hi[3],
        lo[4] <= t[4] <= hi[4],
    ensures
        in_box(lo, hi, t),
{
    assert forall|j: int| 0 <= j < 5 implies lo[j] <= #[trigger] t[j] <= hi[j] by {
        if j == 0 {} else if j == 1 {} else if j == 2 {} else if j == 3 {} else {}
    }
}

/// Every tuple of the box `lo..=hi`, in lexicographic order.
pub fn box_tuples(lo: [i64; 5], hi: [i64; 5]) -> (out: Vec<[i32; 5]>)
    requires
        fits_i32(lo, hi),
    ensures
        lex_sorted(out@),
        forall|m: int| 0 <= m < out@.len() ==> in_box(lo, hi, #[trigger] out@[m]),
        forall|t: [i32; 5]| in_box(lo, hi, t) ==> holds(out@, t),
{
    assert(i32::MIN <= lo[0] <= i32::MAX && i32::MIN <= hi[0] <= i32::MAX);
    assert(i32::MIN <= lo[1] <= i32::MAX && i32::MIN <= hi[1] <= i32::MAX);
    assert(i32::MIN <= lo[2] <= i32::MAX && i32::MIN <= hi[2] <= i32::MAX);
    assert(i32::MIN <= lo[3] <= i32::MAX && i32::MIN <= hi[3] <= i32::MAX);
    assert(i32::MIN <= lo[4] <= i32::MAX && i32::MIN <= hi[4] <= i32::MAX);
    let mut out: Vec<[i32; 5]> = Vec::new();
    let mut a: i64 = lo[0];
    while a <= hi[0]
        invariant
            fits_i32(lo, hi),
            fits_i32(lo, hi),
            lo[0] <= a,
                a <= hi[0] + 1 || a == lo[0],
            lex_sorted(out@),
            forall|m: int| 0 <= m < out@.len() ==> in_box(lo, hi, #[trigger] out@[m])
                && lt5(out@[m], a as int, lo[1] as int, lo[2] as int, lo[3] as int, lo[4] as int),
            forall|t: [i32; 5]| in_box(lo, hi, t) && lt5(t, a as int, lo[1] as int, lo[2] as int, lo[3] as int, lo[4] as int)
                ==> holds(out@, t),
        decreases hi[0] + 1 - a,
    {
        let mut b: i64 = lo[1];
        while b <= hi[1]
            invariant
                fits_i32(lo, hi),
                lo[0] <= a <= hi[0],
                lo[1] <= b,
                b <= hi[1] + 1 || b == lo[1],
                lex_sorted(out@),
                forall|m: int| 0 <= m < out@.len() ==> in_box(lo, hi, #[trigger] out@[m])
                    && lt5(out@[m], a as int, b as int, lo[2] as int, lo[3] as int, lo[4] as int),
                forall|t: [i32; 5]| in_box(lo, hi, t) && lt5(t, a as int, b as int, lo[2] as int, lo[3] as int, lo[4] as int)
                    ==> holds(out@, t),
            decreases hi[1] + 1 - b,
        {
            let mut c: i64 = lo[2];
            while c <= hi[2]
                invariant
                    fits_i32(lo, hi),
                    lo[0] <= a <= hi[0],
                    lo[1] <= b <= hi[1],
                    lo[2] <= c,
                c <= hi[2] + 1 || c == lo[2],
                    lex_sorted(out@),
                    forall|m: int| 0 <= m < out@.len() ==> in_box(lo, hi, #[trigger] out@[m])
                        && lt5(out@[m], a as int, b as int, c as int, lo[3] as int, lo[4] as int),
                    forall|t: [i32; 5]| in_box(lo, hi, t) && lt5(t, a as int, b as int, c as int, lo[3] as int, lo[4] as int)
                        ==> holds(out@, t),
                decreases hi[2] + 1 - c,
            {
                let mut d: i64 = lo[3];
                while d <= hi[3]
                    invariant
                        fits_i32(lo, hi),
                        lo[0] <= a <= hi[0],
                        lo[1] <= b <= hi[1],
                        lo[2] <= c <= hi[2],
                        lo[3] <= d,
                d <= hi[3] + 1 || d == lo[3],
                        lex_sorted(out@),
                        forall|m: int| 0 <= m < out@.len() ==> in_box(lo, hi, #[trigger] out@[m])
                            && lt5(out@[m], a as int, b as int, c as int, d as int, lo[4] as int),
                        forall|t: [i32; 5]| in_box(lo, hi, t) && lt5(t, a as int, b as int, c as int, d as int, lo[4] as int)
                            ==> holds(out@, t),
                    decreases hi[3] + 1 - d,
                {
                    let mut e: i64 = lo[4];
                    while e <= hi[4]
                        invariant
                            fits_i32(lo, hi),
                            lo[0] <= a <= hi[0],
                            lo[1] <= b <= hi[1],
                            lo[2] <= c <= hi[2],
                            lo[3] <= d <= hi[3],
                            lo[4] <= e,
                e <= hi[4] + 1 || e == lo[4],
                            lex_sorted(out@),
                            forall|m: int| 0 <= m < out@.len() ==> in_box(lo, hi, #[trigger] out@[m])
                                && lt5(out@[m], a as int, b as int, c as int, d as int, e as int),
                            forall|t: [i32; 5]| in_box(lo, hi, t) && lt5(t, a as int, b as int, c as int, d as int, e as int)
                                ==> holds(out@, t),
                        decreases hi[4] + 1 - e,
                    {
                        let t: [i32; 5] = [a as i32, b as i32, c as i32, d as i32, e as i32];
                        let ghost old_out = out@;
                        out.push(t);
                        proof {
                            lemma_mk_box(lo, hi, t);
                            assert forall|x: int, y: int| 0 <= x < y < out@.len() implies lex_lt5(#[trigger] out@[x], #[trigger] out@[y]) by {
                                if y == out@.len() - 1 {
                                    assert(lt5(old_out[x], a as int, b as int, c as int, d as int, e as int));
                                } else {
                                    assert(lex_lt5(old_out[x], old_out[y]));
                                }
                            }
                            assert forall|u: [i32; 5]| in_box(lo, hi, u) && lt5(u, a as int, b as int, c as int, d as int, e + 1)
                                implies holds(out@, u) by {
                                if u[0] == a && u[1] == b && u[2] == c && u[3] == d && u[4] == e {
                                    lemma_eq5(u, t);
                                    assert(out@[out@.len() - 1] == u);
                                } else {
                                    assert(lt5(u, a as int, b as int, c as int, d as int, e as int));
                                    let m = choose|m: int| 0 <= m < old_out.len() && old_out[m] == u;
                                    assert(out@[m] == u);
                                }
                            }
                        }
                        e = e + 1;
                    }
                    proof {
                        assert forall|u: [i32; 5]| in_box(lo, hi, u) && lt5(u, a as int, b as int, c as int, d + 1, lo[4] as int)
                            implies holds(out@, u) by {
                            lemma_box_facts(lo, hi, u);
                            assert(lt5(u, a as int, b as int, c as int, d as int, e as int));
                        }
                        assert forall|m: int| 0 <= m < out@.len() implies in_box(lo, hi, #[trigger] out@[m])
                            && lt5(out@[m], a as int, b as int, c as int, d + 1, lo[4] as int) by {
                            assert(lt5(out@[m], a as int, b as int, c as int, d as int, e as int));
                        }
                    }
                    d = d + 1;
                }
                proof {
                    assert forall|u: [i32; 5]| in_box(lo, hi, u) && lt5(u, a as int, b as int, c + 1, lo[3] as int, lo[4] as int)
                        implies holds(out@, u) by {
                        lemma_box_facts(lo, hi, u);
                        assert(lt5(u, a as int, b as int, c as int, d as int, lo[4] as int));
                    }
                    assert forall|m: int| 0 <= m < out@.len() implies in_box(lo, hi, #[trigger] out@[m])
                        && lt5(out@[m], a as int, b as int, c + 1, lo[3] as int, lo[4] as int) by {
                        assert(lt5(out@[m], a as int, b as int, c as int, d as int, lo[4] as int));
                        lemma_box_facts(lo, hi, out@[m]);
                    }
                }
                c = c + 1;
            }
            proof {
                assert forall|u: [i32; 5]| in_box(lo, hi, u) && lt5(u, a as int, b + 1, lo[2] as int, lo[3] as int, lo[4] as int)
                    implies holds(out@, u) by {
                    lemma_box_facts(lo, hi, u);
                    assert(lt5(u, a as int, b as int, c as int, lo[3] as int, lo[4] as int));
                }
                assert forall|m: int| 0 <= m < out@.len() implies in_box(lo, hi, #[trigger] out@[m])
                    && lt5(out@[m], a as int, b + 1, lo[2] as int, lo[3] as int, lo[4] as int) by {
                    assert(lt5(out@[m], a as int, b as int, c as int, lo[3] as int, lo[4] as int));
                    lemma_box_facts(lo, hi, out@[m]);
                }
            }
            b = b + 1;
        }
        proof {
            assert forall|u: [i32; 5]| in_box(lo, hi, u) && lt5(u, a + 1, lo[1] as int, lo[2] as int, lo[3] as int, lo[4] as int)
                implies holds(out@, u) by {
                lemma_box_facts(lo, hi, u);
                assert(lt5(u, a as int, b as int, lo[2] as int, lo[3] as int, lo[4] as int));
            }
            assert forall|m: int| 0 <= m < out@.len() implies in_box(lo, hi, #[trigger] out@[m])
                && lt5(out@[m], a + 1, lo[1] as int, lo[2] as int, lo[3] as int, lo[4] as int) by {
                assert(lt5(out@[m], a as int, b as int, lo[2] as int, lo[3] as int, lo[4] as int));
                lemma_box_facts(lo, hi, out@[m]);
            }
        }
        a = a + 1;
    }
    proof {
        assert forall|u: [i32; 5]| in_box(lo, hi, u) implies holds(out@, u) by {
            lemma_box_facts(lo, hi, u);
            assert(lt5(u, a as int, lo[1] as int, lo[2] as int, lo[3] as int, lo[4] as int));
        }
    }
    out
}

pub proof fn lemma_sum_box_facts(lo: [i64; 5], hi: [i64; 5], total: int, t: [i32; 5])
    requires
        in_sum_box(lo, hi, total, t),
    ensures
        lo[0] <= t[0] <= hi[0],
        lo[1] <= t[1] <= hi[1],
        lo[2] <= t[2] <= hi[2],
        lo[3] <= t[3] <= hi[3],
        lo[4] <= t[4] <= hi[4],
        t[0] + t[1] + t[2] + t[3] + t[4] == total,
{
    lemma_box_facts(lo, hi, t);
}

pub open spec fn min_i(a: int, b: int) -> int {
    if a < b { a } else { b }
}

/// Every tuple of the box `lo..=hi` adding up to `total`, in lexicographic order.
pub fn sum_tuples(lo: [i64; 5], hi: [i64; 5], total: i64) -> (out: Vec<[i32; 5]>)
    requires
        fits_i32(lo, hi),
        -0x1_0000_0000_0000 <= total <= 0x1_0000_0000_0000,
    ensures
        lex_sorted(out@),
        forall|m: int| 0 <= m < out@.len() ==> in_sum_box(lo, hi, total as int, #[trigger] out@[m]),
        forall|t: [i32; 5]| in_sum_box(lo, hi, total as int, t) ==> holds(out@, t),
{
    assert(i32::MIN <= lo[0] <= i32::MAX && i32::MIN <= hi[0] <= i32::MAX);
    assert(i32::MIN <= lo[1] <= i32::MAX && i32::MIN <= hi[1] <= i32::MAX);
    assert(i32::MIN <= lo[2] <= i32::MAX && i32::MIN <= hi[2] <= i32::MAX);
    assert(i32::MIN <= lo[3] <= i32::MAX && i32::MIN <= hi[3] <= i32::MAX);
    assert(i32::MIN <= lo[4] <= i32::MAX && i32::MIN <= hi[4] <= i32::MAX);
    let ghost tot = total as int;
    let need0: i64 = lo[1] + lo[2] + lo[3] + lo[4];
    let need1: i64 = lo[2] + lo[3] + lo[4];
    let need2: i64 = lo[3] + lo[4];
    let need3: i64 = lo[4];
    let ub0: i64 = if hi[0] < total - need0 { hi[0] } else { total - need0 };
    let mut out: Vec<[i32; 5]> = Vec::new();
    let mut a: i64 = lo[0];
    while a <= ub0
        invariant
            fits_i32(lo, hi),
            -0x1_0000_0000_0000 <= total <= 0x1_0000_0000_0000,
            tot == total,
            need0 == lo[1] + lo[2] + lo[3] + lo[4],
            need1 == lo[2] + lo[3] + lo[4],
            need2 == lo[3] + lo[4],
            need3 == lo[4],
            ub0 == min_i(hi[0] as int, total - need0),
            lo[0] <= a,
            a <= ub0 + 1 || a == lo[0],
            lex_sorted(out@),
            forall|m: int| 0 <= m < out@.len() ==> in_sum_box(lo, hi, tot, #[trigger] out@[m])
                && lt5(out@[m], a as int, lo[1] as int, lo[2] as int, lo[3] as int, lo[4] as int),
            forall|t: [i32; 5]| in_sum_box(lo, hi, tot, t) && lt5(t, a as int, lo[1] as int, lo[2] as int, lo[3] as int, lo[4] as int)
                ==> holds(out@, t),
        decreases ub0 + 1 - a,
    {
        let left1: i64 = total - a;
        let ub1: i64 = if hi[1] < left1 - need1 { hi[1] } else { left1 - need1 };
        let mut b: i64 = lo[1];
        while b <= ub1
            invariant
                fits_i32(lo, hi),
                -0x1_0000_0000_0000 <= total <= 0x1_0000_0000_0000,
                tot == total,
                need1 == lo[2] + lo[3] + lo[4],
                need2 == lo[3] + lo[4],
                need3 == lo[4],
                lo[0] <= a <= ub0,
                ub0 == min_i(hi[0] as int, total - need0),
                need0 == lo[1] + lo[2] + lo[3] + lo[4],
                left1 == total - a,
                ub1 == min_i(hi[1] as int, left1 - need1),
                lo[1] <= b,
                b <= ub1 + 1 || b == lo[1],
                lex_sorted(out@),
                forall|m: int| 0 <= m < out@.len() ==> in_sum_box(lo, hi, tot, #[trigger] out@[m])
                    && lt5(out@[m], a as int, b as int, lo[2] as int, lo[3] as int, lo[4] as int),
                forall|t: [i32; 5]| in_sum_box(lo, hi, tot, t) && lt5(t, a as int, b as int, lo[2] as int, lo[3] as int, lo[4] as int)
                    ==> holds(out@, t),
            decreases ub1 + 1 - b,
        {
            let left2: i64 = left1 - b;
            let ub2: i64 = if hi[2] < left2 - need2 { hi[2] } else { left2 - need2 };
            let mut c: i64 = lo[2];
            while c <= ub2
                invariant
                    fits_i32(lo, hi),
                    -0x1_0000_0000_0000 <= total <= 0x1_0000_0000_0000,
                    tot == total,
                    need2 == lo[3] + lo[4],
                    need3 == lo[4],
                    lo[0] <= a <= ub0,
                    lo[1] <= b <= ub1,
                    ub0 == min_i(hi[0] as int, total - need0),
                    need0 == lo[1] + lo[2] + lo[3] + lo[4],
                    left1 == total - a,
                    ub1 == min_i(hi[1] as int, left1 - need1),
                    need1 == lo[2] + lo[3] + lo[4],
                    left2 == left1 - b,
                    ub2 == min_i(hi[2] as int, left2 - need2),
                    lo[2] <= c,
                    c <= ub2 + 1 || c == lo[2],
                    lex_sorted(out@),
                    forall|m: int| 0 <= m < out@.len() ==> in_sum_box(lo, hi, tot, #[trigger] out@[m])
                        && lt5(out@[m], a as int, b as int, c as int, lo[3] as int, lo[4] as int),
                    forall|t: [i32; 5]| in_sum_box(lo, hi, tot, t) && lt5(t, a as int, b as int, c as int, lo[3] as int, lo[4] as int)
                        ==> holds(out@, t),
                decreases ub2 + 1 - c,
            {
                let left3: i64 = left2 - c;
                let ub3: i64 = if hi[3] < left3 - need3 { hi[3] } else { left3 - need3 };
                let mut d: i64 = lo[3];
                while d <= ub3
                    invariant
                        fits_i32(lo, hi),
                        -0x1_0000_0000_0000 <= total <= 0x1_0000_0000_0000,
                        tot == total,
                        need3 == lo[4],
                        lo[0] <= a <= ub0,
                        lo[1] <= b <= ub1,
                        lo[2] <= c <= ub2,
                        ub0 == min_i(hi[0] as int, total - need0),
                        need0 == lo[1] + lo[2] + lo[3] + lo[4],
                        ub1 == min_i(hi[1] as int, left1 - need1),
                        need1 == lo[2] + lo[3] + lo[4],
                        left1 == total - a,
                        left2 == left1 - b,
                        ub2 == min_i(hi[2] as int, left2 - need2),
                        need2 == lo[3] + lo[4],
                        left3 == left2 - c,
                        ub3 == min_i(hi[3] as int, left3 - need3),
                        lo[3] <= d,
                        d <= ub3 + 1 || d == lo[3],
                        lex_sorted(out@),
                        forall|m: int| 0 <= m < out@.len() ==> in_sum_box(lo, hi, tot, #[trigger] out@[m])
                            && lt5(out@[m], a as int, b as int, c as int, d as int, lo[4] as int),
                        forall|t: [i32; 5]| in_sum_box(lo, hi, tot, t) && lt5(t, a as int, b as int, c as int, d as int, lo[4] as int)
                            ==> holds(out@, t),
                    decreases ub3 + 1 - d,
                {
                    let e: i64 = left3 - d;
                    if lo[4] <= e && e <= hi[4] {
                        let t: [i32; 5] = [a as i32, b as i32, c as i32, d as i32, e as i32];
                        let ghost old_out = out@;
                        out.push(t);
                        proof {
                            lemma_mk_box(lo, hi, t);
                            assert(in_sum_box(lo, hi, tot, t));
                            assert forall|x: int, y: int| 0 <= x < y < out@.len() implies lex_lt5(#[trigger] out@[x], #[trigger] out@[y]) by {
                                if y == out@.len() - 1 {
                                    assert(lt5(old_out[x], a as int, b as int, c as int, d as int, lo[4] as int));
                                } else {
                                    assert(lex_lt5(old_out[x], old_out[y]));
                                }
                            }
                            assert forall|u: [i32; 5]| in_sum_box(lo, hi, tot, u) && lt5(u, a as int, b as int, c as int, d + 1, lo[4] as int)
                                implies holds(out@, u) by {
                                lemma_sum_box_facts(lo, hi, tot, u);
                                if u[0] == a && u[1] == b && u[2] == c && u[3] == d {
                                    lemma_eq5(u, t);
                                    assert(out@[out@.len() - 1] == u);
                                } else {
                                    assert(lt5(u, a as int, b as int, c as int, d as int, lo[4] as int));
                                    assert(holds(old_out, u));
                                    let m = choose|m: int| 0 <= m < old_out.len() && old_out[m] == u;
                                    assert(out@[m] == old_out[m]);
                                    assert(out@[m] == u);
                                }
                            }
                            assert forall|m: int| 0 <= m < out@.len() implies in_sum_box(lo, hi, tot, #[trigger] out@[m])
                                && lt5(out@[m], a as int, b as int, c as int, d + 1, lo[4] as int) by {
                                if m < old_out.len() {
                                    assert(lt5(old_out[m], a as int, b as int, c as int, d as int, lo[4] as int));
                                }
                            }
                        }
                    } else {
                        proof {
                            assert forall|u: [i32; 5]| in_sum_box(lo, hi, tot, u) && lt5(u, a as int, b as int, c as int, d + 1, lo[4] as int)
                                implies holds(out@, u) by {
                                lemma_sum_box_facts(lo, hi, tot, u);
                                assert(lt5(u, a as int, b as int, c as int, d as int, lo[4] as int));
                            }
                            assert forall|m: int| 0 <= m < out@.len() implies in_sum_box(lo, hi, tot, #[trigger] out@[m])
                                && lt5(out@[m], a as int, b as int, c as int, d + 1, lo[4] as int) by {
                                assert(lt5(out@[m], a as int, b as int, c as int, d as int, lo[4] as int));
                            }
                        }
                    }
                    d = d + 1;
                }
                proof {
                    assert forall|u: [i32; 5]| in_sum_box(lo, hi, tot, u) && lt5(u, a as int, b as int, c + 1, lo[3] as int, lo[4] as int)
                        implies holds(out@, u) by {
                        lemma_sum_box_facts(lo, hi, tot, u);
                        assert(lt5(u, a as int, b as int, c as int, d as int, lo[4] as int));
                    }
                    assert forall|m: int| 0 <= m < out@.len() implies in_sum_box(lo, hi, tot, #[trigger] out@[m])
                        && lt5(out@[m], a as int, b as int, c + 1, lo[3] as int, lo[4] as int) by {
                        assert(lt5(out@[m], a as int, b as int, c as int, d as int, lo[4] as int));
                        lemma_sum_box_facts(lo, hi, tot, out@[m]);
                    }
                }
                c = c + 1;
            }
            proof {
                assert forall|u: [i32; 5]| in_sum_box(lo, hi, tot, u) && lt5(u, a as int, b + 1, lo[2] as int, lo[3] as int, lo[4] as int)
                    implies holds(out@, u) by {
                    lemma_sum_box_facts(lo, hi, tot, u);
                    assert(lt5(u, a as int, b as int, c as int, lo[3] as int, lo[4] as int));
                }
                assert forall|m: int| 0 <= m < out@.len() implies in_sum_box(lo, hi, tot, #[trigger] out@[m])
                    && lt5(out@[m], a as int, b + 1, lo[2] as int, lo[3] as int, lo[4] as int) by {
                    assert(lt5(out@[m], a as int, b as int, c as int, lo[3] as int, lo[4] as int));
                    lemma_sum_box_facts(lo, hi, tot, out@[m]);
                }
            }
            b = b + 1;
        }
        proof {
            assert forall|u: [i32; 5]| in_sum_box(lo, hi, tot, u) && lt5(u, a + 1, lo[1] as int, lo[2] as int, lo[3] as int, lo[4] as int)
                implies holds(out@, u) by {
                lemma_sum_box_facts(lo, hi, tot, u);
                assert(lt5(u, a as int, b as int, lo[2] as int, lo[3] as int, lo[4] as int));
            }
            assert forall|m: int| 0 <= m < out@.len() implies in_sum_box(lo, hi, tot, #[trigger] out@[m])
                && lt5(out@[m], a + 1, lo[1] as int, lo[2] as int, lo[3] as int, lo[4] as int) by {
                assert(lt5(out@[m], a as int, b as int, lo[2] as int, lo[3] as int, lo[4] as int));
                lemma_sum_box_facts(lo, hi, tot, out@[m]);
            }
        }
        a = a + 1;
    }
    proof {
        assert forall|u: [i32; 5]| in_sum_box(lo, hi, tot, u) implies holds(out@, u) by {
            lemma_sum_box_facts(lo, hi, tot, u);
            assert(lt5(u, a as int, lo[1] as int, lo[2] as int, lo[3] as int, lo[4] as int));
        }
    }
    out
}

} // verus!
