//! The list of every random tuple, built block by block in lexicographic
//! order, and the weights added up over it.
use vstd::prelude::*;
use crate::enumerate::{holds, lemma_lex_sorted_unique, lex_lt5, lex_sorted};
use crate::guess::is_random_tuple;
use crate::stats::{
    lemma_random_weights_total, lemma_sum_ext, pow_int, random_total, spec_random_weight, sum_to, tuple_weight,
    tuples_from1, tuples_from2, tuples_from3,
};

verus! {

/// The weights of the tuples of `s` added up.
pub open spec fn weights_of(s: Seq<[i32; 5]>) -> int
    decreases s.len(),
{
    if s.len() == 0 { 0 } else { weights_of(s.drop_last()) + spec_random_weight(s.last()) }
}

/// The lists `f(0)`, ..., `f(n)` one after another.
pub open spec fn blocks(f: spec_fn(int) -> Seq<[i32; 5]>, n: int) -> Seq<[i32; 5]>
    decreases n + 1,
{
    if n < 0 { Seq::empty() } else { blocks(f, n - 1) + f(n) }
}

proof fn lemma_weights_concat(a: Seq<[i32; 5]>, b: Seq<[i32; 5]>)
    ensures
        weights_of(a + b) == weights_of(a) + weights_of(b),
    decreases b.len(),
{
    if b.len() > 0 {
        lemma_weights_concat(a, b.drop_last());
        assert((a + b).drop_last() =~= a + b.drop_last());
    } else {
        assert(a + b =~= a);
    }
}

proof fn lemma_weights_blocks(f: spec_fn(int) -> Seq<[i32; 5]>, n: int)
    ensures
        weights_of(blocks(f, n)) == sum_to(|k: int| weights_of(f(k)), n),
    decreases n + 1,
{
    if n >= 0 {
        lemma_weights_blocks(f, n - 1);
        lemma_weights_concat(blocks(f, n - 1), f(n));
    }
}

proof fn lemma_blocks_hold(f: spec_fn(int) -> Seq<[i32; 5]>, n: int, t: [i32; 5])
    ensures
        holds(blocks(f, n), t) <==> exists|k: int| 0 <= k <= n && #[trigger] holds(f(k), t),
    decreases n + 1,
{
    if n >= 0 {
        lemma_blocks_hold(f, n - 1, t);
        let a = blocks(f, n - 1);
        let b = f(n);
        if holds(a + b, t) {
            let m = choose|m: int| 0 <= m < (a + b).len() && (a + b)[m] == t;
            if m < a.len() {
                assert(holds(a, t));
            } else {
                assert(b[m - a.len()] == t);
                assert(holds(f(n), t));
            }
        }
        if exists|k: int| 0 <= k <= n && #[trigger] holds(f(k), t) {
            let k = choose|k: int| 0 <= k <= n && #[trigger] holds(f(k), t);
            if k < n {
                let m = choose|m: int| 0 <= m < a.len() && a[m] == t;
                assert((a + b)[m] == t);
            } else {
                let m = choose|m: int| 0 <= m < b.len() && b[m] == t;
                assert((a + b)[a.len() + m] == t);
            }
        }
    }
}

/// Blocks each in order, every tuple of an earlier block before every
/// tuple of a later one, are in order one after another.
proof fn lemma_blocks_sorted(f: spec_fn(int) -> Seq<[i32; 5]>, n: int)
    requires
        forall|k: int| 0 <= k <= n ==> lex_sorted(#[trigger] f(k)),
        forall|j: int, k: int, a: [i32; 5], b: [i32; 5]|
            0 <= j < k <= n && #[trigger] holds(f(j), a) && #[trigger] holds(f(k), b) ==> lex_lt5(a, b),
    ensures
        lex_sorted(blocks(f, n)),
    decreases n + 1,
{
    if n >= 0 {
        lemma_blocks_sorted(f, n - 1);
        let a = blocks(f, n - 1);
        let b = f(n);
        let s = a + b;
        assert(lex_sorted(b));
        assert forall|i: int, j: int| 0 <= i < j < s.len() implies lex_lt5(#[trigger] s[i], #[trigger] s[j]) by {
            if j < a.len() {
                assert(s[i] == a[i] && s[j] == a[j]);
            } else if i >= a.len() {
                assert(s[i] == b[i - a.len()] && s[j] == b[j - a.len()]);
            } else {
                assert(holds(a, s[i]));
                lemma_blocks_hold(f, n - 1, s[i]);
                let k = choose|k: int| 0 <= k <= n - 1 && #[trigger] holds(f(k), s[i]);
                assert(s[j] == b[j - a.len()]);
                assert(holds(f(n), s[j]));
            }
        }
    }
}

/// The tuples `(r0, r1, r2, r3, rest)` for `r3` from 0 up.
pub open spec fn run3(r0: int, r1: int, r2: int) -> Seq<[i32; 5]> {
    let n = 10 - r0 - r1 - r2;
    Seq::new((n + 1) as nat, |r3: int| [r0 as i32, r1 as i32, r2 as i32, r3 as i32, (n - r3) as i32])
}

pub open spec fn run2(r0: int, r1: int) -> Seq<[i32; 5]> {
    blocks(|r2: int| run3(r0, r1, r2), 10 - r0 - r1)
}

pub open spec fn run1(r0: int) -> Seq<[i32; 5]> {
    blocks(|r1: int| run2(r0, r1), 10 - r0)
}

/// Every random tuple, in lexicographic order.
pub open spec fn all_runs() -> Seq<[i32; 5]> {
    blocks(|r0: int| run1(r0), 10)
}

pub open spec fn starts3(t: [i32; 5], r0: int, r1: int, r2: int) -> bool {
    is_random_tuple(t) && t[0] == r0 && t[1] == r1 && t[2] == r2
}

pub open spec fn starts2(t: [i32; 5], r0: int, r1: int) -> bool {
    is_random_tuple(t) && t[0] == r0 && t[1] == r1
}

pub open spec fn starts1(t: [i32; 5], r0: int) -> bool {
    is_random_tuple(t) && t[0] == r0
}

proof fn lemma_run3(r0: int, r1: int, r2: int)
    requires
        0 <= r0 && 0 <= r1 && 0 <= r2 && r0 + r1 + r2 <= 10,
    ensures
        lex_sorted(run3(r0, r1, r2)),
        forall|t: [i32; 5]| #[trigger] holds(run3(r0, r1, r2), t) <==> starts3(t, r0, r1, r2),
        weights_of(run3(r0, r1, r2)) == tuples_from3(r0, r1, r2),
{
    let n = 10 - r0 - r1 - r2;
    let s = run3(r0, r1, r2);
    assert forall|t: [i32; 5]| #[trigger] holds(s, t) <==> starts3(t, r0, r1, r2) by {
        if starts3(t, r0, r1, r2) {
            let r3 = t[3] as int;
            assert(s[r3] =~= t);
        }
    }
    lemma_run_weights(r0, r1, r2, n);
    assert(s.take(n + 1) =~= s);
    assert(weights_of(s) == sum_to(|r3: int| tuple_weight(r0, r1, r2, r3), n));
    assert(s =~= Seq::new((n + 1) as nat, |r3: int| [r0 as i32, r1 as i32, r2 as i32, r3 as i32, (n - r3) as i32]));
}

proof fn lemma_run_weights(r0: int, r1: int, r2: int, m: int)
    requires
        0 <= r0 && 0 <= r1 && 0 <= r2 && r0 + r1 + r2 <= 10,
        -1 <= m <= 10 - r0 - r1 - r2,
    ensures
        weights_of(run3(r0, r1, r2).take(m + 1)) == sum_to(|r3: int| tuple_weight(r0, r1, r2, r3), m),
    decreases m + 1,
{
    let s = run3(r0, r1, r2);
    if m >= 0 {
        lemma_run_weights(r0, r1, r2, m - 1);
        assert(s.take(m + 1).drop_last() =~= s.take(m));
        assert(s.take(m + 1).last() == s[m]);
    } else {
        assert(s.take(0) =~= Seq::<[i32; 5]>::empty());
    }
    if m == 10 - r0 - r1 - r2 {
        assert(s.take(m + 1) =~= s);
    }
}

proof fn lemma_run2(r0: int, r1: int)
    requires
        0 <= r0 && 0 <= r1 && r0 + r1 <= 10,
    ensures
        lex_sorted(run2(r0, r1)),
        forall|t: [i32; 5]| #[trigger] holds(run2(r0, r1), t) <==> starts2(t, r0, r1),
        weights_of(run2(r0, r1)) == tuples_from2(r0, r1),
{
    let n = 10 - r0 - r1;
    let f = |r2: int| run3(r0, r1, r2);
    assert forall|k: int| 0 <= k <= n implies lex_sorted(#[trigger] f(k))
        && (forall|t: [i32; 5]| #[trigger] holds(f(k), t) <==> starts3(t, r0, r1, k))
        && weights_of(f(k)) == tuples_from3(r0, r1, k) by {
        lemma_run3(r0, r1, k);
    }
    assert forall|j: int, k: int, a: [i32; 5], b: [i32; 5]|
        0 <= j < k <= n && #[trigger] holds(f(j), a) && #[trigger] holds(f(k), b) implies lex_lt5(a, b) by {
        assert(starts3(a, r0, r1, j) && starts3(b, r0, r1, k));
    }
    lemma_blocks_sorted(f, n);
    assert forall|t: [i32; 5]| #[trigger] holds(run2(r0, r1), t) <==> starts2(t, r0, r1) by {
        lemma_blocks_hold(f, n, t);
        if starts2(t, r0, r1) {
            assert(holds(f(t[2] as int), t));
        }
    }
    lemma_weights_blocks(f, n);
    lemma_sum_ext(|k: int| weights_of(f(k)), |r2: int| tuples_from3(r0, r1, r2), n);
}

proof fn lemma_run1(r0: int)
    requires
        0 <= r0 <= 10,
    ensures
        lex_sorted(run1(r0)),
        forall|t: [i32; 5]| #[trigger] holds(run1(r0), t) <==> starts1(t, r0),
        weights_of(run1(r0)) == tuples_from1(r0),
{
    let n = 10 - r0;
    let f = |r1: int| run2(r0, r1);
    assert forall|k: int| 0 <= k <= n implies lex_sorted(#[trigger] f(k))
        && (forall|t: [i32; 5]| #[trigger] holds(f(k), t) <==> starts2(t, r0, k))
        && weights_of(f(k)) == tuples_from2(r0, k) by {
        lemma_run2(r0, k);
    }
    assert forall|j: int, k: int, a: [i32; 5], b: [i32; 5]|
        0 <= j < k <= n && #[trigger] holds(f(j), a) && #[trigger] holds(f(k), b) implies lex_lt5(a, b) by {
        assert(starts2(a, r0, j) && starts2(b, r0, k));
    }
    lemma_blocks_sorted(f, n);
    assert forall|t: [i32; 5]| #[trigger] holds(run1(r0), t) <==> starts1(t, r0) by {
        lemma_blocks_hold(f, n, t);
        if starts1(t, r0) {
            assert(holds(f(t[1] as int), t));
        }
    }
    lemma_weights_blocks(f, n);
    lemma_sum_ext(|k: int| weights_of(f(k)), |r1: int| tuples_from2(r0, r1), n);
}

/// The list block by block holds every random tuple once, in order, and
/// its weights add up to the total over the nested sums.
proof fn lemma_all_runs()
    ensures
        lex_sorted(all_runs()),
        forall|t: [i32; 5]| #[trigger] holds(all_runs(), t) <==> is_random_tuple(t),
        weights_of(all_runs()) == random_total(),
{
    let f = |r0: int| run1(r0);
    assert forall|k: int| 0 <= k <= 10 implies lex_sorted(#[trigger] f(k))
        && (forall|t: [i32; 5]| #[trigger] holds(f(k), t) <==> starts1(t, k))
        && weights_of(f(k)) == tuples_from1(k) by {
        lemma_run1(k);
    }
    assert forall|j: int, k: int, a: [i32; 5], b: [i32; 5]|
        0 <= j < k <= 10 && #[trigger] holds(f(j), a) && #[trigger] holds(f(k), b) implies lex_lt5(a, b) by {
        assert(starts1(a, j) && starts1(b, k));
    }
    lemma_blocks_sorted(f, 10);
    assert forall|t: [i32; 5]| #[trigger] holds(all_runs(), t) <==> is_random_tuple(t) by {
        lemma_blocks_hold(f, 10, t);
        if is_random_tuple(t) {
            assert(holds(f(t[0] as int), t));
        }
    }
    lemma_weights_blocks(f, 10);
    lemma_sum_ext(|k: int| weights_of(f(k)), |r0: int| tuples_from1(r0), 10);
}

/// Over the tuples `for_each_random_tuple` lists (every random tuple once,
/// in lexicographic order), the weights add up to `5^10`.
pub proof fn lemma_listed_weights_total(all: Seq<[i32; 5]>)
    requires
        lex_sorted(all),
        forall|m: int| 0 <= m < all.len() ==> is_random_tuple(#[trigger] all[m]),
        forall|t: [i32; 5]| is_random_tuple(t) ==> holds(all, t),
    ensures
        weights_of(all) == pow_int(5, 10),
        pow_int(5, 10) == 9765625,
{
    lemma_all_runs();
    assert forall|t: [i32; 5]| holds(all, t) <==> holds(all_runs(), t) by {
        if holds(all, t) {
            let m = choose|m: int| 0 <= m < all.len() && all[m] == t;
            assert(is_random_tuple(all[m]));
        }
    }
    lemma_lex_sorted_unique(all, all_runs());
    lemma_random_weights_total();
}

} // verus!
