//! What a guess answers is fixed by the request: two answers to one search
//! are the same list, and `Auto` answers as the first single rule that
//! finds anything.
use vstd::prelude::*;
use crate::enumerate::lemma_lex_order;
use crate::grow::GrowRange;
use crate::guess::{
    Candidate, GuessOptions, GuessOutcome, MatchMode, Target, cin, covered, grow_ok, has_sol, is_sol, key_lt,
    ladder, mk_cand, search_result, solve_result, spec_full_point,
};
use crate::recover::{lemma_mode_field_unread, with_mode};

verus! {

proof fn lemma_key_order(a: Candidate, b: Candidate, c: Candidate)
    ensures
        !key_lt(a, a),
        key_lt(a, b) ==> !key_lt(b, a),
        key_lt(a, b) && key_lt(b, c) ==> key_lt(a, c),
        !key_lt(a, b) && !key_lt(b, a) ==> a.grow.tiers() == b.grow.tiers() && a.manual == b.manual
            && a.random == b.random,
{
    lemma_lex_order(a.grow.tiers(), b.grow.tiers(), c.grow.tiers());
    lemma_lex_order(a.manual, b.manual, c.manual);
    lemma_lex_order(a.random, b.random, c.random);
}

/// Two records of solutions of one search with the same key are the same.
proof fn lemma_same_key_same_record(catalog: GrowRange, t: Target, p: int, mode: MatchMode, opts: GuessOptions,
    x: Candidate, y: Candidate)
    requires
        x == mk_cand(catalog, t, mode, opts, x.grow, x.manual, x.random),
        y == mk_cand(catalog, t, mode, opts, y.grow, y.manual, y.random),
        is_sol(catalog, t, p, mode, opts, x.grow, x.manual, x.random),
        is_sol(catalog, t, p, mode, opts, y.grow, y.manual, y.random),
        !key_lt(x, y),
        !key_lt(y, x),
    ensures
        x == y,
{
    lemma_key_order(x, y, y);
    assert(grow_ok(catalog, opts, x.grow) && grow_ok(catalog, opts, y.grow)) by {
        reveal(is_sol);
    }
    assert(x.grow == y.grow);
}

/// With `a` and `b` agreeing below `i`, `a[i]` does not come before `b[i]`.
proof fn lemma_not_before(catalog: GrowRange, t: Target, p: int, mode: MatchMode, opts: GuessOptions,
    a: Seq<Candidate>, b: Seq<Candidate>, i: int)
    requires
        search_result(catalog, t, p, mode, opts, a),
        search_result(catalog, t, p, mode, opts, b),
        0 <= i < a.len(),
        i < b.len(),
        forall|j: int| 0 <= j < i ==> #[trigger] a[j] == b[j],
    ensures
        !key_lt(a[i], b[i]),
{
    let x = a[i];
    assert(is_sol(catalog, t, p, mode, opts, x.grow, x.manual, x.random));
    assert(covered(b, mk_cand(catalog, t, mode, opts, x.grow, x.manual, x.random), opts.limit));
    if key_lt(x, b[i]) {
        if cin(b, x) {
            let k = choose|k: int| 0 <= k < b.len() && b[k] == x;
            lemma_key_order(b[i], b[k], b[k]);
            if k < i {
                assert(a[k] == x);
                lemma_key_order(a[k], a[i], a[i]);
            }
        } else {
            let l = b.len() - 1;
            lemma_key_order(b[i], b[l], x);
            lemma_key_order(x, b[i], b[l]);
        }
    }
}

proof fn lemma_prefix_agrees(catalog: GrowRange, t: Target, p: int, mode: MatchMode, opts: GuessOptions,
    a: Seq<Candidate>, b: Seq<Candidate>, i: int)
    requires
        search_result(catalog, t, p, mode, opts, a),
        search_result(catalog, t, p, mode, opts, b),
        0 <= i <= a.len(),
        i <= b.len(),
    ensures
        forall|j: int| 0 <= j < i ==> #[trigger] a[j] == b[j],
    decreases i,
{
    if i > 0 {
        lemma_prefix_agrees(catalog, t, p, mode, opts, a, b, i - 1);
        let k = i - 1;
        lemma_not_before(catalog, t, p, mode, opts, a, b, k);
        lemma_not_before(catalog, t, p, mode, opts, b, a, k);
        lemma_same_key_same_record(catalog, t, p, mode, opts, a[k], b[k]);
    }
}

proof fn lemma_no_longer(catalog: GrowRange, t: Target, p: int, mode: MatchMode, opts: GuessOptions,
    a: Seq<Candidate>, b: Seq<Candidate>)
    requires
        search_result(catalog, t, p, mode, opts, a),
        search_result(catalog, t, p, mode, opts, b),
        forall|j: int| 0 <= j < a.len() && j < b.len() ==> #[trigger] a[j] == b[j],
    ensures
        b.len() <= a.len(),
{
    if b.len() > a.len() {
        let x = b[a.len() as int];
        assert(is_sol(catalog, t, p, mode, opts, x.grow, x.manual, x.random));
        assert(covered(a, mk_cand(catalog, t, mode, opts, x.grow, x.manual, x.random), opts.limit));
        if cin(a, x) {
            let k = choose|k: int| 0 <= k < a.len() && a[k] == x;
            assert(b[k] == x);
            lemma_key_order(b[k], b[k], b[k]);
        }
    }
}

/// A search has one answer: two lists that each are the first `limit`
/// solutions in order (all of them when `limit` is 0) are the same list.
pub proof fn lemma_search_answer_unique(catalog: GrowRange, t: Target, p: int, mode: MatchMode,
    opts: GuessOptions, a: Seq<Candidate>, b: Seq<Candidate>)
    requires
        search_result(catalog, t, p, mode, opts, a),
        search_result(catalog, t, p, mode, opts, b),
    ensures
        a == b,
{
    let n = if a.len() < b.len() { a.len() as int } else { b.len() as int };
    lemma_prefix_agrees(catalog, t, p, mode, opts, a, b, n);
    lemma_no_longer(catalog, t, p, mode, opts, a, b);
    lemma_no_longer(catalog, t, p, mode, opts, b, a);
    assert(a =~= b);
}

/// The options' own match mode is not read by a search: the answer and
/// whether there is any are the same under any of them.
proof fn lemma_search_mode_field_unread(catalog: GrowRange, t: Target, p: int, mode: MatchMode,
    o: GuessOptions, other: MatchMode, s: Seq<Candidate>)
    ensures
        search_result(catalog, t, p, mode, with_mode(o, other), s) == search_result(catalog, t, p, mode, o, s),
        has_sol(catalog, t, p, mode, with_mode(o, other)) == has_sol(catalog, t, p, mode, o),
{
    assert forall|g: GrowRange, m: [i32; 5], r: [i32; 5]|
        #![trigger is_sol(catalog, t, p, mode, o, g, m, r)]
        #![trigger is_sol(catalog, t, p, mode, with_mode(o, other), g, m, r)]
        is_sol(catalog, t, p, mode, with_mode(o, other), g, m, r) == is_sol(catalog, t, p, mode, o, g, m, r)
            && mk_cand(catalog, t, mode, with_mode(o, other), g, m, r) == mk_cand(catalog, t, mode, o, g, m, r) by {
        lemma_mode_field_unread(catalog, t, p, mode, o, other, g, m, r);
    }
    assert(with_mode(o, other).limit == o.limit);
}

/// The rung of ladder `l` an answer comes from: the first with spent
/// points not negative that has a solution.
pub open spec fn first_rung(catalog: GrowRange, t: Target, opts: GuessOptions, l: Seq<(i32, MatchMode)>, k: int) -> bool {
    &&& 0 <= k < l.len()
    &&& l[k].0 >= 0
    &&& has_sol(catalog, t, l[k].0 as int, l[k].1, opts)
    &&& forall|j: int| 0 <= j < k && l[j].0 >= 0 ==> !has_sol(catalog, t, l[j].0 as int, l[j].1, opts)
}

proof fn lemma_answer_rung(catalog: GrowRange, t: Target, opts: GuessOptions, out: GuessOutcome)
    requires
        solve_result(catalog, t, opts, out),
        out.candidates@.len() > 0,
    ensures
        exists|k: int| #[trigger] first_rung(catalog, t, opts, ladder(opts.mode, t.lvl, spec_full_point(t, opts) as i32), k)
            && ladder(opts.mode, t.lvl, spec_full_point(t, opts) as i32)[k] == (out.point, out.mode)
            && search_result(catalog, t, out.point as int, out.mode, opts, out.candidates@),
{
    let l = ladder(opts.mode, t.lvl, spec_full_point(t, opts) as i32);
    let k = choose|k: int| 0 <= k < l.len() && l[k] == (out.point, out.mode) && out.point >= 0
        && search_result(catalog, t, out.point as int, out.mode, opts, out.candidates@)
        && forall|j: int| 0 <= j < k && l[j].0 >= 0 ==> !has_sol(catalog, t, l[j].0 as int, l[j].1, opts);
    let c = out.candidates@[0];
    assert(is_sol(catalog, t, out.point as int, out.mode, opts, c.grow, c.manual, c.random));
    assert(first_rung(catalog, t, opts, l, k));
}

/// `Auto` answers as the first of Exact, Observer and Tolerant, each asked
/// alone with the same options, that finds anything; when none does, it
/// answers as Tolerant does: nothing, at every available point spent.
pub proof fn lemma_auto_is_the_first_rule_that_answers(catalog: GrowRange, t: Target, opts: GuessOptions,
    auto: GuessOutcome, e: GuessOutcome, w: GuessOutcome, tol: GuessOutcome)
    requires
        opts.mode == MatchMode::Auto,
        solve_result(catalog, t, opts, auto),
        solve_result(catalog, t, with_mode(opts, MatchMode::Exact), e),
        solve_result(catalog, t, with_mode(opts, MatchMode::Observer), w),
        solve_result(catalog, t, with_mode(opts, MatchMode::Tolerant), tol),
    ensures
        ({
            let pick = if e.candidates@.len() > 0 { e } else if w.candidates@.len() > 0 { w } else { tol };
            &&& auto.candidates@ == pick.candidates@
            &&& auto.point == pick.point
            &&& auto.mode == pick.mode
        }),
{
    let full = spec_full_point(t, opts) as i32;
    let oe = with_mode(opts, MatchMode::Exact);
    let ow = with_mode(opts, MatchMode::Observer);
    let ot = with_mode(opts, MatchMode::Tolerant);
    assert(spec_full_point(t, oe) == spec_full_point(t, opts));
    assert(spec_full_point(t, ow) == spec_full_point(t, opts));
    assert(spec_full_point(t, ot) == spec_full_point(t, opts));
    let la = ladder(MatchMode::Auto, t.lvl, full);
    let le = ladder(MatchMode::Exact, t.lvl, full);
    let lw = ladder(MatchMode::Observer, t.lvl, full);
    let lt = ladder(MatchMode::Tolerant, t.lvl, full);
    let n = le.len();
    assert(lw.len() == n && lt.len() == n && la.len() == 3 * n && (n == 1 || n == 2));
    assert(la == le + lw + lt);
    assert forall|k: int| 0 <= k < n implies #[trigger] le[k].0 == lw[k].0 && lw[k].0 == lt[k].0 by {}
    // whether a rung of the Auto ladder has a solution is what the single rule says
    assert forall|k: int| 0 <= k < 3 * n implies
        #[trigger] has_sol(catalog, t, la[k].0 as int, la[k].1, opts) == (
            if k < n { has_sol(catalog, t, le[k].0 as int, le[k].1, oe) }
            else if k < 2 * n { has_sol(catalog, t, lw[k - n].0 as int, lw[k - n].1, ow) }
            else { has_sol(catalog, t, lt[k - 2 * n].0 as int, lt[k - 2 * n].1, ot) }) by {
        lemma_search_mode_field_unread(catalog, t, la[k].0 as int, la[k].1, opts, MatchMode::Exact, Seq::empty());
        lemma_search_mode_field_unread(catalog, t, la[k].0 as int, la[k].1, opts, MatchMode::Observer, Seq::empty());
        lemma_search_mode_field_unread(catalog, t, la[k].0 as int, la[k].1, opts, MatchMode::Tolerant, Seq::empty());
    }
    if auto.candidates@.len() > 0 {
        lemma_answer_rung(catalog, t, opts, auto);
        let ka = choose|k: int| #[trigger] first_rung(catalog, t, opts, la, k) && la[k] == (auto.point, auto.mode)
            && search_result(catalog, t, auto.point as int, auto.mode, opts, auto.candidates@);
        assert(has_sol(catalog, t, la[ka].0 as int, la[ka].1, opts));
        if ka < n {
            assert(e.candidates@.len() > 0);
            lemma_answer_rung(catalog, t, oe, e);
            let ke = choose|k: int| #[trigger] first_rung(catalog, t, oe, le, k) && le[k] == (e.point, e.mode)
                && search_result(catalog, t, e.point as int, e.mode, oe, e.candidates@);
            if ke < ka {
                assert(has_sol(catalog, t, la[ke].0 as int, la[ke].1, opts));
            }
            if ka < ke {
                assert(has_sol(catalog, t, le[ka].0 as int, le[ka].1, oe));
            }
            assert(ke == ka);
            lemma_search_mode_field_unread(catalog, t, e.point as int, e.mode, opts, MatchMode::Exact, e.candidates@);
            lemma_search_answer_unique(catalog, t, e.point as int, e.mode, opts, auto.candidates@, e.candidates@);
        } else if ka < 2 * n {
            if e.candidates@.len() > 0 {
                lemma_answer_rung(catalog, t, oe, e);
                let ke = choose|k: int| #[trigger] first_rung(catalog, t, oe, le, k) && le[k] == (e.point, e.mode);
                assert(has_sol(catalog, t, la[ke].0 as int, la[ke].1, opts));
            }
            assert(has_sol(catalog, t, lw[ka - n].0 as int, lw[ka - n].1, ow));
            assert(w.candidates@.len() > 0);
            lemma_answer_rung(catalog, t, ow, w);
            let kw = choose|k: int| #[trigger] first_rung(catalog, t, ow, lw, k) && lw[k] == (w.point, w.mode)
                && search_result(catalog, t, w.point as int, w.mode, ow, w.candidates@);
            if kw + n < ka {
                assert(has_sol(catalog, t, la[kw + n].0 as int, la[kw + n].1, opts));
            }
            if ka < kw + n {
                assert(has_sol(catalog, t, lw[ka - n].0 as int, lw[ka - n].1, ow));
            }
            assert(kw + n == ka);
            lemma_search_mode_field_unread(catalog, t, w.point as int, w.mode, opts, MatchMode::Observer, w.candidates@);
            lemma_search_answer_unique(catalog, t, w.point as int, w.mode, opts, auto.candidates@, w.candidates@);
        } else {
            if e.candidates@.len() > 0 {
                lemma_answer_rung(catalog, t, oe, e);
                let ke = choose|k: int| #[trigger] first_rung(catalog, t, oe, le, k) && le[k] == (e.point, e.mode);
                assert(has_sol(catalog, t, la[ke].0 as int, la[ke].1, opts));
            }
            if w.candidates@.len() > 0 {
                lemma_answer_rung(catalog, t, ow, w);
                let kw = choose|k: int| #[trigger] first_rung(catalog, t, ow, lw, k) && lw[k] == (w.point, w.mode);
                assert(has_sol(catalog, t, la[kw + n].0 as int, la[kw + n].1, opts));
            }
            assert(has_sol(catalog, t, lt[ka - 2 * n].0 as int, lt[ka - 2 * n].1, ot));
            assert(tol.candidates@.len() > 0);
            lemma_answer_rung(catalog, t, ot, tol);
            let kt = choose|k: int| #[trigger] first_rung(catalog, t, ot, lt, k) && lt[k] == (tol.point, tol.mode)
                && search_result(catalog, t, tol.point as int, tol.mode, ot, tol.candidates@);
            if kt + 2 * n < ka {
                assert(has_sol(catalog, t, la[kt + 2 * n].0 as int, la[kt + 2 * n].1, opts));
            }
            if ka < kt + 2 * n {
                assert(has_sol(catalog, t, lt[ka - 2 * n].0 as int, lt[ka - 2 * n].1, ot));
            }
            assert(kt + 2 * n == ka);
            lemma_search_mode_field_unread(catalog, t, tol.point as int, tol.mode, opts, MatchMode::Tolerant, tol.candidates@);
            lemma_search_answer_unique(catalog, t, tol.point as int, tol.mode, opts, auto.candidates@, tol.candidates@);
        }
    } else {
        if e.candidates@.len() > 0 {
            lemma_answer_rung(catalog, t, oe, e);
            let ke = choose|k: int| #[trigger] first_rung(catalog, t, oe, le, k) && le[k] == (e.point, e.mode);
            assert(has_sol(catalog, t, la[ke].0 as int, la[ke].1, opts));
        }
        if w.candidates@.len() > 0 {
            lemma_answer_rung(catalog, t, ow, w);
            let kw = choose|k: int| #[trigger] first_rung(catalog, t, ow, lw, k) && lw[k] == (w.point, w.mode);
            assert(has_sol(catalog, t, la[kw + n].0 as int, la[kw + n].1, opts));
        }
        if tol.candidates@.len() > 0 {
            lemma_answer_rung(catalog, t, ot, tol);
            let kt = choose|k: int| #[trigger] first_rung(catalog, t, ot, lt, k) && lt[k] == (tol.point, tol.mode);
            assert(has_sol(catalog, t, la[kt + 2 * n].0 as int, la[kt + 2 * n].1, opts));
        }
        assert(auto.candidates@ =~= tol.candidates@);
    }
}

} // verus!
