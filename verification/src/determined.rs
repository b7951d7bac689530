//! The description of a guess response pins it down: two responses that
//! meet it for the same candidates agree field by field. Refining with no
//! column filled in therefore gives back the guess's own response.
use vstd::prelude::*;
use crate::dto::{
    resp_of, top_of, ranks_before, GuessResp, RefineReq, RefineOptions, RefineSettled, Column, col_value, has_value,
    options_over, strictly_sorted, sorted_i32, only_i64, only_i32,
};
use crate::enumerate::lex_lt5;
use crate::grow::GrowRange;
use crate::guess::{Candidate, MatchMode};
use crate::stats::{
    combo_lt, combos_of, counts, every, has_combo, lost_tuple, summarizes, wsum, Distribution, LostCombo,
};

verus! {

/// Two distributions agree field by field (their lists by view).
pub open spec fn same_dist(a: Distribution, b: Distribution) -> bool {
    &&& a.weight@ == b.weight@
    &&& a.total_weight == b.total_weight
    &&& a.max_weight == b.max_weight
    &&& a.lost_marginal == b.lost_marginal
    &&& a.random_marginal == b.random_marginal
    &&& a.lost_total_marginal == b.lost_total_marginal
    &&& a.lost_combos@ == b.lost_combos@
}

/// Two guess responses agree field by field (their lists by view).
pub open spec fn same_resp(a: GuessResp, b: GuessResp) -> bool {
    &&& a.mode@ == b.mode@
    &&& a.point == b.point
    &&& a.total == b.total
    &&& a.truncated == b.truncated
    &&& a.candidates@ == b.candidates@
    &&& match (a.distribution, b.distribution) {
        (Some(x), Some(y)) => same_dist(x, y),
        (None, None) => true,
        _ => false,
    }
}

proof fn lemma_lex_total(a: [i32; 5], b: [i32; 5])
    requires
        !lex_lt5(a, b),
        !lex_lt5(b, a),
    ensures
        a == b,
{
    assert(a =~= b);
}

proof fn lemma_combo_lt_order(a: [i32; 5], b: [i32; 5], c: [i32; 5])
    ensures
        !combo_lt(a, a),
        combo_lt(a, b) ==> !combo_lt(b, a),
        a != b ==> combo_lt(a, b) || combo_lt(b, a),
        combo_lt(a, b) && combo_lt(b, c) ==> combo_lt(a, c),
{
    if a != b && !combo_lt(a, b) && !combo_lt(b, a) {
        lemma_lex_total(a, b);
    }
}

/// Some entry of `c` has the loss tuple `t`.
pub open spec fn holds_lost(c: Seq<LostCombo>, t: [i32; 5]) -> bool {
    exists|k: int| 0 <= k < c.len() && c[k].lost == t
}

pub open spec fn ascending(c: Seq<LostCombo>) -> bool {
    forall|j: int, k: int| 0 <= j < k < c.len() ==> combo_lt(#[trigger] c[j].lost, #[trigger] c[k].lost)
}

pub open spec fn same_tuples(c1: Seq<LostCombo>, c2: Seq<LostCombo>) -> bool {
    &&& forall|j: int| 0 <= j < c1.len() ==> holds_lost(c2, #[trigger] c1[j].lost)
    &&& forall|k: int| 0 <= k < c2.len() ==> holds_lost(c1, #[trigger] c2[k].lost)
}

/// Two lists of loss tuples, each strictly ascending, holding the same
/// tuples, list them in the same places.
proof fn lemma_ascending_same_set(c1: Seq<LostCombo>, c2: Seq<LostCombo>)
    requires
        ascending(c1),
        ascending(c2),
        same_tuples(c1, c2),
    ensures
        c1.len() == c2.len(),
        forall|a: int| 0 <= a < c1.len() ==> #[trigger] c1[a].lost == c2[a].lost,
{
    let m = if c1.len() < c2.len() { c1.len() as int } else { c2.len() as int };
    assert forall|a: int| 0 <= a < m implies #[trigger] c1[a].lost == c2[a].lost by {
        lemma_ascending_prefix(c1, c2, a);
    }
    if c1.len() < c2.len() {
        let q = c2[m].lost;
        assert(holds_lost(c1, c2[m].lost));
        let b = choose|j: int| 0 <= j < c1.len() && c1[j].lost == q;
        assert(c1[b].lost == c2[b].lost);
        assert(combo_lt(c2[b].lost, c2[m].lost));
        lemma_combo_lt_order(q, q, q);
    } else if c2.len() < c1.len() {
        let p = c1[m].lost;
        assert(holds_lost(c2, c1[m].lost));
        let b = choose|k: int| 0 <= k < c2.len() && c2[k].lost == p;
        assert(c1[b].lost == c2[b].lost);
        assert(combo_lt(c1[b].lost, c1[m].lost));
        lemma_combo_lt_order(p, p, p);
    }
}

proof fn lemma_ascending_prefix(c1: Seq<LostCombo>, c2: Seq<LostCombo>, a: int)
    requires
        ascending(c1),
        ascending(c2),
        same_tuples(c1, c2),
        0 <= a < c1.len(),
        a < c2.len(),
    ensures
        c1[a].lost == c2[a].lost,
    decreases a,
{
    assert forall|b: int| 0 <= b < a implies #[trigger] c1[b].lost == c2[b].lost by {
        lemma_ascending_prefix(c1, c2, b);
    }
    let p = c1[a].lost;
    let q = c2[a].lost;
    if p != q {
        // Where q sits in c1: not before a (those places hold c2's own,
        // smaller, tuples), not at a, so after a; and the same for p in c2.
        assert(holds_lost(c1, c2[a].lost));
        let b = choose|j: int| 0 <= j < c1.len() && c1[j].lost == q;
        if b < a {
            assert(c1[b].lost == c2[b].lost);
            assert(combo_lt(c2[b].lost, c2[a].lost));
            lemma_combo_lt_order(q, q, q);
        }
        assert(combo_lt(c1[a].lost, c1[b].lost));
        assert(holds_lost(c2, c1[a].lost));
        let c = choose|k: int| 0 <= k < c2.len() && c2[k].lost == p;
        if c < a {
            assert(c1[c].lost == c2[c].lost);
            assert(combo_lt(c1[c].lost, c1[a].lost));
            lemma_combo_lt_order(p, p, p);
        }
        assert(combo_lt(c2[a].lost, c2[c].lost));
        lemma_combo_lt_order(p, q, p);
    }
}

proof fn lemma_combos_same_tuples(c1: Seq<LostCombo>, c2: Seq<LostCombo>, w: Seq<u64>, catalog: GrowRange, cands: Seq<Candidate>)
    requires
        combos_of(c1, w, catalog, cands),
        combos_of(c2, w, catalog, cands),
    ensures
        forall|j: int| 0 <= j < c1.len() ==> holds_lost(c2, #[trigger] c1[j].lost),
{
    let n = cands.len() as int;
    assert forall|j: int| 0 <= j < c1.len() implies holds_lost(c2, #[trigger] c1[j].lost) by {
        let t = c1[j].lost;
        let i = choose|i: int| 0 <= i < n && #[trigger] has_combo(catalog, cands, i, c1[j].lost);
        reveal(has_combo);
        assert(counts(catalog, cands, i) && lost_tuple(catalog, cands[i]) == t);
        let k = choose|k: int| 0 <= k < c2.len() && #[trigger] c2[k].lost == lost_tuple(catalog, cands[i]);
        assert(c2[k].lost == t);
    }
}

proof fn lemma_combos_unique(c1: Seq<LostCombo>, c2: Seq<LostCombo>, w: Seq<u64>, catalog: GrowRange, cands: Seq<Candidate>)
    requires
        combos_of(c1, w, catalog, cands),
        combos_of(c2, w, catalog, cands),
    ensures
        c1 == c2,
{
    lemma_combos_same_tuples(c1, c2, w, catalog, cands);
    lemma_combos_same_tuples(c2, c1, w, catalog, cands);
    lemma_ascending_same_set(c1, c2);
    assert forall|j: int| 0 <= j < c1.len() implies #[trigger] c1[j] == c2[j] by {
        assert(c1[j].lost == c2[j].lost);
    }
    assert(c1 =~= c2);
}

/// Two summaries of the same candidates agree field by field.
pub proof fn lemma_summary_unique(d1: Distribution, d2: Distribution, catalog: GrowRange, cands: Seq<Candidate>)
    requires
        summarizes(d1, catalog, cands),
        summarizes(d2, catalog, cands),
    ensures
        same_dist(d1, d2),
{
    let n = cands.len() as int;
    assert(d1.weight@ =~= d2.weight@);
    let w = d1.weight@;
    if n > 0 {
        let i1 = choose|i: int| 0 <= i < n && w[i] == d1.max_weight;
        let i2 = choose|i: int| 0 <= i < n && d2.weight@[i] == d2.max_weight;
        assert(w[i2] <= d1.max_weight);
        assert(d2.weight@[i1] <= d2.max_weight);
    }
    assert forall|a: int| 0 <= a < 5 implies #[trigger] d1.lost_marginal[a] == d2.lost_marginal[a] by {
        assert forall|l: int| 0 <= l < 5 implies #[trigger] d1.lost_marginal[a][l] == d2.lost_marginal[a][l] by {}
        assert(d1.lost_marginal[a] =~= d2.lost_marginal[a]);
    }
    assert(d1.lost_marginal =~= d2.lost_marginal);
    assert forall|a: int| 0 <= a < 5 implies #[trigger] d1.random_marginal[a] == d2.random_marginal[a] by {
        assert forall|r: int| 0 <= r < 11 implies #[trigger] d1.random_marginal[a][r] == d2.random_marginal[a][r] by {}
        assert(d1.random_marginal[a] =~= d2.random_marginal[a]);
    }
    assert(d1.random_marginal =~= d2.random_marginal);
    assert forall|s: int| 0 <= s < 21 implies #[trigger] d1.lost_total_marginal[s] == d2.lost_total_marginal[s] by {}
    assert(d1.lost_total_marginal =~= d2.lost_total_marginal);
    lemma_combos_unique(d1.lost_combos@, d2.lost_combos@, w, catalog, cands);
}

proof fn lemma_ranks_order(w: Seq<u64>, c: Seq<Candidate>, i: int, j: int)
    ensures
        !ranks_before(w, c, i, i),
        ranks_before(w, c, i, j) ==> !ranks_before(w, c, j, i),
{
}

proof fn lemma_top_prefix(w: Seq<u64>, c: Seq<Candidate>, o1: Seq<usize>, o2: Seq<usize>, k: int, a: int)
    requires
        top_of(w, c, o1, k),
        top_of(w, c, o2, k),
        0 <= a < k,
    ensures
        o1[a] == o2[a],
    decreases a,
{
    assert forall|b: int| 0 <= b < a implies #[trigger] o1[b] == o2[b] by {
        lemma_top_prefix(w, c, o1, o2, k, b);
    }
    let p = o1[a] as int;
    let q = o2[a] as int;
    if p != q {
        assert(ranks_before(w, c, p, q)) by {
            if o1.contains(q as usize) {
                let b = choose|b: int| 0 <= b < o1.len() && o1[b] == q as usize;
                if b < a {
                    assert(o1[b] == o2[b]);
                    assert(ranks_before(w, c, o2[b] as int, o2[a] as int));
                    lemma_ranks_order(w, c, q, q);
                }
                assert(b != a);
                assert(ranks_before(w, c, o1[a] as int, o1[b] as int));
            } else {
                assert(0 <= q < c.len());
                assert(ranks_before(w, c, o1[a] as int, q));
            }
        }
        assert(ranks_before(w, c, q, p)) by {
            if o2.contains(p as usize) {
                let b = choose|b: int| 0 <= b < o2.len() && o2[b] == p as usize;
                if b < a {
                    assert(o1[b] == o2[b]);
                    assert(ranks_before(w, c, o1[b] as int, o1[a] as int));
                    lemma_ranks_order(w, c, p, p);
                }
                assert(b != a);
                assert(ranks_before(w, c, o2[a] as int, o2[b] as int));
            } else {
                assert(0 <= p < c.len());
                assert(ranks_before(w, c, o2[a] as int, p));
            }
        }
        lemma_ranks_order(w, c, p, q);
    }
}

/// The first `k` candidates in showing order are one list.
pub proof fn lemma_top_unique(w: Seq<u64>, c: Seq<Candidate>, o1: Seq<usize>, o2: Seq<usize>, k: int)
    requires
        top_of(w, c, o1, k),
        top_of(w, c, o2, k),
    ensures
        o1 == o2,
{
    assert forall|a: int| 0 <= a < k implies #[trigger] o1[a] == o2[a] by {
        lemma_top_prefix(w, c, o1, o2, k, a);
    }
    assert(o1 =~= o2);
}

/// The description of a guess response pins it down: two responses that
/// meet it for the same candidates, mode and points agree field by field.
pub proof fn lemma_resp_unique(r1: GuessResp, r2: GuessResp, catalog: GrowRange, cands: Seq<Candidate>, mode: MatchMode,
    point: i32, max_rows: usize)
    requires
        resp_of(r1, catalog, cands, mode, point, max_rows),
        resp_of(r2, catalog, cands, mode, point, max_rows),
    ensures
        same_resp(r1, r2),
{
    if cands.len() > 0 {
        let d1 = r1.distribution->Some_0;
        let d2 = r2.distribution->Some_0;
        lemma_summary_unique(d1, d2, catalog, cands);
        let k = r1.candidates@.len() as int;
        let o1 = choose|order: Seq<usize>| #[trigger] top_of(d1.weight@, cands, order, k)
            && forall|a: int| 0 <= a < order.len() ==> #[trigger] r1.candidates@[a] == crate::dto::spec_candidate_dto(
                catalog, cands[order[a] as int], d1.weight@[order[a] as int]);
        let o2 = choose|order: Seq<usize>| #[trigger] top_of(d2.weight@, cands, order, k)
            && forall|a: int| 0 <= a < order.len() ==> #[trigger] r2.candidates@[a] == crate::dto::spec_candidate_dto(
                catalog, cands[order[a] as int], d2.weight@[order[a] as int]);
        lemma_top_unique(d1.weight@, cands, o1, o2, k);
        assert(r1.candidates@ =~= r2.candidates@);
    } else {
        assert(r1.candidates@ =~= r2.candidates@);
    }
}

/// A refinement with no column filled in keeps every candidate, with the
/// whole weight.
pub proof fn lemma_empty_filter_keeps_everything(req: RefineReq, cands: Seq<Candidate>, w: Seq<u64>)
    requires
        forall|s: int| 0 <= s < 7 ==> #[trigger] req.stat[s] is None,
        forall|a: int| 0 <= a < 5 ==> #[trigger] req.bp[a] is None,
        forall|a: int| 0 <= a < 5 ==> #[trigger] req.grow[a] is None,
    ensures
        req.kept(cands, cands.len() as int) == cands,
        wsum(w, req.keep_pred(cands), cands.len() as int) == wsum(w, every(), cands.len() as int),
{
    lemma_keeps_all(req, cands, w, cands.len() as int);
}

proof fn lemma_keeps_all(req: RefineReq, cands: Seq<Candidate>, w: Seq<u64>, n: int)
    requires
        0 <= n <= cands.len(),
        forall|s: int| 0 <= s < 7 ==> #[trigger] req.stat[s] is None,
        forall|a: int| 0 <= a < 5 ==> #[trigger] req.bp[a] is None,
        forall|a: int| 0 <= a < 5 ==> #[trigger] req.grow[a] is None,
    ensures
        req.kept(cands, n) == cands.subrange(0, n),
        wsum(w, req.keep_pred(cands), n) == wsum(w, every(), n),
    decreases n,
{
    if n > 0 {
        lemma_keeps_all(req, cands, w, n - 1);
        assert(req.spec_keeps(cands[n - 1]));
        assert(req.keep_pred(cands)(n - 1));
        assert(every()(n - 1));
        assert(cands.subrange(0, n - 1).push(cands[n - 1]) =~= cands.subrange(0, n));
    } else {
        assert(cands.subrange(0, 0) =~= Seq::<Candidate>::empty());
    }
}

/// Refining with no column filled in gives back the guess's own response:
/// the same mode, points, count, candidates shown and distribution.
pub proof fn lemma_empty_filter_reproduces_the_guess(req: RefineReq, guessed: GuessResp, refined: GuessResp,
    catalog: GrowRange, cands: Seq<Candidate>, mode: MatchMode, point: i32, max_rows: usize)
    requires
        forall|s: int| 0 <= s < 7 ==> #[trigger] req.stat[s] is None,
        forall|a: int| 0 <= a < 5 ==> #[trigger] req.bp[a] is None,
        forall|a: int| 0 <= a < 5 ==> #[trigger] req.grow[a] is None,
        resp_of(guessed, catalog, cands, mode, point, max_rows),
        resp_of(refined, catalog, req.kept(cands, cands.len() as int), mode, point, max_rows),
    ensures
        same_resp(guessed, refined),
{
    lemma_keeps_all(req, cands, Seq::<u64>::empty(), cands.len() as int);
    assert(cands.subrange(0, cands.len() as int) =~= cands);
    lemma_resp_unique(guessed, refined, catalog, cands, mode, point, max_rows);
}


/// The value every candidate of `kept` has in column `col`, if they all
/// agree and there is at least one.
pub open spec fn agreed(kept: Seq<Candidate>, col: Column) -> Option<i64> {
    if kept.len() > 0 && forall|i: int| 0 <= i < kept.len() ==> #[trigger] col_value(kept[i], col) == col_value(kept[0], col) {
        Some(col_value(kept[0], col))
    } else {
        None
    }
}

proof fn lemma_only_is_agreed(opts: Seq<i64>, kept: Seq<Candidate>, col: Column)
    requires
        strictly_sorted(opts),
        forall|y: i64| opts.contains(y) <==> has_value(kept, col, y),
    ensures
        only_i64(opts) == agreed(kept, col),
{
    if kept.len() == 0 {
        if opts.len() > 0 {
            assert(opts.contains(opts[0]));
        }
    } else {
        let v0 = col_value(kept[0], col);
        assert(has_value(kept, col, v0));
        assert(opts.contains(v0));
        if forall|i: int| 0 <= i < kept.len() ==> #[trigger] col_value(kept[i], col) == v0 {
            assert(opts.contains(opts[0]));
            if opts.len() >= 2 {
                assert(opts.contains(opts[1]));
                assert(opts[0] < opts[1]);
            }
        } else {
            let i = choose|i: int| 0 <= i < kept.len() && #[trigger] col_value(kept[i], col) != v0;
            let v1 = col_value(kept[i], col);
            assert(has_value(kept, col, v1));
            assert(opts.contains(v1));
            if opts.len() == 1 {
                let a = choose|a: int| 0 <= a < opts.len() && opts[a] == v0;
                let b = choose|b: int| 0 <= b < opts.len() && opts[b] == v1;
            }
        }
    }
}

proof fn lemma_only_is_agreed_i32(opts: Seq<i32>, kept: Seq<Candidate>, a: usize)
    requires
        a < 5,
        sorted_i32(opts),
        forall|y: i32| opts.contains(y) <==> has_value(kept, Column::Grow(a), y as i64),
    ensures
        only_i32(opts) == match agreed(kept, Column::Grow(a)) {
            Some(v) => Some(v as i32),
            None => None::<i32>,
        },
{
    let col = Column::Grow(a);
    if kept.len() == 0 {
        if opts.len() > 0 {
            assert(opts.contains(opts[0]));
        }
    } else {
        let v0 = col_value(kept[0], col);
        let t0 = kept[0].grow.tiers()[a as int];
        assert(v0 == t0 as i64);
        assert(has_value(kept, col, t0 as i64));
        assert(opts.contains(t0));
        if forall|i: int| 0 <= i < kept.len() ==> #[trigger] col_value(kept[i], col) == v0 {
            assert(opts.contains(opts[0]));
            if opts.len() >= 2 {
                assert(opts.contains(opts[1]));
                assert(opts[0] < opts[1]);
            }
        } else {
            let i = choose|i: int| 0 <= i < kept.len() && #[trigger] col_value(kept[i], col) != v0;
            let t1 = kept[i].grow.tiers()[a as int];
            assert(has_value(kept, col, t1 as i64));
            assert(opts.contains(t1));
            if opts.len() == 1 {
                let x = choose|x: int| 0 <= x < opts.len() && opts[x] == t0;
                let y = choose|y: int| 0 <= y < opts.len() && opts[y] == t1;
            }
        }
    }
}

/// A column is settled on a value exactly when every candidate left has
/// that value there (and at least one is left); with nothing left no
/// column is settled, so the questions are not over.
pub proof fn lemma_settled_iff_survivors_agree(o: RefineOptions, kept: Seq<Candidate>)
    requires
        options_over(o, kept),
    ensures
        forall|s: int| 0 <= s < 7 ==> #[trigger] RefineSettled::spec_of(o).stat[s] == agreed(kept, Column::Stat(s as usize)),
        forall|a: int| 0 <= a < 5 ==> #[trigger] RefineSettled::spec_of(o).bp[a] == agreed(kept, Column::Bp(a as usize)),
        forall|a: int| 0 <= a < 5 ==> #[trigger] RefineSettled::spec_of(o).grow[a] == match agreed(kept, Column::Grow(a as usize)) {
            Some(v) => Some(v as i32),
            None => None::<i32>,
        },
        kept.len() == 0 ==> !RefineSettled::spec_of(o).all,
{
    let st = RefineSettled::spec_of(o);
    assert forall|s: int| 0 <= s < 7 implies #[trigger] st.stat[s] == agreed(kept, Column::Stat(s as usize)) by {
        assert(strictly_sorted(o.stat[s]@));
        lemma_only_is_agreed(o.stat[s]@, kept, Column::Stat(s as usize));
        if s == 0 {} else if s == 1 {} else if s == 2 {} else if s == 3 {} else if s == 4 {} else if s == 5 {} else {}
    }
    assert forall|a: int| 0 <= a < 5 implies #[trigger] st.bp[a] == agreed(kept, Column::Bp(a as usize)) by {
        assert(strictly_sorted(o.bp[a]@));
        lemma_only_is_agreed(o.bp[a]@, kept, Column::Bp(a as usize));
        if a == 0 {} else if a == 1 {} else if a == 2 {} else if a == 3 {} else {}
    }
    assert forall|a: int| 0 <= a < 5 implies #[trigger] st.grow[a] == match agreed(kept, Column::Grow(a as usize)) {
        Some(v) => Some(v as i32),
        None => None::<i32>,
    } by {
        assert(sorted_i32(o.grow[a]@));
        lemma_only_is_agreed_i32(o.grow[a]@, kept, a as usize);
        if a == 0 {} else if a == 1 {} else if a == 2 {} else if a == 3 {} else {}
    }
    if kept.len() == 0 {
        assert(st.stat[5] == agreed(kept, Column::Stat(5)));
    }
}

} // verus!
