use vstd::prelude::*;

use crate::model::{
    beam_sum, ceremony_keeps, row_sum, share, tally, truth_keeps, valid_score, Couple, SeasonView,
};
use crate::season::mutators::lemma_tally_bound;

verus! {

/// The sum of the tallies of row `m` over the columns `0..j`.
pub open spec fn tally_sum(u: Seq<Seq<usize>>, ws: Seq<usize>, m: int, j: nat) -> nat
    decreases j,
{
    if j == 0 {
        0
    } else {
        tally_sum(u, ws, m, (j - 1) as nat) + tally(u, ws, m, (j - 1) as usize)
    }
}

/// How many of the worlds `ws` map row `m` below column `j`.
pub open spec fn below(u: Seq<Seq<usize>>, ws: Seq<usize>, m: int, j: nat) -> nat
    decreases ws.len(),
{
    if ws.len() == 0 {
        0
    } else {
        below(u, ws.drop_last(), m, j) + if (u[ws.last() as int][m] as nat) < j {
            1nat
        } else {
            0nat
        }
    }
}

proof fn lemma_below_step(u: Seq<Seq<usize>>, ws: Seq<usize>, m: int, j: nat)
    requires
        j <= usize::MAX,
    ensures
        below(u, ws, m, j + 1) == below(u, ws, m, j) + tally(u, ws, m, j as usize),
    decreases ws.len(),
{
    if ws.len() > 0 {
        lemma_below_step(u, ws.drop_last(), m, j);
    }
}

proof fn lemma_below_zero(u: Seq<Seq<usize>>, ws: Seq<usize>, m: int)
    ensures
        below(u, ws, m, 0) == 0,
    decreases ws.len(),
{
    if ws.len() > 0 {
        lemma_below_zero(u, ws.drop_last(), m);
    }
}

proof fn lemma_tally_sum_is_below(u: Seq<Seq<usize>>, ws: Seq<usize>, m: int, j: nat)
    requires
        j <= usize::MAX,
    ensures
        tally_sum(u, ws, m, j) == below(u, ws, m, j),
    decreases j,
{
    if j == 0 {
        lemma_below_zero(u, ws, m);
    } else {
        lemma_tally_sum_is_below(u, ws, m, (j - 1) as nat);
        lemma_below_step(u, ws, m, (j - 1) as nat);
    }
}

proof fn lemma_below_all(u: Seq<Seq<usize>>, ws: Seq<usize>, m: int, j: nat)
    requires
        forall|i: int| 0 <= i < ws.len() ==> (u[#[trigger] ws[i] as int][m] as nat) < j,
    ensures
        below(u, ws, m, j) == ws.len(),
    decreases ws.len(),
{
    if ws.len() > 0 {
        assert forall|i: int| 0 <= i < ws.drop_last().len() implies (u[#[trigger] ws.drop_last()[i] as int][m] as nat) < j by {
            assert(ws.drop_last()[i] == ws[i]);
        }
        lemma_below_all(u, ws.drop_last(), m, j);
        assert(ws.last() == ws[ws.len() - 1]);
    }
}

proof fn lemma_row_sum_new(u: Seq<Seq<usize>>, ws: Seq<usize>, m: int, j: nat)
    requires
        j <= usize::MAX,
        ws.len() <= usize::MAX,
    ensures
        row_sum(Seq::new(j, |f: int| tally(u, ws, m, f as usize) as usize)) == tally_sum(
            u,
            ws,
            m,
            j,
        ),
    decreases j,
{
    if j > 0 {
        let s = Seq::new(j, |f: int| tally(u, ws, m, f as usize) as usize);
        let p = Seq::new((j - 1) as nat, |f: int| tally(u, ws, m, f as usize) as usize);
        assert(s.drop_last() =~= p);
        lemma_row_sum_new(u, ws, m, (j - 1) as nat);
        lemma_tally_bound(u, ws, m, (j - 1) as usize);
        assert(s.last() == tally(u, ws, m, (j - 1) as usize) as usize);
    }
}

/// Every row of a recomputed matrix sums to the pool size: over a non-empty
/// pool each row of probabilities sums to exactly one.
pub proof fn lemma_rows_sum_to_pool(v: SeasonView)
    requires
        v.wf(),
    ensures
        forall|m: int|
            0 <= m < v.n ==> row_sum(#[trigger] v.recalculated().counts[m]) == v.worlds.len(),
{
    let r = v.recalculated();
    crate::season::mutators::lemma_size_small(v.n);
    assert forall|m: int| 0 <= m < v.n implies row_sum(#[trigger] r.counts[m]) == v.worlds.len() by {
        assert(r.counts[m] =~= Seq::new(v.n, |f: int| tally(v.universe, v.worlds, m, f as usize) as usize));
        lemma_row_sum_new(v.universe, v.worlds, m, v.n);
        lemma_tally_sum_is_below(v.universe, v.worlds, m, v.n);
        assert forall|i: int| 0 <= i < v.worlds.len() implies (v.universe[#[trigger] v.worlds[i] as int][m] as nat) < v.n by {
            assert((v.worlds[i] as int) < v.universe.len());
            assert(v.universe[v.worlds[i] as int].len() == v.n);
        }
        lemma_below_all(v.universe, v.worlds, m, v.n);
    }
}

/// Recomputing twice in a row gives the same state as recomputing once.
pub proof fn lemma_recalculate_idempotent(v: SeasonView)
    ensures
        v.recalculated().recalculated() == v.recalculated(),
{
}

/// No observation grows the pool; the surviving worlds are among the old ones.
pub proof fn lemma_observation_never_grows(
    v: SeasonView,
    m: usize,
    f: usize,
    correct: bool,
    strip: Seq<usize>,
    beams: nat,
    recompute: bool,
)
    ensures
        v.observe_truth(m, f, correct, recompute).worlds.len() <= v.worlds.len(),
        v.observe_ceremony(strip, beams, recompute).worlds.len() <= v.worlds.len(),
        forall|k: usize|
            v.observe_truth(m, f, correct, recompute).worlds.contains(k) ==> v.worlds.contains(k),
        forall|k: usize|
            v.observe_ceremony(strip, beams, recompute).worlds.contains(k) ==> v.worlds.contains(
                k,
            ),
{
    let kt = truth_keeps(v.universe, m, f, correct);
    let kc = ceremony_keeps(v.universe, strip, beams);
    v.worlds.lemma_filter_len(kt);
    v.worlds.lemma_filter_len(kc);
    assert forall|k: usize| v.observe_truth(m, f, correct, recompute).worlds.contains(k) implies v.worlds.contains(k) by {
        v.worlds.lemma_filter_contains_rev(kt, k);
    }
    assert forall|k: usize| v.observe_ceremony(strip, beams, recompute).worlds.contains(k) implies v.worlds.contains(k) by {
        v.worlds.lemma_filter_contains_rev(kc, k);
    }
}

/// The world that is the hidden truth survives every observation that it
/// gives itself, so observations taken from one hidden matching never empty
/// the pool.
pub proof fn lemma_truthful_observation_keeps_truth(
    v: SeasonView,
    t: usize,
    m: usize,
    strip: Seq<usize>,
    recompute: bool,
)
    requires
        v.worlds.contains(t),
    ensures
        ({
            let w = v.universe[t as int];
            let f = w[m as int];
            &&& v.observe_truth(m, f, true, recompute).worlds.contains(t)
            &&& forall|g: usize|
                g != f ==> #[trigger] v.observe_truth(m, g, false, recompute).worlds.contains(t)
            &&& v.observe_ceremony(
                strip,
                crate::model::agreement(w, strip),
                recompute,
            ).worlds.contains(t)
            &&& v.observe_ceremony(
                strip,
                crate::model::agreement(w, strip),
                recompute,
            ).worlds.len() > 0
        }),
{
    let w = v.universe[t as int];
    let f = w[m as int];
    let i = choose|i: int| 0 <= i < v.worlds.len() && v.worlds[i] == t;
    v.worlds.lemma_filter_contains(truth_keeps(v.universe, m, f, true), i);
    assert forall|g: usize| g != f implies #[trigger] v.observe_truth(
        m,
        g,
        false,
        recompute,
    ).worlds.contains(t) by {
        v.worlds.lemma_filter_contains(truth_keeps(v.universe, m, g, false), i);
    }
    let kc = ceremony_keeps(v.universe, strip, crate::model::agreement(w, strip));
    v.worlds.lemma_filter_contains(kc, i);
    let out = v.worlds.filter(kc);
    assert(out.contains(t));
}

/// A determined couple carries no information: its score is zero, so no
/// single-pair recommendation holds it.
pub proof fn lemma_determined_couple_not_recommended(v: SeasonView, cs: Seq<Couple>, c: Couple)
    requires
        v.wf(),
        (c.0 as nat) < v.n,
        (c.1 as nat) < v.n,
        v.is_determined(c),
    ensures
        v.couple_score(c) == 0,
        !v.best_truth(cs).0.contains(c),
{
    let t = v.total;
    let p = v.worlds.len();
    assert((t * p) / t == p && (t * p) % t == 0) by (nonlinear_arith)
        requires
            t > 0,
    ;
    assert(share(t, t, p) == p);
    if let Some(b) = v.min_truth(cs) {
        let keep = |x: Couple| valid_score(v.couple_score(x)) && v.couple_score(x) == b;
        if cs.filter(keep).contains(c) {
            let j = choose|j: int| 0 <= j < cs.filter(keep).len() && cs.filter(keep)[j] == c;
            broadcast use vstd::seq_lib::group_filter_ensures;

            assert(keep(cs.filter(keep)[j]));
        }
    }
}

/// Every couple that a single-pair recommendation holds is informative: it
/// splits the pool into two non-empty branches, and its worst branch is
/// smaller than the pool. Where no couple is informative the result is empty
/// with the sentinel.
pub proof fn lemma_recommended_couples_informative(v: SeasonView, cs: Seq<Couple>)
    ensures
        forall|i: int|
            0 <= i < v.best_truth(cs).0.len() ==> {
                let c = #[trigger] v.best_truth(cs).0[i];
                let s = v.couple_score(c);
                &&& s == v.best_truth(cs).1
                &&& 0 < s < v.worlds.len()
                &&& forall|j: int| 0 <= j < cs.len() && valid_score(#[trigger] v.couple_score(cs[j])) ==> s <= v.couple_score(cs[j])
            },
        (forall|j: int| 0 <= j < cs.len() ==> !valid_score(#[trigger] v.couple_score(cs[j])))
            ==> v.best_truth(cs) == (Seq::<Couple>::empty(), usize::MAX as nat),
{
    lemma_min_truth_least(v, cs);
    if let Some(b) = v.min_truth(cs) {
        let keep = |x: Couple| valid_score(v.couple_score(x)) && v.couple_score(x) == b;
        broadcast use vstd::seq_lib::group_filter_ensures;

        assert forall|i: int| 0 <= i < cs.filter(keep).len() implies keep(#[trigger] cs.filter(keep)[i]) by {
        }
        assert forall|i: int| 0 <= i < cs.filter(keep).len() implies v.couple_score(#[trigger] cs.filter(keep)[i]) < v.worlds.len() by {
            lemma_score_below_pool(v, cs.filter(keep)[i]);
        }
    }
}

/// A non-zero score is below the pool size.
proof fn lemma_score_below_pool(v: SeasonView, c: Couple)
    ensures
        v.couple_score(c) == 0 || v.couple_score(c) < v.worlds.len(),
{
}

/// The least defined score is a score of some candidate and no larger than
/// any defined one; there is none exactly when no candidate has one.
proof fn lemma_min_truth_least(v: SeasonView, cs: Seq<Couple>)
    ensures
        v.min_truth(cs) matches Some(b) ==> valid_score(b) && (forall|j: int|
            0 <= j < cs.len() && valid_score(#[trigger] v.couple_score(cs[j])) ==> b
                <= v.couple_score(cs[j])),
        v.min_truth(cs) is None <==> (forall|j: int|
            0 <= j < cs.len() ==> !valid_score(#[trigger] v.couple_score(cs[j]))),
    decreases cs.len(),
{
    if cs.len() > 0 {
        let p = cs.drop_last();
        lemma_min_truth_least(v, p);
        assert forall|j: int| 0 <= j < p.len() implies #[trigger] p[j] == cs[j] by {}
        if v.min_truth(cs) is None {
            assert forall|j: int| 0 <= j < cs.len() implies !valid_score(#[trigger] v.couple_score(cs[j])) by {
                if j < p.len() {
                    assert(p[j] == cs[j]);
                }
            }
        }
        if forall|j: int| 0 <= j < cs.len() ==> !valid_score(#[trigger] v.couple_score(cs[j])) {
            assert(!valid_score(v.couple_score(cs[cs.len() - 1])));
            assert forall|j: int| 0 <= j < p.len() implies !valid_score(#[trigger] v.couple_score(p[j])) by {
                assert(p[j] == cs[j]);
            }
        }
        if let Some(b) = v.min_truth(cs) {
            assert forall|j: int| 0 <= j < cs.len() && valid_score(#[trigger] v.couple_score(cs[j])) implies b <= v.couple_score(cs[j]) by {
                if j < p.len() {
                    assert(p[j] == cs[j]);
                }
            }
        }
    }
}

proof fn lemma_weighted_bound(v: SeasonView, w: Seq<usize>, lo: nat, hi: nat)
    ensures
        v.weighted_over(w, lo, hi) <= v.worlds.len() * beam_sum(lo, hi),
    decreases hi,
{
    if hi > lo {
        let b = (hi - 1) as nat;
        lemma_weighted_bound(v, w, lo, b);
        let keep = ceremony_keeps(v.universe, w, b);
        v.worlds.lemma_filter_len(keep);
        let (x, sz, nn, bs) = (
            v.weighted_over(w, lo, b),
            v.worlds.filter(keep).len(),
            v.worlds.len(),
            beam_sum(lo, b),
        );
        assert(x + b * sz <= nn * (bs + b)) by (nonlinear_arith)
            requires
                x <= nn * bs,
                sz <= nn,
        ;
    }
}

/// Heuristic scores are whole numbers no larger than `100` times the sum of
/// the beam counts explored; so is the recommended heuristic score.
pub proof fn lemma_heuristic_score_bounded(v: SeasonView, w: Seq<usize>)
    ensures
        v.ceremony_score(w, true) <= 100 * beam_sum(v.found, v.n + 1),
        v.best_ceremony_score(v.worlds, true) matches Some(b) ==> b <= 100 * beam_sum(
            v.found,
            v.n + 1,
        ),
{
    lemma_score_bounded(v, w);
    lemma_best_heuristic_bounded(v, v.worlds);
}

proof fn lemma_score_bounded(v: SeasonView, w: Seq<usize>)
    ensures
        v.ceremony_score(w, true) <= 100 * beam_sum(v.found, v.n + 1),
{
    if v.worlds.len() > 0 {
        lemma_weighted_bound(v, w, v.found, v.n + 1);
        crate::season::solvers::lemma_rounded_bound(
            v.weighted_over(w, v.found, v.n + 1),
            v.worlds.len(),
            beam_sum(v.found, v.n + 1),
        );
    }
}

proof fn lemma_best_heuristic_bounded(v: SeasonView, ks: Seq<usize>)
    ensures
        v.best_ceremony_score(ks, true) matches Some(b) ==> b <= 100 * beam_sum(
            v.found,
            v.n + 1,
        ),
    decreases ks.len(),
{
    if ks.len() > 0 {
        lemma_best_heuristic_bounded(v, ks.drop_last());
        lemma_score_bounded(v, v.universe[ks.last() as int]);
    }
}

/// The pool never holds more than `n!` worlds, each at most once, in rank
/// order.
pub proof fn lemma_pool_bounded(v: SeasonView)
    requires
        v.wf(),
    ensures
        v.worlds.len() <= crate::worldview::fact(v.n),
        v.worlds.no_duplicates(),
{
    if v.worlds.len() > 0 {
        lemma_rank_at_least_index(v.worlds, v.worlds.len() - 1);
        assert((v.worlds[v.worlds.len() - 1] as int) < v.universe.len());
    }
}

proof fn lemma_rank_at_least_index(ws: Seq<usize>, i: int)
    requires
        crate::model::increasing(ws),
        0 <= i < ws.len(),
    ensures
        ws[i] >= i,
    decreases i,
{
    if i > 0 {
        lemma_rank_at_least_index(ws, i - 1);
    }
}

/// The number of rows below `j` that world `w` maps to column `f`.
pub open spec fn occ(w: Seq<usize>, f: usize, j: nat) -> nat
    decreases j,
{
    if j == 0 {
        0
    } else {
        occ(w, f, (j - 1) as nat) + if w[j - 1] == f {
            1nat
        } else {
            0nat
        }
    }
}

/// The sum over the worlds `ws` of `occ`.
pub open spec fn occ_total(u: Seq<Seq<usize>>, ws: Seq<usize>, f: usize, j: nat) -> nat
    decreases ws.len(),
{
    if ws.len() == 0 {
        0
    } else {
        occ_total(u, ws.drop_last(), f, j) + occ(u[ws.last() as int], f, j)
    }
}

/// The sum of the tallies of column `f` over the rows `0..j`.
pub open spec fn col_sum(u: Seq<Seq<usize>>, ws: Seq<usize>, f: usize, j: nat) -> nat
    decreases j,
{
    if j == 0 {
        0
    } else {
        col_sum(u, ws, f, (j - 1) as nat) + tally(u, ws, (j - 1) as int, f)
    }
}

/// The sum of column `f` over the first `j` rows of a table of counts.
pub open spec fn column_sum(counts: Seq<Seq<usize>>, f: int, j: nat) -> nat
    decreases j,
{
    if j == 0 {
        0
    } else {
        column_sum(counts, f, (j - 1) as nat) + (counts[j - 1][f] as nat)
    }
}

proof fn lemma_occ_once(w: Seq<usize>, f: usize, j: nat)
    requires
        w.no_duplicates(),
        j <= w.len(),
    ensures
        occ(w, f, j) == if exists|m: int| 0 <= m < j && w[m] == f { 1nat } else { 0nat },
    decreases j,
{
    if j > 0 {
        lemma_occ_once(w, f, (j - 1) as nat);
        if w[j - 1] == f {
            assert forall|m: int| 0 <= m < j - 1 implies w[m] != f by {}
        } else {
            if exists|m: int| 0 <= m < j && w[m] == f {
                let m = choose|m: int| 0 <= m < j && w[m] == f;
                assert(m < j - 1);
            }
        }
    }
}

proof fn lemma_col_sum_swap(u: Seq<Seq<usize>>, ws: Seq<usize>, f: usize, j: nat)
    ensures
        col_sum(u, ws, f, j) == occ_total(u, ws, f, j),
    decreases ws.len(), j,
{
    if ws.len() > 0 {
        lemma_col_sum_step(u, ws, f, j);
        lemma_col_sum_swap(u, ws.drop_last(), f, j);
    } else {
        lemma_col_sum_empty(u, ws, f, j);
    }
}

proof fn lemma_col_sum_empty(u: Seq<Seq<usize>>, ws: Seq<usize>, f: usize, j: nat)
    requires
        ws.len() == 0,
    ensures
        col_sum(u, ws, f, j) == 0,
    decreases j,
{
    if j > 0 {
        lemma_col_sum_empty(u, ws, f, (j - 1) as nat);
    }
}

proof fn lemma_col_sum_step(u: Seq<Seq<usize>>, ws: Seq<usize>, f: usize, j: nat)
    requires
        ws.len() > 0,
    ensures
        col_sum(u, ws, f, j) == col_sum(u, ws.drop_last(), f, j) + occ(u[ws.last() as int], f, j),
    decreases j,
{
    if j > 0 {
        lemma_col_sum_step(u, ws, f, (j - 1) as nat);
    }
}

proof fn lemma_occ_total_all(u: Seq<Seq<usize>>, ws: Seq<usize>, n: nat, f: usize)
    requires
        (f as nat) < n,
        n <= usize::MAX,
        forall|i: int| 0 <= i < ws.len() ==> crate::worldview::is_permutation(
            #[trigger] u[ws[i] as int],
            n,
        ),
    ensures
        occ_total(u, ws, f, n) == ws.len(),
    decreases ws.len(),
{
    if ws.len() > 0 {
        let p = ws.drop_last();
        assert forall|i: int| 0 <= i < p.len() implies crate::worldview::is_permutation(
            #[trigger] u[p[i] as int],
            n,
        ) by {
            assert(p[i] == ws[i]);
        }
        lemma_occ_total_all(u, p, n, f);
        let w = u[ws.last() as int];
        assert(crate::worldview::is_permutation(u[ws[ws.len() - 1] as int], n));
        lemma_occ_once(w, f, n);
        lemma_perm_onto(w, n, f);
    }
}

/// A duplicate-free sequence of `n` values below `n` takes every such value.
proof fn lemma_perm_onto(w: Seq<usize>, n: nat, f: usize)
    requires
        crate::worldview::is_permutation(w, n),
        (f as nat) < n,
        n <= usize::MAX,
    ensures
        exists|m: int| 0 <= m < n && w[m] == f,
{
    let s = w.to_set();
    w.unique_seq_to_set();
    let full = Set::new(|x: usize| (x as nat) < n);
    assert(s.subset_of(full));
    lemma_below_set_len(n);
    if !(exists|m: int| 0 <= m < n && w[m] == f) {
        assert(!s.contains(f));
        assert(s.subset_of(full.remove(f)));
        vstd::set_lib::lemma_len_subset(s, full.remove(f));
    }
}

proof fn lemma_below_set_len(n: nat)
    requires
        n <= usize::MAX + 1,
    ensures
        Set::new(|x: usize| (x as nat) < n).finite(),
        Set::new(|x: usize| (x as nat) < n).len() == n,
    decreases n,
{
    let s = Set::new(|x: usize| (x as nat) < n);
    if n == 0 {
        assert(s =~= Set::empty());
    } else {
        lemma_below_set_len((n - 1) as nat);
        let t = Set::new(|x: usize| (x as nat) < n - 1);
        assert(s =~= t.insert((n - 1) as usize));
    }
}

proof fn lemma_column_sum_new(u: Seq<Seq<usize>>, ws: Seq<usize>, n: nat, f: usize, j: nat)
    requires
        j <= n,
        (f as nat) < n,
        ws.len() <= usize::MAX,
    ensures
        column_sum(crate::model::tallies(u, ws, n), f as int, j) == col_sum(u, ws, f, j),
    decreases j,
{
    if j > 0 {
        lemma_column_sum_new(u, ws, n, f, (j - 1) as nat);
        lemma_tally_bound(u, ws, (j - 1) as int, f);
    }
}

/// Every column of a recomputed matrix also sums to the pool size: each
/// surviving world is a permutation, so the matrix is doubly stochastic.
pub proof fn lemma_columns_sum_to_pool(v: SeasonView)
    requires
        v.wf(),
    ensures
        forall|f: int|
            0 <= f < v.n ==> #[trigger] column_sum(v.recalculated().counts, f, v.n) == v.worlds.len(),
{
    crate::season::mutators::lemma_size_small(v.n);
    assert forall|f: int| 0 <= f < v.n implies #[trigger] column_sum(v.recalculated().counts, f, v.n) == v.worlds.len() by {
        let fu = f as usize;
        assert(fu as int == f);
        lemma_column_sum_new(v.universe, v.worlds, v.n, fu, v.n);
        lemma_col_sum_swap(v.universe, v.worlds, fu, v.n);
        assert forall|i: int| 0 <= i < v.worlds.len() implies crate::worldview::is_permutation(
            #[trigger] v.universe[v.worlds[i] as int],
            v.n,
        ) by {
            let k = v.worlds[i] as int;
            assert(k < v.universe.len());
            assert(v.universe[k].len() == v.n);
            assert(v.universe[k].no_duplicates());
            assert forall|m: int| 0 <= m < v.universe[k].len() implies (v.universe[k][m] as nat) < v.n by {}
        }
        lemma_occ_total_all(v.universe, v.worlds, v.n, fu);
    }
}

} // verus!
