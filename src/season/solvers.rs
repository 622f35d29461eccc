use vstd::prelude::*;

use super::mutators::lemma_wf_small;
use super::{make_all_couples, Season};
use crate::model::{
    all_couples, beam_sum, ceremony_keeps, fold_max, fold_min, named, resolve_all, share,
    strip_couples, valid_score, AytoError, Couple, SeasonView,
};

verus! {

/// Rounding `c * pool / total` half up stays within the pool when `c <= total`.
proof fn lemma_share_bound(c: nat, total: nat, pool: nat)
    requires
        c <= total,
    ensures
        share(c, total, pool) <= pool,
{
    if total > 0 {
        let x = c * pool;
        let q = x / total;
        let rem = x % total;
        assert(x == total * q + rem && 0 <= rem < total) by (nonlinear_arith)
            requires
                total > 0,
                q == x / total,
                rem == x % total,
        ;
        assert(x <= total * pool) by (nonlinear_arith)
            requires
                c <= total,
                x == c * pool,
        ;
        assert(q <= pool) by (nonlinear_arith)
            requires
                x == total * q + rem,
                0 <= rem,
                x <= total * pool,
                total > 0,
        ;
        if q == pool {
            assert(rem == 0) by (nonlinear_arith)
                requires
                    x == total * q + rem,
                    x <= total * pool,
                    q == pool,
                    0 <= rem,
            ;
        }
    }
}

/// An optional `usize` as an optional natural number.
pub open spec fn widen(o: Option<usize>) -> Option<nat> {
    match o {
        Some(x) => Some(x as nat),
        None => None,
    }
}

/// `fold_min` over an `Option<usize>` accumulator.
fn step_min(acc: Option<usize>, s: usize) -> (r: Option<usize>)
    ensures
        widen(r) == fold_min(widen(acc), s as nat),
{
    if s == 0 || s == usize::MAX {
        acc
    } else {
        match acc {
            None => Some(s),
            Some(a) => Some(if s < a { s } else { a }),
        }
    }
}

/// `fold_max` over an `Option<usize>` accumulator.
fn step_max(acc: Option<usize>, s: usize) -> (r: Option<usize>)
    ensures
        widen(r) == fold_max(widen(acc), s as nat),
{
    if s == 0 || s == usize::MAX {
        acc
    } else {
        match acc {
            None => Some(s),
            Some(a) => Some(if s > a { s } else { a }),
        }
    }
}

impl<'a> Season<'a> {
    /// The worst-case pool size after querying `c`: the larger of the
    /// confirmed and refuted branches; zero for a couple already resolved.
    pub fn couple_score_of(&self, c: Couple) -> (r: usize)
        requires
            self@.wf(),
            (c.0 as nat) < self@.n,
            (c.1 as nat) < self@.n,
        ensures
            r == self@.couple_score(c),
    {
        let ghost v = self@;
        let pool = self.worlds.len();
        assert(self.counts@[c.0 as int]@ == v.counts[c.0 as int]);
        let cnt = self.counts[c.0][c.1];
        let total = self.total;
        proof {
            lemma_share_bound(cnt as nat, total as nat, pool as nat);
            let (a, b) = (cnt as nat, pool as nat);
            assert(a * b <= 0xffff_ffff_ffff_ffffnat * 0xffff_ffff_ffff_ffffnat) by (nonlinear_arith)
                requires
                    a <= 0xffff_ffff_ffff_ffffnat,
                    b <= 0xffff_ffff_ffff_ffffnat,
            ;
        }
        let mc: u128 = if total == 0 {
            0
        } else {
            let x: u128 = (cnt as u128) * (pool as u128);
            let q: u128 = x / (total as u128);
            let rem: u128 = x % (total as u128);
            q + if 2 * rem >= total as u128 {
                1u128
            } else {
                0u128
            }
        };
        let mc = mc as usize;
        if mc == 0 || mc >= pool {
            return 0;
        }
        let other = pool - mc;
        if mc >= other {
            mc
        } else {
            other
        }
    }

    /// The single-pair recommendation: among the candidate couples (all
    /// couples where `constraint` is `None`), those with the least defined
    /// worst-case score, and that score; none and the sentinel where no
    /// couple has a defined score.
    pub fn find_best_truth_impl(&self, constraint: Option<&Vec<Couple>>) -> (r: (Vec<Couple>, usize))
        requires
            self@.wf(),
            constraint matches Some(cs) ==> forall|i: int|
                0 <= i < cs.len() ==> (#[trigger] cs@[i]).0 < self@.n && cs@[i].1 < self@.n,
        ensures
            ({
                let cs = match constraint {
                    Some(cs) => cs@,
                    None => all_couples(self@.n),
                };
                r.0@ == self@.best_truth(cs).0 && r.1 as nat == self@.best_truth(cs).1
            }),
    {
        let ghost v = self@;
        let all = make_all_couples(self.n);
        let cands: &Vec<Couple> = match constraint {
            Some(cs) => cs,
            None => &all,
        };
        let ghost cs = cands@;
        let mut scores: Vec<usize> = Vec::new();
        let mut best: Option<usize> = None;
        let mut i: usize = 0;
        while i < cands.len()
            invariant
                self@ == v,
                v.wf(),
                cs == cands@,
                forall|j: int| 0 <= j < cs.len() ==> (#[trigger] cs[j]).0 < v.n && cs[j].1 < v.n,
                i <= cands.len(),
                scores.len() == i,
                forall|j: int| 0 <= j < i ==> scores@[j] as nat == v.couple_score(#[trigger] cs[j]),
                widen(best) == v.min_truth(cs.take(i as int)),
            decreases cands.len() - i,
        {
            let s = self.couple_score_of(cands[i]);
            scores.push(s);
            assert(cs.take(i + 1).drop_last() =~= cs.take(i as int));
            best = step_min(best, s);
            i = i + 1;
        }
        assert(cs.take(i as int) =~= cs);
        let b = match best {
            None => {
                return (Vec::new(), usize::MAX);
            },
            Some(b) => b,
        };
        let ghost keep = |c: Couple| valid_score(v.couple_score(c)) && v.couple_score(c) == b;
        let mut out: Vec<Couple> = Vec::new();
        let mut i: usize = 0;
        while i < cands.len()
            invariant
                cs == cands@,
                i <= cands.len(),
                scores.len() == cands.len(),
                forall|j: int| 0 <= j < cs.len() ==> scores@[j] as nat == v.couple_score(#[trigger] cs[j]),
                keep == (|c: Couple| valid_score(v.couple_score(c)) && v.couple_score(c) == b),
                out@ == cs.take(i as int).filter(keep),
            decreases cands.len() - i,
        {
            let s = scores[i];
            assert(cs.take(i + 1).drop_last() =~= cs.take(i as int));
            assert(cs.take(i + 1).last() == cs[i as int]);
            proof {
                reveal(Seq::filter);
            }
            if s != 0 && s != usize::MAX && s == b {
                out.push(cands[i]);
            }
            i = i + 1;
        }
        assert(cs.take(i as int) =~= cs);
        assert(keep == (|c: Couple| valid_score(v.couple_score(c)) && v.couple_score(c) == b));
        (out, b)
    }

    /// The score of proposing world `k` as the next ceremony. In minimax
    /// mode: over every reachable beam count, the best single-pair follow-up
    /// restricted to the proposal's couples, least over the beam counts with a
    /// defined value (the sentinel where none has one). In heuristic mode:
    /// `100 * sum(beams * pool after / pool now)`, rounded.
    pub fn ceremony_score_of(&self, k: usize, naive: bool) -> (r: usize)
        requires
            self@.wf(),
            (k as int) < self@.universe.len(),
        ensures
            r as nat == self@.ceremony_score(self@.universe[k as int], naive),
            naive ==> r as nat <= 100 * beam_sum(self@.found, self@.n + 1),
    {
        let ghost v = self@;
        let candidate = &self.universe[k];
        let ghost w = candidate@;
        assert(w == v.universe[k as int]);
        let n = self.n;
        let found = self.found;
        proof {
            lemma_wf_small(v);
        }
        if naive {
            let nw = self.worlds.len();
            if nw == 0 {
                return 0;
            }
            let mut weighted: u128 = 0;
            let mut b: usize = found;
            while b <= n
                invariant
                    self@ == v,
                    v.wf(),
                    n == v.n,
                    n <= 20,
                    found == v.found,
                    w == v.universe[k as int],
                    candidate@ == w,
                    nw == v.worlds.len(),
                    found <= b,
                    b <= n + 1 || b == found,
                    weighted as nat == v.weighted_over(w, found as nat, b as nat),
                    weighted as nat <= nw as nat * beam_sum(found as nat, b as nat),
                    beam_sum(found as nat, b as nat) <= 20 * b,
                decreases n + 1 - b,
            {
                let mut season = self.duplicate();
                season.apply_ceremony_impl(candidate, b);
                let size = season.num_worlds();
                proof {
                    let keep = ceremony_keeps(v.universe, w, b as nat);
                    v.worlds.lemma_filter_len(keep);
                    let bs = beam_sum(found as nat, b as nat);
                    let (x, sz, nn, bb) = (weighted as nat, size as nat, nw as nat, b as nat);
                    assert(x + bb * sz <= nn * (bs + bb)) by (nonlinear_arith)
                        requires
                            x <= nn * bs,
                            sz <= nn,
                    ;
                    assert(nn * (bs + bb) <= 0xffff_ffff_ffff_ffffnat * 1000) by (nonlinear_arith)
                        requires
                            nn <= 0xffff_ffff_ffff_ffffnat,
                            bs <= 400,
                            bb <= 20,
                    ;
                    assert(bb * sz <= 20 * 0xffff_ffff_ffff_ffffnat) by (nonlinear_arith)
                        requires
                            sz <= 0xffff_ffff_ffff_ffffnat,
                            bb <= 20,
                    ;
                }
                weighted = weighted + (b as u128) * (size as u128);
                b = b + 1;
            }
            proof {
                let (x, nn, bs) = (weighted as nat, nw as nat, beam_sum(found as nat, (n + 1) as nat));
                if b != n + 1 {
                    assert(v.weighted_over(w, found as nat, (n + 1) as nat) == 0);
                    assert(bs == 0);
                }
                assert(x <= nn * bs);
                lemma_rounded_bound(x, nn, bs);
                assert(nn * bs <= 0xffff_ffff_ffff_ffffnat * 1000) by (nonlinear_arith)
                    requires
                        nn <= 0xffff_ffff_ffff_ffffnat,
                        bs <= 420,
                ;
            }
            let score: u128 = (200 * weighted + nw as u128) / (2 * nw as u128);
            score as usize
        } else {
            let strip = strip_of(candidate);
            proof {
                assert forall|i: int| 0 <= i < strip.len() implies (#[trigger] strip@[i]).0 < n
                    && strip@[i].1 < n by {
                    assert(strip@[i].1 == v.universe[k as int][i]);
                }
            }
            let mut best: Option<usize> = None;
            let mut b: usize = found;
            while b <= n
                invariant
                    self@ == v,
                    v.wf(),
                    n == v.n,
                    n <= 20,
                    found == v.found,
                    w == v.universe[k as int],
                    candidate@ == w,
                    strip@ == strip_couples(w),
                    forall|i: int| 0 <= i < strip.len() ==> (#[trigger] strip@[i]).0 < n
                        && strip@[i].1 < n,
                    found <= b,
                    b <= n + 1 || b == found,
                    widen(best) == v.minimax_over(w, found as nat, b as nat),
                decreases n + 1 - b,
            {
                let mut season = self.duplicate();
                season.apply_ceremony_impl(candidate, b);
                season.recalculate();
                assert(season@ == v.after_ceremony(w, b as nat));
                let (_, s) = season.find_best_truth_impl(Some(&strip));
                best = step_min(best, s);
                b = b + 1;
            }
            proof {
                if b != n + 1 {
                    assert(v.minimax_over(w, found as nat, (n + 1) as nat) == None::<nat>);
                }
            }
            match best {
                Some(x) => x,
                None => usize::MAX,
            }
        }
    }

    /// The full-matching recommendation: the surviving worlds, as couple
    /// lists, whose score is best (least in minimax mode, greatest in
    /// heuristic mode) among the defined ones, with that score; none and the
    /// sentinel where no world has a defined score.
    pub fn find_best_ceremony_impl(&self, naive: bool) -> (r: (Vec<Vec<Couple>>, usize))
        requires
            self@.wf(),
        ensures
            r.0@.map_values(|c: Vec<Couple>| c@) == self@.best_ceremony(naive).0,
            r.1 as nat == self@.best_ceremony(naive).1,
    {
        let ghost v = self@;
        let ghost ws = v.worlds;
        let mut scores: Vec<usize> = Vec::new();
        let mut best: Option<usize> = None;
        let mut i: usize = 0;
        while i < self.worlds.len()
            invariant
                self@ == v,
                v.wf(),
                ws == v.worlds,
                i <= ws.len(),
                scores.len() == i,
                forall|j: int|
                    0 <= j < i ==> scores@[j] as nat == v.ceremony_score(
                        v.universe[#[trigger] ws[j] as int],
                        naive,
                    ),
                widen(best) == v.best_ceremony_score(ws.take(i as int), naive),
            decreases ws.len() - i,
        {
            let k = self.worlds[i];
            assert(ws[i as int] == k);
            let s = self.ceremony_score_of(k, naive);
            scores.push(s);
            assert(ws.take(i + 1).drop_last() =~= ws.take(i as int));
            assert(ws.take(i + 1).last() == k);
            best = if naive {
                step_max(best, s)
            } else {
                step_min(best, s)
            };
            i = i + 1;
        }
        assert(ws.take(i as int) =~= ws);
        let b = match best {
            None => {
                return (Vec::new(), usize::MAX);
            },
            Some(b) => b,
        };
        let ghost keep = |k: usize|
            valid_score(v.ceremony_score(v.universe[k as int], naive)) && v.ceremony_score(
                v.universe[k as int],
                naive,
            ) == b;
        let ghost as_strip = |k: usize| strip_couples(v.universe[k as int]);
        let mut out: Vec<Vec<Couple>> = Vec::new();
        let mut i: usize = 0;
        while i < self.worlds.len()
            invariant
                self@ == v,
                v.wf(),
                ws == v.worlds,
                i <= ws.len(),
                scores.len() == ws.len(),
                forall|j: int|
                    0 <= j < ws.len() ==> scores@[j] as nat == v.ceremony_score(
                        v.universe[#[trigger] ws[j] as int],
                        naive,
                    ),
                keep == (|k: usize|
                    valid_score(v.ceremony_score(v.universe[k as int], naive))
                        && v.ceremony_score(v.universe[k as int], naive) == b),
                as_strip == (|k: usize| strip_couples(v.universe[k as int])),
                out@.map_values(|c: Vec<Couple>| c@) == ws.take(i as int).filter(keep).map_values(
                    as_strip,
                ),
            decreases ws.len() - i,
        {
            let s = scores[i];
            let k = self.worlds[i];
            assert(ws[i as int] == k);
            assert(ws.take(i + 1).drop_last() =~= ws.take(i as int));
            assert(ws.take(i + 1).last() == k);
            proof {
                reveal(Seq::filter);
            }
            let ghost before = ws.take(i as int).filter(keep);
            if s != 0 && s != usize::MAX && s == b {
                let strip = strip_of(&self.universe[k]);
                let ghost prev = out@;
                let ghost sv = strip@;
                assert(prev.map_values(|c: Vec<Couple>| c@) == before.map_values(as_strip));
                assert(prev.map_values(|c: Vec<Couple>| c@).len() == prev.len());
                assert(prev.len() == before.len());
                assert(self.universe@[k as int]@ == v.universe[k as int]);
                assert(sv == as_strip(k));
                out.push(strip);
                assert(ws.take(i + 1).filter(keep) == before.push(k));
                assert forall|j: int| 0 <= j < before.len() implies out@[j]@ == as_strip(
                    before[j],
                ) by {
                    assert(out@[j] == prev[j]);
                    assert(prev.map_values(|c: Vec<Couple>| c@)[j] == prev[j]@);
                    assert(before.map_values(as_strip)[j] == as_strip(before[j]));
                }
                assert(out@[before.len() as int]@ == sv);
                assert(out@.map_values(|c: Vec<Couple>| c@) =~= before.push(k).map_values(
                    as_strip,
                ));
            } else {
                assert(ws.take(i + 1).filter(keep) == before);
            }
            i = i + 1;
        }
        assert(ws.take(i as int) =~= ws);
        (out, b)
    }

    /// The single-pair recommendation by names. With a constraint, only its
    /// couples are candidates; fails where one of its names is unknown.
    pub fn find_best_truth(&self, constraint: Option<&Vec<(&str, &str)>>) -> (r: Result<
        Vec<(String, String)>,
        AytoError,
    >)
        requires
            self@.wf(),
        ensures
            match constraint {
                None => r matches Ok(x) && x@.map_values(|p: (String, String)| (p.0@, p.1@))
                    == named(self@.rows, self@.cols, self@.best_truth(all_couples(self@.n)).0),
                Some(c) => match resolve_all(
                    self@.rows,
                    self@.cols,
                    c@.map_values(|p: (&str, &str)| (p.0@, p.1@)),
                ) {
                    None => r == Err::<Vec<(String, String)>, AytoError>(
                        AytoError::UnknownIdentity,
                    ),
                    Some(idx) => r matches Ok(x) && x@.map_values(
                        |p: (String, String)| (p.0@, p.1@),
                    ) == named(self@.rows, self@.cols, self@.best_truth(idx).0),
                },
            },
    {
        let picked = match constraint {
            None => {
                let all = make_all_couples(self.n);
                proof {
                    lemma_ties_in_range(self@, all@);
                }
                self.find_best_truth_impl(Some(&all)).0
            },
            Some(c) => {
                let idx = match self.resolve_couples(c) {
                    Ok(x) => x,
                    Err(e) => {
                        return Err(e);
                    },
                };
                proof {
                    lemma_ties_in_range(self@, idx@);
                }
                self.find_best_truth_impl(Some(&idx)).0
            },
        };
        Ok(self.name_couples(&picked))
    }

    /// The full-matching recommendation by names.
    pub fn find_best_ceremony(&self, naive: bool) -> (r: Result<Vec<Vec<(String, String)>>, AytoError>)
        requires
            self@.wf(),
        ensures
            r matches Ok(x) && x@.map_values(
                |v: Vec<(String, String)>| v@.map_values(|p: (String, String)| (p.0@, p.1@)),
            ) == self@.best_ceremony(naive).0.map_values(
                |cs: Seq<Couple>| named(self@.rows, self@.cols, cs),
            ),
    {
        let ghost v = self@;
        let (best, _) = self.find_best_ceremony_impl(naive);
        let ghost bv = v.best_ceremony(naive).0;
        proof {
            lemma_ceremony_ties_in_range(v, naive);
        }
        let mut out: Vec<Vec<(String, String)>> = Vec::new();
        let mut i: usize = 0;
        while i < best.len()
            invariant
                self@ == v,
                v.wf(),
                best@.map_values(|c: Vec<Couple>| c@) == bv,
                forall|j: int| 0 <= j < bv.len() ==> #[trigger] v.strip_in_range(bv[j]),
                i <= best.len(),
                out.len() == i,
                forall|j: int|
                    0 <= j < i ==> (#[trigger] out@[j])@.map_values(
                        |p: (String, String)| (p.0@, p.1@),
                    ) == named(v.rows, v.cols, bv[j]),
            decreases best.len() - i,
        {
            assert(best@[i as int]@ == bv[i as int]);
            assert(v.strip_in_range(bv[i as int]));
            let row = self.name_couples(&best[i]);
            out.push(row);
            i = i + 1;
        }
        assert(out@.map_values(
            |v: Vec<(String, String)>| v@.map_values(|p: (String, String)| (p.0@, p.1@)),
        ) =~= bv.map_values(|cs: Seq<Couple>| named(v.rows, v.cols, cs)));
        Ok(out)
    }
}

/// The tied couples of a single-pair recommendation come from its candidates.
proof fn lemma_ties_in_range(v: SeasonView, cs: Seq<Couple>)
    requires
        v.strip_in_range(cs),
    ensures
        v.strip_in_range(v.best_truth(cs).0),
{
    if let Some(b) = v.min_truth(cs) {
        let keep = |c: Couple| valid_score(v.couple_score(c)) && v.couple_score(c) == b;
        let t = cs.filter(keep);
        assert forall|j: int| 0 <= j < t.len() implies (#[trigger] t[j]).0 < v.n && t[j].1 < v.n by {
            assert(t.contains(t[j]));
            cs.lemma_filter_contains_rev(keep, t[j]);
        }
    }
}

/// The proposals of a full-matching recommendation are surviving worlds.
proof fn lemma_ceremony_ties_in_range(v: SeasonView, naive: bool)
    requires
        v.wf(),
    ensures
        forall|j: int|
            0 <= j < v.best_ceremony(naive).0.len() ==> #[trigger] v.strip_in_range(
                v.best_ceremony(naive).0[j],
            ),
{
    if let Some(b) = v.best_ceremony_score(v.worlds, naive) {
        let keep = |k: usize|
            valid_score(v.ceremony_score(v.universe[k as int], naive)) && v.ceremony_score(
                v.universe[k as int],
                naive,
            ) == b;
        let t = v.worlds.filter(keep);
        assert(v.best_ceremony(naive).0 == t.map_values(
            |k: usize| strip_couples(v.universe[k as int]),
        ));
        assert forall|j: int| 0 <= j < t.len() implies #[trigger] v.strip_in_range(
            strip_couples(v.universe[t[j] as int]),
        ) by {
            assert(t.contains(t[j]));
            v.worlds.lemma_filter_contains_rev(keep, t[j]);
            let k = t[j];
            let i = choose|i: int| 0 <= i < v.worlds.len() && v.worlds[i] == k;
            assert((v.worlds[i] as int) < v.universe.len());
            let w = v.universe[k as int];
            assert forall|m: int| 0 <= m < w.len() implies (#[trigger] strip_couples(w)[m]).0
                < v.n && strip_couples(w)[m].1 < v.n by {
                assert(w[m] < v.n);
            }
        }
        assert forall|j: int| 0 <= j < v.best_ceremony(naive).0.len() implies #[trigger] v.strip_in_range(
            v.best_ceremony(naive).0[j],
        ) by {
            assert(v.best_ceremony(naive).0[j] == strip_couples(v.universe[t[j] as int]));
        }
    }
}

/// A world's proposal as its list of couples.
fn strip_of(w: &Vec<usize>) -> (r: Vec<Couple>)
    ensures
        r@ == strip_couples(w@),
{
    let mut r: Vec<Couple> = Vec::new();
    let mut m: usize = 0;
    while m < w.len()
        invariant
            m <= w.len(),
            r@ == strip_couples(w@).take(m as int),
        decreases w.len() - m,
    {
        r.push((m, w[m]));
        m = m + 1;
        assert(r@ =~= strip_couples(w@).take(m as int));
    }
    assert(strip_couples(w@).take(m as int) =~= strip_couples(w@));
    r
}

/// Rounding `100 * x / nw` half up stays within `100 * s` when `x <= nw * s`.
pub proof fn lemma_rounded_bound(x: nat, nw: nat, s: nat)
    requires
        nw > 0,
        x <= nw * s,
    ensures
        (200 * x + nw) / (2 * nw) <= 100 * s,
{
    let d = 2 * nw;
    let y = 200 * x + nw;
    assert(y < d * (100 * s + 1)) by (nonlinear_arith)
        requires
            x <= nw * s,
            d == 2 * nw,
            y == 200 * x + nw,
            nw > 0,
    ;
    assert((y / d) * d <= y) by (nonlinear_arith)
        requires
            d > 0,
    ;
    assert(y / d < 100 * s + 1) by (nonlinear_arith)
        requires
            (y / d) * d <= y,
            y < d * (100 * s + 1),
            d > 0,
    ;
}

} // verus!