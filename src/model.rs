use vstd::prelude::*;

use crate::worldview::fact;

verus! {

/// A (row, column) index pair.
pub type Couple = (usize, usize);

/// The failures of the session's operations.
#[derive(Debug, Clone, Copy, PartialEq, Eq, Structural)]
pub enum AytoError {
    /// The row and column name lists differ in length.
    SizeMismatch,
    /// A name that is not part of the session.
    UnknownIdentity,
    /// The round counter went past the puzzle's size.
    OutOfRounds,
    /// The permutation table does not have the shape the session needs.
    StructuralFailure,
}

/// The mathematical state of a session.
pub struct SeasonView {
    pub rows: Seq<Seq<char>>,
    pub cols: Seq<Seq<char>>,
    pub n: nat,
    pub turn: nat,
    pub found: nat,
    /// `counts[m][f] / total` is the probability that row `m` goes with column `f`.
    pub counts: Seq<Seq<usize>>,
    pub total: nat,
    /// The ranks of the surviving candidates, in rank order.
    pub worlds: Seq<usize>,
    pub universe: Seq<Seq<usize>>,
}

/// The index under which `x` was registered; a later entry wins over an earlier one.
pub open spec fn position(names: Seq<Seq<char>>, x: Seq<char>) -> Option<nat>
    decreases names.len(),
{
    if names.len() == 0 {
        None
    } else if names.last() == x {
        Some((names.len() - 1) as nat)
    } else {
        position(names.drop_last(), x)
    }
}

/// The ranks are strictly increasing, hence distinct and in rank order.
pub open spec fn increasing(ws: Seq<usize>) -> bool {
    forall|i: int, j: int| 0 <= i < j < ws.len() ==> ws[i] < ws[j]
}

/// Every entry of the table is an arrangement of length `n` over `0..n`.
pub open spec fn shaped(u: Seq<Seq<usize>>, n: nat) -> bool {
    forall|k: int|
        0 <= k < u.len() ==> #[trigger] u[k].len() == n && forall|m: int|
            0 <= m < n ==> (#[trigger] u[k][m] as nat) < n
}

/// No entry of the table repeats a value; with `shaped`, every entry is a
/// permutation of `0..n`.
pub open spec fn distinct_rows(u: Seq<Seq<usize>>) -> bool {
    forall|k: int| 0 <= k < u.len() ==> (#[trigger] u[k]).no_duplicates()
}

/// How many of the worlds `ws` map row `m` to column `f`.
pub open spec fn tally(u: Seq<Seq<usize>>, ws: Seq<usize>, m: int, f: usize) -> nat
    decreases ws.len(),
{
    if ws.len() == 0 {
        0
    } else {
        tally(u, ws.drop_last(), m, f) + if u[ws.last() as int][m] == f {
            1nat
        } else {
            0nat
        }
    }
}

/// The `n`-by-`n` table of tallies over the worlds `ws`.
pub open spec fn tallies(u: Seq<Seq<usize>>, ws: Seq<usize>, n: nat) -> Seq<Seq<usize>> {
    Seq::new(n, |m: int| Seq::new(n, |f: int| tally(u, ws, m, f as usize) as usize))
}

/// The number of cells of a row that hold the whole pool.
pub open spec fn row_hits(row: Seq<usize>, total: nat) -> nat
    decreases row.len(),
{
    if row.len() == 0 {
        0
    } else {
        row_hits(row.drop_last(), total) + if total > 0 && row.last() == total {
            1nat
        } else {
            0nat
        }
    }
}

/// The number of determined couples: cells whose probability is exactly one.
pub open spec fn grid_hits(counts: Seq<Seq<usize>>, total: nat) -> nat
    decreases counts.len(),
{
    if counts.len() == 0 {
        0
    } else {
        grid_hits(counts.drop_last(), total) + row_hits(counts.last(), total)
    }
}

/// The sum of a row of counts.
pub open spec fn row_sum(row: Seq<usize>) -> nat
    decreases row.len(),
{
    if row.len() == 0 {
        0
    } else {
        row_sum(row.drop_last()) + (row.last() as nat)
    }
}

/// The number of positions below `i` on which `w` and `s` agree.
pub open spec fn agree(w: Seq<usize>, s: Seq<usize>, i: int) -> nat
    decreases i,
{
    if i <= 0 {
        0
    } else {
        agree(w, s, i - 1) + if w[i - 1] == s[i - 1] {
            1nat
        } else {
            0nat
        }
    }
}

/// The Hamming agreement of a world with a proposal, over their common length.
pub open spec fn agreement(w: Seq<usize>, s: Seq<usize>) -> nat {
    agree(w, s, if w.len() <= s.len() { w.len() as int } else { s.len() as int })
}

/// Whether world `k` agrees with a truth observation on couple `(m, f)`.
pub open spec fn truth_keeps(u: Seq<Seq<usize>>, m: usize, f: usize, correct: bool) -> spec_fn(
    usize,
) -> bool {
    |k: usize| (u[k as int][m as int] == f) == correct
}

/// Whether world `k` agrees with a proposal on exactly `beams` positions.
pub open spec fn ceremony_keeps(u: Seq<Seq<usize>>, strip: Seq<usize>, beams: nat) -> spec_fn(
    usize,
) -> bool {
    |k: usize| agreement(u[k as int], strip) == beams
}

/// The dense proposal `n` columns long built from index pairs; a row that no
/// pair names holds `n`, which matches no world.
pub open spec fn placed(n: nat, pairs: Seq<Couple>) -> Seq<usize>
    decreases pairs.len(),
{
    if pairs.len() == 0 {
        Seq::new(n, |i: int| n as usize)
    } else {
        placed(n, pairs.drop_last()).update(pairs.last().0 as int, pairs.last().1)
    }
}

/// The rows `0..m` of the `n`-by-`n` grid of couples, in row-major order.
pub open spec fn couples_upto(n: nat, m: nat) -> Seq<Couple>
    decreases m,
{
    if m == 0 {
        Seq::empty()
    } else {
        couples_upto(n, (m - 1) as nat) + Seq::new(n, |f: int| ((m - 1) as usize, f as usize))
    }
}

/// Every couple of an `n`-by-`n` grid, in row-major order.
pub open spec fn all_couples(n: nat) -> Seq<Couple> {
    couples_upto(n, n)
}

/// A world as the list of its couples, row by row.
pub open spec fn strip_couples(w: Seq<usize>) -> Seq<Couple> {
    Seq::new(w.len(), |m: int| (m as usize, w[m]))
}

/// A score that carries information: neither zero nor the sentinel.
pub open spec fn valid_score(s: nat) -> bool {
    s != 0 && s != usize::MAX
}

/// `c * pool / total`, rounded half up; zero where `total` is zero.
pub open spec fn share(c: nat, total: nat, pool: nat) -> nat {
    if total == 0 {
        0
    } else {
        let q = (c * pool) / total;
        let rem = (c * pool) % total;
        q + if 2 * rem >= total {
            1nat
        } else {
            0nat
        }
    }
}

/// The couples named by their row and column names.
pub open spec fn named(rows: Seq<Seq<char>>, cols: Seq<Seq<char>>, cs: Seq<Couple>) -> Seq<
    (Seq<char>, Seq<char>),
> {
    cs.map_values(|c: Couple| (rows[c.0 as int], cols[c.1 as int]))
}

/// The sum of the beam counts `lo..hi`.
pub open spec fn beam_sum(lo: nat, hi: nat) -> nat
    decreases hi,
{
    if hi <= lo {
        0
    } else {
        beam_sum(lo, (hi - 1) as nat) + (hi - 1) as nat
    }
}

/// The least of the defined scores, if any.
pub open spec fn fold_min(acc: Option<nat>, s: nat) -> Option<nat> {
    if !valid_score(s) {
        acc
    } else {
        match acc {
            None => Some(s),
            Some(a) => Some(if s < a { s } else { a }),
        }
    }
}

/// The greatest of the defined scores, if any.
pub open spec fn fold_max(acc: Option<nat>, s: nat) -> Option<nat> {
    if !valid_score(s) {
        acc
    } else {
        match acc {
            None => Some(s),
            Some(a) => Some(if s > a { s } else { a }),
        }
    }
}

/// `best` or the sentinel where there is none.
pub open spec fn or_sentinel(best: Option<nat>) -> nat {
    match best {
        Some(b) => b,
        None => usize::MAX as nat,
    }
}

impl SeasonView {
    /// The state's own invariant.
    pub open spec fn wf(self) -> bool {
        &&& self.rows.len() == self.n
        &&& self.cols.len() == self.n
        &&& self.turn >= 1
        &&& shaped(self.universe, self.n)
        &&& distinct_rows(self.universe)
        &&& self.universe.len() == fact(self.n)
        &&& self.universe.len() <= usize::MAX
        &&& self.total <= usize::MAX
        &&& forall|i: int| 0 <= i < self.worlds.len() ==> (#[trigger] self.worlds[i] as int) < self.universe.len()
        &&& self.worlds.len() <= self.total
        &&& increasing(self.worlds)
        &&& self.counts.len() == self.n
        &&& forall|m: int| 0 <= m < self.n ==> (#[trigger] self.counts[m]).len() == self.n
        &&& forall|m: int, f: int|
            0 <= m < self.n && 0 <= f < self.n ==> (#[trigger] self.counts[m][f] as nat) <= self.total
    }

    /// The state after a full recomputation of the matrix from the pool.
    pub open spec fn recalculated(self) -> SeasonView {
        let counts = tallies(self.universe, self.worlds, self.n);
        let total = self.worlds.len();
        SeasonView { counts, total, found: grid_hits(counts, total), ..self }
    }

    /// The state with its pool narrowed to the worlds that `keep` accepts.
    pub open spec fn narrowed(self, keep: spec_fn(usize) -> bool) -> SeasonView {
        SeasonView { worlds: self.worlds.filter(keep), ..self }
    }

    /// Whether every couple of `cs` lies inside the grid.
    pub open spec fn strip_in_range(self, cs: Seq<Couple>) -> bool {
        forall|j: int| 0 <= j < cs.len() ==> (#[trigger] cs[j]).0 < self.n && cs[j].1 < self.n
    }

    /// Whether couple `c` holds in every world of the last recomputation.
    pub open spec fn is_determined(self, c: Couple) -> bool {
        self.total > 0 && self.counts[c.0 as int][c.1 as int] == self.total
    }

    /// The worst-case remaining pool size after querying couple `c`: the
    /// larger of its confirmed and refuted branches. A couple that is already
    /// resolved (no world, or every world, pairs it) scores zero: querying it
    /// carries no information.
    pub open spec fn couple_score(self, c: Couple) -> nat {
        let pool = self.worlds.len();
        let mc = share(self.counts[c.0 as int][c.1 as int] as nat, self.total, pool);
        if mc == 0 || mc >= pool {
            0
        } else {
            let other = (pool - mc) as nat;
            if mc >= other {
                mc
            } else {
                other
            }
        }
    }

    /// The least defined score among the candidate couples `cs`.
    pub open spec fn min_truth(self, cs: Seq<Couple>) -> Option<nat>
        decreases cs.len(),
    {
        if cs.len() == 0 {
            None
        } else {
            fold_min(self.min_truth(cs.drop_last()), self.couple_score(cs.last()))
        }
    }

    /// The couples of `cs` whose defined score equals `best`, in their order.
    pub open spec fn truth_ties(self, cs: Seq<Couple>, best: nat) -> Seq<Couple> {
        cs.filter(|c: Couple| valid_score(self.couple_score(c)) && self.couple_score(c) == best)
    }

    /// The single-pair recommendation over `cs`: the tied best couples and their score.
    pub open spec fn best_truth(self, cs: Seq<Couple>) -> (Seq<Couple>, nat) {
        match self.min_truth(cs) {
            None => (Seq::empty(), usize::MAX as nat),
            Some(b) => (self.truth_ties(cs, b), b),
        }
    }

    /// The state after a ceremony with `strip` and `beams`, recomputed.
    pub open spec fn after_ceremony(self, strip: Seq<usize>, beams: nat) -> SeasonView {
        self.narrowed(ceremony_keeps(self.universe, strip, beams)).recalculated()
    }

    /// The least defined follow-up score over the beam counts `lo..hi`.
    pub open spec fn minimax_over(self, strip: Seq<usize>, lo: nat, hi: nat) -> Option<nat>
        decreases hi,
    {
        if hi <= lo {
            None
        } else {
            let b = (hi - 1) as nat;
            fold_min(
                self.minimax_over(strip, lo, b),
                self.after_ceremony(strip, b).best_truth(strip_couples(strip)).1,
            )
        }
    }

    /// `sum of beams * (pool size after the ceremony)` over the beam counts `lo..hi`.
    pub open spec fn weighted_over(self, strip: Seq<usize>, lo: nat, hi: nat) -> nat
        decreases hi,
    {
        if hi <= lo {
            0
        } else {
            let b = (hi - 1) as nat;
            self.weighted_over(strip, lo, b) + b * self.worlds.filter(
                ceremony_keeps(self.universe, strip, b),
            ).len()
        }
    }

    /// The score of proposing world `w`.
    pub open spec fn ceremony_score(self, w: Seq<usize>, naive: bool) -> nat {
        if naive {
            let nw = self.worlds.len();
            if nw == 0 {
                0
            } else {
                (200 * self.weighted_over(w, self.found, self.n + 1) + nw) / (2 * nw)
            }
        } else {
            or_sentinel(self.minimax_over(w, self.found, self.n + 1))
        }
    }

    /// The best defined score over the candidate worlds `ks`: least, or
    /// greatest in heuristic mode.
    pub open spec fn best_ceremony_score(self, ks: Seq<usize>, naive: bool) -> Option<nat>
        decreases ks.len(),
    {
        if ks.len() == 0 {
            None
        } else {
            let s = self.ceremony_score(self.universe[ks.last() as int], naive);
            let acc = self.best_ceremony_score(ks.drop_last(), naive);
            if naive {
                fold_max(acc, s)
            } else {
                fold_min(acc, s)
            }
        }
    }

    /// The candidate worlds of `ks` that reach `best`, as couple lists.
    pub open spec fn ceremony_ties(self, ks: Seq<usize>, naive: bool, best: nat) -> Seq<
        Seq<Couple>,
    > {
        ks.filter(
            |k: usize|
                valid_score(self.ceremony_score(self.universe[k as int], naive))
                    && self.ceremony_score(self.universe[k as int], naive) == best,
        ).map_values(|k: usize| strip_couples(self.universe[k as int]))
    }

    /// The full-matching recommendation: tied best proposals and their score.
    pub open spec fn best_ceremony(self, naive: bool) -> (Seq<Seq<Couple>>, nat) {
        match self.best_ceremony_score(self.worlds, naive) {
            None => (Seq::empty(), usize::MAX as nat),
            Some(b) => (self.ceremony_ties(self.worlds, naive, b), b),
        }
    }
}

} // verus!

verus! {

/// Resolves index pairs for a list of name pairs; `None` where any name is unknown.
pub open spec fn resolve_all(
    rows: Seq<Seq<char>>,
    cols: Seq<Seq<char>>,
    pairs: Seq<(Seq<char>, Seq<char>)>,
) -> Option<Seq<Couple>>
    decreases pairs.len(),
{
    if pairs.len() == 0 {
        Some(Seq::empty())
    } else {
        match (
            resolve_all(rows, cols, pairs.drop_last()),
            position(rows, pairs.last().0),
            position(cols, pairs.last().1),
        ) {
            (Some(done), Some(m), Some(f)) => Some(done.push((m as usize, f as usize))),
            _ => None,
        }
    }
}

/// A found position lies inside the list.
pub proof fn lemma_position_in_range(names: Seq<Seq<char>>, x: Seq<char>)
    ensures
        position(names, x) matches Some(i) ==> i < names.len() && names[i as int] == x,
    decreases names.len(),
{
    if names.len() > 0 && names.last() != x {
        lemma_position_in_range(names.drop_last(), x);
    }
}

impl SeasonView {
    /// The state after a truth observation, recomputed on request.
    pub open spec fn observe_truth(self, m: usize, f: usize, correct: bool, recompute: bool) -> SeasonView {
        let s = self.narrowed(truth_keeps(self.universe, m, f, correct));
        if recompute {
            s.recalculated()
        } else {
            s
        }
    }

    /// The state after a ceremony observation, recomputed on request.
    pub open spec fn observe_ceremony(
        self,
        strip: Seq<usize>,
        beams: nat,
        recompute: bool,
    ) -> SeasonView {
        let s = self.narrowed(ceremony_keeps(self.universe, strip, beams));
        if recompute {
            s.recalculated()
        } else {
            s
        }
    }
}

} // verus!
