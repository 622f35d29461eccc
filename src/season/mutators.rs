use vstd::prelude::*;

use super::Season;
use crate::model::{
    increasing, agree, agreement, ceremony_keeps, grid_hits, lemma_position_in_range, placed, position,
    resolve_all, row_hits, tallies, tally, truth_keeps, AytoError, Couple, SeasonView,
};
use crate::worldview::{fact, lemma_fact_monotone};

verus! {

/// The number of positions, over the common length, where `w` and `s` agree.
pub fn agreement_of(w: &Vec<usize>, s: &Vec<usize>) -> (r: usize)
    ensures
        r == agreement(w@, s@),
{
    let len: usize = if w.len() <= s.len() {
        w.len()
    } else {
        s.len()
    };
    let mut acc: usize = 0;
    let mut i: usize = 0;
    while i < len
        invariant
            i <= len,
            len <= w.len(),
            len <= s.len(),
            acc == agree(w@, s@, i as int),
            acc <= i,
        decreases len - i,
    {
        if w[i] == s[i] {
            acc = acc + 1;
        }
        i = i + 1;
    }
    acc
}

/// A size whose factorial fits in a `usize` is at most twenty.
pub proof fn lemma_size_small(n: nat)
    requires
        fact(n) <= usize::MAX,
    ensures
        n <= 20,
{
    if n > 20 {
        assert(fact(0) == 1);
        assert(fact(1) == 1);
        assert(fact(2) == 2);
        assert(fact(3) == 6);
        assert(fact(4) == 24);
        assert(fact(5) == 120);
        assert(fact(6) == 720);
        assert(fact(7) == 5040);
        assert(fact(8) == 40320);
        assert(fact(9) == 362880);
        assert(fact(10) == 3628800);
        assert(fact(11) == 39916800);
        assert(fact(12) == 479001600);
        assert(fact(13) == 6227020800);
        assert(fact(14) == 87178291200);
        assert(fact(15) == 1307674368000);
        assert(fact(16) == 20922789888000);
        assert(fact(17) == 355687428096000);
        assert(fact(18) == 6402373705728000);
        assert(fact(19) == 121645100408832000);
        assert(fact(20) == 2432902008176640000);
        assert(fact(21) == 51090942171709440000);
        lemma_fact_monotone(21, n);
    }
}

impl<'a> Season<'a> {
    /// An independent copy of the session that shares the permutation table.
    pub fn duplicate(&self) -> (r: Season<'a>)
        ensures
            r@ == self@,
    {
        let counts = self.copy_counts();
        let r = Season {
            rows: self.rows.clone(),
            cols: self.cols.clone(),
            n: self.n,
            turn: self.turn,
            found: self.found,
            counts,
            total: self.total,
            worlds: self.worlds.clone(),
            universe: self.universe,
        };
        assert(r.rows@ =~= self.rows@);
        assert(r.cols@ =~= self.cols@);
        assert(r.worlds@ =~= self.worlds@);
        assert(r@.rows =~= self@.rows);
        assert(r@.cols =~= self@.cols);
        r
    }

    fn copy_counts(&self) -> (r: Vec<Vec<usize>>)
        ensures
            r@.map_values(|r: Vec<usize>| r@) == self@.counts,
    {
        let mut r: Vec<Vec<usize>> = Vec::new();
        let mut i: usize = 0;
        while i < self.counts.len()
            invariant
                i <= self.counts.len(),
                r.len() == i,
                forall|j: int| 0 <= j < i ==> r@[j]@ == self.counts@[j]@,
            decreases self.counts.len() - i,
        {
            let row = self.counts[i].clone();
            assert(row@ =~= self.counts@[i as int]@);
            r.push(row);
            i = i + 1;
        }
        assert(r@.map_values(|r: Vec<usize>| r@) =~= self@.counts);
        r
    }

    /// Keeps the worlds that map row `couple.0` to column `couple.1` exactly
    /// when `correct` holds.
    pub fn apply_truth_impl(&mut self, couple: Couple, correct: bool)
        requires
            old(self)@.wf(),
            (couple.0 as nat) < old(self)@.n,
        ensures
            final(self)@ == old(self)@.narrowed(
                truth_keeps(old(self)@.universe, couple.0, couple.1, correct),
            ),
            final(self)@.wf(),
    {
        let (m, f) = couple;
        let ghost v = self@;
        let ghost keep = truth_keeps(v.universe, m, f, correct);
        let mut kept: Vec<usize> = Vec::new();
        let mut i: usize = 0;
        while i < self.worlds.len()
            invariant
                self@ == v,
                v.wf(),
                (m as nat) < v.n,
                i <= self.worlds.len(),
                keep == truth_keeps(v.universe, m, f, correct),
                kept@ == v.worlds.take(i as int).filter(keep),
            decreases self.worlds.len() - i,
        {
            let k = self.worlds[i];
            assert(v.worlds[i as int] == k);
            let w = &self.universe[k];
            assert(w@ == v.universe[k as int]);
            let hit = w[m] == f;
            assert(v.worlds.take(i + 1).drop_last() =~= v.worlds.take(i as int));
            assert(v.worlds.take(i + 1).last() == k);
            proof {
                reveal(Seq::filter);
            }
            if hit == correct {
                kept.push(k);
            }
            i = i + 1;
        }
        assert(v.worlds.take(i as int) =~= v.worlds);
        self.worlds = kept;
        proof {
            self.lemma_narrowed_wf(v, keep);
        }
    }

    /// Keeps the worlds whose agreement with `couples` is exactly `beams`.
    pub fn apply_ceremony_impl(&mut self, couples: &Vec<usize>, beams: usize)
        requires
            old(self)@.wf(),
        ensures
            final(self)@ == old(self)@.narrowed(
                ceremony_keeps(old(self)@.universe, couples@, beams as nat),
            ),
            final(self)@.wf(),
    {
        let ghost v = self@;
        let ghost keep = ceremony_keeps(v.universe, couples@, beams as nat);
        let mut kept: Vec<usize> = Vec::new();
        let mut i: usize = 0;
        while i < self.worlds.len()
            invariant
                self@ == v,
                v.wf(),
                i <= self.worlds.len(),
                keep == ceremony_keeps(v.universe, couples@, beams as nat),
                kept@ == v.worlds.take(i as int).filter(keep),
            decreases self.worlds.len() - i,
        {
            let k = self.worlds[i];
            assert(v.worlds[i as int] == k);
            let w = &self.universe[k];
            assert(w@ == v.universe[k as int]);
            let a = agreement_of(w, couples);
            assert(v.worlds.take(i + 1).drop_last() =~= v.worlds.take(i as int));
            assert(v.worlds.take(i + 1).last() == k);
            proof {
                reveal(Seq::filter);
            }
            if a == beams {
                kept.push(k);
            }
            i = i + 1;
        }
        assert(v.worlds.take(i as int) =~= v.worlds);
        self.worlds = kept;
        proof {
            self.lemma_narrowed_wf(v, keep);
        }
    }

    proof fn lemma_narrowed_wf(&self, v: SeasonView, keep: spec_fn(usize) -> bool)
        requires
            v.wf(),
            self@ == v.narrowed(keep),
        ensures
            self@.wf(),
    {
        let ws = v.worlds;
        ws.lemma_filter_len(keep);
        lemma_filter_increasing(ws, keep);
        assert forall|i: int| 0 <= i < self@.worlds.len() implies (
        #[trigger] self@.worlds[i] as int) < self@.universe.len() by {
            assert(ws.filter(keep).contains(ws.filter(keep)[i]));
            ws.lemma_filter_contains_rev(keep, ws.filter(keep)[i]);
        }
    }

    /// Recomputes the probability matrix from the pool: each cell counts the
    /// worlds that pair its row with its column, over the pool size; also
    /// recounts the determined couples.
    pub fn recalculate(&mut self)
        requires
            old(self)@.wf(),
        ensures
            final(self)@ == old(self)@.recalculated(),
            final(self)@.wf(),
    {
        let ghost v = self@;
        let n = self.n;
        let mut counts: Vec<Vec<usize>> = Vec::new();
        let mut m: usize = 0;
        while m < n
            invariant
                self@ == v,
                v.wf(),
                n == v.n,
                m <= n,
                counts.len() == m,
                forall|j: int| 0 <= j < m ==> counts@[j]@ == tallies(v.universe, v.worlds, v.n)[j],
            decreases n - m,
        {
            let row = self.tally_row(m);
            counts.push(row);
            m = m + 1;
        }
        let total = self.worlds.len();
        let ghost cv = tallies(v.universe, v.worlds, v.n);
        assert(counts@.map_values(|r: Vec<usize>| r@) =~= cv);
        proof {
            lemma_wf_small(v);
            assert forall|j: int| 0 <= j < n implies (#[trigger] counts@[j]).len() == n by {
                assert(counts@[j]@ == cv[j]);
            }
        }
        let found = count_determined(&counts, total, n);
        self.counts = counts;
        self.total = total;
        self.found = found;
        proof {
            assert forall|a: int, b: int| 0 <= a < n && 0 <= b < n implies (
            #[trigger] cv[a][b] as nat) <= total by {
                lemma_tally_bound(v.universe, v.worlds, a, b as usize);
            }
        }
    }

    /// The tallies of row `m` over the pool.
    fn tally_row(&self, m: usize) -> (r: Vec<usize>)
        requires
            self@.wf(),
            (m as nat) < self@.n,
        ensures
            r@ == tallies(self@.universe, self@.worlds, self@.n)[m as int],
    {
        let ghost v = self@;
        let n = self.n;
        let mut row: Vec<usize> = vec![0; n];
        let mut i: usize = 0;
        while i < self.worlds.len()
            invariant
                self@ == v,
                v.wf(),
                n == v.n,
                (m as nat) < v.n,
                i <= self.worlds.len(),
                row.len() == n,
                forall|c: int|
                    0 <= c < n ==> row@[c] == tally(v.universe, v.worlds.take(i as int), m as int, c as usize),
                forall|c: int| 0 <= c < n ==> row@[c] <= i,
            decreases self.worlds.len() - i,
        {
            let k = self.worlds[i];
            assert(v.worlds[i as int] == k);
            let w = &self.universe[k];
            assert(w@ == v.universe[k as int]);
            let f = w[m];
            assert(v.worlds.take(i + 1).drop_last() =~= v.worlds.take(i as int));
            assert(v.worlds.take(i + 1).last() == k);
            let cur = row[f];
            row.set(f, cur + 1);
            i = i + 1;
        }
        assert(v.worlds.take(i as int) =~= v.worlds);
        assert(row@ =~= tallies(v.universe, v.worlds, v.n)[m as int]);
        row
    }

    /// Ticks over to the next round. Fails, changing nothing, where the next
    /// round would pass the size.
    pub fn next_turn(&mut self) -> (r: Result<(), AytoError>)
        requires
            old(self)@.wf(),
        ensures
            final(self)@.wf(),
            old(self)@.turn + 1 > old(self)@.n ==> r == Err::<(), AytoError>(
                AytoError::OutOfRounds,
            ) && final(self)@ == old(self)@,
            old(self)@.turn + 1 <= old(self)@.n ==> r == Ok::<(), AytoError>(()) && final(self)@
                == (SeasonView { turn: old(self)@.turn + 1, ..old(self)@ }),
    {
        if self.turn >= self.n {
            return Err(AytoError::OutOfRounds);
        }
        self.turn = self.turn + 1;
        Ok(())
    }

    /// Sends a couple, given by names, to the truth booth and applies the
    /// outcome; recomputes the matrix when `recompute` holds. Fails, changing
    /// nothing, where a name is unknown.
    pub fn apply_truth(&mut self, couple: (&str, &str), correct: bool, recompute: bool) -> (r:
        Result<(), AytoError>)
        requires
            old(self)@.wf(),
        ensures
            final(self)@.wf(),
            match (
                position(old(self)@.rows, couple.0@),
                position(old(self)@.cols, couple.1@),
            ) {
                (Some(m), Some(f)) => r == Ok::<(), AytoError>(()) && final(self)@ == old(
                    self,
                )@.observe_truth(m as usize, f as usize, correct, recompute),
                _ => r == Err::<(), AytoError>(AytoError::UnknownIdentity) && final(self)@ == old(
                    self,
                )@,
            },
    {
        let (a, b) = couple;
        let m = match Season::id(&self.rows, a) {
            Ok(x) => x,
            Err(e) => {
                return Err(e);
            },
        };
        let f = match Season::id(&self.cols, b) {
            Ok(x) => x,
            Err(e) => {
                return Err(e);
            },
        };
        proof {
            lemma_position_in_range(self@.rows, a@);
        }
        self.apply_truth_impl((m, f), correct);
        if recompute {
            self.recalculate();
        }
        Ok(())
    }

    /// Applies a ceremony given by name pairs and its number of correct
    /// couples: the pairs are placed into a column-per-row proposal (a row
    /// that no pair names matches nothing) and the pool keeps the worlds that
    /// agree with it on exactly `beams` rows. Recomputes the matrix when
    /// `recompute` holds. Fails, changing nothing, where a name is unknown.
    pub fn apply_ceremony(&mut self, couples: Vec<(&str, &str)>, beams: usize, recompute: bool) -> (r:
        Result<(), AytoError>)
        requires
            old(self)@.wf(),
        ensures
            final(self)@.wf(),
            match resolve_all(
                old(self)@.rows,
                old(self)@.cols,
                couples@.map_values(|p: (&str, &str)| (p.0@, p.1@)),
            ) {
                Some(idx) => r == Ok::<(), AytoError>(()) && final(self)@ == old(
                    self,
                )@.observe_ceremony(placed(old(self)@.n, idx), beams as nat, recompute),
                None => r == Err::<(), AytoError>(AytoError::UnknownIdentity) && final(self)@
                    == old(self)@,
            },
    {
        let n = self.n;
        let idx = match self.resolve_couples(&couples) {
            Ok(x) => x,
            Err(e) => {
                return Err(e);
            },
        };
        let strip = self.place(&idx);
        self.apply_ceremony_impl(&strip, beams);
        if recompute {
            self.recalculate();
        }
        Ok(())
    }

    /// The dense column-per-row proposal for index pairs; rows that no pair
    /// names hold `n`, which matches no world.
    pub(crate) fn place(&self, idx: &Vec<Couple>) -> (r: Vec<usize>)
        requires
            self@.wf(),
            forall|t: int| 0 <= t < idx.len() ==> (#[trigger] idx@[t]).0 < self@.n && idx@[t].1 < self@.n,
        ensures
            r@ == placed(self@.n, idx@),
    {
        let n = self.n;
        let mut strip: Vec<usize> = vec![n; n];
        assert(strip@ =~= placed(n as nat, idx@.take(0)));
        let mut j: usize = 0;
        while j < idx.len()
            invariant
                n == self@.n,
                j <= idx.len(),
                strip.len() == n,
                forall|t: int| 0 <= t < idx.len() ==> (#[trigger] idx@[t]).0 < n && idx@[t].1 < n,
                strip@ == placed(n as nat, idx@.take(j as int)),
            decreases idx.len() - j,
        {
            let (m, f) = idx[j];
            assert(idx@.take(j + 1).drop_last() =~= idx@.take(j as int));
            assert(idx@.take(j + 1).last() == (m, f));
            strip.set(m, f);
            j = j + 1;
        }
        assert(idx@.take(j as int) =~= idx@);
        strip
    }

    /// For a ceremony given by name pairs, the number of worlds that would
    /// remain for each beam count `0..=n`; fails where a name is unknown.
    pub fn spread(&self, couples: &Vec<(&str, &str)>) -> (r: Result<Vec<usize>, AytoError>)
        requires
            self@.wf(),
        ensures
            match resolve_all(
                self@.rows,
                self@.cols,
                couples@.map_values(|p: (&str, &str)| (p.0@, p.1@)),
            ) {
                None => r == Err::<Vec<usize>, AytoError>(AytoError::UnknownIdentity),
                Some(idx) => r matches Ok(x) && x.len() == self@.n + 1 && forall|k: int|
                    0 <= k <= self@.n ==> #[trigger] x@[k] == self@.worlds.filter(
                        ceremony_keeps(self@.universe, placed(self@.n, idx), k as nat),
                    ).len(),
            },
    {
        let ghost v = self@;
        let idx = match self.resolve_couples(couples) {
            Ok(x) => x,
            Err(e) => {
                return Err(e);
            },
        };
        let strip = self.place(&idx);
        let n = self.n;
        proof {
            lemma_wf_small(v);
        }
        let mut out: Vec<usize> = Vec::new();
        let mut k: usize = 0;
        while k <= n
            invariant
                self@ == v,
                v.wf(),
                n == v.n,
                n <= 20,
                k <= n + 1,
                strip@ == placed(v.n, idx@),
                out.len() == k,
                forall|j: int|
                    0 <= j < k ==> #[trigger] out@[j] == v.worlds.filter(
                        ceremony_keeps(v.universe, strip@, j as nat),
                    ).len(),
            decreases n + 1 - k,
        {
            let mut s = self.duplicate();
            s.apply_ceremony_impl(&strip, k);
            out.push(s.num_worlds());
            k = k + 1;
        }
        Ok(out)
    }
}

/// A well-formed state is at most twenty wide: its permutation table of
/// `n!` entries fits in memory.
pub proof fn lemma_wf_small(v: SeasonView)
    requires
        v.wf(),
    ensures
        v.n <= 20,
{
    lemma_size_small(v.n);
}

/// Filtering keeps strictly increasing ranks strictly increasing.
pub proof fn lemma_filter_increasing(ws: Seq<usize>, keep: spec_fn(usize) -> bool)
    requires
        increasing(ws),
    ensures
        increasing(ws.filter(keep)),
    decreases ws.len(),
{
    if ws.len() > 0 {
        let p = ws.drop_last();
        assert(increasing(p));
        lemma_filter_increasing(p, keep);
        reveal(Seq::filter);
        let f = p.filter(keep);
        if keep(ws.last()) {
            let g = f.push(ws.last());
            assert forall|i: int, j: int| 0 <= i < j < g.len() implies g[i] < g[j] by {
                if j == g.len() - 1 {
                    assert(f.contains(f[i]));
                    p.lemma_filter_contains_rev(keep, f[i]);
                    let k = choose|k: int| 0 <= k < p.len() && p[k] == f[i];
                    assert(ws[k] < ws[ws.len() - 1]);
                }
            }
        }
    }
}

/// A tally never exceeds the number of worlds counted.
pub proof fn lemma_tally_bound(u: Seq<Seq<usize>>, ws: Seq<usize>, m: int, f: usize)
    ensures
        tally(u, ws, m, f) <= ws.len(),
    decreases ws.len(),
{
    if ws.len() > 0 {
        lemma_tally_bound(u, ws.drop_last(), m, f);
    }
}

/// Counts the cells of an `n`-by-`n` table equal to a nonzero `total`.
fn count_determined(counts: &Vec<Vec<usize>>, total: usize, n: usize) -> (r: usize)
    requires
        n <= 20,
        counts.len() == n,
        forall|m: int| 0 <= m < n ==> (#[trigger] counts@[m]).len() == n,
    ensures
        r == grid_hits(counts@.map_values(|r: Vec<usize>| r@), total as nat),
{
    let ghost cv = counts@.map_values(|r: Vec<usize>| r@);
    let mut acc: usize = 0;
    let mut m: usize = 0;
    while m < n
        invariant
            n <= 20,
            m <= n,
            counts.len() == n,
            forall|j: int| 0 <= j < n ==> (#[trigger] counts@[j]).len() == n,
            cv == counts@.map_values(|r: Vec<usize>| r@),
            acc == grid_hits(cv.take(m as int), total as nat),
            acc <= m * 20,
        decreases n - m,
    {
        let row = &counts[m];
        let mut c: usize = 0;
        let mut hits: usize = 0;
        while c < n
            invariant
                n <= 20,
                m < n,
                row.len() == n,
                c <= n,
                hits == row_hits(row@.take(c as int), total as nat),
                hits <= c,
            decreases n - c,
        {
            assert(row@.take(c + 1).drop_last() =~= row@.take(c as int));
            if total > 0 && row[c] == total {
                hits = hits + 1;
            }
            c = c + 1;
        }
        assert(row@.take(c as int) =~= row@);
        assert(cv.take(m + 1).drop_last() =~= cv.take(m as int));
        assert(cv.take(m + 1).last() == row@);
        acc = acc + hits;
        m = m + 1;
    }
    assert(cv.take(m as int) =~= cv);
    acc
}

} // verus!
