use vstd::prelude::*;

use super::{make_all_couples, Season};
use crate::model::{all_couples, named, Couple};

verus! {

impl<'a> Season<'a> {
    /// The couples that hold in every remaining world (probability exactly
    /// one), by name, in row-major order.
    pub fn known_couples(&self) -> (r: Vec<(String, String)>)
        requires
            self@.wf(),
        ensures
            r@.map_values(|p: (String, String)| (p.0@, p.1@)) == named(
                self@.rows,
                self@.cols,
                all_couples(self@.n).filter(|c: Couple| self@.is_determined(c)),
            ),
    {
        let ghost v = self@;
        let all = make_all_couples(self.n);
        let ghost keep = |c: Couple| v.is_determined(c);
        let mut sure: Vec<Couple> = Vec::new();
        let mut i: usize = 0;
        while i < all.len()
            invariant
                self@ == v,
                v.wf(),
                all@ == all_couples(v.n),
                forall|j: int| 0 <= j < all.len() ==> (#[trigger] all@[j]).0 < v.n && all@[j].1 < v.n,
                i <= all.len(),
                keep == (|c: Couple| v.is_determined(c)),
                sure@ == all@.take(i as int).filter(keep),
                forall|j: int| 0 <= j < sure.len() ==> (#[trigger] sure@[j]).0 < v.n && sure@[j].1 < v.n,
            decreases all.len() - i,
        {
            let (m, f) = all[i];
            assert(all@.take(i + 1).drop_last() =~= all@.take(i as int));
            assert(all@.take(i + 1).last() == (m, f));
            proof {
                reveal(Seq::filter);
            }
            assert(self.counts@[m as int]@ == v.counts[m as int]);
            if self.total > 0 && self.counts[m][f] == self.total {
                sure.push((m, f));
            }
            i = i + 1;
        }
        assert(all@.take(i as int) =~= all@);
        self.name_couples(&sure)
    }

    /// Returns the number of worlds that remain.
    pub fn num_worlds(&self) -> (r: usize)
        ensures
            r == self@.worlds.len(),
    {
        self.worlds.len()
    }

    /// Returns the number of couples (elements per group).
    pub fn size(&self) -> (r: usize)
        ensures
            r == self@.n,
    {
        self.n
    }

    /// The worlds that remain, each as its column-per-row array.
    pub fn worlds(&self) -> (r: Vec<Vec<usize>>)
        requires
            self@.wf(),
        ensures
            r@.map_values(|w: Vec<usize>| w@) == self@.worlds.map_values(
                |k: usize| self@.universe[k as int],
            ),
    {
        let ghost v = self@;
        let mut r: Vec<Vec<usize>> = Vec::new();
        let mut i: usize = 0;
        while i < self.worlds.len()
            invariant
                self@ == v,
                v.wf(),
                i <= self.worlds.len(),
                r.len() == i,
                forall|j: int| 0 <= j < i ==> (#[trigger] r@[j])@ == v.universe[v.worlds[j] as int],
            decreases self.worlds.len() - i,
        {
            let k = self.worlds[i];
            assert(v.worlds[i as int] == k);
            let w = self.universe[k].clone();
            assert(w@ =~= v.universe[k as int]);
            r.push(w);
            i = i + 1;
        }
        assert(r@.map_values(|w: Vec<usize>| w@) =~= v.worlds.map_values(
            |k: usize| v.universe[k as int],
        ));
        r
    }

    /// The current round.
    pub fn turn(&self) -> (r: usize)
        ensures
            r == self@.turn,
    {
        self.turn
    }

    /// The pool size that the matrix was last computed over.
    pub fn total(&self) -> (r: usize)
        ensures
            r == self@.total,
    {
        self.total
    }

    /// The number of worlds, as of the last recomputation, that pair row `m`
    /// with column `f`; divided by `total()` it is the pair's probability.
    pub fn count(&self, m: usize, f: usize) -> (r: usize)
        requires
            self@.wf(),
            (m as nat) < self@.n,
            (f as nat) < self@.n,
        ensures
            r == self@.counts[m as int][f as int],
    {
        assert(self.counts@[m as int]@ == self@.counts[m as int]);
        self.counts[m][f]
    }

    /// The number of determined couples as of the last recomputation.
    pub fn found(&self) -> (r: usize)
        ensures
            r == self@.found,
    {
        self.found
    }

    /// The row names, in index order.
    pub fn row_names(&self) -> (r: Vec<String>)
        ensures
            r@.map_values(|s: String| s@) == self@.rows,
    {
        let r = self.rows.clone();
        assert(r@ =~= self.rows@);
        r
    }

    /// The column names, in index order.
    pub fn column_names(&self) -> (r: Vec<String>)
        ensures
            r@.map_values(|s: String| s@) == self@.cols,
    {
        let r = self.cols.clone();
        assert(r@ =~= self.cols@);
        r
    }
}

} // verus!
