use vstd::prelude::*;

use crate::model::{
    all_couples, couples_upto, distinct_rows, lemma_position_in_range, named, position, resolve_all, shaped,
    AytoError, Couple, SeasonView,
};
use crate::worldview::{checked_factorial, fact, lemma_fact_monotone};

pub mod accessors;
pub mod mutators;
pub mod solvers;

verus! {

/// One game: the name lists, the round counter, the probability matrix (as
/// integer counts over a total) and the pool of surviving candidate ranks
/// into a shared, read-only permutation table.
pub struct Season<'a> {
    rows: Vec<String>,
    cols: Vec<String>,
    n: usize,
    turn: usize,
    found: usize,
    counts: Vec<Vec<usize>>,
    total: usize,
    worlds: Vec<usize>,
    universe: &'a Vec<Vec<usize>>,
}

impl<'a> View for Season<'a> {
    type V = SeasonView;

    closed spec fn view(&self) -> SeasonView {
        SeasonView {
            rows: self.rows@.map_values(|s: String| s@),
            cols: self.cols@.map_values(|s: String| s@),
            n: self.n as nat,
            turn: self.turn as nat,
            found: self.found as nat,
            counts: self.counts@.map_values(|r: Vec<usize>| r@),
            total: self.total as nat,
            worlds: self.worlds@,
            universe: self.universe@.map_values(|r: Vec<usize>| r@),
        }
    }
}

/// The state of a fresh session: every rank survives and every cell is `1/n`.
pub open spec fn initial_view(
    rows: Seq<Seq<char>>,
    cols: Seq<Seq<char>>,
    universe: Seq<Seq<usize>>,
) -> SeasonView {
    let n = rows.len();
    SeasonView {
        rows,
        cols,
        n,
        turn: 1,
        found: 0,
        counts: Seq::new(n, |m: int| Seq::new(n, |f: int| fact((n - 1) as nat) as usize)),
        total: fact(n),
        worlds: Seq::new(fact(n), |i: int| i as usize),
        universe,
    }
}

/// The views of a list of names.
pub open spec fn names_view(names: Seq<&str>) -> Seq<Seq<char>> {
    names.map_values(|s: &str| s@)
}

/// The views of the rows of a permutation table.
pub open spec fn table_view(u: Seq<Vec<usize>>) -> Seq<Seq<usize>> {
    u.map_values(|r: Vec<usize>| r@)
}

/// Whether `u` can serve as the permutation table of size `n`.
pub open spec fn table_fits(u: Seq<Seq<usize>>, n: nat) -> bool {
    u.len() == fact(n) && shaped(u, n) && distinct_rows(u)
}

/// Checks that every entry of the table is `n` long and holds values below `n`.
fn check_shape(u: &Vec<Vec<usize>>, n: usize) -> (r: bool)
    ensures
        r == (shaped(table_view(u@), n as nat) && distinct_rows(table_view(u@))),
{
    let ghost tv = table_view(u@);
    assert(tv.len() == u.len());
    let mut k: usize = 0;
    while k < u.len()
        invariant
            k <= u.len(),
            tv == table_view(u@),
            tv.len() == u.len(),
            forall|j: int|
                0 <= j < k ==> #[trigger] tv[j].len() == n && forall|c: int|
                    0 <= c < n ==> (#[trigger] tv[j][c] as nat) < n,
            forall|j: int| 0 <= j < k ==> (#[trigger] tv[j]).no_duplicates(),
        decreases u.len() - k,
    {
        assert(u@[k as int]@ == tv[k as int]);
        if u[k].len() != n || !values_below(&u[k], n) {
            return false;
        }
        if !no_repeats(&u[k], n) {
            return false;
        }
        k = k + 1;
    }
    true
}

/// Whether no value of `row`, all of whose values are below `n`, repeats.
fn no_repeats(row: &Vec<usize>, n: usize) -> (r: bool)
    requires
        forall|c: int| 0 <= c < row.len() ==> (row@[c] as nat) < n,
    ensures
        r == row@.no_duplicates(),
{
    let mut seen: Vec<bool> = vec![false; n];
    let mut i: usize = 0;
    while i < row.len()
        invariant
            i <= row.len(),
            seen.len() == n,
            forall|c: int| 0 <= c < row.len() ==> (row@[c] as nat) < n,
            forall|v: int| 0 <= v < n ==> seen@[v] == row@.take(i as int).contains(v as usize),
            row@.take(i as int).no_duplicates(),
        decreases row.len() - i,
    {
        let x = row[i];
        if seen[x] {
            proof {
                assert(row@.take(i as int).contains(x));
                let j = choose|j: int| 0 <= j < i && row@.take(i as int)[j] == x;
                assert(row@[j] == row@[i as int]);
            }
            return false;
        }
        seen.set(x, true);
        let ghost t = row@.take(i + 1);
        proof {
            assert(t =~= row@.take(i as int).push(x));
            assert forall|v: int| 0 <= v < n implies seen@[v] == t.contains(v as usize) by {
                if t.contains(v as usize) {
                    let j = choose|j: int| 0 <= j < t.len() && t[j] == v as usize;
                    if j < i {
                        assert(row@.take(i as int)[j] == v as usize);
                    }
                }
                if v < n && seen@[v] && v as usize != x {
                    let j = choose|j: int| 0 <= j < i && row@.take(i as int)[j] == v as usize;
                    assert(t[j] == v as usize);
                }
                if v as usize == x {
                    assert(t[i as int] == x);
                }
            }
            assert forall|p: int, q: int| 0 <= p < t.len() && 0 <= q < t.len() && p != q implies t[p]
                != t[q] by {
                if p == i {
                    assert(!row@.take(i as int).contains(x));
                    assert(row@.take(i as int)[q] == t[q]);
                } else if q == i {
                    assert(!row@.take(i as int).contains(x));
                    assert(row@.take(i as int)[p] == t[p]);
                } else {
                    assert(row@.take(i as int)[p] == t[p]);
                    assert(row@.take(i as int)[q] == t[q]);
                }
            }
        }
        i = i + 1;
    }
    assert(row@.take(i as int) =~= row@);
    true
}

/// Whether every entry of `row` is below `n`.
fn values_below(row: &Vec<usize>, n: usize) -> (r: bool)
    ensures
        r == forall|c: int| 0 <= c < row.len() ==> (row@[c] as nat) < n,
{
    let mut m: usize = 0;
    while m < row.len()
        invariant
            m <= row.len(),
            forall|c: int| 0 <= c < m ==> (row@[c] as nat) < n,
        decreases row.len() - m,
    {
        if row[m] >= n {
            return false;
        }
        m = m + 1;
    }
    true
}

/// Copies a list of names into owned strings.
fn owned_names(names: &Vec<&str>) -> (r: Vec<String>)
    ensures
        r@.map_values(|s: String| s@) == names_view(names@),
{
    let mut r: Vec<String> = Vec::new();
    let mut i: usize = 0;
    while i < names.len()
        invariant
            i <= names.len(),
            r.len() == i,
            forall|j: int| 0 <= j < i ==> r@[j]@ == names@[j]@,
        decreases names.len() - i,
    {
        let s: String = names[i].to_owned();
        r.push(s);
        i = i + 1;
    }
    assert(r@.map_values(|s: String| s@) =~= names_view(names@));
    r
}

/// Builds every couple of the `n`-by-`n` grid in row-major order.
pub fn make_all_couples(n: usize) -> (r: Vec<Couple>)
    ensures
        r@ == all_couples(n as nat),
        forall|i: int| 0 <= i < r.len() ==> (#[trigger] r@[i]).0 < n && r@[i].1 < n,
{
    let mut r: Vec<Couple> = Vec::new();
    let mut m: usize = 0;
    while m < n
        invariant
            m <= n,
            r@ == couples_upto(n as nat, m as nat),
            forall|i: int| 0 <= i < r.len() ==> (#[trigger] r@[i]).0 < n && r@[i].1 < n,
        decreases n - m,
    {
        let ghost start = r@;
        let mut f: usize = 0;
        while f < n
            invariant
                f <= n,
                m < n,
                r@ == start + Seq::new(f as nat, |j: int| (m, j as usize)),
                forall|i: int| 0 <= i < r.len() ==> (#[trigger] r@[i]).0 < n && r@[i].1 < n,
            decreases n - f,
        {
            r.push((m, f));
            f = f + 1;
            assert(r@ =~= start + Seq::new(f as nat, |j: int| (m, j as usize)));
        }
        m = m + 1;
        assert(r@ =~= couples_upto(n as nat, m as nat));
    }
    r
}

impl<'a> Season<'a> {
    /// Creates a session over the given names and permutation table of size
    /// `n` (the length of both name lists), with every rank alive and every
    /// cell at `1/n`.
    pub fn new(m: &Vec<&str>, f: &Vec<&str>, worldview: &'a Vec<Vec<usize>>) -> (r: Result<
        Season<'a>,
        AytoError,
    >)
        ensures
            m.len() != f.len() ==> r == Err::<Season<'a>, AytoError>(AytoError::SizeMismatch),
            m.len() == f.len() && !table_fits(table_view(worldview@), m.len() as nat) ==> r
                == Err::<Season<'a>, AytoError>(AytoError::StructuralFailure),
            m.len() == f.len() && table_fits(table_view(worldview@), m.len() as nat) ==> (r
                matches Ok(s) && s@ == initial_view(
                names_view(m@),
                names_view(f@),
                table_view(worldview@),
            ) && s@.wf()),
    {
        let n = match Season::check_lengths(m, f) {
            Ok(x) => x,
            Err(e) => {
                return Err(e);
            },
        };
        let ghost tv = table_view(worldview@);
        if !check_shape(worldview, n) {
            return Err(AytoError::StructuralFailure);
        }
        assert(tv.len() == worldview.len());
        let all = match checked_factorial(n) {
            Some(x) => x,
            None => {
                return Err(AytoError::StructuralFailure);
            },
        };
        if worldview.len() != all {
            return Err(AytoError::StructuralFailure);
        }
        let per: usize = if n == 0 {
            1
        } else {
            match checked_factorial(n - 1) {
                Some(x) => x,
                None => {
                    proof {
                        lemma_fact_monotone((n - 1) as nat, n as nat);
                    }
                    return Err(AytoError::StructuralFailure);
                },
            }
        };
        proof {
            if n > 0 {
                assert(fact(n as nat) == n * fact((n - 1) as nat));
                assert(per <= all) by (nonlinear_arith)
                    requires
                        all == n * per,
                        n >= 1,
                ;
            }
        }
        let counts = Season::create_distribution(n, per);
        let mut worlds: Vec<usize> = Vec::new();
        let mut k: usize = 0;
        while k < all
            invariant
                k <= all,
                worlds@ == Seq::new(k as nat, |i: int| i as usize),
            decreases all - k,
        {
            worlds.push(k);
            k = k + 1;
            assert(worlds@ =~= Seq::new(k as nat, |i: int| i as usize));
        }
        let s = Season {
            rows: owned_names(m),
            cols: owned_names(f),
            n,
            turn: 1,
            found: 0,
            counts,
            total: all,
            worlds,
            universe: worldview,
        };
        assert(s@.counts =~= initial_view(names_view(m@), names_view(f@), tv).counts);
        Ok(s)
    }

    /// Returns the common size of the two name lists, or fails where they differ.
    fn check_lengths(m: &Vec<&str>, f: &Vec<&str>) -> (r: Result<usize, AytoError>)
        ensures
            m.len() == f.len() ==> r == Ok::<usize, AytoError>(m.len()),
            m.len() != f.len() ==> r == Err::<usize, AytoError>(AytoError::SizeMismatch),
    {
        if m.len() == f.len() {
            Ok(m.len())
        } else {
            Err(AytoError::SizeMismatch)
        }
    }

    /// An `n`-by-`n` table with every cell at `per`.
    fn create_distribution(n: usize, per: usize) -> (r: Vec<Vec<usize>>)
        ensures
            r@.map_values(|r: Vec<usize>| r@) == Seq::new(
                n as nat,
                |m: int| Seq::new(n as nat, |f: int| per),
            ),
    {
        let mut r: Vec<Vec<usize>> = Vec::new();
        let mut m: usize = 0;
        while m < n
            invariant
                m <= n,
                r.len() == m,
                forall|j: int| 0 <= j < m ==> r@[j]@ =~= Seq::new(n as nat, |f: int| per),
            decreases n - m,
        {
            let row: Vec<usize> = vec![per; n];
            r.push(row);
            m = m + 1;
        }
        assert(r@.map_values(|r: Vec<usize>| r@) =~= Seq::new(
            n as nat,
            |m: int| Seq::new(n as nat, |f: int| per),
        ));
        r
    }

    /// Resolves a name against a list of names; the last entry of that name wins.
    pub(crate) fn id(names: &Vec<String>, k: &str) -> (r: Result<usize, AytoError>)
        ensures
            match position(names@.map_values(|s: String| s@), k@) {
                Some(i) => r == Ok::<usize, AytoError>(i as usize),
                None => r == Err::<usize, AytoError>(AytoError::UnknownIdentity),
            },
    {
        let ghost nv = names@.map_values(|s: String| s@);
        let key: String = k.to_owned();
        assert(key@ == k@);
        let mut i: usize = names.len();
        assert(nv.take(i as int) =~= nv);
        while i > 0
            invariant
                i <= names.len(),
                nv.len() == names.len(),
                key@ == k@,
                nv == names@.map_values(|s: String| s@),
                position(nv, k@) == position(nv.take(i as int), k@),
            decreases i,
        {
            assert(nv.take(i as int).drop_last() =~= nv.take(i - 1));
            assert(nv.take(i as int).last() == names@[i - 1]@);
            let same = names[i - 1] == key;
            assert(same == (names@[i - 1]@ == key@));
            if same {
                assert(position(nv.take(i as int), k@) == Some((i - 1) as nat));
                return Ok(i - 1);
            }
            assert(position(nv.take(i as int), k@) == position(nv.take(i - 1), k@));
            i = i - 1;
        }
        Err(AytoError::UnknownIdentity)
    }

    /// Resolves name pairs to index pairs; fails where any name is unknown.
    pub(crate) fn resolve_couples(&self, couples: &Vec<(&str, &str)>) -> (r: Result<
        Vec<Couple>,
        AytoError,
    >)
        requires
            self@.wf(),
        ensures
            match resolve_all(
                self@.rows,
                self@.cols,
                couples@.map_values(|p: (&str, &str)| (p.0@, p.1@)),
            ) {
                Some(idx) => r matches Ok(x) && x@ == idx,
                None => r == Err::<Vec<Couple>, AytoError>(AytoError::UnknownIdentity),
            },
            r matches Ok(x) ==> forall|j: int|
                0 <= j < x.len() ==> (#[trigger] x@[j]).0 < self@.n && x@[j].1 < self@.n,
    {
        let ghost v = self@;
        let ghost pv = couples@.map_values(|p: (&str, &str)| (p.0@, p.1@));
        let n = self.n;
        let mut idx: Vec<Couple> = Vec::new();
        let mut i: usize = 0;
        while i < couples.len()
            invariant
                self@ == v,
                v.wf(),
                n == v.n,
                pv == couples@.map_values(|p: (&str, &str)| (p.0@, p.1@)),
                i <= couples.len(),
                resolve_all(v.rows, v.cols, pv.take(i as int)) == Some(idx@),
                forall|j: int| 0 <= j < idx.len() ==> (#[trigger] idx@[j]).0 < n && idx@[j].1 < n,
            decreases couples.len() - i,
        {
            let (a, b) = couples[i];
            assert(pv.take(i + 1).drop_last() =~= pv.take(i as int));
            assert(pv.take(i + 1).last() == (a@, b@));
            let m = match Season::id(&self.rows, a) {
                Ok(x) => x,
                Err(e) => {
                    proof {
                        lemma_resolve_none_extends(v.rows, v.cols, pv, i + 1);
                    }
                    return Err(e);
                },
            };
            let f = match Season::id(&self.cols, b) {
                Ok(x) => x,
                Err(e) => {
                    proof {
                        lemma_resolve_none_extends(v.rows, v.cols, pv, i + 1);
                    }
                    return Err(e);
                },
            };
            proof {
                lemma_position_in_range(v.rows, a@);
                lemma_position_in_range(v.cols, b@);
            }
            idx.push((m, f));
            i = i + 1;
        }
        assert(pv.take(i as int) =~= pv);
        Ok(idx)
    }

    /// The couples, by index, as pairs of names.
    pub(crate) fn name_couples(&self, cs: &Vec<Couple>) -> (r: Vec<(String, String)>)
        requires
            self@.wf(),
            forall|j: int| 0 <= j < cs.len() ==> (#[trigger] cs@[j]).0 < self@.n && cs@[j].1 < self@.n,
        ensures
            r@.map_values(|p: (String, String)| (p.0@, p.1@)) == named(self@.rows, self@.cols, cs@),
    {
        let ghost v = self@;
        let mut r: Vec<(String, String)> = Vec::new();
        let mut i: usize = 0;
        while i < cs.len()
            invariant
                self@ == v,
                v.wf(),
                forall|j: int| 0 <= j < cs.len() ==> (#[trigger] cs@[j]).0 < v.n && cs@[j].1 < v.n,
                i <= cs.len(),
                r.len() == i,
                forall|j: int|
                    0 <= j < i ==> (#[trigger] r@[j]).0@ == v.rows[cs@[j].0 as int] && r@[j].1@
                        == v.cols[cs@[j].1 as int],
            decreases cs.len() - i,
        {
            let (m, f) = cs[i];
            let a = self.rows[m].clone();
            let b = self.cols[f].clone();
            r.push((a, b));
            i = i + 1;
        }
        assert(r@.map_values(|p: (String, String)| (p.0@, p.1@)) =~= named(v.rows, v.cols, cs@));
        r
    }
}

/// Once a prefix of the pairs fails to resolve, the whole list fails.
proof fn lemma_resolve_none_extends(
    rows: Seq<Seq<char>>,
    cols: Seq<Seq<char>>,
    pairs: Seq<(Seq<char>, Seq<char>)>,
    i: int,
)
    requires
        0 <= i <= pairs.len(),
        resolve_all(rows, cols, pairs.take(i)) is None,
    ensures
        resolve_all(rows, cols, pairs) is None,
    decreases pairs.len(),
{
    if i == pairs.len() {
        assert(pairs.take(i) =~= pairs);
    } else {
        assert(pairs.drop_last().take(i) =~= pairs.take(i));
        lemma_resolve_none_extends(rows, cols, pairs.drop_last(), i);
    }
}

} // verus!
