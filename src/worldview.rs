use vstd::prelude::*;

verus! {

/// The factorial of `n`.
pub open spec fn fact(n: nat) -> nat
    decreases n,
{
    if n == 0 {
        1
    } else {
        n * fact((n - 1) as nat)
    }
}

/// The values `0, 1, ..., n - 1` in increasing order.
pub open spec fn iota(n: nat) -> Seq<usize> {
    Seq::new(n, |i: int| i as usize)
}

/// Lehmer-code unranking over a working list: the remainder of `k` by the
/// number of atoms left picks (and removes) the next atom; the quotient is
/// carried on to the remaining atoms.
pub open spec fn unrank(atoms: Seq<usize>, k: nat) -> Seq<usize>
    decreases atoms.len(),
{
    if atoms.len() == 0 {
        Seq::empty()
    } else {
        let r = atoms.len();
        let item = (k % r) as int;
        seq![atoms[item]] + unrank(atoms.remove(item), k / r)
    }
}

/// The permutation of `0..n` whose rank is `k`.
pub open spec fn permutation(n: nat, k: nat) -> Seq<usize> {
    unrank(iota(n), k)
}

/// A sequence that holds each of `0..n` exactly once.
pub open spec fn is_permutation(p: Seq<usize>, n: nat) -> bool {
    &&& p.len() == n
    &&& forall|i: int| 0 <= i < p.len() ==> (p[i] as nat) < n
    &&& p.no_duplicates()
}

proof fn lemma_remove_keeps_others(a: Seq<usize>, j: int, x: usize)
    requires
        0 <= j < a.len(),
        a.no_duplicates(),
    ensures
        a.remove(j).no_duplicates(),
        a.remove(j).contains(x) <==> (a.contains(x) && x != a[j]),
{
    let b = a.remove(j);
    assert forall|p: int, q: int| 0 <= p < b.len() && 0 <= q < b.len() && p != q implies b[p]
        != b[q] by {
        let pp = if p < j { p } else { p + 1 };
        let qq = if q < j { q } else { q + 1 };
        assert(b[p] == a[pp] && b[q] == a[qq]);
    }
    if b.contains(x) {
        let p = choose|p: int| 0 <= p < b.len() && b[p] == x;
        let pp = if p < j { p } else { p + 1 };
        assert(a[pp] == x);
    }
    if a.contains(x) && x != a[j] {
        let p = choose|p: int| 0 <= p < a.len() && a[p] == x;
        if p < j {
            assert(b[p] == x);
        } else {
            assert(b[p - 1] == x);
        }
    }
}

/// Unranking rearranges its atoms: same length, same members, no repeats.
proof fn lemma_unrank_rearranges(a: Seq<usize>, k: nat)
    requires
        a.no_duplicates(),
    ensures
        unrank(a, k).len() == a.len(),
        unrank(a, k).no_duplicates(),
        forall|x: usize| unrank(a, k).contains(x) <==> a.contains(x),
    decreases a.len(),
{
    if a.len() > 0 {
        let r = a.len();
        let item = (k % r) as int;
        let rest = a.remove(item);
        lemma_remove_keeps_others(a, item, a[item]);
        lemma_unrank_rearranges(rest, k / r);
        let u = unrank(a, k);
        let tail = unrank(rest, k / r);
        assert(u == seq![a[item]] + tail);
        assert forall|x: usize| u.contains(x) <==> a.contains(x) by {
            lemma_remove_keeps_others(a, item, x);
            if u.contains(x) {
                let p = choose|p: int| 0 <= p < u.len() && u[p] == x;
                if p > 0 {
                    assert(tail[p - 1] == x);
                }
            }
            if a.contains(x) {
                if x == a[item] {
                    assert(u[0] == x);
                } else {
                    assert(tail.contains(x));
                    let p = choose|p: int| 0 <= p < tail.len() && tail[p] == x;
                    assert(u[p + 1] == x);
                }
            }
        }
        assert forall|p: int, q: int| 0 <= p < u.len() && 0 <= q < u.len() && p != q implies u[p]
            != u[q] by {
            if p > 0 && q > 0 {
                assert(u[p] == tail[p - 1] && u[q] == tail[q - 1]);
            } else if p == 0 {
                assert(u[q] == tail[q - 1]);
                assert(tail.contains(u[q]));
                lemma_remove_keeps_others(a, item, u[q]);
            } else {
                assert(u[p] == tail[p - 1]);
                assert(tail.contains(u[p]));
                lemma_remove_keeps_others(a, item, u[p]);
            }
        }
    }
}

proof fn lemma_quotient_bound(k: nat, r: nat, f: nat)
    requires
        r > 0,
        k < r * f,
    ensures
        k / r < f,
        k == r * (k / r) + k % r,
{
    assert(k == r * (k / r) + k % r) by (nonlinear_arith)
        requires
            r > 0,
    ;
    assert(k / r < f) by (nonlinear_arith)
        requires
            r > 0,
            k < r * f,
            k == r * (k / r) + k % r,
            k % r >= 0,
    ;
}

/// Distinct ranks below the factorial give distinct arrangements.
proof fn lemma_unrank_injective(a: Seq<usize>, k1: nat, k2: nat)
    requires
        a.no_duplicates(),
        k1 < fact(a.len()),
        k2 < fact(a.len()),
        unrank(a, k1) == unrank(a, k2),
    ensures
        k1 == k2,
    decreases a.len(),
{
    if a.len() == 0 {
        assert(fact(0) == 1);
    } else {
        let r = a.len();
        let (i1, i2) = ((k1 % r) as int, (k2 % r) as int);
        let (u1, u2) = (unrank(a, k1), unrank(a, k2));
        assert(u1[0] == a[i1] && u2[0] == a[i2]);
        assert(i1 == i2);
        let rest = a.remove(i1);
        lemma_remove_keeps_others(a, i1, a[i1]);
        assert(unrank(rest, k1 / r) == u1.subrange(1, u1.len() as int));
        assert(unrank(rest, k2 / r) == u2.subrange(1, u2.len() as int));
        assert(fact(r) == r * fact((r - 1) as nat));
        lemma_quotient_bound(k1, r, fact((r - 1) as nat));
        lemma_quotient_bound(k2, r, fact((r - 1) as nat));
        lemma_unrank_injective(rest, k1 / r, k2 / r);
    }
}

proof fn lemma_iota_distinct(n: nat)
    requires
        n <= usize::MAX,
    ensures
        iota(n).no_duplicates(),
        forall|x: usize| iota(n).contains(x) <==> (x as nat) < n,
{
    assert forall|x: usize| (x as nat) < n implies iota(n).contains(x) by {
        assert(iota(n)[x as int] == x);
    }
}

/// Every rank gives an arrangement of `0..n` that holds each value once.
pub proof fn lemma_permutation_is_bijection(n: nat, k: nat)
    requires
        n <= usize::MAX,
    ensures
        is_permutation(permutation(n, k), n),
        forall|v: usize| (v as nat) < n ==> #[trigger] permutation(n, k).contains(v),
{
    lemma_iota_distinct(n);
    lemma_unrank_rearranges(iota(n), k);
    let p = permutation(n, k);
    assert forall|i: int| 0 <= i < p.len() implies (p[i] as nat) < n by {
        assert(p.contains(p[i]));
        assert(iota(n).contains(p[i]));
    }
    assert forall|v: usize| (v as nat) < n implies #[trigger] p.contains(v) by {
        assert(iota(n).contains(v));
    }
}

/// Over the ranks `0..n!` the arrangements are pairwise distinct, and each
/// holds every value of `0..n` exactly once.
pub proof fn lemma_generate_distinct_bijections(n: nat, k1: nat, k2: nat)
    requires
        n <= usize::MAX,
        k1 < fact(n),
        k2 < fact(n),
        k1 != k2,
    ensures
        permutation(n, k1) != permutation(n, k2),
        is_permutation(permutation(n, k1), n),
        is_permutation(permutation(n, k2), n),
        forall|v: usize| (v as nat) < n ==> #[trigger] permutation(n, k1).contains(v),
{
    lemma_iota_distinct(n);
    lemma_permutation_is_bijection(n, k1);
    lemma_permutation_is_bijection(n, k2);
    if permutation(n, k1) == permutation(n, k2) {
        lemma_unrank_injective(iota(n), k1, k2);
    }
}

/// Generates the permutation of `0..n` of rank `k`.
pub fn generate(n: usize, k: usize) -> (r: Vec<usize>)
    ensures
        r@ == permutation(n as nat, k as nat),
{
    let mut atoms: Vec<usize> = Vec::new();
    let mut i: usize = 0;
    while i < n
        invariant
            i <= n,
            atoms@ == iota(i as nat),
        decreases n - i,
    {
        atoms.push(i);
        i = i + 1;
        assert(atoms@ =~= iota(i as nat));
    }
    let mut v: Vec<usize> = Vec::new();
    let mut q: usize = k;
    let mut i: usize = 0;
    while i < n
        invariant
            i <= n,
            atoms.len() == n - i,
            v@ + unrank(atoms@, q as nat) == permutation(n as nat, k as nat),
        decreases n - i,
    {
        let r: usize = n - i;
        let item: usize = q % r;
        let ghost before = v@;
        let ghost old_atoms = atoms@;
        let ghost old_q = q;
        v.push(atoms[item]);
        atoms.remove(item);
        q = q / r;
        i = i + 1;
        assert(unrank(old_atoms, old_q as nat) == seq![old_atoms[item as int]] + unrank(
            atoms@,
            q as nat,
        ));
        assert(v@ + unrank(atoms@, q as nat) =~= before + unrank(old_atoms, old_q as nat));
    }
    assert(unrank(atoms@, q as nat) == Seq::<usize>::empty());
    assert(v@ =~= v@ + unrank(atoms@, q as nat));
    v
}

/// Computes `n!`, or `None` where it does not fit in a `usize`.
pub fn checked_factorial(n: usize) -> (r: Option<usize>)
    ensures
        r matches Some(f) ==> f == fact(n as nat),
        r is None ==> fact(n as nat) > usize::MAX,
{
    let mut acc: usize = 1;
    let mut i: usize = 0;
    while i < n
        invariant
            i <= n,
            acc == fact(i as nat),
        decreases n - i,
    {
        let next = i + 1;
        assert(fact(next as nat) == next * fact(i as nat));
        match acc.checked_mul(next) {
            Some(m) => {
                acc = m;
            },
            None => {
                proof {
                    lemma_fact_monotone(next as nat, n as nat);
                }
                return None;
            },
        }
        i = next;
    }
    Some(acc)
}

pub proof fn lemma_fact_monotone(a: nat, b: nat)
    requires
        a <= b,
    ensures
        fact(a) <= fact(b),
        fact(a) >= 1,
    decreases b,
{
    if a < b {
        lemma_fact_monotone(a, (b - 1) as nat);
        assert(fact(b) == b * fact((b - 1) as nat));
        assert(b * fact((b - 1) as nat) >= fact((b - 1) as nat)) by (nonlinear_arith)
            requires
                b >= 1,
        ;
    } else if a > 0 {
        lemma_fact_monotone((a - 1) as nat, (a - 1) as nat);
        assert(fact(a) == a * fact((a - 1) as nat));
        assert(a * fact((a - 1) as nat) >= 1) by (nonlinear_arith)
            requires
                a >= 1,
                fact((a - 1) as nat) >= 1,
        ;
    }
}

} // verus!
