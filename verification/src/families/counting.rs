//! Subsets, the modular counting principle and Ramsey formulas.

use vstd::prelude::*;
use crate::cnf::{Lit, DimacsCnf, pos, neg, clauses_view, lit_holds, clause_holds, cnf_holds, satisfiable, lemma_flatten_contains,
    lemma_flatten_index, lemma_contained_clause_holds};
use crate::families::tally::{isum, lemma_isum_ext, lemma_isum_scale, lemma_isum_single, lemma_isum_swap, lemma_isum_ones,
    lemma_isum_indicator, lemma_cover_clause};
use crate::families::{ExpectedVerdict, lemma_cv_push, lemma_new_push, lemma_flatten_new_push};
use crate::families::parity::{pos_lits};

verus! {

// ---------------------------------------------------------------------------
// Subsets in lexicographic order
// ---------------------------------------------------------------------------

/// The `q`-element subsets of `{lo, …, n−1}`, each as its increasing list, in lexicographic
/// order: those containing `lo` first.
pub open spec fn combs_from(lo: nat, n: nat, q: nat) -> Seq<Seq<usize>>
    decreases n - lo,
{
    if q == 0 {
        seq![Seq::empty()]
    } else if lo >= n {
        Seq::empty()
    } else {
        combs_from(lo + 1, n, (q - 1) as nat).map_values(|c: Seq<usize>| seq![lo as usize] + c)
            + combs_from(lo + 1, n, q)
    }
}

/// All `q`-element subsets of `{0, …, n−1}` in lexicographic order; empty when `q = 0` or
/// `q > n`.
pub open spec fn combinations_spec(n: nat, q: nat) -> Seq<Seq<usize>> {
    if q == 0 || q > n { Seq::empty() } else { combs_from(0, n, q) }
}

fn prefix_each(lo: usize, cs: Vec<Vec<usize>>) -> (r: Vec<Vec<usize>>)
    ensures
        r@.len() == cs@.len(),
        forall|i: int| 0 <= i < cs@.len() ==> (#[trigger] r@[i])@ == seq![lo] + cs@[i]@,
{
    let mut r: Vec<Vec<usize>> = Vec::new();
    let mut i: usize = 0;
    while i < cs.len()
        invariant
            i <= cs@.len(),
            r@.len() == i,
            forall|k: int| 0 <= k < i ==> (#[trigger] r@[k])@ == seq![lo] + cs@[k]@,
        decreases cs@.len() - i,
    {
        let mut c: Vec<usize> = Vec::new();
        c.push(lo);
        let mut j: usize = 0;
        while j < cs[i].len()
            invariant
                i < cs@.len(),
                j <= cs@[i as int]@.len(),
                c@ == seq![lo] + cs@[i as int]@.take(j as int),
            decreases cs@[i as int]@.len() - j,
        {
            proof {
                assert(seq![lo] + cs@[i as int]@.take(j + 1) =~= (seq![lo] + cs@[i as int]@.take(j as int)).push(
                    cs@[i as int]@[j as int]));
            }
            c.push(cs[i][j]);
            j += 1;
        }
        proof {
            assert(cs@[i as int]@.take(j as int) =~= cs@[i as int]@);
        }
        r.push(c);
        i += 1;
    }
    r
}

/// The view of a list of lists.
pub open spec fn subsets_view(cs: Seq<Vec<usize>>) -> Seq<Seq<usize>> {
    Seq::new(cs.len(), |i: int| cs[i]@)
}

fn combs_from_exec(lo: usize, n: usize, q: usize) -> (r: Vec<Vec<usize>>)
    requires
        lo <= n,
    ensures
        subsets_view(r@) == combs_from(lo as nat, n as nat, q as nat),
    decreases n - lo,
{
    if q == 0 {
        let mut r: Vec<Vec<usize>> = Vec::new();
        r.push(Vec::new());
        proof {
            assert(subsets_view(r@) =~= seq![Seq::<usize>::empty()]);
        }
        r
    } else if lo >= n {
        let r: Vec<Vec<usize>> = Vec::new();
        proof {
            assert(subsets_view(r@) =~= Seq::<Seq<usize>>::empty());
        }
        r
    } else {
        let with = combs_from_exec(lo + 1, n, q - 1);
        let mut first = prefix_each(lo, with);
        let mut rest = combs_from_exec(lo + 1, n, q);
        let ghost a = first@;
        let ghost b = rest@;
        first.append(&mut rest);
        proof {
            let lhs = combs_from((lo + 1) as nat, n as nat, (q - 1) as nat).map_values(
                |c: Seq<usize>| seq![lo as usize] + c);
            assert(subsets_view(a) =~= lhs);
            assert(subsets_view(first@) =~= subsets_view(a) + subsets_view(b));
        }
        first
    }
}

/// All `q`-element subsets of `{0, …, n−1}` in lexicographic order (empty when `q > n`).
fn combinations(n: usize, q: usize) -> (r: Vec<Vec<usize>>)
    ensures
        subsets_view(r@) == combinations_spec(n as nat, q as nat),
{
    if q == 0 || q > n {
        let r: Vec<Vec<usize>> = Vec::new();
        proof {
            assert(subsets_view(r@) =~= Seq::<Seq<usize>>::empty());
        }
        r
    } else {
        combs_from_exec(0, n, q)
    }
}

/// Every subset `combs_from` lists is increasing and lies in `lo..n`.
pub proof fn lemma_combs_from_shape(lo: nat, n: nat, q: nat, i: int)
    requires
        0 <= i < combs_from(lo, n, q).len(),
        n <= usize::MAX,
    ensures
        combs_from(lo, n, q)[i].len() == q,
        forall|a: int| 0 <= a < q ==> lo <= #[trigger] combs_from(lo, n, q)[i][a] < n,
        forall|a: int, b: int| 0 <= a < b < q ==> #[trigger] combs_from(lo, n, q)[i][a]
            < #[trigger] combs_from(lo, n, q)[i][b],
    decreases n - lo,
{
    if q == 0 {
    } else if lo >= n {
    } else {
        let left = combs_from(lo + 1, n, (q - 1) as nat);
        let right = combs_from(lo + 1, n, q);
        let mapped = left.map_values(|c: Seq<usize>| seq![lo as usize] + c);
        assert(combs_from(lo, n, q) == mapped + right);
        if i < left.len() {
            lemma_combs_from_shape(lo + 1, n, (q - 1) as nat, i);
            let c = combs_from(lo, n, q)[i];
            assert(c == seq![lo as usize] + left[i]);
            assert forall|a: int| 0 <= a < q implies lo <= #[trigger] c[a] < n by {
                if a > 0 {
                    assert(c[a] == left[i][a - 1]);
                }
            }
            assert forall|a: int, b: int| 0 <= a < b < q implies #[trigger] c[a] < #[trigger] c[b] by {
                assert(c[b] == left[i][b - 1]);
                if a > 0 {
                    assert(c[a] == left[i][a - 1]);
                }
            }
        } else {
            lemma_combs_from_shape(lo + 1, n, q, i - left.len());
            assert(combs_from(lo, n, q)[i] == right[i - left.len()]);
        }
    }
}

/// `combs_from` lists every increasing `q`-element list of `lo..n`.
pub proof fn lemma_combs_from_complete(lo: nat, n: nat, q: nat, s: Seq<usize>)
    requires
        n <= usize::MAX,
        s.len() == q,
        forall|a: int| 0 <= a < q ==> lo <= #[trigger] s[a] < n,
        forall|a: int, b: int| 0 <= a < b < q ==> #[trigger] s[a] < #[trigger] s[b],
    ensures
        exists|i: int| 0 <= i < combs_from(lo, n, q).len() && #[trigger] combs_from(lo, n, q)[i] == s,
    decreases n - lo,
{
    if q == 0 {
        assert(s =~= Seq::<usize>::empty());
        assert(combs_from(lo, n, q)[0] == s);
    } else {
        assert(lo <= s[0] < n);
        let left = combs_from(lo + 1, n, (q - 1) as nat);
        let right = combs_from(lo + 1, n, q);
        let mapped = left.map_values(|c: Seq<usize>| seq![lo as usize] + c);
        assert(combs_from(lo, n, q) == mapped + right);
        if s[0] == lo {
            let tail = s.drop_first();
            assert forall|a: int| 0 <= a < q - 1 implies lo + 1 <= #[trigger] tail[a] < n by {
                assert(tail[a] == s[a + 1]);
                assert(s[0] < s[a + 1]);
            }
            assert forall|a: int, b: int| 0 <= a < b < q - 1 implies #[trigger] tail[a] < #[trigger] tail[b] by {
                assert(tail[a] == s[a + 1] && tail[b] == s[b + 1]);
            }
            lemma_combs_from_complete(lo + 1, n, (q - 1) as nat, tail);
            let i = choose|i: int| 0 <= i < left.len() && #[trigger] left[i] == tail;
            assert(mapped[i] =~= s);
            assert(combs_from(lo, n, q)[i] == s);
        } else {
            assert forall|a: int| 0 <= a < q implies lo + 1 <= #[trigger] s[a] < n by {
                if a > 0 {
                    assert(s[0] < s[a]);
                }
            }
            lemma_combs_from_complete(lo + 1, n, q, s);
            let i = choose|i: int| 0 <= i < right.len() && #[trigger] right[i] == s;
            assert(combs_from(lo, n, q)[mapped.len() + i] == s);
        }
    }
}

/// `combs_from` lists each subset once.
pub proof fn lemma_combs_from_distinct(lo: nat, n: nat, q: nat, i: int, j: int)
    requires
        n <= usize::MAX,
        0 <= i < j < combs_from(lo, n, q).len(),
    ensures
        combs_from(lo, n, q)[i] != combs_from(lo, n, q)[j],
    decreases n - lo,
{
    if q == 0 {
    } else if lo >= n {
    } else {
        let left = combs_from(lo + 1, n, (q - 1) as nat);
        let right = combs_from(lo + 1, n, q);
        let mapped = left.map_values(|c: Seq<usize>| seq![lo as usize] + c);
        assert(combs_from(lo, n, q) == mapped + right);
        if j < left.len() {
            lemma_combs_from_distinct(lo + 1, n, (q - 1) as nat, i, j);
            if mapped[i] == mapped[j] {
                assert(left[i] =~= mapped[i].drop_first());
                assert(left[j] =~= mapped[j].drop_first());
            }
        } else if i >= left.len() {
            lemma_combs_from_distinct(lo + 1, n, q, i - left.len(), j - left.len());
        } else {
            lemma_combs_from_shape(lo + 1, n, q, j - left.len());
            assert(mapped[i][0] == lo);
            assert(right[j - left.len()][0] >= lo + 1);
        }
    }
}

// ---------------------------------------------------------------------------
// The modular counting principle
// ---------------------------------------------------------------------------

/// Position `t` of hyperedge `e` contributes `e` to the incidence list of `v` when it holds `v`.
pub open spec fn hyper_cells(edges: Seq<Seq<usize>>, v: int, e: int) -> Seq<Seq<usize>> {
    Seq::new(edges[e].len(), |t: int| if edges[e][t] == v { seq![e as usize] } else { Seq::empty() })
}

/// What hyperedge `e` contributes to the incidence list of `v`: `e` once per occurrence of `v`.
pub open spec fn hyper_step(edges: Seq<Seq<usize>>, v: int, e: int) -> Seq<usize> {
    hyper_cells(edges, v, e).flatten()
}

/// The hyperedges at `v`, in increasing order.
pub open spec fn hyper_incident(edges: Seq<Seq<usize>>, v: int) -> Seq<usize> {
    Seq::new(edges.len(), |e: int| hyper_step(edges, v, e)).flatten()
}

/// Two blocks overlap when they share an element.
pub open spec fn overlap(a: Seq<usize>, b: Seq<usize>) -> bool {
    exists|i: int, j: int| 0 <= i < a.len() && 0 <= j < b.len() && a[i] == b[j]
}

/// The exclusion clause of blocks `e` and `f` if they overlap, nothing otherwise.
pub open spec fn exclusion(edges: Seq<Seq<usize>>, e: int, f: int) -> Seq<Seq<Lit>> {
    if overlap(edges[e], edges[f]) { seq![seq![neg(e as u32), neg(f as u32)]] } else { Seq::empty() }
}

/// The exclusion clauses of block `e` with every later block.
pub open spec fn exclusion_row(edges: Seq<Seq<usize>>, e: int) -> Seq<Seq<Lit>> {
    Seq::new((edges.len() - e - 1) as nat, |d: int| exclusion(edges, e, e + 1 + d)).flatten()
}

/// The clauses of `mod_counting(n, q)`: every element covered by a chosen block, and no two
/// overlapping blocks chosen. Block `e` is `combinations_spec(n, q)[e]`.
pub open spec fn mod_counting_clauses(n: nat, q: nat) -> Seq<Seq<Lit>> {
    let edges = combinations_spec(n, q);
    Seq::new(n, |v: int| pos_lits(hyper_incident(edges, v)))
        + Seq::new(edges.len(), |e: int| exclusion_row(edges, e)).flatten()
}

/// The incidence lists of the hyperedges over the elements `0..nv`.
fn hyper_incidence(nv: usize, edges: &Vec<Vec<usize>>) -> (inc: Vec<Vec<usize>>)
    requires
        forall|e: int, t: int| 0 <= e < edges@.len() && 0 <= t < edges@[e]@.len() ==> #[trigger] edges@[e]@[t] < nv,
    ensures
        inc@.len() == nv,
        forall|v: int| 0 <= v < nv ==> (#[trigger] inc@[v])@ == hyper_incident(subsets_view(edges@), v),
{
    let ghost es = subsets_view(edges@);
    let mut inc: Vec<Vec<usize>> = Vec::new();
    let mut v: usize = 0;
    while v < nv
        invariant
            v <= nv,
            inc@.len() == v,
            forall|u: int| 0 <= u < v ==> (#[trigger] inc@[u])@ == Seq::<usize>::empty(),
        decreases nv - v,
    {
        inc.push(Vec::new());
        v += 1;
    }
    let mut e: usize = 0;
    while e < edges.len()
        invariant
            e <= edges@.len(),
            inc@.len() == nv,
            es == subsets_view(edges@),
            forall|e: int, t: int| 0 <= e < edges@.len() && 0 <= t < edges@[e]@.len() ==> #[trigger] edges@[e]@[t]
                < nv,
            forall|u: int| 0 <= u < nv ==> (#[trigger] inc@[u])@ == Seq::new(e as nat,
                |k: int| hyper_step(es, u, k)).flatten(),
        decreases edges@.len() - e,
    {
        let ghost start = inc@;
        let mut t: usize = 0;
        while t < edges[e].len()
            invariant
                e < edges@.len(),
                t <= edges@[e as int]@.len(),
                inc@.len() == nv,
                es == subsets_view(edges@),
                forall|e: int, t: int| 0 <= e < edges@.len() && 0 <= t < edges@[e]@.len() ==> #[trigger] edges@[e]@[t]
                    < nv,
                forall|u: int| 0 <= u < nv ==> (#[trigger] inc@[u])@ == start[u]@ + Seq::new(t as nat,
                    |s: int| if es[e as int][s] == u { seq![e] } else { Seq::empty() }).flatten(),
            decreases edges@[e as int]@.len() - t,
        {
            let v = edges[e][t];
            let ghost pre = inc@;
            inc[v].push(e);
            proof {
                assert forall|u: int| 0 <= u < nv implies (#[trigger] inc@[u])@ == start[u]@ + Seq::new((t + 1) as nat,
                    |s: int| if es[e as int][s] == u { seq![e] } else { Seq::empty() }).flatten() by {
                    let g = |s: int| if es[e as int][s] == u { seq![e] } else { Seq::<usize>::empty() };
                    lemma_flatten_new_push(t as nat, g);
                    assert(Seq::new(t as nat, g) =~= Seq::new(t as nat,
                        |s: int| if es[e as int][s] == u { seq![e] } else { Seq::empty() }));
                    assert(Seq::new((t + 1) as nat, g) =~= Seq::new((t + 1) as nat,
                        |s: int| if es[e as int][s] == u { seq![e] } else { Seq::empty() }));
                    if u == v {
                        assert(inc@[u]@ =~= pre[u]@.push(e));
                        assert(start[u]@ + Seq::new(t as nat, g).flatten() + g(t as int) =~= (start[u]@ + Seq::new(
                            t as nat, g).flatten()).push(e));
                    } else {
                        assert(inc@[u]@ == pre[u]@);
                        assert(start[u]@ + Seq::new(t as nat, g).flatten() + g(t as int) =~= start[u]@ + Seq::new(
                            t as nat, g).flatten());
                    }
                }
            }
            t += 1;
        }
        proof {
            assert forall|u: int| 0 <= u < nv implies (#[trigger] inc@[u])@ == Seq::new((e + 1) as nat,
                |k: int| hyper_step(es, u, k)).flatten() by {
                let f = |k: int| hyper_step(es, u, k);
                lemma_flatten_new_push(e as nat, f);
                assert(Seq::new(e as nat, f) =~= Seq::new(e as nat, |k: int| hyper_step(es, u, k)));
                assert(Seq::new((e + 1) as nat, f) =~= Seq::new((e + 1) as nat, |k: int| hyper_step(es, u, k)));
                assert(Seq::new(t as nat, |s: int| if es[e as int][s] == u { seq![e] } else { Seq::empty() })
                    =~= Seq::new(es[e as int].len(), |s: int| if es[e as int][s] == u { seq![e as usize] } else {
                    Seq::empty() }));
            }
        }
        e += 1;
    }
    proof {
        assert forall|v: int| 0 <= v < nv implies (#[trigger] inc@[v])@ == hyper_incident(es, v) by {
            assert(Seq::new(edges@.len(), |k: int| hyper_step(es, v, k)) =~= Seq::new(es.len(),
                |e: int| hyper_step(es, v, e)));
        }
    }
    inc
}

fn overlaps(a: &Vec<usize>, b: &Vec<usize>) -> (r: bool)
    ensures
        r == overlap(a@, b@),
{
    let mut i: usize = 0;
    while i < a.len()
        invariant
            i <= a@.len(),
            forall|x: int, y: int| 0 <= x < i && 0 <= y < b@.len() ==> a@[x] != b@[y],
        decreases a@.len() - i,
    {
        let mut j: usize = 0;
        while j < b.len()
            invariant
                i < a@.len(),
                j <= b@.len(),
                forall|x: int, y: int| 0 <= x < i && 0 <= y < b@.len() ==> a@[x] != b@[y],
                forall|y: int| 0 <= y < j ==> a@[i as int] != b@[y],
            decreases b@.len() - j,
        {
            if a[i] == b[j] {
                return true;
            }
            j += 1;
        }
        i += 1;
    }
    false
}

fn lits_of(s: &Vec<usize>) -> (r: Vec<Lit>)
    ensures
        r@ == pos_lits(s@),
{
    let mut r: Vec<Lit> = Vec::new();
    let mut i: usize = 0;
    while i < s.len()
        invariant
            i <= s@.len(),
            r@ == pos_lits(s@).take(i as int),
        decreases s@.len() - i,
    {
        let l = Lit::pos(s[i] as u32);
        proof {
            assert(pos_lits(s@).take(i + 1) =~= pos_lits(s@).take(i as int).push(l));
        }
        r.push(l);
        i += 1;
    }
    proof {
        assert(pos_lits(s@).take(s@.len() as int) =~= pos_lits(s@));
    }
    r
}

/// The modular counting principle `Count_q(n)`: can `{0, …, n−1}` be partitioned into blocks
/// of size `q`? One variable per `q`-subset; unsatisfiable exactly when `q ∤ n`.
pub fn mod_counting(n: usize, q: usize) -> (res: (DimacsCnf, ExpectedVerdict))
    requires
        q >= 2 && n >= q,
    ensures
        res.0.num_vars == combinations_spec(n as nat, q as nat).len(),
        res.0.cls() == mod_counting_clauses(n as nat, q as nat),
        res.1 == (if n % q == 0 { ExpectedVerdict::Sat } else { ExpectedVerdict::Unsat }),
{
    let edges = combinations(n, q);
    let ghost es = subsets_view(edges@);
    proof {
        assert forall|e: int, t: int| 0 <= e < edges@.len() && 0 <= t < edges@[e]@.len() implies #[trigger] edges@[e]@[t]
            < n by {
            lemma_combs_from_shape(0, n as nat, q as nat, e);
            assert(edges@[e]@ == es[e]);
        }
    }
    let num_vars = edges.len();
    let inc = hyper_incidence(n, &edges);
    let mut clauses: Vec<Vec<Lit>> = Vec::new();
    let ghost alo = |v: int| pos_lits(hyper_incident(es, v));
    let mut v: usize = 0;
    while v < n
        invariant
            v <= n,
            inc@.len() == n,
            es == subsets_view(edges@),
            forall|v: int| 0 <= v < n ==> (#[trigger] inc@[v])@ == hyper_incident(es, v),
            alo == (|v: int| pos_lits(hyper_incident(es, v))),
            clauses_view(clauses@) == Seq::new(v as nat, alo),
        decreases n - v,
    {
        let c = lits_of(&inc[v]);
        proof {
            lemma_cv_push(clauses@, c);
            lemma_new_push(v as nat, alo);
        }
        clauses.push(c);
        v += 1;
    }
    let ghost first = clauses_view(clauses@);
    let ghost rows = |e: int| exclusion_row(es, e);
    let ne = edges.len();
    let mut e: usize = 0;
    while e < ne
        invariant
            e <= ne,
            ne == edges@.len(),
            es == subsets_view(edges@),
            rows == (|e: int| exclusion_row(es, e)),
            clauses_view(clauses@) == first + Seq::new(e as nat, rows).flatten(),
        decreases ne - e,
    {
        let ghost before = clauses_view(clauses@);
        let ghost ex = |d: int| exclusion(es, e as int, e + 1 + d);
        let mut f: usize = e + 1;
        while f < ne
            invariant
                e < ne,
                e + 1 <= f <= ne,
                ne == edges@.len(),
                es == subsets_view(edges@),
                ex == (|d: int| exclusion(es, e as int, e + 1 + d)),
                clauses_view(clauses@) == before + Seq::new((f - e - 1) as nat, ex).flatten(),
            decreases ne - f,
        {
            proof {
                lemma_flatten_new_push((f - e - 1) as nat, ex);
            }
            if overlaps(&edges[e], &edges[f]) {
                let cl = vec![Lit::neg(e as u32), Lit::neg(f as u32)];
                proof {
                    lemma_cv_push(clauses@, cl);
                    assert(ex((f - e - 1) as int) =~= seq![cl@]);
                    assert(before + Seq::new((f - e - 1) as nat, ex).flatten() + ex((f - e - 1) as int) =~= (before
                        + Seq::new((f - e - 1) as nat, ex).flatten()).push(cl@));
                }
                clauses.push(cl);
            } else {
                proof {
                    assert(ex((f - e - 1) as int) =~= Seq::<Seq<Lit>>::empty());
                    assert(before + Seq::new((f - e - 1) as nat, ex).flatten() + ex((f - e - 1) as int) =~= before
                        + Seq::new((f - e - 1) as nat, ex).flatten());
                }
            }
            f += 1;
        }
        proof {
            assert(Seq::new((ne - e - 1) as nat, ex) =~= Seq::new((es.len() - e - 1) as nat,
                |d: int| exclusion(es, e as int, e + 1 + d)));
            lemma_flatten_new_push(e as nat, rows);
        }
        e += 1;
    }
    proof {
        assert(Seq::new(n as nat, alo) =~= Seq::new(n as nat, |v: int| pos_lits(hyper_incident(es, v))));
        assert(Seq::new(ne as nat, rows) =~= Seq::new(es.len(), |e: int| exclusion_row(es, e)));
    }
    let verdict = if n % q == 0 { ExpectedVerdict::Sat } else { ExpectedVerdict::Unsat };
    (DimacsCnf { num_vars, clauses }, verdict)
}

/// The edge layout of [`mod_counting`]: variable `e` is the `q`-subset
/// `mod_counting_edges(n, q)[e]` of `{0, …, n−1}`.
pub fn mod_counting_edges(n: usize, q: usize) -> (r: Vec<Vec<usize>>)
    ensures
        subsets_view(r@) == combinations_spec(n as nat, q as nat),
{
    combinations(n, q)
}

/// A clause all of whose literals are positive.
pub open spec fn all_positive(c: Seq<Lit>) -> bool {
    forall|i: int| 0 <= i < c.len() ==> (#[trigger] c[i]).positive
}

/// The variables of a clause, in order.
pub open spec fn lit_vars(c: Seq<Lit>) -> Seq<u32> {
    Seq::new(c.len(), |i: int| c[i].var)
}

/// The variables of the all-positive clauses of `cls`, in order.
pub open spec fn positive_groups(cls: Seq<Seq<Lit>>) -> Seq<Seq<u32>>
    decreases cls.len(),
{
    if cls.len() == 0 {
        Seq::empty()
    } else {
        positive_groups(cls.drop_last()) + (if all_positive(cls.last()) { seq![lit_vars(cls.last())] } else {
            Seq::empty()
        })
    }
}

/// The view of a list of variable lists.
pub open spec fn groups_view(g: Seq<Vec<u32>>) -> Seq<Seq<u32>> {
    Seq::new(g.len(), |i: int| g[i]@)
}

/// The exactly-one groups of [`mod_counting`]'s linear encoding: the variables of each
/// all-positive clause (the covering clause of each point), in clause order.
pub fn mod_counting_groups(n: usize, q: usize) -> (r: Vec<Vec<u32>>)
    requires
        q >= 2 && n >= q,
    ensures
        groups_view(r@) == positive_groups(mod_counting_clauses(n as nat, q as nat)),
{
    let (cnf, _) = mod_counting(n, q);
    let mut r: Vec<Vec<u32>> = Vec::new();
    let mut i: usize = 0;
    while i < cnf.clauses.len()
        invariant
            i <= cnf.clauses@.len(),
            cnf.cls() == mod_counting_clauses(n as nat, q as nat),
            groups_view(r@) == positive_groups(cnf.cls().take(i as int)),
        decreases cnf.clauses@.len() - i,
    {
        let c = &cnf.clauses[i];
        let mut all = true;
        let mut vars: Vec<u32> = Vec::new();
        let mut j: usize = 0;
        while j < c.len()
            invariant
                j <= c@.len(),
                all == (forall|k: int| 0 <= k < j ==> (#[trigger] c@[k]).positive),
                vars@ == lit_vars(c@).take(j as int),
            decreases c@.len() - j,
        {
            proof {
                assert(lit_vars(c@).take(j + 1) =~= lit_vars(c@).take(j as int).push(c@[j as int].var));
            }
            all = all && c[j].positive;
            vars.push(c[j].var);
            j += 1;
        }
        proof {
            assert(lit_vars(c@).take(j as int) =~= lit_vars(c@));
            assert(cnf.cls().take(i + 1).drop_last() =~= cnf.cls().take(i as int));
            assert(cnf.cls().take(i + 1).last() == c@);
        }
        if all {
            let ghost before = r@;
            r.push(vars);
            proof {
                assert(groups_view(r@) =~= groups_view(before).push(vars@));
                assert(groups_view(r@) =~= positive_groups(cnf.cls().take(i + 1)));
            }
        } else {
            proof {
                assert(positive_groups(cnf.cls().take(i + 1)) =~= positive_groups(cnf.cls().take(i as int)));
            }
        }
        i += 1;
    }
    proof {
        assert(cnf.cls().take(cnf.clauses@.len() as int) =~= cnf.cls());
    }
    r
}

// ---------------------------------------------------------------------------
// Ramsey formulas
// ---------------------------------------------------------------------------

/// The known two-colour Ramsey numbers `R(s, t)` for small `(s, t)`, symmetric in `s, t`;
/// `None` when the value is unknown.
pub open spec fn ramsey_value(s: nat, t: nat) -> Option<nat> {
    let a = if s <= t { s } else { t };
    let b = if s <= t { t } else { s };
    if a == 1 {
        Some(1)
    } else if a == 2 {
        Some(b)
    } else if a == 3 && b == 3 {
        Some(6)
    } else if a == 3 && b == 4 {
        Some(9)
    } else if a == 3 && b == 5 {
        Some(14)
    } else if a == 3 && b == 6 {
        Some(18)
    } else if a == 3 && b == 7 {
        Some(23)
    } else if a == 3 && b == 8 {
        Some(28)
    } else if a == 3 && b == 9 {
        Some(36)
    } else if a == 4 && b == 4 {
        Some(18)
    } else if a == 4 && b == 5 {
        Some(25)
    } else {
        None
    }
}

/// The known two-colour Ramsey numbers `R(s, t)` for the small `(s, t)` the formulas can be
/// built for; `None` when the value is an open problem.
pub fn ramsey_number(s: usize, t: usize) -> (r: Option<usize>)
    ensures
        r matches Some(v) ==> ramsey_value(s as nat, t as nat) == Some(v as nat),
        r is None <==> ramsey_value(s as nat, t as nat) is None,
{
    let (a, b) = if s <= t { (s, t) } else { (t, s) };
    if a == 1 {
        Some(1)
    } else if a == 2 {
        Some(b)
    } else if a == 3 && b == 3 {
        Some(6)
    } else if a == 3 && b == 4 {
        Some(9)
    } else if a == 3 && b == 5 {
        Some(14)
    } else if a == 3 && b == 6 {
        Some(18)
    } else if a == 3 && b == 7 {
        Some(23)
    } else if a == 3 && b == 8 {
        Some(28)
    } else if a == 3 && b == 9 {
        Some(36)
    } else if a == 4 && b == 4 {
        Some(18)
    } else if a == 4 && b == 5 {
        Some(25)
    } else {
        None
    }
}

/// The position of the pair `{i < j}` among the pairs of `{0, …, n−1}` in lexicographic order.
pub open spec fn pair_index(i: int, j: int, n: int) -> int {
    i * n - i * (i + 1) / 2 + (j - i - 1)
}

/// The edge variables of a clique `c` (an increasing vertex list), over the pairs of its
/// positions in lexicographic order.
pub open spec fn clique_vars(c: Seq<usize>, n: nat) -> Seq<u32> {
    let p = combinations_spec(c.len(), 2);
    Seq::new(p.len(), |k: int| pair_index(c[p[k][0] as int] as int, c[p[k][1] as int] as int, n as int) as u32)
}

/// All literals of the given variables negated.
pub open spec fn neg_lits(vs: Seq<u32>) -> Seq<Lit> {
    Seq::new(vs.len(), |i: int| neg(vs[i]))
}

/// All literals of the given variables positive.
pub open spec fn pos_var_lits(vs: Seq<u32>) -> Seq<Lit> {
    Seq::new(vs.len(), |i: int| pos(vs[i]))
}

/// The clauses of `ramsey(s, t, n)`: for each `s`-clique, not all its edges red; for each
/// `t`-clique, not all its edges blue (true = red).
pub open spec fn ramsey_clauses(s: nat, t: nat, n: nat) -> Seq<Seq<Lit>> {
    let cs = combinations_spec(n, s);
    let ct = combinations_spec(n, t);
    Seq::new(cs.len(), |k: int| neg_lits(clique_vars(cs[k], n)))
        + Seq::new(ct.len(), |k: int| pos_var_lits(clique_vars(ct[k], n)))
}

fn pair_var(i: usize, j: usize, n: usize) -> (v: u32)
    requires
        i < j < n,
        n * n <= usize::MAX,
    ensures
        v == pair_index(i as int, j as int, n as int) as u32,
{
    proof {
        assert(i * (i + 1) <= n * n) by (nonlinear_arith)
            requires i < n;
        assert(i * (i + 1) / 2 <= i * n) by (nonlinear_arith)
            requires i < n;
        assert(i * n <= n * n) by (nonlinear_arith)
            requires i < n;
        assert(i * n + n <= n * n) by (nonlinear_arith)
            requires i < n;
    }
    let tri = i * (i + 1) / 2;
    (i * n - tri + (j - i - 1)) as u32
}

fn clique_clause(c: &Vec<usize>, n: usize, positive: bool) -> (r: Vec<Lit>)
    requires
        forall|a: int| 0 <= a < c@.len() ==> #[trigger] c@[a] < n,
        forall|a: int, b: int| 0 <= a < b < c@.len() ==> #[trigger] c@[a] < #[trigger] c@[b],
        n * n <= usize::MAX,
    ensures
        r@ == (if positive { pos_var_lits(clique_vars(c@, n as nat)) } else { neg_lits(clique_vars(c@, n as nat)) }),
{
    let len = c.len();
    let p = combinations(len, 2);
    let ghost ps = subsets_view(p@);
    let ghost want = if positive { pos_var_lits(clique_vars(c@, n as nat)) } else { neg_lits(clique_vars(c@, n as nat)) };
    let mut r: Vec<Lit> = Vec::new();
    let mut k: usize = 0;
    while k < p.len()
        invariant
            k <= p@.len(),
            len == c@.len(),
            ps == subsets_view(p@),
            ps == combinations_spec(c@.len() as nat, 2),
            forall|a: int| 0 <= a < c@.len() ==> #[trigger] c@[a] < n,
            forall|a: int, b: int| 0 <= a < b < c@.len() ==> #[trigger] c@[a] < #[trigger] c@[b],
            n * n <= usize::MAX,
            want == (if positive { pos_var_lits(clique_vars(c@, n as nat)) } else { neg_lits(clique_vars(c@,
                n as nat)) }),
            want.len() == p@.len(),
            r@ == want.take(k as int),
        decreases p@.len() - k,
    {
        proof {
            lemma_combs_from_shape(0, len as nat, 2, k as int);
            assert(p@[k as int]@ == ps[k as int]);
        }
        let a = p[k][0];
        let b = p[k][1];
        let v = pair_var(c[a], c[b], n);
        let l = Lit::new(v, positive);
        proof {
            assert(want[k as int] == l);
            assert(want.take(k + 1) =~= want.take(k as int).push(l));
        }
        r.push(l);
        k += 1;
    }
    proof {
        assert(want.take(k as int) =~= want);
    }
    r
}

/// The Ramsey formula `Ramsey(s, t; n)`: 2-colour the edges of `K_n` avoiding a red `K_s`
/// and a blue `K_t`; unsatisfiable exactly when `n ≥ R(s, t)`. Only for `(s, t)` whose
/// Ramsey number is known.
pub fn ramsey(s: usize, t: usize, n: usize) -> (res: (DimacsCnf, ExpectedVerdict))
    requires
        s >= 2 && t >= 2 && n >= 2,
        ramsey_value(s as nat, t as nat) is Some,
        n * n <= usize::MAX,
    ensures
        res.0.num_vars == combinations_spec(n as nat, 2).len(),
        res.0.cls() == ramsey_clauses(s as nat, t as nat, n as nat),
        res.1 == (if n >= ramsey_value(s as nat, t as nat)->0 { ExpectedVerdict::Unsat } else {
            ExpectedVerdict::Sat }),
{
    let r = match ramsey_number(s, t) {
        Some(v) => v,
        None => 0,
    };
    let pairs = combinations(n, 2);
    let num_vars = pairs.len();
    let mut clauses: Vec<Vec<Lit>> = Vec::new();
    let cs = combinations(n, s);
    let ghost csv = subsets_view(cs@);
    let ghost red = |k: int| neg_lits(clique_vars(csv[k], n as nat));
    let mut k: usize = 0;
    while k < cs.len()
        invariant
            k <= cs@.len(),
            n * n <= usize::MAX,
            csv == subsets_view(cs@),
            csv == combinations_spec(n as nat, s as nat),
            s >= 2,
            red == (|k: int| neg_lits(clique_vars(csv[k], n as nat))),
            clauses_view(clauses@) == Seq::new(k as nat, red),
        decreases cs@.len() - k,
    {
        proof {
            assert(csv.len() > 0);
            assert(s <= n);
            assert(csv == combs_from(0, n as nat, s as nat));
            lemma_combs_from_shape(0, n as nat, s as nat, k as int);
            assert(cs@[k as int]@ == csv[k as int]);
        }
        let cl = clique_clause(&cs[k], n, false);
        proof {
            lemma_cv_push(clauses@, cl);
            lemma_new_push(k as nat, red);
        }
        clauses.push(cl);
        k += 1;
    }
    let ghost first = clauses_view(clauses@);
    let ct = combinations(n, t);
    let ghost ctv = subsets_view(ct@);
    let ghost blue = |k: int| pos_var_lits(clique_vars(ctv[k], n as nat));
    let mut k: usize = 0;
    while k < ct.len()
        invariant
            k <= ct@.len(),
            n * n <= usize::MAX,
            ctv == subsets_view(ct@),
            ctv == combinations_spec(n as nat, t as nat),
            t >= 2,
            blue == (|k: int| pos_var_lits(clique_vars(ctv[k], n as nat))),
            clauses_view(clauses@) == first + Seq::new(k as nat, blue),
        decreases ct@.len() - k,
    {
        proof {
            assert(ctv.len() > 0);
            assert(t <= n);
            assert(ctv == combs_from(0, n as nat, t as nat));
            lemma_combs_from_shape(0, n as nat, t as nat, k as int);
            assert(ct@[k as int]@ == ctv[k as int]);
        }
        let cl = clique_clause(&ct[k], n, true);
        proof {
            lemma_cv_push(clauses@, cl);
            lemma_new_push(k as nat, blue);
            assert(first + Seq::new(k as nat, blue).push(cl@) =~= (first + Seq::new(k as nat, blue)).push(cl@));
        }
        clauses.push(cl);
        k += 1;
    }
    proof {
        assert(Seq::new(csv.len(), red) =~= Seq::new(csv.len(), |k: int| neg_lits(clique_vars(csv[k], n as nat))));
        assert(Seq::new(ctv.len(), blue) =~= Seq::new(ctv.len(), |k: int| pos_var_lits(clique_vars(ctv[k],
            n as nat))));
        assert(pairs@.len() == subsets_view(pairs@).len());
    }
    let verdict = if n >= r { ExpectedVerdict::Unsat } else { ExpectedVerdict::Sat };
    (DimacsCnf { num_vars, clauses }, verdict)
}


// ---------------------------------------------------------------------------
// The modular counting verdicts
// ---------------------------------------------------------------------------

/// The number of times `v` occurs among the first `q` elements of the block `s`.
pub open spec fn occurrences(s: Seq<usize>, v: int, q: nat) -> int
    decreases q,
{
    if q == 0 {
        0
    } else {
        occurrences(s, v, (q - 1) as nat) + if s[q - 1] == v { 1int } else { 0int }
    }
}

/// Occurrences as a sum of indicators.
proof fn lemma_occurrences_isum(s: Seq<usize>, v: int, q: nat, f: spec_fn(int) -> int)
    requires
        forall|t: int| 0 <= t < q ==> #[trigger] f(t) == (if s[t] == v { 1int } else { 0int }),
    ensures
        occurrences(s, v, q) == isum(f, q),
    decreases q,
{
    if q > 0 {
        lemma_occurrences_isum(s, v, (q - 1) as nat, f);
    }
}

/// Block `e` is chosen by `a` and contains `v`: `1`, else `0` (counted with repetition).
pub open spec fn block_hit(a: spec_fn(u32) -> bool, es: Seq<Seq<usize>>, q: nat, v: int, e: int) -> int {
    (if a(e as u32) { 1int } else { 0int }) * occurrences(es[e], v, q)
}

/// In a listed block, `v` occurs once if it is an element and not at all otherwise.
proof fn lemma_block_occurrences(n: nat, q: nat, e: int, v: int)
    requires
        1 <= q <= n,
        n <= usize::MAX,
        0 <= e < combinations_spec(n, q).len(),
    ensures
        occurrences(combinations_spec(n, q)[e], v, q) == (if exists|t: int| 0 <= t < q
            && #[trigger] combinations_spec(n, q)[e][t] == v { 1int } else { 0int }),
{
    lemma_combs_from_shape(0, n, q, e);
    let s = combinations_spec(n, q)[e];
    let f = |t: int| if s[t] == v { 1int } else { 0int };
    assert forall|i: int, j: int| 0 <= i < j < q implies !(#[trigger] f(i) == 1 && #[trigger] f(j) == 1) by {
        assert(s[i] < s[j]);
    }
    lemma_isum_indicator(f, q);
    lemma_occurrences_isum(s, v, q, f);
    if exists|t: int| 0 <= t < q && #[trigger] s[t] == v {
        let t = choose|t: int| 0 <= t < q && #[trigger] s[t] == v;
        assert(f(t) == 1);
    } else {
        assert forall|t: int| 0 <= t < q implies #[trigger] f(t) != 1 by {
            assert(s[t] != v);
        }
    }
}

/// A listed block holds `q` elements of `{0, …, n−1}`, each once: its occurrences over all
/// elements add up to `q`.
proof fn lemma_block_size(n: nat, q: nat, e: int)
    requires
        1 <= q <= n,
        n <= usize::MAX,
        0 <= e < combinations_spec(n, q).len(),
    ensures
        isum(|v: int| occurrences(combinations_spec(n, q)[e], v, q), n) == q,
{
    lemma_combs_from_shape(0, n, q, e);
    let s = combinations_spec(n, q)[e];
    let f = |v: int, t: int| if s[t] == v { 1int } else { 0int };
    assert forall|v: int| 0 <= v < n implies #[trigger] occurrences(s, v, q) == isum(|t: int| f(v, t), q) by {
        lemma_occurrences_isum(s, v, q, |t: int| f(v, t));
    }
    lemma_isum_ext(|v: int| occurrences(s, v, q), |v: int| isum(|t: int| f(v, t), q), n);
    lemma_isum_swap(f, n, q);
    let cols = |t: int| isum(|v: int| f(v, t), n);
    assert forall|t: int| 0 <= t < q implies #[trigger] cols(t) == 1 by {
        lemma_isum_single(|v: int| f(v, t), s[t] as int, 1, n);
    }
    lemma_isum_ones(cols, q);
}

/// The exclusion clause of two overlapping blocks `e < g` is one of the clauses.
proof fn lemma_exclusion_clause_in(n: nat, q: nat, e: int, g: int)
    requires
        0 <= e < g < combinations_spec(n, q).len(),
        overlap(combinations_spec(n, q)[e], combinations_spec(n, q)[g]),
    ensures
        mod_counting_clauses(n, q).contains(seq![neg(e as u32), neg(g as u32)]),
{
    let es = combinations_spec(n, q);
    let cl = seq![neg(e as u32), neg(g as u32)];
    let row = Seq::new((es.len() - e - 1) as nat, |d: int| exclusion(es, e, e + 1 + d));
    assert(row[g - e - 1] == exclusion(es, e, g));
    lemma_flatten_contains(row, g - e - 1, 0);
    let j = choose|j: int| 0 <= j < row.flatten().len() && row.flatten()[j] == cl;
    let rows = Seq::new(es.len(), |e: int| exclusion_row(es, e));
    assert(rows[e] == row.flatten());
    lemma_flatten_contains(rows, e, j);
    let k = choose|k: int| 0 <= k < rows.flatten().len() && rows.flatten()[k] == cl;
    let first = Seq::new(n, |v: int| pos_lits(hyper_incident(es, v)));
    assert(mod_counting_clauses(n, q)[first.len() + k] == cl);
}

/// An item of `hyper_step(edges, v, e)` is `e`, and block `e` contains `v`.
proof fn lemma_hyper_step_item(edges: Seq<Seq<usize>>, v: int, e: int, j: int)
    requires
        0 <= j < hyper_step(edges, v, e).len(),
    ensures
        hyper_step(edges, v, e)[j] == e as usize,
        exists|t: int| 0 <= t < edges[e].len() && #[trigger] edges[e][t] == v,
{
    let cells = hyper_cells(edges, v, e);
    lemma_flatten_index(cells, j);
    let (t, k) = choose|t: int, k: int| 0 <= t < cells.len() && 0 <= k < cells[t].len() && cells.flatten()[j]
        == #[trigger] cells[t][k];
    assert(edges[e][t] == v);
}

/// In a satisfying assignment every element lies in exactly one chosen block.
proof fn lemma_element_covered_once(n: nat, q: nat, a: spec_fn(u32) -> bool, v: int)
    requires
        1 <= q <= n,
        n <= usize::MAX,
        combinations_spec(n, q).len() <= u32::MAX,
        0 <= v < n,
        cnf_holds(a, mod_counting_clauses(n, q)),
    ensures
        isum(|e: int| block_hit(a, combinations_spec(n, q), q, v, e), combinations_spec(n, q).len()) == 1,
{
    let es = combinations_spec(n, q);
    let m = es.len();
    let f = |e: int| block_hit(a, es, q, v, e);
    assert forall|e: int| 0 <= e < m implies #[trigger] f(e) == (if a(e as u32) && exists|t: int| 0 <= t < q
        && #[trigger] es[e][t] == v { 1int } else { 0int }) by {
        lemma_block_occurrences(n, q, e, v);
    }
    assert forall|e: int, g: int| 0 <= e < g < m implies !(#[trigger] f(e) == 1 && #[trigger] f(g) == 1) by {
        if f(e) == 1 && f(g) == 1 {
            let te = choose|t: int| 0 <= t < q && #[trigger] es[e][t] == v;
            let tg = choose|t: int| 0 <= t < q && #[trigger] es[g][t] == v;
            lemma_combs_from_shape(0, n, q, e);
            lemma_combs_from_shape(0, n, q, g);
            assert(es[e][te] == es[g][tg]);
            assert(overlap(es[e], es[g]));
            lemma_exclusion_clause_in(n, q, e, g);
            let cl = seq![neg(e as u32), neg(g as u32)];
            lemma_contained_clause_holds(a, mod_counting_clauses(n, q), cl);
            let i = choose|i: int| 0 <= i < cl.len() && lit_holds(a, #[trigger] cl[i]);
            assert(i == 0 || i == 1);
        }
    }
    let inc = hyper_incident(es, v);
    let cover = Seq::new(n, |v: int| pos_lits(hyper_incident(es, v)));
    assert(mod_counting_clauses(n, q)[v] == cover[v]);
    lemma_cover_clause(a, inc);
    let i = choose|i: int| 0 <= i < inc.len() && a(#[trigger] inc[i] as u32);
    let steps = Seq::new(m, |e: int| hyper_step(es, v, e));
    lemma_flatten_index(steps, i);
    let (e, j) = choose|e: int, j: int| 0 <= e < steps.len() && 0 <= j < steps[e].len() && steps.flatten()[i]
        == #[trigger] steps[e][j];
    lemma_hyper_step_item(es, v, e, j);
    let t = choose|t: int| 0 <= t < es[e].len() && #[trigger] es[e][t] == v;
    assert(es[e][t] == v);
    lemma_combs_from_shape(0, n, q, e);
    assert(inc[i] == e as usize);
    assert(f(e) == 1);
    lemma_isum_indicator(f, m);
}

/// The verdict of [`mod_counting`] for `q ∤ n` is right: chosen blocks that cover every
/// element exactly once partition `{0, …, n−1}` into blocks of `q` elements, so `q` would
/// divide `n` (as long as the block indices fit in 32 bits).
pub proof fn lemma_mod_counting_unsat(n: nat, q: nat)
    requires
        2 <= q <= n,
        n % q != 0,
        n <= usize::MAX,
        combinations_spec(n, q).len() <= u32::MAX,
    ensures
        !satisfiable(mod_counting_clauses(n, q)),
{
    if satisfiable(mod_counting_clauses(n, q)) {
        let a = choose|a: spec_fn(u32) -> bool| cnf_holds(a, mod_counting_clauses(n, q));
        let es = combinations_spec(n, q);
        let m = es.len();
        let pick = |e: int| if a(e as u32) { 1int } else { 0int };
        let hit = |v: int, e: int| block_hit(a, es, q, v, e);
        let per_element = |v: int| isum(|e: int| hit(v, e), m);
        assert forall|v: int| 0 <= v < n implies #[trigger] per_element(v) == 1 by {
            lemma_element_covered_once(n, q, a, v);
            lemma_isum_ext(|e: int| hit(v, e), |e: int| block_hit(a, es, q, v, e), m);
        }
        lemma_isum_ones(per_element, n);
        lemma_isum_swap(hit, n, m);
        let per_block = |e: int| isum(|v: int| hit(v, e), n);
        assert forall|e: int| 0 <= e < m implies #[trigger] per_block(e) == q * pick(e) by {
            lemma_block_size(n, q, e);
            lemma_isum_scale(|v: int| occurrences(es[e], v, q), pick(e), |v: int| hit(v, e), n);
            assert(pick(e) * q == q * pick(e)) by (nonlinear_arith);
        }
        lemma_isum_scale(pick, q as int, per_block, m);
        let k = isum(pick, m);
        assert(n == k * q) by (nonlinear_arith)
            requires
                n == q * k,
        ;
        vstd::arithmetic::div_mod::lemma_mod_multiples_basic(k, q as int);
    }
}


/// The block of `q` consecutive elements starting at a multiple of `q`.
pub open spec fn aligned_block(s: Seq<usize>, q: nat) -> bool {
    &&& s.len() == q
    &&& (s[0] as int) % (q as int) == 0
    &&& forall|t: int| 0 <= t < q ==> #[trigger] s[t] == s[0] + t
}

/// Choose exactly the aligned blocks `{bq, …, bq + q − 1}`.
pub open spec fn aligned_choice(es: Seq<Seq<usize>>, q: nat) -> spec_fn(u32) -> bool {
    |x: u32| (x as int) < es.len() && aligned_block(es[x as int], q)
}

/// Two overlapping aligned blocks are the same block.
proof fn lemma_aligned_overlap(s: Seq<usize>, r: Seq<usize>, q: nat)
    requires
        q >= 1,
        aligned_block(s, q),
        aligned_block(r, q),
        overlap(s, r),
    ensures
        s == r,
{
    let (i, j) = choose|i: int, j: int| 0 <= i < s.len() && 0 <= j < r.len() && s[i] == r[j];
    let x = s[i] as int;
    assert(s[i] == s[0] + i);
    assert(r[j] == r[0] + j);
    let k1 = (s[0] as int) / (q as int);
    let k2 = (r[0] as int) / (q as int);
    vstd::arithmetic::div_mod::lemma_fundamental_div_mod(s[0] as int, q as int);
    vstd::arithmetic::div_mod::lemma_fundamental_div_mod(r[0] as int, q as int);
    assert(x == q * k1 + i && x == q * k2 + j);
    if k1 < k2 {
        assert(q * k1 + q <= q * k2) by (nonlinear_arith)
            requires k1 < k2, q >= 1;
    } else if k2 < k1 {
        assert(q * k2 + q <= q * k1) by (nonlinear_arith)
            requires k2 < k1, q >= 1;
    }
    assert(s[0] == r[0]);
    assert(s =~= r);
}

/// The verdict of [`mod_counting`] for `q ∣ n` is right: choosing the aligned blocks
/// `{bq, …, bq + q − 1}` covers every element exactly once (as long as the block indices fit
/// in 32 bits).
pub proof fn lemma_mod_counting_sat(n: nat, q: nat)
    requires
        2 <= q <= n,
        n % q == 0,
        n <= usize::MAX,
        combinations_spec(n, q).len() <= u32::MAX,
    ensures
        satisfiable(mod_counting_clauses(n, q)),
{
    let es = combinations_spec(n, q);
    let m = es.len();
    let a = aligned_choice(es, q);
    let cls = mod_counting_clauses(n, q);
    let cover = Seq::new(n, |v: int| pos_lits(hyper_incident(es, v)));
    let rows = Seq::new(m, |e: int| exclusion_row(es, e));
    assert(cls == cover + rows.flatten());
    assert forall|c: int| 0 <= c < cls.len() implies clause_holds(a, #[trigger] cls[c]) by {
        if c < n {
            // The aligned block holding `c` is listed, and it is at `c`.
            let v = c;
            let b = v / (q as int);
            vstd::arithmetic::div_mod::lemma_fundamental_div_mod(v, q as int);
            let blk = Seq::new(q, |t: int| (b * q + t) as usize);
            assert(0 <= b * q) by (nonlinear_arith)
                requires b >= 0, q >= 1;
            assert(b * q + q <= n) by {
                vstd::arithmetic::div_mod::lemma_fundamental_div_mod(n as int, q as int);
                let nb = (n as int) / (q as int);
                assert(n == q * nb);
                assert(b < nb) by (nonlinear_arith)
                    requires v == q * b + v % (q as int), 0 <= v % (q as int), v < n, n == q * nb, q >= 1;
                assert(b * q + q <= nb * q) by (nonlinear_arith)
                    requires b < nb, q >= 1;
            }
            assert(q * b == b * q) by (nonlinear_arith);
            lemma_combs_from_complete(0, n, q, blk);
            let e = choose|e: int| 0 <= e < combs_from(0, n, q).len() && #[trigger] combs_from(0, n, q)[e] == blk;
            assert(es[e] == blk);
            assert(blk[0] == b * q);
            vstd::arithmetic::div_mod::lemma_mod_multiples_basic(b, q as int);
            assert(aligned_block(es[e], q));
            let t = v - b * q;
            assert(es[e][t] == v);
            let cells = hyper_cells(es, v, e);
            assert(cells[t] == seq![e as usize]);
            lemma_flatten_contains(cells, t, 0);
            let j = choose|j: int| 0 <= j < cells.flatten().len() && cells.flatten()[j] == e as usize;
            let steps = Seq::new(m, |e: int| hyper_step(es, v, e));
            assert(steps[e] == cells.flatten());
            lemma_flatten_contains(steps, e, j);
            let i = choose|i: int| 0 <= i < steps.flatten().len() && steps.flatten()[i] == e as usize;
            let lits = pos_lits(hyper_incident(es, v));
            assert(cls[c] == lits);
            assert(lits[i] == pos((e as usize) as u32));
            assert(lit_holds(a, lits[i]));
        } else {
            let k = c - n;
            assert(cls[c] == rows.flatten()[k]);
            lemma_flatten_index(rows, k);
            let (e, j) = choose|e: int, j: int| 0 <= e < rows.len() && 0 <= j < rows[e].len() && rows.flatten()[k]
                == #[trigger] rows[e][j];
            let row = Seq::new((m - e - 1) as nat, |d: int| exclusion(es, e, e + 1 + d));
            assert(rows[e] == row.flatten());
            lemma_flatten_index(row, j);
            let (d, z) = choose|d: int, z: int| 0 <= d < row.len() && 0 <= z < row[d].len() && row.flatten()[j]
                == #[trigger] row[d][z];
            let g = e + 1 + d;
            assert(row[d] == exclusion(es, e, g));
            assert(overlap(es[e], es[g]));
            let cl = seq![neg(e as u32), neg(g as u32)];
            assert(cls[c] == cl);
            if a(e as u32) && a(g as u32) {
                lemma_combs_from_distinct(0, n, q, e, g);
                lemma_aligned_overlap(es[e], es[g], q);
            }
            if !a(e as u32) {
                assert(lit_holds(a, cl[0]));
            } else {
                assert(lit_holds(a, cl[1]));
            }
        }
    }
    assert(cnf_holds(a, cls));
}


// ---------------------------------------------------------------------------
// Ramsey verdicts for small parameters
// ---------------------------------------------------------------------------

/// The colour `a` gives the edge `{i < j}` of `K_n` (true = red).
pub open spec fn edge_colour(a: spec_fn(u32) -> bool, i: int, j: int, n: nat) -> bool {
    a(pair_index(i, j, n as int) as u32)
}

/// The pairs of positions of a two- and a three-element list, in lexicographic order.
proof fn lemma_small_pairs()
    ensures
        combinations_spec(2, 2) == seq![seq![0usize, 1usize]],
        combinations_spec(3, 2) == seq![seq![0usize, 1usize], seq![0usize, 2usize], seq![1usize, 2usize]],
{
    let f0 = |c: Seq<usize>| seq![0usize] + c;
    let f1 = |c: Seq<usize>| seq![1usize] + c;
    let f2 = |c: Seq<usize>| seq![2usize] + c;
    let one: Seq<Seq<usize>> = seq![Seq::<usize>::empty()];
    let none: Seq<Seq<usize>> = Seq::empty();
    assert(combs_from(2, 2, 0) == one);
    assert(combs_from(2, 2, 1) == none);
    assert(combs_from(2, 2, 2) == none);
    assert(combs_from(1, 2, 1) == combs_from(2, 2, 0).map_values(f1) + combs_from(2, 2, 1));
    assert(combs_from(1, 2, 1) =~= seq![seq![1usize]]);
    assert(combs_from(1, 2, 2) == combs_from(2, 2, 1).map_values(f1) + combs_from(2, 2, 2));
    assert(combs_from(1, 2, 2) =~= none);
    assert(combs_from(0, 2, 2) == combs_from(1, 2, 1).map_values(f0) + combs_from(1, 2, 2));
    assert(seq![0usize] + seq![1usize] =~= seq![0usize, 1usize]);
    assert(combs_from(0, 2, 2) =~= seq![seq![0usize, 1usize]]);
    assert(combs_from(3, 3, 0) == one);
    assert(combs_from(3, 3, 1) == none);
    assert(combs_from(3, 3, 2) == none);
    assert(combs_from(2, 3, 0) == one);
    assert(combs_from(2, 3, 1) == combs_from(3, 3, 0).map_values(f2) + combs_from(3, 3, 1));
    assert(combs_from(2, 3, 1) =~= seq![seq![2usize]]);
    assert(combs_from(2, 3, 2) == combs_from(3, 3, 1).map_values(f2) + combs_from(3, 3, 2));
    assert(combs_from(2, 3, 2) =~= none);
    assert(combs_from(1, 3, 1) == combs_from(2, 3, 0).map_values(f1) + combs_from(2, 3, 1));
    assert(combs_from(1, 3, 1) =~= seq![seq![1usize], seq![2usize]]);
    assert(combs_from(1, 3, 2) == combs_from(2, 3, 1).map_values(f1) + combs_from(2, 3, 2));
    assert(seq![1usize] + seq![2usize] =~= seq![1usize, 2usize]);
    assert(combs_from(1, 3, 2) =~= seq![seq![1usize, 2usize]]);
    assert(combs_from(0, 3, 2) == combs_from(1, 3, 1).map_values(f0) + combs_from(1, 3, 2));
    assert(seq![0usize] + seq![1usize] =~= seq![0usize, 1usize]);
    assert(seq![0usize] + seq![2usize] =~= seq![0usize, 2usize]);
    let mapped = combs_from(1, 3, 1).map_values(f0);
    assert(mapped[0] == seq![0usize] + seq![1usize]);
    assert(mapped[1] == seq![0usize] + seq![2usize]);
    assert(combs_from(0, 3, 2) =~= seq![seq![0usize, 1usize], seq![0usize, 2usize], seq![1usize, 2usize]]);
}

/// In a satisfying assignment every `s`-clique has a non-red edge.
pub(crate) proof fn lemma_red_clique(s: nat, t: nat, n: nat, a: spec_fn(u32) -> bool, c: Seq<usize>)
    requires
        2 <= s <= n,
        n <= usize::MAX,
        c.len() == s,
        forall|x: int| 0 <= x < s ==> #[trigger] c[x] < n,
        forall|x: int, y: int| 0 <= x < y < s ==> #[trigger] c[x] < #[trigger] c[y],
        cnf_holds(a, ramsey_clauses(s, t, n)),
    ensures
        exists|k: int| 0 <= k < clique_vars(c, n).len() && !a(#[trigger] clique_vars(c, n)[k]),
{
    lemma_combs_from_complete(0, n, s, c);
    let cs = combinations_spec(n, s);
    let k = choose|k: int| 0 <= k < combs_from(0, n, s).len() && #[trigger] combs_from(0, n, s)[k] == c;
    let cl = neg_lits(clique_vars(c, n));
    assert(ramsey_clauses(s, t, n)[k] == cl);
    let i = choose|i: int| 0 <= i < cl.len() && lit_holds(a, #[trigger] cl[i]);
    assert(!a(clique_vars(c, n)[i]));
}

/// In a satisfying assignment every `t`-clique has a red edge.
pub(crate) proof fn lemma_blue_clique(s: nat, t: nat, n: nat, a: spec_fn(u32) -> bool, c: Seq<usize>)
    requires
        2 <= t <= n,
        n <= usize::MAX,
        c.len() == t,
        forall|x: int| 0 <= x < t ==> #[trigger] c[x] < n,
        forall|x: int, y: int| 0 <= x < y < t ==> #[trigger] c[x] < #[trigger] c[y],
        cnf_holds(a, ramsey_clauses(s, t, n)),
    ensures
        exists|k: int| 0 <= k < clique_vars(c, n).len() && a(#[trigger] clique_vars(c, n)[k]),
{
    lemma_combs_from_complete(0, n, t, c);
    let k = choose|k: int| 0 <= k < combs_from(0, n, t).len() && #[trigger] combs_from(0, n, t)[k] == c;
    let cl = pos_var_lits(clique_vars(c, n));
    let cs = combinations_spec(n, s);
    assert(ramsey_clauses(s, t, n)[cs.len() + k] == cl);
    let i = choose|i: int| 0 <= i < cl.len() && lit_holds(a, #[trigger] cl[i]);
    assert(a(clique_vars(c, n)[i]));
}

/// An edge variable of a clique joins two of its vertices, in order.
pub(crate) proof fn lemma_clique_var(c: Seq<usize>, n: nat, k: int)
    requires
        c.len() >= 2,
        c.len() <= usize::MAX,
        0 <= k < clique_vars(c, n).len(),
    ensures
        exists|x: int, y: int| 0 <= x < y < c.len() && #[trigger] clique_vars(c, n)[k] == pair_index(
            c[x] as int, c[y] as int, n as int) as u32,
{
    let p = combinations_spec(c.len(), 2);
    lemma_combs_from_shape(0, c.len(), 2, k);
    assert(clique_vars(c, n)[k] == pair_index(c[p[k][0] as int] as int, c[p[k][1] as int] as int, n as int) as u32);
}

/// The Ramsey verdict when one side is `2`: with `s = 2` every edge must be blue, so a blue
/// `K_t` is avoided exactly when `n < t` (and symmetrically for `t = 2`).
pub proof fn lemma_ramsey_two(s: nat, t: nat, n: nat)
    requires
        s == 2 || t == 2,
        s >= 2,
        t >= 2,
        n >= 2,
        n <= usize::MAX,
    ensures
        ramsey_value(s, t) is Some,
        satisfiable(ramsey_clauses(s, t, n)) == (n < ramsey_value(s, t)->0),
{
    lemma_small_pairs();
    let r = if s == 2 { t } else { s };
    assert(ramsey_value(s, t) == Some(r));
    if n >= r {
        if satisfiable(ramsey_clauses(s, t, n)) {
            let a = choose|a: spec_fn(u32) -> bool| cnf_holds(a, ramsey_clauses(s, t, n));
            let c = Seq::new(r, |i: int| i as usize);
            if s == 2 {
                // Every edge is blue.
                assert forall|i: int, j: int| 0 <= i < j < n implies !#[trigger] edge_colour(a, i, j, n) by {
                    let e = seq![i as usize, j as usize];
                    lemma_red_clique(s, t, n, a, e);
                    assert(clique_vars(e, n) =~= seq![pair_index(i, j, n as int) as u32]);
                }
                lemma_blue_clique(s, t, n, a, c);
                let k = choose|k: int| 0 <= k < clique_vars(c, n).len() && a(#[trigger] clique_vars(c, n)[k]);
                lemma_clique_var(c, n, k);
                let (x, y) = choose|x: int, y: int| 0 <= x < y < c.len() && #[trigger] clique_vars(c, n)[k]
                    == pair_index(c[x] as int, c[y] as int, n as int) as u32;
                assert(edge_colour(a, x, y, n));
            } else {
                // Every edge is red.
                assert forall|i: int, j: int| 0 <= i < j < n implies #[trigger] edge_colour(a, i, j, n) by {
                    let e = seq![i as usize, j as usize];
                    lemma_blue_clique(s, t, n, a, e);
                    assert(clique_vars(e, n) =~= seq![pair_index(i, j, n as int) as u32]);
                }
                lemma_red_clique(s, t, n, a, c);
                let k = choose|k: int| 0 <= k < clique_vars(c, n).len() && !a(#[trigger] clique_vars(c, n)[k]);
                lemma_clique_var(c, n, k);
                let (x, y) = choose|x: int, y: int| 0 <= x < y < c.len() && #[trigger] clique_vars(c, n)[k]
                    == pair_index(c[x] as int, c[y] as int, n as int) as u32;
                assert(edge_colour(a, x, y, n));
            }
        }
    } else {
        // All blue (s = 2) or all red (t = 2) avoids every clause.
        let a = |v: u32| s != 2;
        let cls = ramsey_clauses(s, t, n);
        let cs = combinations_spec(n, s);
        let ct = combinations_spec(n, t);
        assert forall|c: int| 0 <= c < cls.len() implies clause_holds(a, #[trigger] cls[c]) by {
            if s == 2 {
                assert(ct.len() == 0);
                assert(cls[c] == neg_lits(clique_vars(cs[c], n)));
                lemma_combs_from_shape(0, n, 2, c);
                assert(cs[c].len() == 2);
                assert(lit_holds(a, cls[c][0]));
            } else {
                assert(cs.len() == 0);
                assert(cls[c] == pos_var_lits(clique_vars(ct[c], n)));
                lemma_combs_from_shape(0, n, 2, c);
                assert(ct[c].len() == 2);
                assert(lit_holds(a, cls[c][0]));
            }
        }
        assert(cnf_holds(a, cls));
    }
}

/// In a satisfying assignment no triangle `i < j < k` is monochromatic.
proof fn lemma_triangle(n: nat, a: spec_fn(u32) -> bool, i: int, j: int, k: int)
    requires
        3 <= n <= usize::MAX,
        0 <= i < j < k < n,
        cnf_holds(a, ramsey_clauses(3, 3, n)),
    ensures
        !(edge_colour(a, i, j, n) && edge_colour(a, i, k, n) && edge_colour(a, j, k, n)),
        edge_colour(a, i, j, n) || edge_colour(a, i, k, n) || edge_colour(a, j, k, n),
{
    lemma_small_pairs();
    let c = seq![i as usize, j as usize, k as usize];
    assert(clique_vars(c, n) =~= seq![pair_index(i, j, n as int) as u32, pair_index(i, k, n as int) as u32,
        pair_index(j, k, n as int) as u32]);
    lemma_red_clique(3, 3, n, a, c);
    lemma_blue_clique(3, 3, n, a, c);
}

/// In a satisfying assignment no three edges from `0` share a colour: they would close a
/// monochromatic triangle.
proof fn lemma_three_from_zero(n: nat, a: spec_fn(u32) -> bool, i: int, j: int, k: int)
    requires
        3 <= n <= usize::MAX,
        0 < i < j < k < n,
        cnf_holds(a, ramsey_clauses(3, 3, n)),
    ensures
        !(edge_colour(a, 0, i, n) == edge_colour(a, 0, j, n) && edge_colour(a, 0, j, n) == edge_colour(a, 0, k, n)),
{
    lemma_triangle(n, a, 0, i, j);
    lemma_triangle(n, a, 0, i, k);
    lemma_triangle(n, a, 0, j, k);
    lemma_triangle(n, a, i, j, k);
}

/// `R(3, 3) = 6`, the unsatisfiable side: every red/blue colouring of `K_n` for `n >= 6` has
/// a monochromatic triangle — of the five edges from vertex `0` to `1..5` three share a
/// colour, and their far ends either close a triangle with `0` or form one themselves.
pub proof fn lemma_ramsey_three_three_unsat(n: nat)
    requires
        6 <= n <= usize::MAX,
    ensures
        !satisfiable(ramsey_clauses(3, 3, n)),
{
    if satisfiable(ramsey_clauses(3, 3, n)) {
        let a = choose|a: spec_fn(u32) -> bool| cnf_holds(a, ramsey_clauses(3, 3, n));
        let b1 = edge_colour(a, 0, 1, n);
        let b2 = edge_colour(a, 0, 2, n);
        let b3 = edge_colour(a, 0, 3, n);
        let b4 = edge_colour(a, 0, 4, n);
        let b5 = edge_colour(a, 0, 5, n);
        if b1 == b2 && b2 == b3 {
            lemma_three_from_zero(n, a, 1, 2, 3);
        } else if b1 == b2 && b2 == b4 {
            lemma_three_from_zero(n, a, 1, 2, 4);
        } else if b1 == b2 && b2 == b5 {
            lemma_three_from_zero(n, a, 1, 2, 5);
        } else if b1 == b3 && b3 == b4 {
            lemma_three_from_zero(n, a, 1, 3, 4);
        } else if b1 == b3 && b3 == b5 {
            lemma_three_from_zero(n, a, 1, 3, 5);
        } else if b1 == b4 && b4 == b5 {
            lemma_three_from_zero(n, a, 1, 4, 5);
        } else if b2 == b3 && b3 == b4 {
            lemma_three_from_zero(n, a, 2, 3, 4);
        } else if b2 == b3 && b3 == b5 {
            lemma_three_from_zero(n, a, 2, 3, 5);
        } else if b2 == b4 && b4 == b5 {
            lemma_three_from_zero(n, a, 2, 4, 5);
        } else {
            lemma_three_from_zero(n, a, 3, 4, 5);
        }
    }
}


/// The pairs before those with first vertex `i`: `i*n − i(i+1)/2`.
pub open spec fn pair_base(i: int, n: int) -> int {
    i * n - i * (i + 1) / 2
}

/// The pairs with first vertex `i` follow those with first vertex `i − 1`.
proof fn lemma_pair_base_step(i: int, n: int)
    requires
        0 <= i,
    ensures
        pair_base(i + 1, n) == pair_base(i, n) + n - i - 1,
{
    assert((i + 1) * (i + 2) == i * (i + 1) + (i + 1) * 2) by (nonlinear_arith);
    vstd::arithmetic::div_mod::lemma_hoist_over_denominator(i * (i + 1), i + 1, 2);
    assert((i + 1) * n == i * n + n) by (nonlinear_arith);
}

/// The base grows with the first vertex, below `n`.
proof fn lemma_pair_base_mono(i: int, i2: int, n: int)
    requires
        0 <= i <= i2 <= n,
    ensures
        pair_base(i, n) <= pair_base(i2, n),
    decreases i2 - i,
{
    if i < i2 {
        lemma_pair_base_mono(i, i2 - 1, n);
        lemma_pair_base_step(i2 - 1, n);
    }
}

/// Distinct pairs `i < j` of `{0, …, n−1}` get distinct indices, below `n(n−1)/2 <= n²`.
pub(crate) proof fn lemma_pair_index_injective(i: int, j: int, i2: int, j2: int, n: int)
    requires
        0 <= i < j < n,
        0 <= i2 < j2 < n,
        pair_index(i, j, n) == pair_index(i2, j2, n),
    ensures
        i == i2 && j == j2,
{
    if i < i2 {
        lemma_pair_base_step(i, n);
        lemma_pair_base_mono(i + 1, i2, n);
    } else if i2 < i {
        lemma_pair_base_step(i2, n);
        lemma_pair_base_mono(i2 + 1, i, n);
    }
}

/// The index of a pair lies in `0 .. n²`.
pub(crate) proof fn lemma_pair_index_bound(i: int, j: int, n: int)
    requires
        0 <= i < j < n,
    ensures
        0 <= pair_index(i, j, n) < n * n,
{
    lemma_pair_base_mono(0, i, n);
    lemma_pair_base_step(i, n);
    lemma_pair_base_mono(i + 1, n, n);
    assert(pair_base(0, n) == 0);
    assert(pair_base(n, n) <= n * n) by {
        assert(n * (n + 1) >= 0) by (nonlinear_arith)
            requires n >= 0;
        assert(n * (n + 1) / 2 >= 0);
    }
}

/// Colour `K_n` by the gap between the endpoints: `{i < j}` is red when `gap_red(j − i)`.
pub open spec fn difference_colouring(n: nat, gap_red: spec_fn(int) -> bool) -> spec_fn(u32) -> bool {
    |v: u32| exists|x: int, y: int| 0 <= x < y < n && #[trigger] pair_index(x, y, n as int) == v && gap_red(y - x)
}

/// A colouring by gaps gives each edge the colour of its gap.
pub(crate) proof fn lemma_difference_colour(n: nat, gap_red: spec_fn(int) -> bool, i: int, j: int)
    requires
        n * n <= u32::MAX,
        0 <= i < j < n,
    ensures
        edge_colour(difference_colouring(n, gap_red), i, j, n) == gap_red(j - i),
{
    lemma_pair_index_bound(i, j, n as int);
    let v = pair_index(i, j, n as int) as u32;
    assert(v as int == pair_index(i, j, n as int));
    if gap_red(j - i) {
        assert(pair_index(i, j, n as int) == v);
    } else if difference_colouring(n, gap_red)(v) {
        let (x, y) = choose|x: int, y: int| 0 <= x < y < n && #[trigger] pair_index(x, y, n as int) == v
            && gap_red(y - x);
        lemma_pair_index_injective(x, y, i, j, n as int);
    }
}

/// Every pair of positions `x < y` of a clique has its edge variable in the clique's list.
pub(crate) proof fn lemma_clique_literal(c: Seq<usize>, n: nat, x: int, y: int)
    requires
        c.len() <= usize::MAX,
        0 <= x < y < c.len(),
    ensures
        exists|k: int| 0 <= k < clique_vars(c, n).len() && #[trigger] clique_vars(c, n)[k] == pair_index(c[x] as int,
            c[y] as int, n as int) as u32,
{
    let pr = seq![x as usize, y as usize];
    lemma_combs_from_complete(0, c.len(), 2, pr);
    let k = choose|k: int| 0 <= k < combs_from(0, c.len(), 2).len() && #[trigger] combs_from(0, c.len(), 2)[k] == pr;
    let p = combinations_spec(c.len(), 2);
    assert(p[k] == pr);
    assert(clique_vars(c, n)[k] == pair_index(c[x] as int, c[y] as int, n as int) as u32);
}

/// The pentagon gaps: one or four.
pub open spec fn pentagon_gap(d: int) -> bool {
    d == 1 || d == 4
}

/// `R(3, 3) = 6`, the satisfiable side: for `n <= 5` the pentagon colouring of `K_n` (red
/// between vertices one or four apart) has no monochromatic triangle.
pub proof fn lemma_ramsey_three_three_sat(n: nat)
    requires
        2 <= n <= 5,
    ensures
        satisfiable(ramsey_clauses(3, 3, n)),
{
    let gap = |d: int| pentagon_gap(d);
    let a = difference_colouring(n, gap);
    let cls = ramsey_clauses(3, 3, n);
    let cs = combinations_spec(n, 3);
    assert(n * n <= 25) by (nonlinear_arith)
        requires
            n <= 5,
    ;
    assert forall|c: int| 0 <= c < cls.len() implies clause_holds(a, #[trigger] cls[c]) by {
        let red = c < cs.len();
        let k = if red { c } else { c - cs.len() };
        lemma_combs_from_shape(0, n, 3, k);
        let t = cs[k];
        let (i, j, l) = (t[0] as int, t[1] as int, t[2] as int);
        assert(t[0] < t[1] && t[1] < t[2]);
        lemma_difference_colour(n, gap, i, j);
        lemma_difference_colour(n, gap, i, l);
        lemma_difference_colour(n, gap, j, l);
        let (x, y) = if red {
            if !gap(j - i) { (0int, 1int) } else if !gap(l - i) { (0, 2) } else { (1, 2) }
        } else {
            if gap(j - i) { (0int, 1int) } else if gap(l - i) { (0, 2) } else { (1, 2) }
        };
        lemma_clique_literal(t, n, x, y);
        let p = choose|p: int| 0 <= p < clique_vars(t, n).len() && #[trigger] clique_vars(t, n)[p] == pair_index(
            t[x] as int, t[y] as int, n as int) as u32;
        if red {
            assert(cls[c] == neg_lits(clique_vars(t, n)));
        } else {
            assert(cls[c] == pos_var_lits(clique_vars(t, n)));
        }
        assert(lit_holds(a, cls[c][p]));
    }
    assert(cnf_holds(a, cls));
}

} // verus!
