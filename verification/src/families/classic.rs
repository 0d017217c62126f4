//! Graph colouring, the ordering principle and pebbling on the pyramid.

use vstd::prelude::*;
use crate::cnf::{Lit, DimacsCnf, pos, neg, clauses_view, lit_holds, clause_holds, cnf_holds, satisfiable,
    lemma_flatten_contains, lemma_flatten_index, lemma_contained_clause_holds, lemma_injection_bound};
use crate::families::{ExpectedVerdict, strided_lits, lemma_cv_push, lemma_new_push, lemma_flatten_new_push};
use crate::families::pigeon::{ph_var, ph_row};

verus! {

// ---------------------------------------------------------------------------
// Colouring the complete graph
// ---------------------------------------------------------------------------

/// The clauses keeping vertices `u` and `w` apart in every colour `c < k`.
pub open spec fn cc_pair(u: int, w: int, k: nat) -> Seq<Seq<Lit>> {
    Seq::new(k, |c: int| seq![neg(ph_var(u, c, k as int)), neg(ph_var(w, c, k as int))])
}

/// The clauses keeping `u` apart from every later vertex `w < n`.
pub open spec fn cc_vertex(u: int, n: nat, k: nat) -> Seq<Seq<Lit>> {
    Seq::new((n - u - 1) as nat, |d: int| cc_pair(u, u + 1 + d, k)).flatten()
}

/// The clauses of `clique_coloring(n, k)`: every vertex takes a colour, adjacent vertices
/// (all pairs) differ. Vertex `v` with colour `c` is variable `v*k + c`.
pub open spec fn clique_coloring_clauses(n: nat, k: nat) -> Seq<Seq<Lit>> {
    Seq::new(n, |v: int| ph_row(v, k)) + Seq::new(n, |u: int| cc_vertex(u, n, k)).flatten()
}

proof fn lemma_index_below(a: nat, b: nat, x: nat, y: nat)
    requires
        a < x,
        b < y,
    ensures
        a * y + b < x * y,
{
    assert((a + 1) * y <= x * y) by (nonlinear_arith)
        requires a + 1 <= x;
    assert((a + 1) * y == a * y + y) by (nonlinear_arith);
}

fn push_cc_pair(out: &mut Vec<Vec<Lit>>, u: usize, w: usize, n: usize, k: usize)
    requires
        u < n,
        w < n,
        n * k <= usize::MAX,
    ensures
        clauses_view(final(out)@) == clauses_view(old(out)@) + cc_pair(u as int, w as int, k as nat),
{
    let ghost base = clauses_view(out@);
    let mut c: usize = 0;
    while c < k
        invariant
            c <= k,
            u < n,
            w < n,
            n * k <= usize::MAX,
            clauses_view(out@) == base + cc_pair(u as int, w as int, k as nat).take(c as int),
        decreases k - c,
    {
        proof {
            lemma_index_below(u as nat, c as nat, n as nat, k as nat);
            lemma_index_below(w as nat, c as nat, n as nat, k as nat);
        }
        let cl = vec![Lit::neg((u * k + c) as u32), Lit::neg((w * k + c) as u32)];
        proof {
            lemma_cv_push(out@, cl);
            assert(cl@ =~= cc_pair(u as int, w as int, k as nat)[c as int]);
            assert(cc_pair(u as int, w as int, k as nat).take(c + 1) =~= cc_pair(u as int, w as int,
                k as nat).take(c as int).push(cl@));
        }
        out.push(cl);
        c += 1;
    }
    proof {
        assert(cc_pair(u as int, w as int, k as nat).take(k as int) =~= cc_pair(u as int, w as int, k as nat));
    }
}

/// Graph `k`-colouring of the complete graph `K_n`: unsatisfiable exactly when `k < n`.
/// Vertex `v` taking colour `c` is variable `v*k + c`.
pub fn clique_coloring(n: usize, k: usize) -> (res: (DimacsCnf, ExpectedVerdict))
    requires
        n * k <= usize::MAX,
    ensures
        res.0.num_vars == n * k,
        res.0.cls() == clique_coloring_clauses(n as nat, k as nat),
        res.1 == (if k < n { ExpectedVerdict::Unsat } else { ExpectedVerdict::Sat }),
{
    let num_vars = n * k;
    let mut clauses: Vec<Vec<Lit>> = Vec::new();
    let ghost rows = |v: int| ph_row(v, k as nat);
    let mut v: usize = 0;
    while v < n
        invariant
            v <= n,
            n * k <= usize::MAX,
            rows == (|v: int| ph_row(v, k as nat)),
            clauses_view(clauses@) == Seq::new(v as nat, rows),
        decreases n - v,
    {
        proof {
            if k > 0 {
                lemma_index_below(v as nat, (k - 1) as nat, n as nat, k as nat);
            }
            assert(v * k <= n * k) by (nonlinear_arith)
                requires v <= n;
        }
        let row = strided_lits(v * k, 1, k);
        proof {
            assert(row@ =~= ph_row(v as int, k as nat));
            lemma_cv_push(clauses@, row);
            lemma_new_push(v as nat, rows);
        }
        clauses.push(row);
        v += 1;
    }
    let ghost first = clauses_view(clauses@);
    let ghost verts = |u: int| cc_vertex(u, n as nat, k as nat);
    let mut u: usize = 0;
    while u < n
        invariant
            u <= n,
            n * k <= usize::MAX,
            verts == (|u: int| cc_vertex(u, n as nat, k as nat)),
            clauses_view(clauses@) == first + Seq::new(u as nat, verts).flatten(),
        decreases n - u,
    {
        let ghost before = clauses_view(clauses@);
        let ghost pairs = |d: int| cc_pair(u as int, u + 1 + d, k as nat);
        let mut w: usize = u + 1;
        while w < n
            invariant
                u < n,
                u + 1 <= w <= n,
                n * k <= usize::MAX,
                pairs == (|d: int| cc_pair(u as int, u + 1 + d, k as nat)),
                clauses_view(clauses@) == before + Seq::new((w - u - 1) as nat, pairs).flatten(),
            decreases n - w,
        {
            push_cc_pair(&mut clauses, u, w, n, k);
            proof {
                lemma_flatten_new_push((w - u - 1) as nat, pairs);
            }
            w += 1;
        }
        proof {
            assert(Seq::new((n - u - 1) as nat, pairs) =~= Seq::new((n - u - 1) as nat,
                |d: int| cc_pair(u as int, u + 1 + d, k as nat)));
            lemma_flatten_new_push(u as nat, verts);
        }
        u += 1;
    }
    proof {
        assert(Seq::new(n as nat, rows) =~= Seq::new(n as nat, |v: int| ph_row(v, k as nat)));
        assert(Seq::new(n as nat, verts) =~= Seq::new(n as nat, |u: int| cc_vertex(u, n as nat, k as nat)));
    }
    let verdict = if k < n { ExpectedVerdict::Unsat } else { ExpectedVerdict::Sat };
    (DimacsCnf { num_vars, clauses }, verdict)
}

// ---------------------------------------------------------------------------
// The linear ordering principle
// ---------------------------------------------------------------------------

/// Totality and antisymmetry of the pair `i < j`.
pub open spec fn op_pair(i: int, j: int, n: nat) -> Seq<Seq<Lit>> {
    seq![
        seq![pos(ph_var(i, j, n as int)), pos(ph_var(j, i, n as int))],
        seq![neg(ph_var(i, j, n as int)), neg(ph_var(j, i, n as int))],
    ]
}

/// The pair clauses of `i` with every later element.
pub open spec fn op_row(i: int, n: nat) -> Seq<Seq<Lit>> {
    Seq::new((n - i - 1) as nat, |d: int| op_pair(i, i + 1 + d, n)).flatten()
}

/// Transitivity `i<j ∧ j<k → i<k` for distinct `i, j, k` (nothing otherwise).
pub open spec fn op_trans(i: int, j: int, k: int, n: nat) -> Seq<Seq<Lit>> {
    if i != j && j != k && i != k {
        seq![seq![neg(ph_var(i, j, n as int)), neg(ph_var(j, k, n as int)), pos(ph_var(i, k, n as int))]]
    } else {
        Seq::empty()
    }
}

/// The transitivity clauses with first two elements `i, j`, in order of `k`.
pub open spec fn op_trans_ij(i: int, j: int, n: nat) -> Seq<Seq<Lit>> {
    Seq::new(n, |k: int| op_trans(i, j, k, n)).flatten()
}

/// The transitivity clauses with first element `i`, in order of `j` then `k`.
pub open spec fn op_trans_i(i: int, n: nat) -> Seq<Seq<Lit>> {
    Seq::new(n, |j: int| op_trans_ij(i, j, n)).flatten()
}

/// "`i` has a greater element": `i < j` for some `j ≠ i`, listed in order of `j`.
pub open spec fn op_greater(i: int, n: nat) -> Seq<Lit> {
    Seq::new((n - 1) as nat, |t: int| pos(ph_var(i, if t < i { t } else { t + 1 }, n as int)))
}

/// The clauses of `ordering_principle(n)`; `i < j` is variable `i*n + j`.
pub open spec fn ordering_clauses(n: nat) -> Seq<Seq<Lit>> {
    Seq::new(n, |i: int| op_row(i, n)).flatten()
        + Seq::new(n, |i: int| op_trans_i(i, n)).flatten()
        + Seq::new(n, |i: int| op_greater(i, n))
}

fn push_op_trans_ij(out: &mut Vec<Vec<Lit>>, i: usize, j: usize, n: usize)
    requires
        i < n,
        j < n,
        n * n <= usize::MAX,
    ensures
        clauses_view(final(out)@) == clauses_view(old(out)@) + op_trans_ij(i as int, j as int, n as nat),
{
    let ghost base = clauses_view(out@);
    let ghost f = |k: int| op_trans(i as int, j as int, k, n as nat);
    let mut k: usize = 0;
    while k < n
        invariant
            k <= n,
            i < n,
            j < n,
            n * n <= usize::MAX,
            f == (|k: int| op_trans(i as int, j as int, k, n as nat)),
            clauses_view(out@) == base + Seq::new(k as nat, f).flatten(),
        decreases n - k,
    {
        proof {
            lemma_flatten_new_push(k as nat, f);
        }
        if i != j && j != k && i != k {
            proof {
                lemma_index_below(i as nat, j as nat, n as nat, n as nat);
                lemma_index_below(j as nat, k as nat, n as nat, n as nat);
                lemma_index_below(i as nat, k as nat, n as nat, n as nat);
            }
            let cl = vec![Lit::neg((i * n + j) as u32), Lit::neg((j * n + k) as u32), Lit::pos((i * n + k) as u32)];
            proof {
                lemma_cv_push(out@, cl);
                assert(seq![cl@] =~= f(k as int));
                assert(base + Seq::new(k as nat, f).flatten() + f(k as int) =~= (base + Seq::new(k as nat,
                    f).flatten()).push(cl@));
            }
            out.push(cl);
        } else {
            proof {
                assert(base + Seq::new(k as nat, f).flatten() + f(k as int) =~= base + Seq::new(k as nat,
                    f).flatten());
            }
        }
        k += 1;
    }
    proof {
        assert(Seq::new(n as nat, f) =~= Seq::new(n as nat, |k: int| op_trans(i as int, j as int, k, n as nat)));
    }
}

fn greater_clause(i: usize, n: usize) -> (r: Vec<Lit>)
    requires
        i < n,
        n * n <= usize::MAX,
    ensures
        r@ == op_greater(i as int, n as nat),
{
    let mut r: Vec<Lit> = Vec::new();
    let mut j: usize = 0;
    while j < n
        invariant
            j <= n,
            i < n,
            n * n <= usize::MAX,
            r@ == op_greater(i as int, n as nat).take(if j <= i { j as int } else { j - 1 }),
        decreases n - j,
    {
        if j != i {
            proof {
                lemma_index_below(i as nat, j as nat, n as nat, n as nat);
            }
            let l = Lit::pos((i * n + j) as u32);
            proof {
                let t: int = if j <= i { j as int } else { j - 1 };
                assert(op_greater(i as int, n as nat)[t] == l);
                assert(op_greater(i as int, n as nat).take(t + 1) =~= op_greater(i as int, n as nat).take(t).push(l));
            }
            r.push(l);
        }
        j += 1;
    }
    proof {
        assert(op_greater(i as int, n as nat).take(n - 1) =~= op_greater(i as int, n as nat));
    }
    r
}

/// The linear ordering principle GT(n): a finite strict total order in which every element
/// has a greater one. Unsatisfiable; `i < j` is variable `i*n + j`.
pub fn ordering_principle(n: usize) -> (res: (DimacsCnf, ExpectedVerdict))
    requires
        n >= 2,
        n * n <= usize::MAX,
    ensures
        res.0.num_vars == n * n,
        res.0.cls() == ordering_clauses(n as nat),
        res.1 == ExpectedVerdict::Unsat,
{
    let num_vars = n * n;
    let mut clauses: Vec<Vec<Lit>> = Vec::new();
    let ghost rows = |i: int| op_row(i, n as nat);
    let mut i: usize = 0;
    while i < n
        invariant
            i <= n,
            n * n <= usize::MAX,
            rows == (|i: int| op_row(i, n as nat)),
            clauses_view(clauses@) == Seq::new(i as nat, rows).flatten(),
        decreases n - i,
    {
        let ghost before = clauses_view(clauses@);
        let ghost pairs = |d: int| op_pair(i as int, i + 1 + d, n as nat);
        let mut j: usize = i + 1;
        while j < n
            invariant
                i < n,
                i + 1 <= j <= n,
                n * n <= usize::MAX,
                pairs == (|d: int| op_pair(i as int, i + 1 + d, n as nat)),
                clauses_view(clauses@) == before + Seq::new((j - i - 1) as nat, pairs).flatten(),
            decreases n - j,
        {
            proof {
                lemma_index_below(i as nat, j as nat, n as nat, n as nat);
                lemma_index_below(j as nat, i as nat, n as nat, n as nat);
            }
            let a = vec![Lit::pos((i * n + j) as u32), Lit::pos((j * n + i) as u32)];
            let b = vec![Lit::neg((i * n + j) as u32), Lit::neg((j * n + i) as u32)];
            proof {
                lemma_cv_push(clauses@, a);
                lemma_cv_push(clauses@.push(a), b);
                lemma_flatten_new_push((j - i - 1) as nat, pairs);
                assert(pairs((j - i - 1) as int) =~= seq![a@, b@]);
                assert(before + Seq::new((j - i - 1) as nat, pairs).flatten() + seq![a@, b@] =~= (before + Seq::new(
                    (j - i - 1) as nat, pairs).flatten()).push(a@).push(b@));
            }
            clauses.push(a);
            clauses.push(b);
            j += 1;
        }
        proof {
            assert(Seq::new((n - i - 1) as nat, pairs) =~= Seq::new((n - i - 1) as nat,
                |d: int| op_pair(i as int, i + 1 + d, n as nat)));
            lemma_flatten_new_push(i as nat, rows);
        }
        i += 1;
    }
    let ghost first = clauses_view(clauses@);
    let ghost trans = |i: int| op_trans_i(i, n as nat);
    let mut i: usize = 0;
    while i < n
        invariant
            i <= n,
            n * n <= usize::MAX,
            trans == (|i: int| op_trans_i(i, n as nat)),
            clauses_view(clauses@) == first + Seq::new(i as nat, trans).flatten(),
        decreases n - i,
    {
        let ghost before = clauses_view(clauses@);
        let ghost tj = |j: int| op_trans_ij(i as int, j, n as nat);
        let mut j: usize = 0;
        while j < n
            invariant
                i < n,
                j <= n,
                n * n <= usize::MAX,
                tj == (|j: int| op_trans_ij(i as int, j, n as nat)),
                clauses_view(clauses@) == before + Seq::new(j as nat, tj).flatten(),
            decreases n - j,
        {
            push_op_trans_ij(&mut clauses, i, j, n);
            proof {
                lemma_flatten_new_push(j as nat, tj);
            }
            j += 1;
        }
        proof {
            assert(Seq::new(n as nat, tj) =~= Seq::new(n as nat, |j: int| op_trans_ij(i as int, j, n as nat)));
            lemma_flatten_new_push(i as nat, trans);
        }
        i += 1;
    }
    let ghost second = clauses_view(clauses@);
    let ghost gts = |i: int| op_greater(i, n as nat);
    let mut i: usize = 0;
    while i < n
        invariant
            i <= n,
            n * n <= usize::MAX,
            gts == (|i: int| op_greater(i, n as nat)),
            clauses_view(clauses@) == second + Seq::new(i as nat, gts),
        decreases n - i,
    {
        let g = greater_clause(i, n);
        proof {
            lemma_cv_push(clauses@, g);
            lemma_new_push(i as nat, gts);
            assert(second + Seq::new(i as nat, gts).push(g@) =~= (second + Seq::new(i as nat, gts)).push(g@));
        }
        clauses.push(g);
        i += 1;
    }
    proof {
        assert(Seq::new(n as nat, rows) =~= Seq::new(n as nat, |i: int| op_row(i, n as nat)));
        assert(Seq::new(n as nat, trans) =~= Seq::new(n as nat, |i: int| op_trans_i(i, n as nat)));
        assert(Seq::new(n as nat, gts) =~= Seq::new(n as nat, |i: int| op_greater(i, n as nat)));
    }
    (DimacsCnf { num_vars, clauses }, ExpectedVerdict::Unsat)
}

// ---------------------------------------------------------------------------
// Pebbling the pyramid
// ---------------------------------------------------------------------------

/// Node `(r, i)` of the pyramid: triangular index `r(r+1)/2 + i`, apex `0`.
pub open spec fn peb_node(r: int, i: int) -> u32 {
    (r * (r + 1) / 2 + i) as u32
}

/// The propagation clauses of row `r`: both children of `(r, i)` pebbled ⇒ `(r, i)` pebbled.
pub open spec fn peb_row(r: int) -> Seq<Seq<Lit>> {
    Seq::new((r + 1) as nat, |i: int| seq![neg(peb_node(r + 1, i)), neg(peb_node(r + 1, i + 1)), pos(peb_node(r, i))])
}

/// The clauses of `pebbling_pyramid(h)`: the sources pebbled, pebbling propagating up, the apex
/// unpebbled.
pub open spec fn pebbling_clauses(h: nat) -> Seq<Seq<Lit>> {
    Seq::new(h + 1, |i: int| seq![pos(peb_node(h as int, i))])
        + Seq::new(h, |r: int| peb_row(r)).flatten()
        + seq![seq![neg(peb_node(0, 0))]]
}

/// The number of nodes of the pyramid of height `h`.
pub open spec fn pyramid_nodes(h: nat) -> nat {
    ((h + 1) * (h + 2) / 2) as nat
}

proof fn lemma_rows_len(h: nat)
    ensures
        Seq::new(h, |r: int| peb_row(r)).flatten().len() == h * (h + 1) / 2,
    decreases h,
{
    if h > 0 {
        let f = |r: int| peb_row(r);
        lemma_rows_len((h - 1) as nat);
        lemma_flatten_new_push((h - 1) as nat, f);
        assert(f((h - 1) as int).len() == h);
        assert(Seq::new(h, |r: int| peb_row(r)) =~= Seq::new(h, f));
        assert(Seq::new((h - 1) as nat, |r: int| peb_row(r)) =~= Seq::new((h - 1) as nat, f));
        let k = (h - 1) as nat;
        assert(k * (k + 1) / 2 + h == h * (h + 1) / 2) by (nonlinear_arith)
            requires k + 1 == h;
    }
}

proof fn lemma_tri_bounds(r: nat, h: nat)
    requires
        r <= h,
        (h + 1) * (h + 2) <= usize::MAX,
    ensures
        r * (r + 1) <= (h + 1) * (h + 2),
        (r + 1) * (r + 2) / 2 == r * (r + 1) / 2 + r + 1,
        r * (r + 1) / 2 + r + 1 <= (h + 1) * (h + 2) / 2,
{
    assert(r * (r + 1) <= (h + 1) * (h + 2)) by (nonlinear_arith)
        requires r <= h;
    assert((r + 1) * (r + 2) == r * (r + 1) + 2 * (r + 1)) by (nonlinear_arith);
    assert((r + 1) * (r + 2) <= (h + 1) * (h + 2)) by (nonlinear_arith)
        requires r <= h;
}

/// The pebbling contradiction on the pyramid of the given `height`: rows `0..=height`, row `r`
/// holding `r+1` nodes; unsatisfiable.
pub fn pebbling_pyramid(height: usize) -> (res: (DimacsCnf, ExpectedVerdict))
    requires
        (height + 1) * (height + 2) <= usize::MAX,
    ensures
        res.0.num_vars == pyramid_nodes(height as nat),
        res.0.cls() == pebbling_clauses(height as nat),
        res.0.clauses.len() == res.0.num_vars + 1,
        res.1 == ExpectedVerdict::Unsat,
{
    proof {
        lemma_tri_bounds(height as nat, height as nat);
        assert(height + 2 <= (height + 1) * (height + 2)) by (nonlinear_arith);
    }
    let num_vars = (height + 1) * (height + 2) / 2;
    let mut clauses: Vec<Vec<Lit>> = Vec::new();
    let tri_h = height * (height + 1) / 2;
    let ghost srcs = |i: int| seq![pos(peb_node(height as int, i))];
    let mut i: usize = 0;
    while i <= height
        invariant
            i <= height + 1,
            (height + 1) * (height + 2) <= usize::MAX,
            tri_h == height * (height + 1) / 2,
            tri_h + height + 1 <= (height + 1) * (height + 2) / 2,
            srcs == (|i: int| seq![pos(peb_node(height as int, i))]),
            clauses_view(clauses@) == Seq::new(i as nat, srcs),
        decreases height + 1 - i,
    {
        let cl = vec![Lit::pos((tri_h + i) as u32)];
        proof {
            assert(cl@ =~= srcs(i as int));
            lemma_cv_push(clauses@, cl);
            lemma_new_push(i as nat, srcs);
        }
        clauses.push(cl);
        i += 1;
    }
    let ghost first = clauses_view(clauses@);
    let ghost rows = |r: int| peb_row(r);
    let mut r: usize = 0;
    while r < height
        invariant
            r <= height,
            (height + 1) * (height + 2) <= usize::MAX,
            rows == (|r: int| peb_row(r)),
            clauses_view(clauses@) == first + Seq::new(r as nat, rows).flatten(),
        decreases height - r,
    {
        proof {
            lemma_tri_bounds(r as nat, height as nat);
            lemma_tri_bounds((r + 1) as nat, height as nat);
        }
        let tri_r = r * (r + 1) / 2;
        let tri_next = tri_r + r + 1;
        let ghost before = clauses_view(clauses@);
        let mut i: usize = 0;
        while i <= r
            invariant
                r < height,
                i <= r + 1,
                (height + 1) * (height + 2) <= usize::MAX,
                tri_r == r * (r + 1) / 2,
                tri_next == (r + 1) * (r + 2) / 2,
                tri_next == tri_r + r + 1,
                tri_next + r + 2 <= (height + 1) * (height + 2) / 2,
                clauses_view(clauses@) == before + peb_row(r as int).take(i as int),
            decreases r + 1 - i,
        {
            let cl = vec![Lit::neg((tri_next + i) as u32), Lit::neg((tri_next + i + 1) as u32),
                Lit::pos((tri_r + i) as u32)];
            proof {
                assert(cl@ =~= peb_row(r as int)[i as int]);
                lemma_cv_push(clauses@, cl);
                assert(peb_row(r as int).take(i + 1) =~= peb_row(r as int).take(i as int).push(cl@));
            }
            clauses.push(cl);
            i += 1;
        }
        proof {
            assert(peb_row(r as int).take(r + 1) =~= peb_row(r as int));
            lemma_flatten_new_push(r as nat, rows);
        }
        r += 1;
    }
    let apex = vec![Lit::neg(0u32)];
    proof {
        lemma_cv_push(clauses@, apex);
        assert(peb_node(0, 0) == 0u32);
        assert(Seq::new(height as nat, rows) =~= Seq::new(height as nat, |r: int| peb_row(r)));
        assert(Seq::new((height + 1) as nat, srcs) =~= Seq::new((height + 1) as nat,
            |i: int| seq![pos(peb_node(height as int, i))]));
        assert(apex@ =~= seq![neg(peb_node(0, 0))]);
        lemma_rows_len(height as nat);
        assert((height + 1) * (height + 2) / 2 == height + 1 + height * (height + 1) / 2) by (nonlinear_arith);
    }
    clauses.push(apex);
    proof {
        assert(clauses_view(clauses@) =~= pebbling_clauses(height as nat));
    }
    (DimacsCnf { num_vars, clauses }, ExpectedVerdict::Unsat)
}


/// In a satisfying assignment of the pebbling clauses every node of rows `r..=h` is pebbled.
proof fn lemma_pebbled(h: nat, a: spec_fn(u32) -> bool, r: int)
    requires
        cnf_holds(a, pebbling_clauses(h)),
        0 <= r <= h,
    ensures
        forall|i: int| 0 <= i <= r ==> a(#[trigger] peb_node(r, i)),
    decreases h - r,
{
    let cls = pebbling_clauses(h);
    let srcs = Seq::new(h + 1, |i: int| seq![pos(peb_node(h as int, i))]);
    let blocks = Seq::new(h, |rr: int| peb_row(rr));
    if r == h {
        assert forall|i: int| 0 <= i <= r implies a(#[trigger] peb_node(r, i)) by {
            assert(cls[i] == srcs[i]);
            assert(clause_holds(a, cls[i]));
            let j = choose|j: int| 0 <= j < cls[i].len() && lit_holds(a, #[trigger] cls[i][j]);
        }
    } else {
        lemma_pebbled(h, a, r + 1);
        assert forall|i: int| 0 <= i <= r implies a(#[trigger] peb_node(r, i)) by {
            lemma_flatten_contains(blocks, r, i);
            let k = choose|k: int| 0 <= k < blocks.flatten().len() && blocks.flatten()[k] == blocks[r][i];
            assert(cls[srcs.len() + k] == blocks.flatten()[k]);
            let c = cls[srcs.len() + k];
            assert(clause_holds(a, c));
            assert(c == seq![neg(peb_node(r + 1, i)), neg(peb_node(r + 1, i + 1)), pos(peb_node(r, i))]);
            assert(a(peb_node(r + 1, i)));
            assert(a(peb_node(r + 1, i + 1)));
            let j = choose|j: int| 0 <= j < c.len() && lit_holds(a, #[trigger] c[j]);
        }
    }
}

/// The verdict of [`pebbling_pyramid`] is right: pebbling propagates from the sources up to the
/// apex, which is asserted unpebbled, so the clauses are unsatisfiable for every height.
pub proof fn lemma_pebbling_unsat(h: nat)
    ensures
        !satisfiable(pebbling_clauses(h)),
{
    let cls = pebbling_clauses(h);
    if satisfiable(cls) {
        let a = choose|a: spec_fn(u32) -> bool| cnf_holds(a, cls);
        lemma_pebbled(h, a, 0);
        assert(a(peb_node(0, 0)));
        let last = cls.len() - 1;
        assert(cls[last] == seq![neg(peb_node(0, 0))]);
        assert(clause_holds(a, cls[last]));
        let j = choose|j: int| 0 <= j < cls[last].len() && lit_holds(a, #[trigger] cls[last][j]);
    }
}


/// The clause keeping vertices `u < w` apart in colour `c` is one of the clauses.
proof fn lemma_cc_pair_clause(n: nat, k: nat, u: int, w: int, c: int)
    requires
        0 <= u < w < n,
        0 <= c < k,
    ensures
        clique_coloring_clauses(n, k).contains(seq![neg(ph_var(u, c, k as int)), neg(ph_var(w, c, k as int))]),
{
    let cl = seq![neg(ph_var(u, c, k as int)), neg(ph_var(w, c, k as int))];
    let pairs = Seq::new((n - u - 1) as nat, |d: int| cc_pair(u, u + 1 + d, k));
    assert(pairs[w - u - 1][c] == cl);
    lemma_flatten_contains(pairs, w - u - 1, c);
    assert(cc_vertex(u, n, k) == pairs.flatten());
    let m = choose|m: int| 0 <= m < pairs.flatten().len() && pairs.flatten()[m] == cl;
    let verts = Seq::new(n, |uu: int| cc_vertex(uu, n, k));
    assert(verts[u][m] == cl);
    lemma_flatten_contains(verts, u, m);
    let q = choose|q: int| 0 <= q < verts.flatten().len() && verts.flatten()[q] == cl;
    let rows = Seq::new(n, |v: int| ph_row(v, k));
    assert(clique_coloring_clauses(n, k)[rows.len() + q] == cl);
}

/// The verdict of [`clique_coloring`] for `k < n` is right: the complete graph on `n` vertices
/// has no proper colouring with fewer than `n` colours.
pub proof fn lemma_clique_coloring_unsat(n: nat, k: nat)
    requires
        k < n,
    ensures
        !satisfiable(clique_coloring_clauses(n, k)),
{
    let cls = clique_coloring_clauses(n, k);
    if satisfiable(cls) {
        let a = choose|a: spec_fn(u32) -> bool| cnf_holds(a, cls);
        let f = |v: int| choose|c: int| 0 <= c < k && a(ph_var(v, c, k as int));
        assert forall|v: int| 0 <= v < n implies 0 <= #[trigger] f(v) < k && a(ph_var(v, f(v), k as int)) by {
            assert(cls[v] == ph_row(v, k));
            assert(clause_holds(a, cls[v]));
            let i = choose|i: int| 0 <= i < ph_row(v, k).len() && lit_holds(a, #[trigger] ph_row(v, k)[i]);
            assert(a(ph_var(v, i, k as int)));
        }
        assert forall|u: int, w: int| 0 <= u < w < n implies #[trigger] f(u) != #[trigger] f(w) by {
            if f(u) == f(w) {
                let c = f(u);
                lemma_cc_pair_clause(n, k, u, w, c);
                let cl = seq![neg(ph_var(u, c, k as int)), neg(ph_var(w, c, k as int))];
                lemma_contained_clause_holds(a, cls, cl);
                let i = choose|i: int| 0 <= i < cl.len() && lit_holds(a, #[trigger] cl[i]);
            }
        }
        lemma_injection_bound(f, n, k);
    }
}

/// The verdict of [`clique_coloring`] for `k >= n` is right: colour vertex `v` with colour `v`
/// (as long as the variable indices fit in 32 bits).
pub proof fn lemma_clique_coloring_sat(n: nat, k: nat)
    requires
        n <= k,
        n * k <= 0x1_0000_0000,
    ensures
        satisfiable(clique_coloring_clauses(n, k)),
{
    let a = |x: u32| exists|v: int| 0 <= v < n && x == #[trigger] ph_var(v, v, k as int);
    let cls = clique_coloring_clauses(n, k);
    let rows = Seq::new(n, |v: int| ph_row(v, k));
    let verts = Seq::new(n, |uu: int| cc_vertex(uu, n, k));
    assert forall|j: int| 0 <= j < cls.len() implies clause_holds(a, #[trigger] cls[j]) by {
        if j < n {
            assert(cls[j] == ph_row(j, k));
            assert(lit_holds(a, ph_row(j, k)[j]));
        } else {
            let q = j - n;
            assert(cls[j] == verts.flatten()[q]);
            lemma_flatten_index(verts, q);
            let (u, m) = choose|i: int, jj: int| 0 <= i < verts.len() && 0 <= jj < verts[i].len() && verts.flatten()[q] == #[trigger] verts[i][jj];
            let pairs = Seq::new((n - u - 1) as nat, |d: int| cc_pair(u, u + 1 + d, k));
            assert(cc_vertex(u, n, k) == pairs.flatten());
            lemma_flatten_index(pairs, m);
            let (d, c) = choose|i: int, jj: int| 0 <= i < pairs.len() && 0 <= jj < pairs[i].len() && pairs.flatten()[m] == #[trigger] pairs[i][jj];
            let w = u + 1 + d;
            let cl = seq![neg(ph_var(u, c, k as int)), neg(ph_var(w, c, k as int))];
            assert(cls[j] == cl);
            if a(ph_var(u, c, k as int)) {
                let r = choose|r: int| 0 <= r < n && ph_var(u, c, k as int) == #[trigger] ph_var(r, r, k as int);
                crate::families::pigeon::lemma_ph_var_injective(n, k, u, c, r, r);
                if a(ph_var(w, c, k as int)) {
                    let t = choose|t: int| 0 <= t < n && ph_var(w, c, k as int) == #[trigger] ph_var(t, t, k as int);
                    crate::families::pigeon::lemma_ph_var_injective(n, k, w, c, t, t);
                    assert(false);
                }
                assert(lit_holds(a, cl[1]));
            } else {
                assert(lit_holds(a, cl[0]));
            }
        }
    }
    assert(cnf_holds(a, cls));
}


/// The antisymmetry clause of `i < j` is one of the ordering clauses.
proof fn lemma_op_antisym_clause(n: nat, i: int, j: int)
    requires
        0 <= i < j < n,
    ensures
        ordering_clauses(n).contains(seq![neg(ph_var(i, j, n as int)), neg(ph_var(j, i, n as int))]),
{
    let cl = seq![neg(ph_var(i, j, n as int)), neg(ph_var(j, i, n as int))];
    let pairs = Seq::new((n - i - 1) as nat, |d: int| op_pair(i, i + 1 + d, n));
    assert(pairs[j - i - 1][1] == cl);
    lemma_flatten_contains(pairs, j - i - 1, 1);
    assert(op_row(i, n) == pairs.flatten());
    let m = choose|m: int| 0 <= m < pairs.flatten().len() && pairs.flatten()[m] == cl;
    let rows = Seq::new(n, |ii: int| op_row(ii, n));
    assert(rows[i][m] == cl);
    lemma_flatten_contains(rows, i, m);
    let q = choose|q: int| 0 <= q < rows.flatten().len() && rows.flatten()[q] == cl;
    assert(ordering_clauses(n)[q] == cl);
}

/// The transitivity clause of distinct `i, j, k` is one of the ordering clauses.
proof fn lemma_op_trans_clause(n: nat, i: int, j: int, k: int)
    requires
        0 <= i < n,
        0 <= j < n,
        0 <= k < n,
        i != j,
        j != k,
        i != k,
    ensures
        ordering_clauses(n).contains(
            seq![neg(ph_var(i, j, n as int)), neg(ph_var(j, k, n as int)), pos(ph_var(i, k, n as int))],
        ),
{
    let cl = seq![neg(ph_var(i, j, n as int)), neg(ph_var(j, k, n as int)), pos(ph_var(i, k, n as int))];
    let ks = Seq::new(n, |kk: int| op_trans(i, j, kk, n));
    assert(ks[k][0] == cl);
    lemma_flatten_contains(ks, k, 0);
    assert(op_trans_ij(i, j, n) == ks.flatten());
    let m1 = choose|m: int| 0 <= m < ks.flatten().len() && ks.flatten()[m] == cl;
    let js = Seq::new(n, |jj: int| op_trans_ij(i, jj, n));
    assert(js[j][m1] == cl);
    lemma_flatten_contains(js, j, m1);
    assert(op_trans_i(i, n) == js.flatten());
    let m2 = choose|m: int| 0 <= m < js.flatten().len() && js.flatten()[m] == cl;
    let is = Seq::new(n, |ii: int| op_trans_i(ii, n));
    assert(is[i][m2] == cl);
    lemma_flatten_contains(is, i, m2);
    let q = choose|q: int| 0 <= q < is.flatten().len() && is.flatten()[q] == cl;
    let rows = Seq::new(n, |ii: int| op_row(ii, n)).flatten();
    assert(ordering_clauses(n)[rows.len() + q] == cl);
}

/// `i` is maximal among the first `m` elements under the order that `a` assigns.
spec fn op_top(a: spec_fn(u32) -> bool, n: nat, m: nat, i: int) -> bool {
    &&& 0 <= i < m
    &&& forall|j: int| 0 <= j < m && j != i ==> !a(#[trigger] ph_var(i, j, n as int))
}

/// Under antisymmetry and transitivity, the first `m` elements have a maximal one.
proof fn lemma_op_max(n: nat, a: spec_fn(u32) -> bool, m: nat)
    requires
        cnf_holds(a, ordering_clauses(n)),
        1 <= m <= n,
    ensures
        exists|i: int| #[trigger] op_top(a, n, m, i),
    decreases m,
{
    let cls = ordering_clauses(n);
    if m == 1 {
        assert(op_top(a, n, m, 0));
    } else {
        lemma_op_max(n, a, (m - 1) as nat);
        let mm = (m - 1) as nat;
        let i = choose|i: int| #[trigger] op_top(a, n, mm, i);
        let last = m - 1;
        if a(ph_var(i, last, n as int)) {
            assert forall|j: int| 0 <= j < m && j != last implies !a(#[trigger] ph_var(last, j, n as int)) by {
                if a(ph_var(last, j, n as int)) {
                    if j == i {
                        lemma_op_antisym_clause(n, i, last);
                        let cl = seq![neg(ph_var(i, last, n as int)), neg(ph_var(last, i, n as int))];
                        lemma_contained_clause_holds(a, cls, cl);
                        let t = choose|t: int| 0 <= t < cl.len() && lit_holds(a, #[trigger] cl[t]);
                    } else {
                        lemma_op_trans_clause(n, i, last, j);
                        let cl = seq![neg(ph_var(i, last, n as int)), neg(ph_var(last, j, n as int)), pos(ph_var(i, j, n as int))];
                        lemma_contained_clause_holds(a, cls, cl);
                        let t = choose|t: int| 0 <= t < cl.len() && lit_holds(a, #[trigger] cl[t]);
                        assert(!a(ph_var(i, j, n as int)));
                    }
                }
            }
            assert(op_top(a, n, m, last));
        } else {
            assert(op_top(a, n, m, i));
        }
    }
}

/// The verdict of [`ordering_principle`] is right: a strict order on `n >= 1` elements has a
/// maximal element, so "every element has a greater one" cannot hold.
pub proof fn lemma_ordering_unsat(n: nat)
    requires
        n >= 1,
    ensures
        !satisfiable(ordering_clauses(n)),
{
    let cls = ordering_clauses(n);
    if satisfiable(cls) {
        let a = choose|a: spec_fn(u32) -> bool| cnf_holds(a, cls);
        lemma_op_max(n, a, n);
        let i = choose|i: int| #[trigger] op_top(a, n, n, i);
        let a_part = Seq::new(n, |ii: int| op_row(ii, n)).flatten();
        let b_part = Seq::new(n, |ii: int| op_trans_i(ii, n)).flatten();
        let g = op_greater(i, n);
        assert(cls[a_part.len() + b_part.len() + i] == g);
        assert(clause_holds(a, g));
        let t = choose|t: int| 0 <= t < g.len() && lit_holds(a, #[trigger] g[t]);
        let j = if t < i { t } else { t + 1 };
        assert(a(ph_var(i, j, n as int)));
    }
}

} // verus!
