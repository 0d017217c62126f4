//! The pigeonhole family and its strengthenings.

use vstd::prelude::*;
use crate::cnf::{Lit, DimacsCnf, pos, neg, clauses_view, lit_holds, clause_holds, cnf_holds, satisfiable,
    lemma_contained_clause_holds, lemma_flatten_contains, lemma_flatten_index, lemma_injection_bound};
use crate::families::{ExpectedVerdict, amo, push_amo, strided, strided_lits, lemma_cv_push, lemma_new_push,
    lemma_flatten_new_push};

verus! {

/// The variable "pigeon `p` sits in hole `h`": index `p*holes + h`.
pub open spec fn ph_var(p: int, h: int, holes: int) -> u32 {
    (p * holes + h) as u32
}

/// The at-least-one clause of pigeon `p`: its variables over all holes.
pub open spec fn ph_row(p: int, holes: nat) -> Seq<Lit> {
    Seq::new(holes, |h: int| pos(ph_var(p, h, holes as int)))
}

/// The pigeons' variables for hole `h`.
pub open spec fn ph_col(h: int, pigeons: nat, holes: nat) -> Seq<Lit> {
    Seq::new(pigeons, |p: int| pos(ph_var(p, h, holes as int)))
}

/// `PHP^{holes}_{pigeons}`: one at-least-one clause per pigeon, then per hole the pairwise
/// exclusion of its pigeons.
pub open spec fn pigeonhole_clauses(pigeons: nat, holes: nat) -> Seq<Seq<Lit>> {
    Seq::new(pigeons, |p: int| ph_row(p, holes))
        + Seq::new(holes, |h: int| amo(ph_col(h, pigeons, holes))).flatten()
}

/// The hole count of `php(n)`: `n - 1`, and `0` for `n = 0`.
pub open spec fn php_holes(n: nat) -> nat {
    if n == 0 { 0 } else { (n - 1) as nat }
}

/// The functional strengthening: no pigeon in two holes.
pub open spec fn functional_extra(n: nat) -> Seq<Seq<Lit>> {
    Seq::new(n, |p: int| amo(ph_row(p, php_holes(n)))).flatten()
}

/// The onto strengthening: every hole receives a pigeon.
pub open spec fn onto_extra(n: nat) -> Seq<Seq<Lit>> {
    Seq::new(php_holes(n), |h: int| ph_col(h, n, php_holes(n)))
}

/// The clauses of `functional_php(n)`.
pub open spec fn functional_php_clauses(n: nat) -> Seq<Seq<Lit>> {
    pigeonhole_clauses(n, php_holes(n)) + functional_extra(n)
}

/// The clauses of `onto_php(n)`.
pub open spec fn onto_php_clauses(n: nat) -> Seq<Seq<Lit>> {
    functional_php_clauses(n) + onto_extra(n)
}

proof fn lemma_row_is_strided(p: int, holes: nat)
    ensures
        strided(p * holes, 1, holes) == ph_row(p, holes),
{
    assert(strided(p * holes, 1, holes) =~= ph_row(p, holes));
}

proof fn lemma_col_is_strided(h: int, pigeons: nat, holes: nat)
    ensures
        strided(h, holes as int, pigeons) == ph_col(h, pigeons, holes),
{
    assert forall|p: int| 0 <= p < pigeons implies #[trigger] strided(h, holes as int, pigeons)[p]
        == ph_col(h, pigeons, holes)[p] by {
        assert(h + p * holes == p * holes + h);
    }
    assert(strided(h, holes as int, pigeons) =~= ph_col(h, pigeons, holes));
}

/// The variable `p*holes + h` lies below `pigeons*holes` whenever `p < pigeons`, `h < holes`.
proof fn lemma_ph_index(p: nat, h: nat, pigeons: nat, holes: nat)
    requires
        p < pigeons,
        h < holes,
    ensures
        p * holes + h < pigeons * holes,
{
    assert((p + 1) * holes <= pigeons * holes) by (nonlinear_arith)
        requires p + 1 <= pigeons;
    assert((p + 1) * holes == p * holes + holes) by (nonlinear_arith);
}

/// The clause list of `PHP^{holes}_{pigeons}`.
fn pigeonhole(pigeons: usize, holes: usize) -> (clauses: Vec<Vec<Lit>>)
    requires
        pigeons * holes <= usize::MAX,
    ensures
        clauses_view(clauses@) == pigeonhole_clauses(pigeons as nat, holes as nat),
{
    let mut clauses: Vec<Vec<Lit>> = Vec::new();
    let ghost rows = |p: int| ph_row(p, holes as nat);
    let mut p: usize = 0;
    while p < pigeons
        invariant
            p <= pigeons,
            pigeons * holes <= usize::MAX,
            rows == (|p: int| ph_row(p, holes as nat)),
            clauses_view(clauses@) == Seq::new(p as nat, rows),
        decreases pigeons - p,
    {
        proof {
            assert(p * holes <= pigeons * holes) by (nonlinear_arith)
                requires p <= pigeons;
            if holes > 0 {
                lemma_ph_index(p as nat, (holes - 1) as nat, pigeons as nat, holes as nat);
            }
        }
        let row = strided_lits(p * holes, 1, holes);
        proof {
            lemma_row_is_strided(p as int, holes as nat);
            lemma_cv_push(clauses@, row);
            lemma_new_push(p as nat, rows);
        }
        clauses.push(row);
        p += 1;
    }
    let ghost first = clauses_view(clauses@);
    let ghost cols = |h: int| amo(ph_col(h, pigeons as nat, holes as nat));
    let mut h: usize = 0;
    while h < holes
        invariant
            h <= holes,
            pigeons * holes <= usize::MAX,
            cols == (|h: int| amo(ph_col(h, pigeons as nat, holes as nat))),
            clauses_view(clauses@) == first + Seq::new(h as nat, cols).flatten(),
        decreases holes - h,
    {
        proof {
            if pigeons > 0 {
                lemma_ph_index((pigeons - 1) as nat, h as nat, pigeons as nat, holes as nat);
                assert(h + (pigeons - 1) * holes == (pigeons - 1) * holes + h);
            }
        }
        let col = strided_lits(h, holes, pigeons);
        proof {
            lemma_col_is_strided(h as int, pigeons as nat, holes as nat);
        }
        push_amo(&mut clauses, &col);
        proof {
            lemma_flatten_new_push(h as nat, cols);
        }
        h += 1;
    }
    proof {
        assert(Seq::new(pigeons as nat, rows) =~= Seq::new(pigeons as nat, |p: int| ph_row(p, holes as nat)));
        assert(Seq::new(holes as nat, cols) =~= Seq::new(holes as nat,
            |h: int| amo(ph_col(h, pigeons as nat, holes as nat))));
    }
    clauses
}

/// The pigeonhole principle PHP(n): `n` pigeons into `n-1` holes, unsatisfiable. The
/// variable "pigeon `p` sits in hole `h`" lives at index `p*(n-1) + h`.
pub fn php(n: usize) -> (res: (DimacsCnf, ExpectedVerdict))
    requires
        n * php_holes(n as nat) <= usize::MAX,
    ensures
        res.0.num_vars == n * php_holes(n as nat),
        res.0.cls() == pigeonhole_clauses(n as nat, php_holes(n as nat)),
        res.1 == ExpectedVerdict::Unsat,
{
    let holes = n.saturating_sub(1);
    let num_vars = n * holes;
    let clauses = pigeonhole(n, holes);
    (DimacsCnf { num_vars, clauses }, ExpectedVerdict::Unsat)
}

/// The weak pigeonhole principle `PHP^{holes}_{pigeons}`, unsatisfiable exactly when
/// `pigeons > holes`; same variable layout as [`php`].
pub fn weak_php(pigeons: usize, holes: usize) -> (res: (DimacsCnf, ExpectedVerdict))
    requires
        pigeons * holes <= usize::MAX,
    ensures
        res.0.num_vars == pigeons * holes,
        res.0.cls() == pigeonhole_clauses(pigeons as nat, holes as nat),
        res.1 == (if pigeons > holes { ExpectedVerdict::Unsat } else { ExpectedVerdict::Sat }),
{
    let num_vars = pigeons * holes;
    let clauses = pigeonhole(pigeons, holes);
    let verdict = if pigeons > holes { ExpectedVerdict::Unsat } else { ExpectedVerdict::Sat };
    (DimacsCnf { num_vars, clauses }, verdict)
}

/// The functional pigeonhole principle FPHP(n): [`php`] plus "no pigeon in two holes".
pub fn functional_php(n: usize) -> (res: (DimacsCnf, ExpectedVerdict))
    requires
        n * php_holes(n as nat) <= usize::MAX,
    ensures
        res.0.num_vars == n * php_holes(n as nat),
        res.0.cls() == functional_php_clauses(n as nat),
        res.1 == ExpectedVerdict::Unsat,
{
    let holes = n.saturating_sub(1);
    let (mut cnf, _) = php(n);
    let ghost base = cnf.cls();
    let ghost rows = |p: int| amo(ph_row(p, holes as nat));
    let mut p: usize = 0;
    while p < n
        invariant
            p <= n,
            holes == php_holes(n as nat),
            n * holes <= usize::MAX,
            rows == (|p: int| amo(ph_row(p, holes as nat))),
            cnf.num_vars == n * holes,
            cnf.cls() == base + Seq::new(p as nat, rows).flatten(),
        decreases n - p,
    {
        proof {
            if holes > 0 {
                lemma_ph_index(p as nat, (holes - 1) as nat, n as nat, holes as nat);
            }
            assert(p * holes <= n * holes) by (nonlinear_arith)
                requires p <= n;
        }
        let row = strided_lits(p * holes, 1, holes);
        proof {
            lemma_row_is_strided(p as int, holes as nat);
        }
        push_amo(&mut cnf.clauses, &row);
        proof {
            lemma_flatten_new_push(p as nat, rows);
        }
        p += 1;
    }
    proof {
        assert(Seq::new(n as nat, rows) =~= Seq::new(n as nat, |p: int| amo(ph_row(p, php_holes(n as nat)))));
    }
    (cnf, ExpectedVerdict::Unsat)
}

/// The onto pigeonhole principle: [`functional_php`] plus "every hole receives a pigeon".
pub fn onto_php(n: usize) -> (res: (DimacsCnf, ExpectedVerdict))
    requires
        n * php_holes(n as nat) <= usize::MAX,
    ensures
        res.0.num_vars == n * php_holes(n as nat),
        res.0.cls() == onto_php_clauses(n as nat),
        res.1 == ExpectedVerdict::Unsat,
{
    let holes = n.saturating_sub(1);
    let (mut cnf, _) = functional_php(n);
    let ghost base = cnf.cls();
    let ghost cols = |h: int| ph_col(h, n as nat, holes as nat);
    let mut h: usize = 0;
    while h < holes
        invariant
            h <= holes,
            holes == php_holes(n as nat),
            n * holes <= usize::MAX,
            cols == (|h: int| ph_col(h, n as nat, holes as nat)),
            cnf.num_vars == n * holes,
            cnf.cls() == base + Seq::new(h as nat, cols),
        decreases holes - h,
    {
        proof {
            if n > 0 {
                lemma_ph_index((n - 1) as nat, h as nat, n as nat, holes as nat);
                assert(h + (n - 1) * holes == (n - 1) * holes + h);
            }
        }
        let col = strided_lits(h, holes, n);
        proof {
            lemma_col_is_strided(h as int, n as nat, holes as nat);
            lemma_cv_push(cnf.clauses@, col);
            lemma_new_push(h as nat, cols);
            assert(base + Seq::new(h as nat, cols).push(col@) =~= (base + Seq::new(h as nat, cols)).push(col@));
        }
        cnf.clauses.push(col);
        h += 1;
    }
    proof {
        assert(Seq::new(holes as nat, cols) =~= onto_extra(n as nat));
    }
    (cnf, ExpectedVerdict::Unsat)
}

/// The tight weak pigeonhole principle is the pigeonhole principle: `weak_php(n, n-1)` and
/// `php(n)` produce the same clauses over the same variables.
pub proof fn lemma_weak_php_tight_is_php(n: nat)
    ensures
        pigeonhole_clauses(n, php_holes(n)) == pigeonhole_clauses(n, (if n == 0 { 0 } else { n - 1 }) as nat),
{
}

/// Each strengthening only adds clauses: PHP(n) is a prefix of FPHP(n), which is a prefix of
/// onto-FPHP(n).
pub proof fn lemma_strengthenings_extend(n: nat)
    ensures
        functional_php_clauses(n).take(pigeonhole_clauses(n, php_holes(n)).len() as int)
            == pigeonhole_clauses(n, php_holes(n)),
        onto_php_clauses(n).take(functional_php_clauses(n).len() as int) == functional_php_clauses(n),
{
    assert(functional_php_clauses(n).take(pigeonhole_clauses(n, php_holes(n)).len() as int)
        =~= pigeonhole_clauses(n, php_holes(n)));
    assert(onto_php_clauses(n).take(functional_php_clauses(n).len() as int) =~= functional_php_clauses(n));
}


/// The first `k` rows of the at-most-one clauses over `s`.
spec fn amo_rows(s: Seq<Lit>, k: nat) -> Seq<Seq<Seq<Lit>>> {
    Seq::new(k, |i: int| crate::families::amo_row(s, i))
}

/// The first `k` rows of the at-most-one clauses over `s` hold `k(L-1) - k(k-1)/2` clauses,
/// `L` the length of `s`.
proof fn lemma_amo_prefix_len(s: Seq<Lit>, k: nat)
    requires
        k <= s.len(),
    ensures
        2 * amo_rows(s, k).flatten().len() == 2 * k * (s.len() - 1) - k * (k - 1),
    decreases k,
{
    if k > 0 {
        lemma_amo_prefix_len(s, (k - 1) as nat);
        let prev = amo_rows(s, (k - 1) as nat);
        let row = crate::families::amo_row(s, k - 1);
        assert(amo_rows(s, k) =~= prev.push(row));
        prev.lemma_flatten_push(row);
        assert(row.len() == s.len() - k);
        let km = (k - 1) as nat;
        let len = s.len();
        let a = prev.flatten().len();
        assert(2 * a == 2 * km * (len - 1) - km * (km - 1));
        assert(amo_rows(s, k).flatten().len() == a + (len - k));
        assert(2 * (a + (len - k)) == 2 * k * (len - 1) - k * (k - 1)) by (nonlinear_arith)
            requires
                2 * a == 2 * km * (len - 1) - km * (km - 1),
                km + 1 == k,
                k <= len;
        assert(2 * amo_rows(s, k).flatten().len() == 2 * k * (s.len() - 1) - k * (k - 1));
    } else {
        assert(amo_rows(s, 0) =~= Seq::<Seq<Seq<Lit>>>::empty());
        assert(amo_rows(s, 0).flatten() =~= Seq::<Seq<Lit>>::empty());
        assert(2 * k * (s.len() - 1) - k * (k - 1) == 0) by (nonlinear_arith)
            requires k == 0;
    }
}

/// At most one of `L` literals takes `L(L-1)/2` binary clauses.
pub proof fn lemma_amo_len(s: Seq<Lit>)
    ensures
        2 * amo(s).len() == s.len() * (s.len() - 1),
{
    lemma_amo_prefix_len(s, s.len());
    assert(amo(s) == amo_rows(s, s.len()).flatten());
    assert(2 * s.len() * (s.len() - 1) - s.len() * (s.len() - 1) == s.len() * (s.len() - 1)) by (nonlinear_arith);
}

proof fn lemma_functional_extra_prefix_len(n: nat, k: nat)
    requires
        k <= n,
    ensures
        2 * Seq::new(k, |p: int| amo(ph_row(p, php_holes(n)))).flatten().len() == k * (php_holes(n) * (php_holes(n)
            - 1)),
    decreases k,
{
    if k > 0 {
        let f = |p: int| amo(ph_row(p, php_holes(n)));
        lemma_functional_extra_prefix_len(n, (k - 1) as nat);
        lemma_flatten_new_push((k - 1) as nat, f);
        lemma_amo_len(ph_row((k - 1) as int, php_holes(n)));
        let h = php_holes(n);
        let km = (k - 1) as nat;
        let a = Seq::new(km, f).flatten().len();
        assert(2 * a == km * (h * (h - 1)));
        assert(Seq::new(k, f).flatten().len() == a + f(km as int).len());
        assert(2 * f(km as int).len() == h * (h - 1));
        assert(2 * (a + f(km as int).len()) == k * (h * (h - 1))) by (nonlinear_arith)
            requires
                2 * a == km * (h * (h - 1)),
                2 * f(km as int).len() == h * (h - 1),
                km + 1 == k;
        assert(Seq::new(k, f) =~= Seq::new(k, |p: int| amo(ph_row(p, php_holes(n)))));
    }
}

/// The functional strengthening adds `n(n-2)(n-1)/2` clauses to PHP(n): at most one hole for
/// each of the `n` pigeons, over `n-1` holes.
pub proof fn lemma_functional_php_len(n: nat)
    ensures
        2 * (functional_php_clauses(n).len() - pigeonhole_clauses(n, php_holes(n)).len()) == n * (php_holes(n) * (
        php_holes(n) - 1)),
{
    lemma_functional_extra_prefix_len(n, n);
}

/// The exclusion clause `¬x(p,h) ∨ ¬x(q,h)` of hole `h` and pigeons `p < q` is one of the clauses.
proof fn lemma_php_exclusion_clause(pigeons: nat, holes: nat, h: int, p: int, q: int)
    requires
        0 <= h < holes,
        0 <= p < q < pigeons,
    ensures
        pigeonhole_clauses(pigeons, holes).contains(
            seq![neg(ph_var(p, h, holes as int)), neg(ph_var(q, h, holes as int))],
        ),
{
    let c = seq![neg(ph_var(p, h, holes as int)), neg(ph_var(q, h, holes as int))];
    let col = ph_col(h, pigeons, holes);
    let rows = Seq::new(col.len(), |i: int| crate::families::amo_row(col, i));
    assert(rows[p][q - p - 1] == c);
    lemma_flatten_contains(rows, p, q - p - 1);
    assert(amo(col) == rows.flatten());
    let k = choose|k: int| 0 <= k < amo(col).len() && amo(col)[k] == c;
    let blocks = Seq::new(holes, |hh: int| amo(ph_col(hh, pigeons, holes)));
    assert(blocks[h][k] == c);
    lemma_flatten_contains(blocks, h, k);
    let m = choose|m: int| 0 <= m < blocks.flatten().len() && blocks.flatten()[m] == c;
    let firsts = Seq::new(pigeons, |pp: int| ph_row(pp, holes));
    assert(pigeonhole_clauses(pigeons, holes)[firsts.len() + m] == c);
}

/// The pigeonhole principle as a formula: `PHP^{holes}_{pigeons}` is unsatisfiable whenever
/// there are more pigeons than holes.
pub proof fn lemma_pigeonhole_unsat(pigeons: nat, holes: nat)
    requires
        pigeons > holes,
    ensures
        !satisfiable(pigeonhole_clauses(pigeons, holes)),
{
    let cls = pigeonhole_clauses(pigeons, holes);
    if satisfiable(cls) {
        let a = choose|a: spec_fn(u32) -> bool| cnf_holds(a, cls);
        let f = |p: int| choose|h: int| 0 <= h < holes && a(ph_var(p, h, holes as int));
        assert forall|p: int| 0 <= p < pigeons implies 0 <= #[trigger] f(p) < holes && a(ph_var(p, f(p), holes as int)) by {
            assert(cls[p] == ph_row(p, holes));
            assert(clause_holds(a, cls[p]));
            let i = choose|i: int| 0 <= i < ph_row(p, holes).len() && lit_holds(a, #[trigger] ph_row(p, holes)[i]);
            assert(a(ph_var(p, i, holes as int)));
        }
        assert forall|p: int, q: int| 0 <= p < q < pigeons implies #[trigger] f(p) != #[trigger] f(q) by {
            if f(p) == f(q) {
                let h = f(p);
                assert(a(ph_var(p, h, holes as int)));
                assert(a(ph_var(q, h, holes as int)));
                lemma_php_exclusion_clause(pigeons, holes, h, p, q);
                let c = seq![neg(ph_var(p, h, holes as int)), neg(ph_var(q, h, holes as int))];
                lemma_contained_clause_holds(a, cls, c);
                let i = choose|i: int| 0 <= i < c.len() && lit_holds(a, #[trigger] c[i]);
            }
        }
        lemma_injection_bound(f, pigeons, holes);
    }
}

/// The verdict of [`php`] is right: for `n >= 1`, `n` pigeons do not fit in `n - 1` holes.
pub proof fn lemma_php_unsat(n: nat)
    requires
        n >= 1,
    ensures
        !satisfiable(pigeonhole_clauses(n, php_holes(n))),
{
    lemma_pigeonhole_unsat(n, php_holes(n));
}

/// Adding clauses keeps an unsatisfiable formula unsatisfiable.
proof fn lemma_unsat_extend(base: Seq<Seq<Lit>>, extra: Seq<Seq<Lit>>)
    requires
        !satisfiable(base),
    ensures
        !satisfiable(base + extra),
{
    if satisfiable(base + extra) {
        let a = choose|a: spec_fn(u32) -> bool| cnf_holds(a, base + extra);
        assert forall|j: int| 0 <= j < base.len() implies clause_holds(a, #[trigger] base[j]) by {
            assert((base + extra)[j] == base[j]);
        }
        assert(cnf_holds(a, base));
    }
}

/// The verdicts of [`functional_php`] and [`onto_php`] are right: for `n >= 1` both are
/// unsatisfiable.
pub proof fn lemma_strengthened_php_unsat(n: nat)
    requires
        n >= 1,
    ensures
        !satisfiable(functional_php_clauses(n)),
        !satisfiable(onto_php_clauses(n)),
{
    lemma_php_unsat(n);
    lemma_unsat_extend(pigeonhole_clauses(n, php_holes(n)), functional_extra(n));
    lemma_unsat_extend(functional_php_clauses(n), onto_extra(n));
}


/// Without wrap-around the pigeon-hole variables are distinct: `x(p,h) = x(q,g)` only for the
/// same pigeon and hole.
pub proof fn lemma_ph_var_injective(pigeons: nat, holes: nat, p: int, h: int, q: int, g: int)
    requires
        pigeons * holes <= 0x1_0000_0000,
        0 <= p < pigeons,
        0 <= q < pigeons,
        0 <= h < holes,
        0 <= g < holes,
        ph_var(p, h, holes as int) == ph_var(q, g, holes as int),
    ensures
        p == q,
        h == g,
{
    lemma_ph_index(p as nat, h as nat, pigeons, holes);
    lemma_ph_index(q as nat, g as nat, pigeons, holes);
    assert(p * holes + h == q * holes + g);
    if p < q {
        assert((p + 1) * holes <= q * holes) by (nonlinear_arith)
            requires p + 1 <= q, holes >= 0;
        assert((p + 1) * holes == p * holes + holes) by (nonlinear_arith);
    } else if q < p {
        assert((q + 1) * holes <= p * holes) by (nonlinear_arith)
            requires q + 1 <= p, holes >= 0;
        assert((q + 1) * holes == q * holes + holes) by (nonlinear_arith);
    }
}

/// Every exclusion clause of `PHP^{holes}_{pigeons}` is `¬x(p,h) ∨ ¬x(q,h)` for a hole `h` and
/// pigeons `p < q`.
proof fn lemma_php_exclusion_shape(pigeons: nat, holes: nat, k: int)
    requires
        0 <= k < Seq::new(holes, |h: int| amo(ph_col(h, pigeons, holes))).flatten().len(),
    ensures
        exists|h: int, p: int, q: int|
            0 <= h < holes && 0 <= p < q < pigeons && Seq::new(holes, |hh: int| amo(ph_col(hh, pigeons, holes))).flatten()[k]
                == #[trigger] seq![neg(ph_var(p, h, holes as int)), neg(ph_var(q, h, holes as int))],
{
    let blocks = Seq::new(holes, |hh: int| amo(ph_col(hh, pigeons, holes)));
    lemma_flatten_index(blocks, k);
    let (h, m) = choose|i: int, j: int| 0 <= i < blocks.len() && 0 <= j < blocks[i].len() && blocks.flatten()[k] == #[trigger] blocks[i][j];
    let col = ph_col(h, pigeons, holes);
    let rows = Seq::new(col.len(), |i: int| crate::families::amo_row(col, i));
    assert(amo(col) == rows.flatten());
    lemma_flatten_index(rows, m);
    let (p, d) = choose|i: int, j: int| 0 <= i < rows.len() && 0 <= j < rows[i].len() && rows.flatten()[m] == #[trigger] rows[i][j];
    let q = p + 1 + d;
    assert(rows[p][d] == seq![neg(ph_var(p, h, holes as int)), neg(ph_var(q, h, holes as int))]);
}

/// The verdict of [`weak_php`] for `pigeons <= holes` is right: each pigeon gets a hole of its
/// own (pigeon `p` in hole `p`), as long as the variable indices fit in 32 bits.
pub proof fn lemma_pigeonhole_sat(pigeons: nat, holes: nat)
    requires
        pigeons <= holes,
        pigeons * holes <= 0x1_0000_0000,
    ensures
        satisfiable(pigeonhole_clauses(pigeons, holes)),
{
    let a = |v: u32| exists|p: int| 0 <= p < pigeons && v == #[trigger] ph_var(p, p, holes as int);
    let cls = pigeonhole_clauses(pigeons, holes);
    let firsts = Seq::new(pigeons, |pp: int| ph_row(pp, holes));
    let blocks = Seq::new(holes, |hh: int| amo(ph_col(hh, pigeons, holes)));
    assert forall|j: int| 0 <= j < cls.len() implies clause_holds(a, #[trigger] cls[j]) by {
        if j < pigeons {
            assert(cls[j] == ph_row(j, holes));
            assert(lit_holds(a, ph_row(j, holes)[j]));
        } else {
            let k = j - pigeons;
            assert(cls[j] == blocks.flatten()[k]);
            lemma_php_exclusion_shape(pigeons, holes, k);
            let (h, p, q) = choose|h: int, p: int, q: int|
                0 <= h < holes && 0 <= p < q < pigeons && blocks.flatten()[k]
                    == #[trigger] seq![neg(ph_var(p, h, holes as int)), neg(ph_var(q, h, holes as int))];
            let c = seq![neg(ph_var(p, h, holes as int)), neg(ph_var(q, h, holes as int))];
            if a(ph_var(p, h, holes as int)) {
                let r = choose|r: int| 0 <= r < pigeons && ph_var(p, h, holes as int) == #[trigger] ph_var(r, r, holes as int);
                lemma_ph_var_injective(pigeons, holes, p, h, r, r);
                if a(ph_var(q, h, holes as int)) {
                    let s = choose|s: int| 0 <= s < pigeons && ph_var(q, h, holes as int) == #[trigger] ph_var(s, s, holes as int);
                    lemma_ph_var_injective(pigeons, holes, q, h, s, s);
                    assert(false);
                }
                assert(lit_holds(a, c[1]));
            } else {
                assert(lit_holds(a, c[0]));
            }
        }
    }
    assert(cnf_holds(a, cls));
}

} // verus!
