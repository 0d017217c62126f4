//! Planted random k-XOR systems made inconsistent at maximal GF(2) rank.

use vstd::prelude::*;
use crate::cnf::{Lit, DimacsCnf, XorEquation, clauses_view, cnf_holds, satisfiable};
use crate::families::{lemma_flatten_new_push};
use crate::families::random::{SplitMix64, sm_advance, sm_mix, draw_distinct, draw_fuel, draw_vars};
use crate::families::parity::{xor_cnf, push_xor_clauses, parity_of, xor_value, lemma_parity_ext, lemma_xor_cnf_encodes};

verus! {

// ---------------------------------------------------------------------------
// Rows as increasing variable lists, and their GF(2) sum
// ---------------------------------------------------------------------------

/// A strictly increasing list: a row of the coefficient matrix as its support.
pub open spec fn increasing(s: Seq<u32>) -> bool {
    forall|i: int, j: int| 0 <= i < j < s.len() ==> s[i] < s[j]
}

/// The GF(2) sum of two rows given as increasing supports: their symmetric difference, merged.
pub open spec fn sym_diff(a: Seq<u32>, b: Seq<u32>) -> Seq<u32>
    decreases a.len() + b.len(),
{
    if a.len() == 0 {
        b
    } else if b.len() == 0 {
        a
    } else if a[0] < b[0] {
        seq![a[0]] + sym_diff(a.drop_first(), b)
    } else if b[0] < a[0] {
        seq![b[0]] + sym_diff(a, b.drop_first())
    } else {
        sym_diff(a.drop_first(), b.drop_first())
    }
}

/// The support of the sum of the unit rows of `vs`.
pub open spec fn row_of(vs: Seq<u32>) -> Seq<u32>
    decreases vs.len(),
{
    if vs.len() == 0 { Seq::empty() } else { sym_diff(row_of(vs.drop_last()), seq![vs.last()]) }
}

/// Fold `row` into the echelon basis `basis` (row with least variable `p` stored at `p`):
/// reduce by the stored rows until the row vanishes (`false`, dependent) or its least variable
/// is free (`true`: stored there).
pub open spec fn absorb(basis: Seq<Option<Seq<u32>>>, row: Seq<u32>, fuel: nat) -> (bool, Seq<Option<Seq<u32>>>)
    decreases fuel,
{
    if row.len() == 0 || fuel == 0 {
        (false, basis)
    } else {
        let p = row[0] as int;
        if 0 <= p < basis.len() && basis[p] is Some {
            absorb(basis, sym_diff(row, basis[p]->0), (fuel - 1) as nat)
        } else {
            (true, basis.update(p, Some(row)))
        }
    }
}

/// Reductions a row may take: one per possible pivot.
pub open spec fn absorb_fuel() -> nat {
    0x1_0000_0000
}

proof fn lemma_sym_diff_increasing(a: Seq<u32>, b: Seq<u32>)
    requires
        increasing(a),
        increasing(b),
    ensures
        increasing(sym_diff(a, b)),
        forall|i: int| 0 <= i < sym_diff(a, b).len() ==> (a.contains(#[trigger] sym_diff(a, b)[i]) || b.contains(
            sym_diff(a, b)[i])),
    decreases a.len() + b.len(),
{
    if a.len() == 0 || b.len() == 0 {
    } else if a[0] < b[0] {
        lemma_sym_diff_increasing(a.drop_first(), b);
        let r = sym_diff(a.drop_first(), b);
        assert forall|i: int| 0 <= i < r.len() implies a[0] < #[trigger] r[i] by {
            if a.drop_first().contains(r[i]) {
                let k = choose|k: int| 0 <= k < a.drop_first().len() && a.drop_first()[k] == r[i];
                assert(a[k + 1] == r[i]);
            } else {
                let k = choose|k: int| 0 <= k < b.len() && b[k] == r[i];
                if k > 0 {
                    assert(b[0] < b[k]);
                }
            }
        }
        let s = seq![a[0]] + r;
        assert forall|i: int| 0 <= i < s.len() implies (a.contains(#[trigger] s[i]) || b.contains(s[i])) by {
            if i > 0 {
                assert(s[i] == r[i - 1]);
                if a.drop_first().contains(r[i - 1]) {
                    let k = choose|k: int| 0 <= k < a.drop_first().len() && a.drop_first()[k] == r[i - 1];
                    assert(a[k + 1] == r[i - 1]);
                }
            } else {
                assert(a[0] == s[0]);
            }
        }
    } else if b[0] < a[0] {
        lemma_sym_diff_increasing(a, b.drop_first());
        let r = sym_diff(a, b.drop_first());
        assert forall|i: int| 0 <= i < r.len() implies b[0] < #[trigger] r[i] by {
            if b.drop_first().contains(r[i]) {
                let k = choose|k: int| 0 <= k < b.drop_first().len() && b.drop_first()[k] == r[i];
                assert(b[k + 1] == r[i]);
            } else {
                let k = choose|k: int| 0 <= k < a.len() && a[k] == r[i];
                if k > 0 {
                    assert(a[0] < a[k]);
                }
            }
        }
        let s = seq![b[0]] + r;
        assert forall|i: int| 0 <= i < s.len() implies (a.contains(#[trigger] s[i]) || b.contains(s[i])) by {
            if i > 0 {
                assert(s[i] == r[i - 1]);
                if b.drop_first().contains(r[i - 1]) {
                    let k = choose|k: int| 0 <= k < b.drop_first().len() && b.drop_first()[k] == r[i - 1];
                    assert(b[k + 1] == r[i - 1]);
                }
            } else {
                assert(b[0] == s[0]);
            }
        }
    } else {
        lemma_sym_diff_increasing(a.drop_first(), b.drop_first());
        let r = sym_diff(a.drop_first(), b.drop_first());
        assert forall|i: int| 0 <= i < r.len() implies (a.contains(#[trigger] r[i]) || b.contains(r[i])) by {
            if a.drop_first().contains(r[i]) {
                let k = choose|k: int| 0 <= k < a.drop_first().len() && a.drop_first()[k] == r[i];
                assert(a[k + 1] == r[i]);
            } else {
                let k = choose|k: int| 0 <= k < b.drop_first().len() && b.drop_first()[k] == r[i];
                assert(b[k + 1] == r[i]);
            }
        }
    }
}

/// The GF(2) sum of two increasing supports.
fn sym_diff_exec(a: &Vec<u32>, b: &Vec<u32>) -> (r: Vec<u32>)
    ensures
        r@ == sym_diff(a@, b@),
{
    let mut r: Vec<u32> = Vec::new();
    let mut i: usize = 0;
    let mut j: usize = 0;
    proof {
        assert(a@.skip(0) =~= a@);
        assert(b@.skip(0) =~= b@);
        assert(r@ + sym_diff(a@, b@) =~= sym_diff(a@, b@));
    }
    while i < a.len() || j < b.len()
        invariant
            i <= a@.len(),
            j <= b@.len(),
            sym_diff(a@, b@) == r@ + sym_diff(a@.skip(i as int), b@.skip(j as int)),
        decreases a@.len() + b@.len() - i - j,
    {
        let ghost sa = a@.skip(i as int);
        let ghost sb = b@.skip(j as int);
        if i == a.len() {
            proof {
                assert(sym_diff(sa, sb) == sb);
                assert(sb =~= seq![b@[j as int]] + b@.skip(j + 1));
                assert(sym_diff(Seq::<u32>::empty(), b@.skip(j + 1)) == b@.skip(j + 1));
                assert(sa =~= Seq::<u32>::empty());
            }
            r.push(b[j]);
            j += 1;
            proof {
                assert(r@ + sym_diff(a@.skip(i as int), b@.skip(j as int)) =~= r@.drop_last() + sb);
            }
        } else if j == b.len() {
            proof {
                assert(sym_diff(sa, sb) == sa);
                assert(sb =~= Seq::<u32>::empty());
            }
            r.push(a[i]);
            i += 1;
            proof {
                assert(sym_diff(a@.skip(i as int), b@.skip(j as int)) == a@.skip(i as int));
                assert(r@ + a@.skip(i as int) =~= r@.drop_last() + sa);
            }
        } else if a[i] < b[j] {
            proof {
                assert(sa.drop_first() =~= a@.skip(i + 1));
                assert(sa[0] == a@[i as int] && sb[0] == b@[j as int]);
            }
            r.push(a[i]);
            i += 1;
            proof {
                assert(r@ + sym_diff(a@.skip(i as int), b@.skip(j as int)) =~= r@.drop_last() + sym_diff(sa, sb));
            }
        } else if b[j] < a[i] {
            proof {
                assert(sb.drop_first() =~= b@.skip(j + 1));
                assert(sa[0] == a@[i as int] && sb[0] == b@[j as int]);
            }
            r.push(b[j]);
            j += 1;
            proof {
                assert(r@ + sym_diff(a@.skip(i as int), b@.skip(j as int)) =~= r@.drop_last() + sym_diff(sa, sb));
            }
        } else {
            proof {
                assert(sa.drop_first() =~= a@.skip(i + 1));
                assert(sb.drop_first() =~= b@.skip(j + 1));
                assert(sa[0] == a@[i as int] && sb[0] == b@[j as int]);
            }
            i += 1;
            j += 1;
        }
    }
    proof {
        assert(a@.skip(i as int) =~= Seq::<u32>::empty());
        assert(b@.skip(j as int) =~= Seq::<u32>::empty());
        assert(r@ + Seq::<u32>::empty() =~= r@);
    }
    r
}

/// Every variable of `s` is below `n`.
pub open spec fn below(s: Seq<u32>, n: nat) -> bool {
    forall|i: int| 0 <= i < s.len() ==> (#[trigger] s[i]) < n
}

/// An echelon basis over `n` variables: the row stored at `p` is increasing, starts at `p`
/// and uses variables below `n`.
pub open spec fn basis_ok(b: Seq<Option<Seq<u32>>>) -> bool {
    forall|p: int| 0 <= p < b.len() && (#[trigger] b[p]) is Some ==> increasing(b[p]->0) && below(b[p]->0,
        b.len()) && b[p]->0.len() > 0 && b[p]->0[0] == p
}

proof fn lemma_sym_diff_below(a: Seq<u32>, b: Seq<u32>, n: nat)
    requires
        increasing(a),
        increasing(b),
        below(a, n),
        below(b, n),
    ensures
        increasing(sym_diff(a, b)),
        below(sym_diff(a, b), n),
{
    lemma_sym_diff_increasing(a, b);
    let r = sym_diff(a, b);
    assert forall|i: int| 0 <= i < r.len() implies (#[trigger] r[i]) < n by {
        if a.contains(r[i]) {
            let k = choose|k: int| 0 <= k < a.len() && a[k] == r[i];
        } else {
            let k = choose|k: int| 0 <= k < b.len() && b[k] == r[i];
        }
    }
}

proof fn lemma_row_of(vs: Seq<u32>, n: nat)
    requires
        below(vs, n),
    ensures
        increasing(row_of(vs)),
        below(row_of(vs), n),
    decreases vs.len(),
{
    if vs.len() > 0 {
        assert(below(vs.drop_last(), n));
        lemma_row_of(vs.drop_last(), n);
        lemma_sym_diff_below(row_of(vs.drop_last()), seq![vs.last()], n);
    }
}

/// The basis as sequences.
pub open spec fn basis_view(b: Seq<Option<Vec<u32>>>) -> Seq<Option<Seq<u32>>> {
    Seq::new(b.len(), |i: int| match b[i] {
        Some(r) => Some(r@),
        None => None,
    })
}

fn copy_row(s: &Vec<u32>) -> (r: Vec<u32>)
    ensures
        r@ == s@,
{
    let mut r: Vec<u32> = Vec::new();
    let mut i: usize = 0;
    while i < s.len()
        invariant
            i <= s@.len(),
            r@ == s@.take(i as int),
        decreases s@.len() - i,
    {
        proof {
            assert(s@.take(i + 1) =~= s@.take(i as int).push(s@[i as int]));
        }
        r.push(s[i]);
        i += 1;
    }
    proof {
        assert(s@.take(s@.len() as int) =~= s@);
    }
    r
}

/// Fold a freshly sampled row into the running GF(2) echelon basis (rows keyed by their least
/// variable). Returns `true` and extends the basis if the row is independent of those seen so
/// far, `false` if it lies in their span.
fn gf2_absorb(basis: &mut Vec<Option<Vec<u32>>>, vars: &Vec<u32>) -> (fresh: bool)
    requires
        basis_ok(basis_view(old(basis)@)),
        below(vars@, old(basis)@.len() as nat),
    ensures
        basis_ok(basis_view(final(basis)@)),
        final(basis)@.len() == old(basis)@.len(),
        (fresh, basis_view(final(basis)@)) == absorb(basis_view(old(basis)@), row_of(vars@), absorb_fuel()),
{
    let mut row: Vec<u32> = Vec::new();
    let mut k: usize = 0;
    while k < vars.len()
        invariant
            k <= vars@.len(),
            row@ == row_of(vars@.take(k as int)),
        decreases vars@.len() - k,
    {
        let single = vec![vars[k]];
        proof {
            assert(vars@.take(k + 1).drop_last() =~= vars@.take(k as int));
            assert(single@ =~= seq![vars@.take(k + 1).last()]);
        }
        row = sym_diff_exec(&row, &single);
        k += 1;
    }
    proof {
        assert(vars@.take(k as int) =~= vars@);
        lemma_row_of(vars@, basis@.len() as nat);
    }
    let ghost n = basis@.len() as nat;
    let mut fuel: u64 = 0x1_0000_0000;
    while row.len() > 0 && fuel > 0
        invariant
            n == basis@.len(),
            basis@.len() == old(basis)@.len(),
            basis_ok(basis_view(basis@)),
            increasing(row@),
            below(row@, n),
            absorb(basis_view(old(basis)@), row_of(vars@), absorb_fuel()) == absorb(basis_view(basis@), row@, fuel as nat),
        decreases fuel,
    {
        let p = row[0] as usize;
        if p < basis.len() {
            match &basis[p] {
                Some(b) => {
                    proof {
                        assert(basis_view(basis@)[p as int] == Some(b@));
                        lemma_sym_diff_below(row@, b@, n);
                    }
                    let next = sym_diff_exec(&row, b);
                    row = next;
                    fuel -= 1;
                },
                None => {
                    let stored = copy_row(&row);
                    let ghost before = basis_view(basis@);
                    basis.set(p, Some(stored));
                    proof {
                        assert(basis_view(basis@) =~= before.update(p as int, Some(row@)));
                        assert forall|i: int, j: int| 0 <= i < j < row@.len() implies row@[i] < row@[j] by {}
                        assert(row@[0] == p);
                    }
                    return true;
                },
            }
        } else {
            proof {
                assert(row@[0] < n);
            }
            return true;
        }
    }
    false
}

// ---------------------------------------------------------------------------
// The planted system
// ---------------------------------------------------------------------------

/// The first `i` planted values (`true` when the output is even) and the state after them.
pub open spec fn planted_stream(s: u64, i: nat) -> (Seq<bool>, u64)
    decreases i,
{
    if i == 0 {
        (Seq::empty(), s)
    } else {
        let (p, s1) = planted_stream(s, (i - 1) as nat);
        let s2 = sm_advance(s1);
        (p.push(sm_mix(s2) & 1u64 == 0u64), s2)
    }
}

/// The XOR of the planted values of `vs[..i]`.
pub open spec fn planted_parity(vs: Seq<u32>, planted: Seq<bool>, i: nat) -> bool
    decreases i,
{
    if i == 0 { false } else { planted_parity(vs, planted, (i - 1) as nat) != planted[vs[i - 1] as int] }
}

/// The consistent rows: draw rows with right-hand sides consistent with `planted`, folding each
/// into the basis, until the rank reaches `target` and there are at least `m` rows — or the
/// row count reaches `cap`.
pub open spec fn consistent_rows(
    s: u64,
    basis: Seq<Option<Seq<u32>>>,
    rows: Seq<(Seq<u32>, bool)>,
    rank: nat,
    planted: Seq<bool>,
    k: nat,
    n: nat,
    m: nat,
    target: nat,
    cap: nat,
) -> (Seq<(Seq<u32>, bool)>, u64)
    decreases cap - rows.len(),
{
    if (rank < target || rows.len() < m) && rows.len() < cap {
        let (vs, s1) = draw_distinct(s, k, n, Seq::empty(), draw_fuel());
        let (fresh, b1) = absorb(basis, row_of(vs), absorb_fuel());
        consistent_rows(s1, b1, rows.push((vs, planted_parity(vs, planted, vs.len()))), if fresh { rank + 1 } else {
            rank }, planted, k, n, m, target, cap)
    } else {
        (rows, s)
    }
}

/// The rank a `k`-XOR system over `n` variables can reach: `n` for odd `k`, `n − 1` for even.
pub open spec fn target_rank(k: nat, n: nat) -> nat {
    if k % 2 == 1 { n } else if n == 0 { 0 } else { (n - 1) as nat }
}

/// The rows of `random_kxor(k, n, m, seed)`: the consistent rows, then one more row whose
/// right-hand side is flipped.
pub open spec fn kxor_rows(k: nat, n: nat, m: nat, seed: u64) -> Seq<(Seq<u32>, bool)> {
    let (planted, s1) = planted_stream(seed, n);
    let (rows, s2) = consistent_rows(s1, Seq::new(n, |i: int| None), Seq::empty(), 0, planted, k, n, m,
        target_rank(k, n), 8 * n + 64);
    let (vs, s3) = draw_distinct(s2, k, n, Seq::empty(), draw_fuel());
    rows.push((vs, !planted_parity(vs, planted, vs.len())))
}

/// The variables of a row as equation indices.
pub open spec fn as_indices(vs: Seq<u32>) -> Seq<usize> {
    Seq::new(vs.len(), |i: int| vs[i] as usize)
}

/// The XOR equations are the rows.
pub open spec fn equations_of(eqs: Seq<XorEquation>, rows: Seq<(Seq<u32>, bool)>) -> bool {
    &&& eqs.len() == rows.len()
    &&& forall|i: int| 0 <= i < rows.len() ==> (#[trigger] eqs[i]).vars@ == as_indices(rows[i].0) && eqs[i].rhs
        == rows[i].1
}

/// The CNF of the rows, equation by equation.
pub open spec fn rows_cnf(rows: Seq<(Seq<u32>, bool)>) -> Seq<Seq<Lit>> {
    Seq::new(rows.len(), |i: int| xor_cnf(rows[i].0, rows[i].1)).flatten()
}

/// The rows as sequences.
pub open spec fn rows_view(rows: Seq<(Vec<u32>, bool)>) -> Seq<(Seq<u32>, bool)> {
    Seq::new(rows.len(), |i: int| (rows[i].0@, rows[i].1))
}

proof fn lemma_draw_shape(s: u64, k: nat, vars: nat, vs: Seq<u32>, fuel: nat)
    requires
        vars > 0,
        vars <= 0x1_0000_0000,
        below(vs, vars),
        vs.len() <= k,
    ensures
        below(draw_distinct(s, k, vars, vs, fuel).0, vars),
        draw_distinct(s, k, vars, vs, fuel).0.len() <= k,
    decreases fuel,
{
    if vs.len() >= k || fuel == 0 {
    } else {
        let s1 = sm_advance(s);
        let v = crate::families::random::draw_var(sm_mix(s1), vars);
        assert(((sm_mix(s1) as usize) as nat % vars) < vars);
        if vs.contains(v) {
            lemma_draw_shape(s1, k, vars, vs, (fuel - 1) as nat);
        } else {
            assert(below(vs.push(v), vars));
            lemma_draw_shape(s1, k, vars, vs.push(v), (fuel - 1) as nat);
        }
    }
}

fn planted_values(rng: &mut SplitMix64, n: usize) -> (p: Vec<bool>)
    ensures
        (p@, final(rng).state) == planted_stream(old(rng).state, n as nat),
        p@.len() == n,
{
    let mut p: Vec<bool> = Vec::new();
    let mut i: usize = 0;
    while i < n
        invariant
            i <= n,
            p@.len() == i,
            (p@, rng.state) == planted_stream(old(rng).state, i as nat),
        decreases n - i,
    {
        let out = rng.next();
        p.push(out & 1u64 == 0u64);
        i += 1;
    }
    p
}

fn planted_xor(vs: &Vec<u32>, planted: &Vec<bool>) -> (r: bool)
    requires
        below(vs@, planted@.len() as nat),
    ensures
        r == planted_parity(vs@, planted@, vs@.len()),
{
    let mut a = false;
    let mut i: usize = 0;
    while i < vs.len()
        invariant
            i <= vs@.len(),
            below(vs@, planted@.len() as nat),
            a == planted_parity(vs@, planted@, i as nat),
        decreases vs@.len() - i,
    {
        a = a != planted[vs[i] as usize];
        i += 1;
    }
    a
}

fn indices_of(vs: &Vec<u32>) -> (r: Vec<usize>)
    ensures
        r@ == as_indices(vs@),
{
    let mut r: Vec<usize> = Vec::new();
    let mut i: usize = 0;
    while i < vs.len()
        invariant
            i <= vs@.len(),
            r@ == as_indices(vs@).take(i as int),
        decreases vs@.len() - i,
    {
        proof {
            assert(as_indices(vs@).take(i + 1) =~= as_indices(vs@).take(i as int).push(vs@[i as int] as usize));
        }
        r.push(vs[i] as usize);
        i += 1;
    }
    proof {
        assert(as_indices(vs@).take(vs@.len() as int) =~= as_indices(vs@));
    }
    r
}

/// A random `k`-XOR system over `n` variables, inconsistent by construction: at least `m`
/// equations of `k` distinct variables consistent with a planted assignment, drawn until the
/// coefficient matrix reaches its maximal GF(2) rank (`n` for odd `k`, `n − 1` for even `k`)
/// or `8n + 64` rows, then one more equation with its right-hand side flipped. Returns the XOR
/// equations and the equisatisfiable CNF.
pub fn random_kxor(k: usize, n: usize, m: usize, seed: u64) -> (res: (Vec<XorEquation>, DimacsCnf))
    requires
        1 <= k <= n,
        m >= 1,
        k < 32,
        n <= 0x1_0000_0000,
        8 * n + 64 <= usize::MAX,
    ensures
        equations_of(res.0@, kxor_rows(k as nat, n as nat, m as nat, seed)),
        res.1.num_vars == n,
        res.1.cls() == rows_cnf(kxor_rows(k as nat, n as nat, m as nat, seed)),
{
    let mut rng = SplitMix64 { state: seed };
    let planted = planted_values(&mut rng, n);
    let ghost s1 = rng.state;
    let target = if k % 2 == 1 { n } else { n.saturating_sub(1) };
    let cap = 8 * n + 64;
    let mut basis: Vec<Option<Vec<u32>>> = Vec::new();
    let mut i: usize = 0;
    while i < n
        invariant
            i <= n,
            basis@.len() == i,
            forall|j: int| 0 <= j < i ==> basis@[j] is None,
        decreases n - i,
    {
        basis.push(None);
        i += 1;
    }
    proof {
        assert(basis_view(basis@) =~= Seq::new(n as nat, |i: int| None::<Seq<u32>>));
    }
    let ghost b0 = basis_view(basis@);
    let mut rows: Vec<(Vec<u32>, bool)> = Vec::new();
    let mut rank: usize = 0;
    proof {
        assert(rows_view(rows@) =~= Seq::<(Seq<u32>, bool)>::empty());
    }
    while (rank < target || rows.len() < m) && rows.len() < cap
        invariant
            1 <= k <= n,
            k < 32,
            n <= 0x1_0000_0000,
            planted@.len() == n,
            basis@.len() == n,
            basis_ok(basis_view(basis@)),
            rows@.len() <= cap,
            rank <= rows@.len(),
            forall|i: int| 0 <= i < rows@.len() ==> (#[trigger] rows@[i]).0@.len() <= k,
            consistent_rows(s1, b0, Seq::empty(), 0, planted@, k as nat, n as nat, m as nat, target as nat, cap as nat)
                == consistent_rows(rng.state, basis_view(basis@), rows_view(rows@), rank as nat, planted@, k as nat,
                n as nat, m as nat, target as nat, cap as nat),
        decreases cap - rows@.len(),
    {
        let ghost s = rng.state;
        let vs = draw_vars(&mut rng, k, n);
        proof {
            lemma_draw_shape(s, k as nat, n as nat, Seq::empty(), draw_fuel());
        }
        let fresh = gf2_absorb(&mut basis, &vs);
        let rhs = planted_xor(&vs, &planted);
        let ghost before = rows_view(rows@);
        rows.push((vs, rhs));
        proof {
            assert(rows_view(rows@) =~= before.push((vs@, rhs)));
        }
        if fresh {
            rank += 1;
        }
    }
    let ghost s2 = rng.state;
    let vs = draw_vars(&mut rng, k, n);
    proof {
        lemma_draw_shape(s2, k as nat, n as nat, Seq::empty(), draw_fuel());
    }
    let rhs = !planted_xor(&vs, &planted);
    let ghost before = rows_view(rows@);
    rows.push((vs, rhs));
    proof {
        assert(rows_view(rows@) =~= before.push((vs@, rhs)));
        assert(rows_view(rows@) == kxor_rows(k as nat, n as nat, m as nat, seed));
    }
    let ghost rv = rows_view(rows@);
    let mut eqs: Vec<XorEquation> = Vec::new();
    let mut clauses: Vec<Vec<Lit>> = Vec::new();
    let ghost f = |i: int| xor_cnf(rv[i].0, rv[i].1);
    let mut i: usize = 0;
    while i < rows.len()
        invariant
            i <= rows@.len(),
            rv == rows_view(rows@),
            f == (|i: int| xor_cnf(rv[i].0, rv[i].1)),
            forall|i: int| 0 <= i < rows@.len() ==> (#[trigger] rows@[i]).0@.len() <= k,
            k < 32,
            eqs@.len() == i,
            forall|j: int| 0 <= j < i ==> (#[trigger] eqs@[j]).vars@ == as_indices(rv[j].0) && eqs@[j].rhs == rv[j].1,
            clauses_view(clauses@) == Seq::new(i as nat, f).flatten(),
        decreases rows@.len() - i,
    {
        let vars = indices_of(&rows[i].0);
        eqs.push(XorEquation::new(vars, rows[i].1));
        push_xor_clauses(&mut clauses, rows[i].0.as_slice(), rows[i].1);
        proof {
            lemma_flatten_new_push(i as nat, f);
        }
        i += 1;
    }
    proof {
        assert(Seq::new(rv.len(), f) =~= Seq::new(rv.len(), |i: int| xor_cnf(rv[i].0, rv[i].1)));
    }
    (eqs, DimacsCnf { num_vars: n, clauses })
}

/// A random 3-XOR system over `n` variables, inconsistent by construction: [`random_kxor`]
/// with `k = 3`.
pub fn parity_unsat(n: usize, m: usize, seed: u64) -> (res: (Vec<XorEquation>, DimacsCnf))
    requires
        3 <= n,
        m >= 1,
        n <= 0x1_0000_0000,
        8 * n + 64 <= usize::MAX,
    ensures
        equations_of(res.0@, kxor_rows(3, n as nat, m as nat, seed)),
        res.1.num_vars == n,
        res.1.cls() == rows_cnf(kxor_rows(3, n as nat, m as nat, seed)),
{
    random_kxor(3, n, m, seed)
}


// ---------------------------------------------------------------------------
// At full rank the flipped row makes the system inconsistent
// ---------------------------------------------------------------------------

/// The XOR of the values `a` gives the variables of the row `r`.
pub open spec fn dot(a: spec_fn(u32) -> bool, r: Seq<u32>) -> bool
    decreases r.len(),
{
    if r.len() == 0 { false } else { a(r[0]) != dot(a, r.drop_first()) }
}

/// The planted values as an assignment.
pub open spec fn planted_fn(planted: Seq<bool>) -> spec_fn(u32) -> bool {
    |v: u32| planted[v as int]
}

/// The assignment `x` gives the row `r` the planted XOR.
pub open spec fn agrees(x: spec_fn(u32) -> bool, planted: Seq<bool>, r: Seq<u32>) -> bool {
    dot(x, r) == dot(planted_fn(planted), r)
}

/// Every row of the basis gets the planted XOR from `x`.
pub open spec fn basis_agrees(x: spec_fn(u32) -> bool, planted: Seq<bool>, b: Seq<Option<Seq<u32>>>) -> bool {
    forall|q: int| 0 <= q < b.len() && (#[trigger] b[q]) is Some ==> agrees(x, planted, b[q]->0)
}

/// The number of stored rows.
pub open spec fn count_some(b: Seq<Option<Seq<u32>>>) -> nat
    decreases b.len(),
{
    if b.len() == 0 { 0 } else { count_some(b.drop_last()) + if b.last() is Some { 1nat } else { 0nat } }
}

/// The XOR over a GF(2) sum is the XOR of the XORs.
proof fn lemma_dot_sym_diff(a: spec_fn(u32) -> bool, r1: Seq<u32>, r2: Seq<u32>)
    ensures
        dot(a, sym_diff(r1, r2)) == (dot(a, r1) != dot(a, r2)),
    decreases r1.len() + r2.len(),
{
    if r1.len() == 0 || r2.len() == 0 {
    } else if r1[0] < r2[0] {
        lemma_dot_sym_diff(a, r1.drop_first(), r2);
        let t = sym_diff(r1.drop_first(), r2);
        assert((seq![r1[0]] + t).drop_first() =~= t);
    } else if r2[0] < r1[0] {
        lemma_dot_sym_diff(a, r1, r2.drop_first());
        let t = sym_diff(r1, r2.drop_first());
        assert((seq![r2[0]] + t).drop_first() =~= t);
    } else {
        lemma_dot_sym_diff(a, r1.drop_first(), r2.drop_first());
    }
}

/// The XOR over the support of `vs` is the XOR over `vs`.
proof fn lemma_dot_row_of(a: spec_fn(u32) -> bool, vs: Seq<u32>)
    ensures
        dot(a, row_of(vs)) == xor_value(a, vs),
    decreases vs.len(),
{
    if vs.len() > 0 {
        let init = vs.drop_last();
        lemma_dot_row_of(a, init);
        lemma_dot_sym_diff(a, row_of(init), seq![vs.last()]);
        assert(seq![vs.last()].drop_first() =~= Seq::<u32>::empty());
        assert(dot(a, Seq::<u32>::empty()) == false);
        assert(dot(a, seq![vs.last()]) == a(vs.last()));
        lemma_parity_ext(|t: int| a(init[t]), |t: int| a(vs[t]), init.len());
        assert(xor_value(a, init) == parity_of(|t: int| a(init[t]), init.len()));
        assert(xor_value(a, vs) == parity_of(|t: int| a(vs[t]), vs.len()));
        assert(parity_of(|t: int| a(vs[t]), vs.len()) == (parity_of(|t: int| a(vs[t]), init.len()) != a(vs[init.len() as int])));
    }
}

/// The planted parity of `vs[..i]` is the XOR of the planted values.
proof fn lemma_planted_parity(vs: Seq<u32>, planted: Seq<bool>, i: nat)
    requires
        i <= vs.len(),
    ensures
        planted_parity(vs, planted, i) == parity_of(|t: int| planted_fn(planted)(vs[t]), i),
    decreases i,
{
    if i > 0 {
        lemma_planted_parity(vs, planted, (i - 1) as nat);
    }
}

/// A consistent row gets the planted XOR from an assignment that satisfies it.
proof fn lemma_row_agrees(x: spec_fn(u32) -> bool, planted: Seq<bool>, vs: Seq<u32>)
    requires
        xor_value(x, vs) == planted_parity(vs, planted, vs.len()),
    ensures
        agrees(x, planted, row_of(vs)),
{
    lemma_dot_row_of(x, vs);
    lemma_dot_row_of(planted_fn(planted), vs);
    lemma_planted_parity(vs, planted, vs.len());
}

/// Storing a row where none was adds one to the count.
proof fn lemma_count_update(b: Seq<Option<Seq<u32>>>, p: int, r: Seq<u32>)
    requires
        0 <= p < b.len(),
        b[p] is None,
    ensures
        count_some(b.update(p, Some(r))) == count_some(b) + 1,
    decreases b.len(),
{
    let u = b.update(p, Some(r));
    assert(u.drop_last() =~= if p == b.len() - 1 { b.drop_last() } else { b.drop_last().update(p, Some(r)) });
    if p < b.len() - 1 {
        lemma_count_update(b.drop_last(), p, r);
    }
}

/// The count never exceeds the length, and reaches it only when every slot holds a row.
proof fn lemma_count_full(b: Seq<Option<Seq<u32>>>)
    ensures
        count_some(b) <= b.len(),
        count_some(b) >= b.len() ==> forall|q: int| 0 <= q < b.len() ==> (#[trigger] b[q]) is Some,
    decreases b.len(),
{
    if b.len() > 0 {
        lemma_count_full(b.drop_last());
        if count_some(b) >= b.len() {
            assert forall|q: int| 0 <= q < b.len() implies (#[trigger] b[q]) is Some by {
                if q < b.len() - 1 {
                    assert(b.drop_last()[q] == b[q]);
                }
            }
        }
    }
}

/// An empty basis stores nothing.
proof fn lemma_count_empty(n: nat)
    ensures
        count_some(Seq::new(n, |i: int| None::<Seq<u32>>)) == 0,
    decreases n,
{
    if n > 0 {
        lemma_count_empty((n - 1) as nat);
        assert(Seq::new(n, |i: int| None::<Seq<u32>>).drop_last() =~= Seq::new((n - 1) as nat, |i: int| None::<Seq<u32>>));
    }
}

/// Folding an agreeing row into an agreeing echelon basis keeps it an agreeing echelon basis,
/// and adds one stored row exactly when the fold reports a fresh row.
proof fn lemma_absorb_agrees(basis: Seq<Option<Seq<u32>>>, row: Seq<u32>, fuel: nat, x: spec_fn(u32) -> bool,
    planted: Seq<bool>)
    requires
        basis_ok(basis),
        basis_agrees(x, planted, basis),
        increasing(row),
        below(row, basis.len() as nat),
        agrees(x, planted, row),
    ensures
        absorb(basis, row, fuel).1.len() == basis.len(),
        basis_ok(absorb(basis, row, fuel).1),
        basis_agrees(x, planted, absorb(basis, row, fuel).1),
        count_some(absorb(basis, row, fuel).1) == count_some(basis) + if absorb(basis, row, fuel).0 { 1nat } else { 0nat },
    decreases fuel,
{
    if row.len() == 0 || fuel == 0 {
    } else {
        let p = row[0] as int;
        let n = basis.len() as nat;
        assert(p < n);
        if basis[p] is Some {
            let b = basis[p]->0;
            lemma_sym_diff_below(row, b, n);
            lemma_dot_sym_diff(x, row, b);
            lemma_dot_sym_diff(planted_fn(planted), row, b);
            lemma_absorb_agrees(basis, sym_diff(row, b), (fuel - 1) as nat, x, planted);
        } else {
            let u = basis.update(p, Some(row));
            assert forall|q: int| 0 <= q < u.len() && (#[trigger] u[q]) is Some implies increasing(u[q]->0) && below(
                u[q]->0, u.len() as nat) && u[q]->0.len() > 0 && u[q]->0[0] == q by {
                if q != p {
                    assert(u[q] == basis[q]);
                }
            }
            assert forall|q: int| 0 <= q < u.len() && (#[trigger] u[q]) is Some implies agrees(x, planted, u[q]->0) by {
                if q != p {
                    assert(u[q] == basis[q]);
                }
            }
            lemma_count_update(basis, p, row);
        }
    }
}

/// With a row stored at every pivot, every row reduces to nothing, so every row gets the
/// planted XOR from `x`.
proof fn lemma_full_basis_agrees(basis: Seq<Option<Seq<u32>>>, row: Seq<u32>, x: spec_fn(u32) -> bool,
    planted: Seq<bool>)
    requires
        basis_ok(basis),
        basis_agrees(x, planted, basis),
        forall|q: int| 0 <= q < basis.len() ==> (#[trigger] basis[q]) is Some,
        increasing(row),
        below(row, basis.len() as nat),
    ensures
        agrees(x, planted, row),
    decreases if row.len() == 0 { 0 } else { basis.len() - row[0] },
{
    if row.len() > 0 {
        let n = basis.len() as nat;
        let p = row[0] as int;
        let b = basis[p]->0;
        assert(basis[p] is Some);
        let r1 = sym_diff(row, b);
        lemma_sym_diff_below(row, b, n);
        assert(r1 == sym_diff(row.drop_first(), b.drop_first()));
        lemma_sym_diff_increasing(row.drop_first(), b.drop_first());
        if r1.len() > 0 {
            if row.drop_first().contains(r1[0]) {
                let k = choose|k: int| 0 <= k < row.drop_first().len() && row.drop_first()[k] == r1[0];
                assert(row[0] < row[k + 1]);
            } else {
                let k = choose|k: int| 0 <= k < b.drop_first().len() && b.drop_first()[k] == r1[0];
                assert(b[0] < b[k + 1]);
            }
        }
        lemma_full_basis_agrees(basis, r1, x, planted);
        lemma_dot_sym_diff(x, row, b);
        lemma_dot_sym_diff(planted_fn(planted), row, b);
    }
}

/// Each step of the consistent phase appends one row: the rows so far stay a prefix.
proof fn lemma_consistent_prefix(
    s: u64,
    basis: Seq<Option<Seq<u32>>>,
    rows: Seq<(Seq<u32>, bool)>,
    rank: nat,
    planted: Seq<bool>,
    k: nat,
    n: nat,
    m: nat,
    target: nat,
    cap: nat,
)
    ensures
        consistent_rows(s, basis, rows, rank, planted, k, n, m, target, cap).0.len() >= rows.len(),
        forall|i: int| 0 <= i < rows.len() ==> #[trigger] consistent_rows(s, basis, rows, rank, planted, k, n, m,
            target, cap).0[i] == rows[i],
    decreases cap - rows.len(),
{
    if (rank < target || rows.len() < m) && rows.len() < cap {
        let (vs, s1) = draw_distinct(s, k, n, Seq::empty(), draw_fuel());
        let (fresh, b1) = absorb(basis, row_of(vs), absorb_fuel());
        let rows1 = rows.push((vs, planted_parity(vs, planted, vs.len())));
        lemma_consistent_prefix(s1, b1, rows1, if fresh { rank + 1 } else { rank }, planted, k, n, m, target, cap);
        assert forall|i: int| 0 <= i < rows.len() implies #[trigger] consistent_rows(s, basis, rows, rank, planted, k, n,
            m, target, cap).0[i] == rows[i] by {
            assert(rows1[i] == rows[i]);
        }
    }
}

/// Through the consistent phase, an assignment satisfying every drawn row keeps the echelon
/// basis agreeing with the planted values; if the phase stops below its cap, the basis holds
/// at least `target` rows.
proof fn lemma_consistent_basis(
    s: u64,
    basis: Seq<Option<Seq<u32>>>,
    rows: Seq<(Seq<u32>, bool)>,
    rank: nat,
    planted: Seq<bool>,
    k: nat,
    n: nat,
    m: nat,
    target: nat,
    cap: nat,
    x: spec_fn(u32) -> bool,
) -> (bf: Seq<Option<Seq<u32>>>)
    requires
        1 <= n <= 0x1_0000_0000,
        basis.len() == n,
        basis_ok(basis),
        basis_agrees(x, planted, basis),
        count_some(basis) == rank,
        forall|i: int| rows.len() <= i < consistent_rows(s, basis, rows, rank, planted, k, n, m, target, cap).0.len()
            ==> xor_value(x, #[trigger] consistent_rows(s, basis, rows, rank, planted, k, n, m, target, cap).0[i].0)
            == consistent_rows(s, basis, rows, rank, planted, k, n, m, target, cap).0[i].1,
        k % 2 == 0 ==> basis_even(basis),
        k % 2 == 0 ==> forall|i: int| rows.len() <= i < consistent_rows(s, basis, rows, rank, planted, k, n, m, target,
            cap).0.len() ==> (#[trigger] consistent_rows(s, basis, rows, rank, planted, k, n, m, target, cap).0[i]).0.len()
            == k,
    ensures
        bf.len() == n,
        basis_ok(bf),
        basis_agrees(x, planted, bf),
        consistent_rows(s, basis, rows, rank, planted, k, n, m, target, cap).0.len() < cap ==> count_some(bf) >= target,
        k % 2 == 0 ==> basis_even(bf),
    decreases cap - rows.len(),
{
    if (rank < target || rows.len() < m) && rows.len() < cap {
        let (vs, s1) = draw_distinct(s, k, n, Seq::empty(), draw_fuel());
        lemma_draw_shape(s, k, n, Seq::empty(), draw_fuel());
        lemma_row_of(vs, n);
        let (fresh, b1) = absorb(basis, row_of(vs), absorb_fuel());
        let rows1 = rows.push((vs, planted_parity(vs, planted, vs.len())));
        let rank1 = if fresh { rank + 1 } else { rank };
        let fin = consistent_rows(s, basis, rows, rank, planted, k, n, m, target, cap).0;
        assert(fin == consistent_rows(s1, b1, rows1, rank1, planted, k, n, m, target, cap).0);
        lemma_consistent_prefix(s1, b1, rows1, rank1, planted, k, n, m, target, cap);
        assert(fin[rows.len() as int] == rows1[rows.len() as int]);
        assert(xor_value(x, fin[rows.len() as int].0) == fin[rows.len() as int].1);
        lemma_row_agrees(x, planted, vs);
        lemma_absorb_agrees(basis, row_of(vs), absorb_fuel(), x, planted);
        if k % 2 == 0 {
            assert(fin[rows.len() as int].0.len() == k);
            lemma_row_of_parity(vs);
            lemma_absorb_even(basis, row_of(vs), absorb_fuel());
        }
        lemma_consistent_basis(s1, b1, rows1, rank1, planted, k, n, m, target, cap, x)
    } else {
        basis
    }
}

/// Every row of `kxor_rows` has at most `k` variables.
proof fn lemma_kxor_rows_shape(k: nat, n: nat, m: nat, seed: u64)
    requires
        1 <= n <= 0x1_0000_0000,
    ensures
        forall|i: int| 0 <= i < kxor_rows(k, n, m, seed).len() ==> (#[trigger] kxor_rows(k, n, m, seed)[i]).0.len() <= k,
{
    let rowsk = kxor_rows(k, n, m, seed);
    let (planted, s1) = planted_stream(seed, n);
    let b0 = Seq::new(n, |i: int| None::<Seq<u32>>);
    let target = target_rank(k, n);
    let cap = 8 * n + 64;
    let (rows, s2) = consistent_rows(s1, b0, Seq::empty(), 0, planted, k, n, m, target, cap);
    let (vs, s3) = draw_distinct(s2, k, n, Seq::empty(), draw_fuel());
    assert(rowsk == rows.push((vs, !planted_parity(vs, planted, vs.len()))));
    assert forall|i: int| 0 <= i < rowsk.len() implies (#[trigger] rowsk[i]).0.len() <= k by {
        if i < rows.len() {
            lemma_consistent_prefix_shape(s1, b0, Seq::empty(), 0, planted, k, n, m, target, cap, i);
        } else {
            lemma_draw_shape(s2, k, n, Seq::empty(), draw_fuel());
        }
    }
}

/// An assignment satisfying the CNF of the rows gives each row its right-hand side.
proof fn lemma_rows_satisfied(x: spec_fn(u32) -> bool, rows: Seq<(Seq<u32>, bool)>)
    requires
        cnf_holds(x, rows_cnf(rows)),
        forall|i: int| 0 <= i < rows.len() ==> (#[trigger] rows[i]).0.len() < 32,
    ensures
        forall|i: int| 0 <= i < rows.len() ==> xor_value(x, (#[trigger] rows[i]).0) == rows[i].1,
{
    let blocks = Seq::new(rows.len(), |i: int| xor_cnf(rows[i].0, rows[i].1));
    assert forall|i: int| 0 <= i < rows.len() implies xor_value(x, (#[trigger] rows[i]).0) == rows[i].1 by {
        crate::families::parity::lemma_cnf_holds_block(x, blocks, i);
        lemma_xor_cnf_encodes(rows[i].0, rows[i].1, x);
    }
}

/// The planted stream holds `i` values.
proof fn lemma_planted_len(s: u64, i: nat)
    ensures
        planted_stream(s, i).0.len() == i,
    decreases i,
{
    if i > 0 {
        lemma_planted_len(s, (i - 1) as nat);
    }
}

/// The verdict of [`random_kxor`] (and of [`parity_unsat`], `k = 3`) for odd `k` is right:
/// once the consistent rows reach full rank `n` — that is, whenever their phase stops below
/// its cap of `8n + 64` rows — every row is a sum of consistent rows, so the row with the
/// flipped right-hand side contradicts them and the clauses are unsatisfiable.
pub proof fn lemma_kxor_unsat(k: nat, n: nat, m: nat, seed: u64)
    requires
        1 <= k <= n,
        k % 2 == 1,
        k < 32,
        n <= 0x1_0000_0000,
        kxor_rows(k, n, m, seed).len() <= 8 * n + 64,
    ensures
        !satisfiable(rows_cnf(kxor_rows(k, n, m, seed))),
{
    let rowsk = kxor_rows(k, n, m, seed);
    if satisfiable(rows_cnf(rowsk)) {
        let x = choose|x: spec_fn(u32) -> bool| cnf_holds(x, rows_cnf(rowsk));
        let (planted, s1) = planted_stream(seed, n);
        lemma_planted_len(seed, n);
        let b0 = Seq::new(n, |i: int| None::<Seq<u32>>);
        let target = target_rank(k, n);
        let cap = 8 * n + 64;
        let (rows, s2) = consistent_rows(s1, b0, Seq::empty(), 0, planted, k, n, m, target, cap);
        let (vs, s3) = draw_distinct(s2, k, n, Seq::empty(), draw_fuel());
        assert(rowsk == rows.push((vs, !planted_parity(vs, planted, vs.len()))));
        // Every row's XOR under x is its right-hand side.
        lemma_kxor_rows_shape(k, n, m, seed);
        lemma_rows_satisfied(x, rowsk);
        assert forall|i: int| 0 <= i < rows.len() implies xor_value(x, #[trigger] rows[i].0) == rows[i].1 by {
            assert(rowsk[i] == rows[i]);
        }
        assert(xor_value(x, rowsk[rows.len() as int].0) == rowsk[rows.len() as int].1);
        assert(rowsk[rows.len() as int] == (vs, !planted_parity(vs, planted, vs.len())));
        assert(xor_value(x, vs) != planted_parity(vs, planted, vs.len()));
        lemma_count_empty(n);
        assert(basis_ok(b0));
        assert(basis_agrees(x, planted, b0));
        let bf = lemma_consistent_basis(s1, b0, Seq::empty(), 0, planted, k, n, m, target, cap, x);
        assert(rows.len() < cap);
        lemma_count_full(bf);
        lemma_draw_shape(s2, k, n, Seq::empty(), draw_fuel());
        lemma_row_of(vs, n);
        lemma_full_basis_agrees(bf, row_of(vs), x, planted);
        lemma_row_agrees_converse(x, planted, vs);
    }
}

/// An assignment that gives the support of `vs` the planted XOR gives `vs` the planted parity.
proof fn lemma_row_agrees_converse(x: spec_fn(u32) -> bool, planted: Seq<bool>, vs: Seq<u32>)
    requires
        agrees(x, planted, row_of(vs)),
    ensures
        xor_value(x, vs) == planted_parity(vs, planted, vs.len()),
{
    lemma_dot_row_of(x, vs);
    lemma_dot_row_of(planted_fn(planted), vs);
    lemma_planted_parity(vs, planted, vs.len());
}

/// Every row of the consistent phase has at most `k` variables.
proof fn lemma_consistent_prefix_shape(
    s: u64,
    basis: Seq<Option<Seq<u32>>>,
    rows: Seq<(Seq<u32>, bool)>,
    rank: nat,
    planted: Seq<bool>,
    k: nat,
    n: nat,
    m: nat,
    target: nat,
    cap: nat,
    i: int,
)
    requires
        1 <= n <= 0x1_0000_0000,
        forall|j: int| 0 <= j < rows.len() ==> (#[trigger] rows[j]).0.len() <= k,
        0 <= i < consistent_rows(s, basis, rows, rank, planted, k, n, m, target, cap).0.len(),
    ensures
        consistent_rows(s, basis, rows, rank, planted, k, n, m, target, cap).0[i].0.len() <= k,
    decreases cap - rows.len(),
{
    if (rank < target || rows.len() < m) && rows.len() < cap {
        let (vs, s1) = draw_distinct(s, k, n, Seq::empty(), draw_fuel());
        lemma_draw_shape(s, k, n, Seq::empty(), draw_fuel());
        let (fresh, b1) = absorb(basis, row_of(vs), absorb_fuel());
        let rows1 = rows.push((vs, planted_parity(vs, planted, vs.len())));
        lemma_consistent_prefix_shape(s1, b1, rows1, if fresh { rank + 1 } else { rank }, planted, k, n, m, target,
            cap, i);
    }
}


// ---------------------------------------------------------------------------
// Even k: rank n − 1 pins the difference from the planted values to a constant
// ---------------------------------------------------------------------------

/// Every stored row has an even number of variables.
pub open spec fn basis_even(b: Seq<Option<Seq<u32>>>) -> bool {
    forall|q: int| 0 <= q < b.len() && (#[trigger] b[q]) is Some ==> (b[q]->0).len() % 2 == 0
}

/// A GF(2) sum has the parity of the two lengths together.
proof fn lemma_sym_diff_len_parity(a: Seq<u32>, b: Seq<u32>)
    ensures
        sym_diff(a, b).len() % 2 == (a.len() + b.len()) % 2,
    decreases a.len() + b.len(),
{
    if a.len() == 0 || b.len() == 0 {
    } else if a[0] < b[0] {
        lemma_sym_diff_len_parity(a.drop_first(), b);
    } else if b[0] < a[0] {
        lemma_sym_diff_len_parity(a, b.drop_first());
    } else {
        lemma_sym_diff_len_parity(a.drop_first(), b.drop_first());
    }
}

/// The support of `vs` has the parity of `vs`'s length.
proof fn lemma_row_of_parity(vs: Seq<u32>)
    ensures
        row_of(vs).len() % 2 == vs.len() % 2,
    decreases vs.len(),
{
    if vs.len() > 0 {
        lemma_row_of_parity(vs.drop_last());
        lemma_sym_diff_len_parity(row_of(vs.drop_last()), seq![vs.last()]);
    }
}

/// Folding an even row into an even basis keeps the basis even.
proof fn lemma_absorb_even(basis: Seq<Option<Seq<u32>>>, row: Seq<u32>, fuel: nat)
    requires
        basis_ok(basis),
        basis_even(basis),
        increasing(row),
        below(row, basis.len() as nat),
        row.len() % 2 == 0,
    ensures
        basis_even(absorb(basis, row, fuel).1),
    decreases fuel,
{
    if row.len() == 0 || fuel == 0 {
    } else {
        let p = row[0] as int;
        assert(p < basis.len());
        if 0 <= p < basis.len() && basis[p] is Some {
            lemma_sym_diff_len_parity(row, basis[p]->0);
            lemma_sym_diff_below(row, basis[p]->0, basis.len() as nat);
            lemma_absorb_even(basis, sym_diff(row, basis[p]->0), (fuel - 1) as nat);
        } else {
            let u = basis.update(p, Some(row));
            assert forall|q: int| 0 <= q < u.len() && (#[trigger] u[q]) is Some implies (u[q]->0).len() % 2 == 0 by {
                if q != p {
                    assert(u[q] == basis[q]);
                }
            }
        }
    }
}

/// The XOR under a pointwise difference is the difference of the XORs.
proof fn lemma_dot_diff(x: spec_fn(u32) -> bool, y: spec_fn(u32) -> bool, r: Seq<u32>)
    ensures
        dot(|v: u32| x(v) != y(v), r) == (dot(x, r) != dot(y, r)),
    decreases r.len(),
{
    if r.len() > 0 {
        lemma_dot_diff(x, y, r.drop_first());
    }
}

/// The XOR of a constant over a row: the constant when the row is odd, `false` when even.
proof fn lemma_dot_const(y: spec_fn(u32) -> bool, c: bool, r: Seq<u32>)
    requires
        forall|i: int| 0 <= i < r.len() ==> y(#[trigger] r[i]) == c,
    ensures
        dot(y, r) == (c && r.len() % 2 == 1),
    decreases r.len(),
{
    if r.len() > 0 {
        assert forall|i: int| 0 <= i < r.drop_first().len() implies y(#[trigger] r.drop_first()[i]) == c by {
            assert(r.drop_first()[i] == r[i + 1]);
        }
        lemma_dot_const(y, c, r.drop_first());
    }
}

/// Two empty slots leave at most `len − 2` rows stored.
proof fn lemma_count_two_none(b: Seq<Option<Seq<u32>>>, z1: int, z2: int)
    requires
        0 <= z1 < b.len(),
        0 <= z2 < b.len(),
        z1 != z2,
        b[z1] is None,
        b[z2] is None,
    ensures
        count_some(b) + 2 <= b.len(),
    decreases b.len(),
{
    let init = b.drop_last();
    lemma_count_full(init);
    if z1 == b.len() - 1 {
        assert(init[z2] == b[z2]);
        lemma_count_one_none(init, z2);
    } else if z2 == b.len() - 1 {
        assert(init[z1] == b[z1]);
        lemma_count_one_none(init, z1);
    } else {
        assert(init[z1] == b[z1] && init[z2] == b[z2]);
        lemma_count_two_none(init, z1, z2);
    }
}

/// A row in every slot: the count is the length.
proof fn lemma_count_all_some(b: Seq<Option<Seq<u32>>>)
    requires
        forall|q: int| 0 <= q < b.len() ==> (#[trigger] b[q]) is Some,
    ensures
        count_some(b) == b.len(),
    decreases b.len(),
{
    if b.len() > 0 {
        let init = b.drop_last();
        assert forall|q: int| 0 <= q < init.len() implies (#[trigger] init[q]) is Some by {
            assert(init[q] == b[q]);
        }
        lemma_count_all_some(init);
        assert(b[b.len() - 1] is Some);
    }
}

/// An empty slot leaves at most `len − 1` rows stored.
proof fn lemma_count_one_none(b: Seq<Option<Seq<u32>>>, z: int)
    requires
        0 <= z < b.len(),
        b[z] is None,
    ensures
        count_some(b) + 1 <= b.len(),
{
    lemma_count_full(b);
}

/// An even echelon basis with a row at every pivot but `z`, all of whose rows get XOR `false`
/// from `y`: `y` is constant on `t..n`, equal to its value at `z`.
proof fn lemma_near_full_constant(basis: Seq<Option<Seq<u32>>>, y: spec_fn(u32) -> bool, z: int, t: nat)
    requires
        basis.len() <= 0x1_0000_0000,
        basis_ok(basis),
        basis_even(basis),
        0 <= z < basis.len(),
        forall|q: int| 0 <= q < basis.len() && q != z ==> (#[trigger] basis[q]) is Some,
        forall|q: int| 0 <= q < basis.len() && (#[trigger] basis[q]) is Some ==> !dot(y, basis[q]->0),
        t <= basis.len(),
    ensures
        forall|q: int| t <= q < basis.len() ==> y(#[trigger] (q as u32)) == y(z as u32),
    decreases basis.len() - t,
{
    let n = basis.len();
    if t < n {
        lemma_near_full_constant(basis, y, z, t + 1);
        if t != z {
            let b = basis[t as int]->0;
            assert(basis[t as int] is Some);
            let rest = b.drop_first();
            assert forall|i: int| 0 <= i < rest.len() implies y(#[trigger] rest[i]) == y(z as u32) by {
                assert(rest[i] == b[i + 1]);
                assert(b[0] < b[i + 1]);
                let q = rest[i] as int;
                assert((q as u32) == rest[i]);
                assert(y(q as u32) == y(z as u32));
            }
            lemma_dot_const(y, y(z as u32), rest);
            assert(b[0] == t);
            assert(!dot(y, b));
        }
        assert forall|q: int| t <= q < n implies y(#[trigger] (q as u32)) == y(z as u32) by {
            if q > t {
            }
        }
    }
}

/// An even echelon basis missing at most one pivot, agreeing with the planted values: every
/// even row gets the planted XOR from `x`.
proof fn lemma_even_basis_agrees(bf: Seq<Option<Seq<u32>>>, r: Seq<u32>, x: spec_fn(u32) -> bool, planted: Seq<bool>)
    requires
        1 <= bf.len() <= 0x1_0000_0000,
        basis_ok(bf),
        basis_even(bf),
        basis_agrees(x, planted, bf),
        count_some(bf) + 1 >= bf.len(),
        increasing(r),
        below(r, bf.len() as nat),
        r.len() % 2 == 0,
    ensures
        agrees(x, planted, r),
{
    lemma_count_full(bf);
    if count_some(bf) >= bf.len() {
        lemma_full_basis_agrees(bf, r, x, planted);
    } else {
        assert(exists|z: int| 0 <= z < bf.len() && !(#[trigger] bf[z] is Some)) by {
            if forall|q: int| 0 <= q < bf.len() ==> (#[trigger] bf[q]) is Some {
                lemma_count_all_some(bf);
            }
        }
        let z = choose|z: int| 0 <= z < bf.len() && !(#[trigger] bf[z] is Some);
        assert forall|q: int| 0 <= q < bf.len() && q != z implies (#[trigger] bf[q]) is Some by {
            if !(bf[q] is Some) {
                lemma_count_two_none(bf, z, q);
            }
        }
        let p = planted_fn(planted);
        let y = |v: u32| x(v) != p(v);
        assert forall|q: int| 0 <= q < bf.len() && (#[trigger] bf[q]) is Some implies !dot(y, bf[q]->0) by {
            lemma_dot_diff(x, p, bf[q]->0);
        }
        lemma_near_full_constant(bf, y, z, 0);
        assert forall|i: int| 0 <= i < r.len() implies y(#[trigger] r[i]) == y(z as u32) by {
            let q = r[i] as int;
            assert((q as u32) == r[i]);
        }
        lemma_dot_const(y, y(z as u32), r);
        lemma_dot_diff(x, p, r);
    }
}

/// The verdict of [`random_kxor`] for even `k` is right: once the consistent rows reach rank
/// `n − 1` (their phase stops below its cap of `8n + 64` rows) and every drawn row has its
/// `k` variables, an assignment satisfying the consistent rows differs from the planted one
/// by a constant, which no even row can see — so the row with the flipped right-hand side
/// contradicts them and the clauses are unsatisfiable.
pub proof fn lemma_kxor_even_unsat(k: nat, n: nat, m: nat, seed: u64)
    requires
        2 <= k <= n,
        k % 2 == 0,
        k < 32,
        n <= 0x1_0000_0000,
        kxor_rows(k, n, m, seed).len() <= 8 * n + 64,
        forall|i: int| 0 <= i < kxor_rows(k, n, m, seed).len() ==> (#[trigger] kxor_rows(k, n, m, seed)[i]).0.len() == k,
    ensures
        !satisfiable(rows_cnf(kxor_rows(k, n, m, seed))),
{
    let rowsk = kxor_rows(k, n, m, seed);
    if satisfiable(rows_cnf(rowsk)) {
        let x = choose|x: spec_fn(u32) -> bool| cnf_holds(x, rows_cnf(rowsk));
        let (planted, s1) = planted_stream(seed, n);
        lemma_planted_len(seed, n);
        let b0 = Seq::new(n, |i: int| None::<Seq<u32>>);
        let target = target_rank(k, n);
        let cap = 8 * n + 64;
        let (rows, s2) = consistent_rows(s1, b0, Seq::empty(), 0, planted, k, n, m, target, cap);
        let (vs, s3) = draw_distinct(s2, k, n, Seq::empty(), draw_fuel());
        assert(rowsk == rows.push((vs, !planted_parity(vs, planted, vs.len()))));
        lemma_kxor_rows_shape(k, n, m, seed);
        lemma_rows_satisfied(x, rowsk);
        assert forall|i: int| 0 <= i < rows.len() implies xor_value(x, #[trigger] rows[i].0) == rows[i].1 by {
            assert(rowsk[i] == rows[i]);
        }
        assert forall|i: int| 0 <= i < rows.len() implies (#[trigger] rows[i]).0.len() == k by {
            assert(rowsk[i] == rows[i]);
        }
        assert(xor_value(x, rowsk[rows.len() as int].0) == rowsk[rows.len() as int].1);
        assert(rowsk[rows.len() as int] == (vs, !planted_parity(vs, planted, vs.len())));
        assert(xor_value(x, vs) != planted_parity(vs, planted, vs.len()));
        assert(vs.len() == k);
        lemma_count_empty(n);
        assert(basis_ok(b0));
        assert(basis_agrees(x, planted, b0));
        assert(basis_even(b0));
        let bf = lemma_consistent_basis(s1, b0, Seq::empty(), 0, planted, k, n, m, target, cap, x);
        assert(rows.len() < cap);
        lemma_count_full(bf);
        lemma_draw_shape(s2, k, n, Seq::empty(), draw_fuel());
        lemma_row_of(vs, n);
        lemma_row_of_parity(vs);
        let r = row_of(vs);
        lemma_even_basis_agrees(bf, r, x, planted);
        lemma_row_agrees_converse(x, planted, vs);
    }
}

} // verus!
