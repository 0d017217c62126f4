//! Divergence (flow) obstructions modulo `m` on the random expander, with their one-hot
//! Boolean encodings.

use vstd::prelude::*;
use vstd::arithmetic::power::pow;
use crate::cnf::{Lit, DimacsCnf, ModpEquation, pos, neg, clauses_view, lit_holds, clause_holds, cnf_holds, satisfiable,
    lemma_flatten_contains, lemma_contained_clause_holds};
use crate::families::tally::{isum, lemma_isum_ext, lemma_isum_add, lemma_isum_scale, lemma_isum_single, lemma_isum_zero,
    lemma_isum_swap};
use crate::cnf::lemma_flatten_index;
use crate::families::{ExpectedVerdict, amo, push_amo, lemma_cv_push, lemma_flatten_new_push};
use crate::families::parity::{incident, inc_step};
use crate::families::expander::{regular_graph, expander_edges, lemma_regular_graph};

verus! {

// ---------------------------------------------------------------------------
// The divergence system modulo m
// ---------------------------------------------------------------------------

/// The charge of vertex `v`: total `2` (vertices `0` and `1`) for the obstruction, or `+1` at
/// `0` and `−1 = m−1` at `1` (total `0`) for the consistent control.
pub open spec fn mod_charge(v: int, m: nat, consistent: bool) -> u64 {
    if consistent {
        if v == 0 { 1 } else if v == 1 { (m - 1) as u64 } else { 0 }
    } else {
        if v == 0 || v == 1 { 1 } else { 0 }
    }
}

/// The coefficient edge `e` contributes at `v`: `+1` at its tail `a`, `−1 = m−1` at its head `b`.
pub open spec fn coeff_step(es: Seq<(usize, usize)>, v: int, e: int, m: nat) -> Seq<(usize, u64)> {
    if es[e].0 == v {
        seq![(e as usize, 1u64)]
    } else if es[e].1 == v {
        seq![(e as usize, (m - 1) as u64)]
    } else {
        Seq::empty()
    }
}

/// The divergence coefficients at `v`, in edge order.
pub open spec fn div_coeffs(es: Seq<(usize, usize)>, v: int, m: nat) -> Seq<(usize, u64)> {
    Seq::new(es.len(), |e: int| coeff_step(es, v, e, m)).flatten()
}

/// The equations are the divergence system of `es` over the vertices `0..n`.
pub open spec fn divergence_eqs(eqs: Seq<ModpEquation>, es: Seq<(usize, usize)>, n: nat, m: nat, consistent: bool) -> bool {
    &&& eqs.len() == n
    &&& forall|v: int| 0 <= v < n ==> (#[trigger] eqs[v]).coeffs@ == div_coeffs(es, v, m) && eqs[v].rhs
        == mod_charge(v, m, consistent)
}

// ---------------------------------------------------------------------------
// The one-hot Boolean encoding
// ---------------------------------------------------------------------------

/// The bit "edge `e` takes value `val`": variable `e*m + val`.
pub open spec fn bvar(e: int, val: int, m: nat) -> u32 {
    (e * m + val) as u32
}

/// The at-least-one clause of edge `e`.
pub open spec fn onehot_alo(e: int, m: nat) -> Seq<Lit> {
    Seq::new(m, |val: int| pos(bvar(e, val, m)))
}

/// Edge `e` takes exactly one value.
pub open spec fn onehot(e: int, m: nat) -> Seq<Seq<Lit>> {
    seq![onehot_alo(e, m)] + amo(onehot_alo(e, m))
}

/// The signed edge `e` at `v`: `(e, +1)` at its tail, `(e, −1)` at its head.
pub open spec fn signed_step(es: Seq<(usize, usize)>, v: int, e: int) -> Seq<(usize, i64)> {
    if es[e].0 == v {
        seq![(e as usize, 1i64)]
    } else if es[e].1 == v {
        seq![(e as usize, -1i64)]
    } else {
        Seq::empty()
    }
}

/// The signed incident edges of `v`, in edge order.
pub open spec fn signed_inc(es: Seq<(usize, usize)>, v: int) -> Seq<(usize, i64)> {
    Seq::new(es.len(), |e: int| signed_step(es, v, e)).flatten()
}

/// The `d` base-`m` digits of `x`, least significant first.
pub open spec fn base_digits(x: nat, m: nat, d: nat) -> Seq<nat>
    decreases d,
{
    if d == 0 { Seq::empty() } else { seq![x % m] + base_digits(x / m, m, (d - 1) as nat) }
}

/// `Σ sign·value` over the first `k` signed edges.
pub open spec fn signed_sum(inc: Seq<(usize, i64)>, combo: Seq<nat>, k: nat) -> int
    decreases k,
{
    if k == 0 { 0 } else { signed_sum(inc, combo, (k - 1) as nat) + inc[k - 1].1 * combo[k - 1] }
}

/// The clause forbidding the edge values `combo` at a vertex.
pub open spec fn value_clause(inc: Seq<(usize, i64)>, combo: Seq<nat>, m: nat) -> Seq<Lit> {
    Seq::new(inc.len(), |i: int| neg(bvar(inc[i].0 as int, combo[i] as int, m)))
}

/// The clause for the value assignment numbered `idx` if its signed sum misses the charge.
pub open spec fn value_block(inc: Seq<(usize, i64)>, want: int, m: nat, idx: nat) -> Seq<Seq<Lit>> {
    let combo = base_digits(idx, m, inc.len());
    if signed_sum(inc, combo, inc.len()) % (m as int) != want % (m as int) {
        seq![value_clause(inc, combo, m)]
    } else {
        Seq::empty()
    }
}

/// The clauses of vertex `v`: every assignment of its edges' values whose signed sum is not
/// its charge modulo `m` is forbidden.
pub open spec fn vertex_clauses(es: Seq<(usize, usize)>, v: int, m: nat, consistent: bool) -> Seq<Seq<Lit>> {
    vertex_blocks(es, v, m, consistent).flatten()
}

/// The clause blocks of vertex `v`, one per assignment of its edges' values (numbered in base
/// `m`, the first edge least significant).
pub open spec fn vertex_blocks(es: Seq<(usize, usize)>, v: int, m: nat, consistent: bool) -> Seq<Seq<Seq<Lit>>> {
    Seq::new(pow(m as int, signed_inc(es, v).len()) as nat, |idx: int| value_block(signed_inc(es, v), mod_charge(v, m,
        consistent) as int, m, idx as nat))
}

/// The one-hot CNF of the divergence system on `es` over `n` vertices.
pub open spec fn onehot_cnf(es: Seq<(usize, usize)>, n: nat, m: nat, consistent: bool) -> Seq<Seq<Lit>> {
    Seq::new(es.len(), |e: int| onehot(e, m)).flatten() + Seq::new(n, |v: int| vertex_clauses(es, v, m,
        consistent)).flatten()
}

proof fn lemma_signed_len(es: Seq<(usize, usize)>, v: int, k: nat)
    requires
        k <= es.len(),
        forall|e: int| 0 <= e < es.len() ==> (#[trigger] es[e]).0 != es[e].1,
    ensures
        Seq::new(k, |e: int| signed_step(es, v, e)).flatten().len() == Seq::new(k, |e: int| inc_step(es, v,
            e)).flatten().len(),
    decreases k,
{
    if k > 0 {
        lemma_signed_len(es, v, (k - 1) as nat);
        let f = |e: int| signed_step(es, v, e);
        let g = |e: int| inc_step(es, v, e);
        lemma_flatten_new_push((k - 1) as nat, f);
        lemma_flatten_new_push((k - 1) as nat, g);
        assert(Seq::new(k, |e: int| signed_step(es, v, e)) =~= Seq::new(k, f));
        assert(Seq::new((k - 1) as nat, |e: int| signed_step(es, v, e)) =~= Seq::new((k - 1) as nat, f));
        assert(Seq::new(k, |e: int| inc_step(es, v, e)) =~= Seq::new(k, g));
        assert(Seq::new((k - 1) as nat, |e: int| inc_step(es, v, e)) =~= Seq::new((k - 1) as nat, g));
    }
}

fn coeffs_at(es: &Vec<(usize, usize)>, v: usize, m: u64) -> (r: Vec<(usize, u64)>)
    requires
        m >= 1,
    ensures
        r@ == div_coeffs(es@, v as int, m as nat),
{
    let ghost f = |e: int| coeff_step(es@, v as int, e, m as nat);
    let mut r: Vec<(usize, u64)> = Vec::new();
    let mut e: usize = 0;
    while e < es.len()
        invariant
            e <= es@.len(),
            m >= 1,
            f == (|e: int| coeff_step(es@, v as int, e, m as nat)),
            r@ == Seq::new(e as nat, f).flatten(),
        decreases es@.len() - e,
    {
        proof {
            lemma_flatten_new_push(e as nat, f);
        }
        let (a, b) = es[e];
        if a == v {
            r.push((e, 1u64));
            proof {
                assert(Seq::new(e as nat, f).flatten() + f(e as int) =~= Seq::new(e as nat, f).flatten().push((e, 1u64)));
            }
        } else if b == v {
            r.push((e, m - 1));
            proof {
                assert(Seq::new(e as nat, f).flatten() + f(e as int) =~= Seq::new(e as nat, f).flatten().push((e, (m
                    - 1) as u64)));
            }
        } else {
            proof {
                assert(Seq::new(e as nat, f).flatten() + f(e as int) =~= Seq::new(e as nat, f).flatten());
            }
        }
        e += 1;
    }
    proof {
        assert(Seq::new(es@.len(), f) =~= Seq::new(es@.len(), |e: int| coeff_step(es@, v as int, e, m as nat)));
    }
    r
}

fn signed_at(es: &Vec<(usize, usize)>, v: usize) -> (r: Vec<(usize, i64)>)
    ensures
        r@ == signed_inc(es@, v as int),
{
    let ghost f = |e: int| signed_step(es@, v as int, e);
    let mut r: Vec<(usize, i64)> = Vec::new();
    let mut e: usize = 0;
    while e < es.len()
        invariant
            e <= es@.len(),
            f == (|e: int| signed_step(es@, v as int, e)),
            r@ == Seq::new(e as nat, f).flatten(),
        decreases es@.len() - e,
    {
        proof {
            lemma_flatten_new_push(e as nat, f);
        }
        let (a, b) = es[e];
        if a == v {
            r.push((e, 1i64));
            proof {
                assert(Seq::new(e as nat, f).flatten() + f(e as int) =~= Seq::new(e as nat, f).flatten().push((e, 1i64)));
            }
        } else if b == v {
            r.push((e, -1i64));
            proof {
                assert(Seq::new(e as nat, f).flatten() + f(e as int) =~= Seq::new(e as nat, f).flatten().push((e, -1i64)));
            }
        } else {
            proof {
                assert(Seq::new(e as nat, f).flatten() + f(e as int) =~= Seq::new(e as nat, f).flatten());
            }
        }
        e += 1;
    }
    proof {
        assert(Seq::new(es@.len(), f) =~= Seq::new(es@.len(), |e: int| signed_step(es@, v as int, e)));
    }
    r
}

/// Append the one-hot clauses of edge `e`.
fn push_onehot(out: &mut Vec<Vec<Lit>>, e: usize, m: u64, ne: usize)
    requires
        e < ne,
        1 <= m,
        ne * m <= usize::MAX,
    ensures
        clauses_view(final(out)@) == clauses_view(old(out)@) + onehot(e as int, m as nat),
{
    let mu = m as usize;
    let mut alo: Vec<Lit> = Vec::new();
    let mut val: usize = 0;
    proof {
        assert(e * m + m <= ne * m) by (nonlinear_arith)
            requires e < ne;
    }
    while val < mu
        invariant
            mu == m,
            val <= mu,
            e * m + m <= usize::MAX,
            alo@ == onehot_alo(e as int, m as nat).take(val as int),
        decreases mu - val,
    {
        let l = Lit::pos((e * mu + val) as u32);
        proof {
            assert(onehot_alo(e as int, m as nat).take(val + 1) =~= onehot_alo(e as int, m as nat).take(val as int).push(l));
        }
        alo.push(l);
        val += 1;
    }
    proof {
        assert(onehot_alo(e as int, m as nat).take(mu as int) =~= onehot_alo(e as int, m as nat));
    }
    let copy = copy_lits(&alo);
    proof {
        lemma_cv_push(out@, copy);
    }
    out.push(copy);
    push_amo(out, &alo);
    proof {
        assert(clauses_view(old(out)@) + onehot(e as int, m as nat) =~= clauses_view(old(out)@).push(alo@)
            + amo(alo@));
    }
}

fn copy_lits(s: &Vec<Lit>) -> (r: Vec<Lit>)
    ensures
        r@ == s@,
{
    let mut r: Vec<Lit> = Vec::new();
    let mut i: usize = 0;
    while i < s.len()
        invariant
            i <= s@.len(),
            r@ == s@.take(i as int),
        decreases s@.len() - i,
    {
        proof {
            assert(s@.take(i + 1) =~= s@.take(i as int).push(s@[i as int]));
        }
        r.push(s[i]);
        i += 1;
    }
    proof {
        assert(s@.take(s@.len() as int) =~= s@);
    }
    r
}

/// The values of a digit vector.
pub open spec fn nats(s: Seq<u64>) -> Seq<nat> {
    Seq::new(s.len(), |i: int| s[i] as nat)
}

/// Append the clauses of one vertex with signed incident edges `inc` and charge `want`.
fn push_vertex_clauses(out: &mut Vec<Vec<Lit>>, inc: &Vec<(usize, i64)>, want: u64, m: u64, ne: usize)
    requires
        inc@.len() == 3,
        3 <= m,
        pow(m as int, 3) <= u64::MAX,
        want < m,
        ne * m <= usize::MAX,
        forall|i: int| 0 <= i < 3 ==> (#[trigger] inc@[i]).0 < ne && (inc@[i].1 == 1 || inc@[i].1 == -1),
    ensures
        clauses_view(final(out)@) == clauses_view(old(out)@) + Seq::new(pow(m as int, 3) as nat,
            |idx: int| value_block(inc@, want as int, m as nat, idx as nat)).flatten(),
{
    let d = inc.len();
    let mu = m as usize;
    proof {
        reveal(pow);
        assert(pow(m as int, 3) == m * (m * (m * 1))) by {
            reveal_with_fuel(pow, 4);
        }
        assert(m <= m * (m * m)) by (nonlinear_arith)
            requires m >= 3;
        assert(m * m <= m * (m * m)) by (nonlinear_arith)
            requires m >= 3;
        assert(m < 0x400000) by (nonlinear_arith)
            requires m * (m * m) <= 0xffff_ffff_ffff_ffff, m >= 3;
    }
    let limit: u64 = m * (m * m);
    let pi = m as i64;
    let wi = want as i64;
    let ghost base = clauses_view(out@);
    let ghost f = |idx: int| value_block(inc@, want as int, m as nat, idx as nat);
    let mut idx: u64 = 0;
    while idx < limit
        invariant
            inc@.len() == 3,
            d == 3,
            mu == m,
            3 <= m < 0x400000,
            limit == pow(m as int, 3),
            m * (m * m) <= u64::MAX,
            want < m,
            pi == m,
            wi == want,
            ne * m <= usize::MAX,
            forall|i: int| 0 <= i < 3 ==> (#[trigger] inc@[i]).0 < ne && (inc@[i].1 == 1 || inc@[i].1 == -1),
            f == (|idx: int| value_block(inc@, want as int, m as nat, idx as nat)),
            idx <= limit,
            clauses_view(out@) == base + Seq::new(idx as nat, f).flatten(),
        decreases limit - idx,
    {
        proof {
            lemma_flatten_new_push(idx as nat, f);
        }
        let mut x = idx;
        let mut combo: Vec<u64> = Vec::new();
        let mut i: usize = 0;
        while i < d
            invariant
                d == 3,
                i <= d,
                3 <= m,
                combo@.len() == i,
                forall|k: int| 0 <= k < i ==> combo@[k] < m,
                base_digits(idx as nat, m as nat, 3) == nats(combo@) + base_digits(x as nat, m as nat, (3 - i) as nat),
            decreases d - i,
        {
            let ghost before = combo@;
            combo.push(x % m);
            proof {
                assert(nats(combo@) =~= nats(before).push((x % m) as nat));
                assert(base_digits(x as nat, m as nat, (3 - i) as nat) =~= seq![(x as nat) % (m as nat)] + base_digits(
                    (x as nat) / (m as nat), m as nat, (3 - i - 1) as nat));
                assert(nats(before) + base_digits(x as nat, m as nat, (3 - i) as nat) =~= nats(combo@) + base_digits((x / m) as nat,
                    m as nat, (3 - i - 1) as nat));
            }
            x = x / m;
            i += 1;
        }
        let ghost combo_spec = base_digits(idx as nat, m as nat, 3);
        proof {
            assert(base_digits(x as nat, m as nat, 0) =~= Seq::<nat>::empty());
            assert(nats(combo@) =~= combo_spec);
        }
        let mut s: i64 = 0;
        let mut k: usize = 0;
        while k < d
            invariant
                d == 3,
                k <= d,
                3 <= m < 0x400000,
                m * (m * m) <= u64::MAX,
                inc@.len() == 3,
                combo@.len() == 3,
                forall|k: int| 0 <= k < 3 ==> combo@[k] < m,
                nats(combo@) == combo_spec,
                forall|i: int| 0 <= i < 3 ==> (#[trigger] inc@[i]).0 < ne && (inc@[i].1 == 1 || inc@[i].1 == -1),
                s == signed_sum(inc@, combo_spec, k as nat),
                -(k * m) <= s <= k * m,
            decreases d - k,
        {
            proof {
                assert(combo_spec[k as int] == combo@[k as int]);
                assert((k + 1) * m == k * m + m) by (nonlinear_arith);
                assert(k * m <= 3 * 0x400000) by (nonlinear_arith)
                    requires k <= 3, m < 0x400000;
            }
            let (_, sign) = inc[k];
            let term: i64 = if sign == 1 { combo[k] as i64 } else { -(combo[k] as i64) };
            proof {
                let c = combo_spec[k as int];
                if sign == 1 {
                    assert(inc@[k as int].1 * c == c);
                } else {
                    assert(inc@[k as int].1 * c == -c);
                }
                assert(signed_sum(inc@, combo_spec, (k + 1) as nat) == signed_sum(inc@, combo_spec, k as nat)
                    + inc@[k as int].1 * c);
            }
            s = s + term;
            k += 1;
        }
        let r1 = match s.checked_rem_euclid(pi) {
            Some(r) => r,
            None => 0,
        };
        let r2 = match wi.checked_rem_euclid(pi) {
            Some(r) => r,
            None => 0,
        };
        if r1 != r2 {
            let mut cl: Vec<Lit> = Vec::new();
            let mut i: usize = 0;
            while i < d
                invariant
                    d == 3,
                    i <= d,
                    mu == m,
                    3 <= m,
                    ne * m <= usize::MAX,
                    inc@.len() == 3,
                    combo@.len() == 3,
                    forall|k: int| 0 <= k < 3 ==> combo@[k] < m,
                    nats(combo@) == combo_spec,
                    forall|i: int| 0 <= i < 3 ==> (#[trigger] inc@[i]).0 < ne && (inc@[i].1 == 1 || inc@[i].1 == -1),
                    cl@ == value_clause(inc@, combo_spec, m as nat).take(i as int),
                decreases d - i,
            {
                let (e, _) = inc[i];
                proof {
                    assert(e * m + combo@[i as int] < ne * m) by (nonlinear_arith)
                        requires e < ne, combo@[i as int] < m;
                    assert(combo_spec[i as int] == combo@[i as int]);
                }
                let l = Lit::neg((e * mu + combo[i] as usize) as u32);
                proof {
                    assert(value_clause(inc@, combo_spec, m as nat).take(i + 1) =~= value_clause(inc@, combo_spec,
                        m as nat).take(i as int).push(l));
                }
                cl.push(l);
                i += 1;
            }
            proof {
                assert(value_clause(inc@, combo_spec, m as nat).take(3) =~= value_clause(inc@, combo_spec, m as nat));
                lemma_cv_push(out@, cl);
                assert(f(idx as int) =~= seq![cl@]);
                assert(base + Seq::new(idx as nat, f).flatten() + f(idx as int) =~= (base + Seq::new(idx as nat,
                    f).flatten()).push(cl@));
            }
            out.push(cl);
        } else {
            proof {
                assert(f(idx as int) =~= Seq::<Seq<Lit>>::empty());
                assert(base + Seq::new(idx as nat, f).flatten() + f(idx as int) =~= base + Seq::new(idx as nat,
                    f).flatten());
            }
        }
        idx += 1;
    }
}

/// The divergence system of the graph `edges` over `ℤ/m` and its one-hot CNF.
fn divergence_onehot(edges: &Vec<(usize, usize)>, n: usize, m: u64, consistent: bool)
    -> (res: (Vec<ModpEquation>, Vec<Vec<Lit>>))
    requires
        3 <= m,
        pow(m as int, 3) <= u64::MAX,
        edges@.len() * m <= usize::MAX,
        forall|e: int| 0 <= e < edges@.len() ==> (#[trigger] edges@[e]).0 < edges@[e].1 < n,
        forall|v: usize| v < n ==> (#[trigger] incident(edges@, v as int)).len() == 3,
    ensures
        divergence_eqs(res.0@, edges@, n as nat, m as nat, consistent),
        clauses_view(res.1@) == onehot_cnf(edges@, n as nat, m as nat, consistent),
{
    let ne = edges.len();
    let mut eqs: Vec<ModpEquation> = Vec::new();
    let mut v: usize = 0;
    while v < n
        invariant
            v <= n,
            3 <= m,
            eqs@.len() == v,
            forall|u: int| 0 <= u < v ==> (#[trigger] eqs@[u]).coeffs@ == div_coeffs(edges@, u, m as nat) && eqs@[u].rhs
                == mod_charge(u, m as nat, consistent),
        decreases n - v,
    {
        let coeffs = coeffs_at(edges, v, m);
        let rhs: u64 = if consistent {
            if v == 0 { 1 } else if v == 1 { m - 1 } else { 0 }
        } else {
            if v == 0 || v == 1 { 1 } else { 0 }
        };
        eqs.push(ModpEquation::new(coeffs, rhs));
        v += 1;
    }
    let mut clauses: Vec<Vec<Lit>> = Vec::new();
    let ghost hot = |e: int| onehot(e, m as nat);
    let mut e: usize = 0;
    while e < ne
        invariant
            e <= ne,
            ne == edges@.len(),
            3 <= m,
            ne * m <= usize::MAX,
            hot == (|e: int| onehot(e, m as nat)),
            clauses_view(clauses@) == Seq::new(e as nat, hot).flatten(),
        decreases ne - e,
    {
        push_onehot(&mut clauses, e, m, ne);
        proof {
            lemma_flatten_new_push(e as nat, hot);
        }
        e += 1;
    }
    let ghost first = clauses_view(clauses@);
    let ghost verts = |v: int| vertex_clauses(edges@, v, m as nat, consistent);
    let mut v: usize = 0;
    while v < n
        invariant
            v <= n,
            ne == edges@.len(),
            3 <= m,
            pow(m as int, 3) <= u64::MAX,
            ne * m <= usize::MAX,
            forall|e: int| 0 <= e < edges@.len() ==> (#[trigger] edges@[e]).0 < edges@[e].1 < n,
            forall|v: usize| v < n ==> (#[trigger] incident(edges@, v as int)).len() == 3,
            verts == (|v: int| vertex_clauses(edges@, v, m as nat, consistent)),
            clauses_view(clauses@) == first + Seq::new(v as nat, verts).flatten(),
        decreases n - v,
    {
        let inc = signed_at(edges, v);
        proof {
            lemma_signed_len(edges@, v as int, edges@.len());
            assert(Seq::new(edges@.len(), |e: int| inc_step(edges@, v as int, e)).flatten() == incident(edges@,
                v as int));
            assert(incident(edges@, v as int).len() == 3);
            assert forall|i: int| 0 <= i < 3 implies (#[trigger] inc@[i]).0 < ne && (inc@[i].1 == 1 || inc@[i].1 == -1) by {
                lemma_signed_entry(edges@, v as int, i);
            }
        }
        let want: u64 = if consistent {
            if v == 0 { 1 } else if v == 1 { m - 1 } else { 0 }
        } else {
            if v == 0 || v == 1 { 1 } else { 0 }
        };
        push_vertex_clauses(&mut clauses, &inc, want, m, ne);
        proof {
            lemma_flatten_new_push(v as nat, verts);
            assert(Seq::new(pow(m as int, 3) as nat, |idx: int| value_block(inc@, want as int, m as nat, idx as nat))
                =~= vertex_blocks(edges@, v as int, m as nat, consistent));
        }
        v += 1;
    }
    proof {
        assert(Seq::new(ne as nat, hot) =~= Seq::new(edges@.len(), |e: int| onehot(e, m as nat)));
        assert(Seq::new(n as nat, verts) =~= Seq::new(n as nat, |v: int| vertex_clauses(edges@, v, m as nat,
            consistent)));
    }
    (eqs, clauses)
}

/// Every signed incident edge is an edge index with sign `±1`.
proof fn lemma_signed_entry(es: Seq<(usize, usize)>, v: int, i: int)
    requires
        0 <= i < signed_inc(es, v).len(),
    ensures
        signed_inc(es, v)[i].0 < es.len(),
        signed_inc(es, v)[i].1 == 1 || signed_inc(es, v)[i].1 == -1,
{
    lemma_signed_entry_upto(es, v, es.len(), i);
    assert(Seq::new(es.len(), |e: int| signed_step(es, v, e)) =~= Seq::new(es.len(), |e: int| signed_step(es, v, e)));
}

proof fn lemma_signed_entry_upto(es: Seq<(usize, usize)>, v: int, k: nat, i: int)
    requires
        k <= es.len(),
        0 <= i < Seq::new(k, |e: int| signed_step(es, v, e)).flatten().len(),
    ensures
        Seq::new(k, |e: int| signed_step(es, v, e)).flatten()[i].0 < k,
        Seq::new(k, |e: int| signed_step(es, v, e)).flatten()[i].1 == 1 || Seq::new(k, |e: int| signed_step(es, v,
            e)).flatten()[i].1 == -1,
    decreases k,
{
    let f = |e: int| signed_step(es, v, e);
    lemma_flatten_new_push((k - 1) as nat, f);
    assert(Seq::new(k, |e: int| signed_step(es, v, e)) =~= Seq::new(k, f));
    assert(Seq::new((k - 1) as nat, |e: int| signed_step(es, v, e)) =~= Seq::new((k - 1) as nat, f));
    let prev = Seq::new((k - 1) as nat, f).flatten();
    if i < prev.len() {
        lemma_signed_entry_upto(es, v, (k - 1) as nat, i);
    }
}

/// The mod-`p` Tseitin obstruction on a random 3-regular expander: at every vertex the
/// signed divergence `Σ_out − Σ_in ≡ charge (mod p)`, vertices `0` and `1` charged (total
/// `2`) — unsatisfiable over `GF(p)` for every odd prime `p`. Returns the `GF(p)` system,
/// its one-hot CNF (`p` values per edge) and the verdict.
pub fn mod_p_tseitin_expander(n: usize, p: u64, seed: u64) -> (res: (Vec<ModpEquation>, DimacsCnf, ExpectedVerdict))
    requires
        p >= 3,
        n % 2 == 0 && n >= 4,
        3 * n <= usize::MAX,
        regular_graph(n as nat, seed) is Some,
        pow(p as int, 3) <= u64::MAX,
        (3 * n / 2) * p <= usize::MAX,
    ensures
        divergence_eqs(res.0@, regular_graph(n as nat, seed)->0, n as nat, p as nat, false),
        res.1.num_vars == (3 * n / 2) * p,
        res.1.cls() == onehot_cnf(regular_graph(n as nat, seed)->0, n as nat, p as nat, false),
        res.2 == ExpectedVerdict::Unsat,
{
    mod_tseitin_expander_core(n, p, seed)
}

/// The composite-modulus sibling of [`mod_p_tseitin_expander`]: the same total-charge-2
/// divergence obstruction over `ℤ/m` for `m ≥ 3`, with `m` values per edge.
pub fn mod_m_tseitin_expander(n: usize, m: u64, seed: u64) -> (res: (Vec<ModpEquation>, DimacsCnf, ExpectedVerdict))
    requires
        m >= 3,
        n % 2 == 0 && n >= 4,
        3 * n <= usize::MAX,
        regular_graph(n as nat, seed) is Some,
        pow(m as int, 3) <= u64::MAX,
        (3 * n / 2) * m <= usize::MAX,
    ensures
        divergence_eqs(res.0@, regular_graph(n as nat, seed)->0, n as nat, m as nat, false),
        res.1.num_vars == (3 * n / 2) * m,
        res.1.cls() == onehot_cnf(regular_graph(n as nat, seed)->0, n as nat, m as nat, false),
        res.2 == ExpectedVerdict::Unsat,
{
    mod_tseitin_expander_core(n, m, seed)
}

/// The total-charge-2 divergence obstruction over `ℤ/modulus` on the random expander.
fn mod_tseitin_expander_core(n: usize, modulus: u64, seed: u64) -> (res: (Vec<ModpEquation>, DimacsCnf,
    ExpectedVerdict))
    requires
        modulus >= 3,
        n % 2 == 0 && n >= 4,
        3 * n <= usize::MAX,
        regular_graph(n as nat, seed) is Some,
        pow(modulus as int, 3) <= u64::MAX,
        (3 * n / 2) * modulus <= usize::MAX,
    ensures
        divergence_eqs(res.0@, regular_graph(n as nat, seed)->0, n as nat, modulus as nat, false),
        res.1.num_vars == (3 * n / 2) * modulus,
        res.1.cls() == onehot_cnf(regular_graph(n as nat, seed)->0, n as nat, modulus as nat, false),
        res.2 == ExpectedVerdict::Unsat,
{
    let edges = expander_edges(n, seed);
    let ne = edges.len();
    proof {
        assert(modulus <= (3 * n / 2) * modulus) by (nonlinear_arith)
            requires n >= 4;
    }
    let (eqs, clauses) = divergence_onehot(&edges, n, modulus, false);
    (eqs, DimacsCnf { num_vars: ne * (modulus as usize), clauses }, ExpectedVerdict::Unsat)
}

/// A satisfiable sibling of [`mod_p_tseitin_expander`] on the same graph and encoding: charge
/// `+1` at vertex `0`, `−1 = p−1` at vertex `1` (total `0 mod p`), so the system is consistent.
pub fn mod_p_consistent_onehot(n: usize, p: u64, seed: u64) -> (res: (Vec<ModpEquation>, DimacsCnf, ExpectedVerdict))
    requires
        n % 2 == 0 && n >= 4,
        p >= 3,
        3 * n <= usize::MAX,
        regular_graph(n as nat, seed) is Some,
        pow(p as int, 3) <= u64::MAX,
        (3 * n / 2) * p <= usize::MAX,
    ensures
        divergence_eqs(res.0@, regular_graph(n as nat, seed)->0, n as nat, p as nat, true),
        res.1.num_vars == (3 * n / 2) * p,
        res.1.cls() == onehot_cnf(regular_graph(n as nat, seed)->0, n as nat, p as nat, true),
        res.2 == ExpectedVerdict::Sat,
{
    let edges = expander_edges(n, seed);
    let ne = edges.len();
    proof {
        assert(p <= (3 * n / 2) * p) by (nonlinear_arith)
            requires n >= 4;
    }
    let (eqs, clauses) = divergence_onehot(&edges, n, p, true);
    (eqs, DimacsCnf { num_vars: ne * (p as usize), clauses }, ExpectedVerdict::Sat)
}


// ---------------------------------------------------------------------------
// The one-hot divergence obstruction is unsatisfiable
// ---------------------------------------------------------------------------

/// The number whose base-`m` digits, least significant first, are `c`.
pub open spec fn digits_value(c: Seq<nat>, m: nat) -> nat
    decreases c.len(),
{
    if c.len() == 0 { 0 } else { c[0] + m * digits_value(c.drop_first(), m) }
}

/// Digits below `m` make a number below `m^len` whose base-`m` digits they are.
proof fn lemma_digits_value(c: Seq<nat>, m: nat)
    requires
        m >= 2,
        forall|i: int| 0 <= i < c.len() ==> #[trigger] c[i] < m,
    ensures
        digits_value(c, m) < pow(m as int, c.len()),
        base_digits(digits_value(c, m), m, c.len()) == c,
    decreases c.len(),
{
    reveal(pow);
    if c.len() == 0 {
        assert(base_digits(0, m, 0) =~= c);
    } else {
        let rest = c.drop_first();
        assert forall|i: int| 0 <= i < rest.len() implies #[trigger] rest[i] < m by {
            assert(rest[i] == c[i + 1]);
        }
        lemma_digits_value(rest, m);
        let r = digits_value(rest, m);
        let x = digits_value(c, m);
        let p1 = pow(m as int, rest.len());
        assert(pow(m as int, c.len()) == m * p1);
        assert(x == c[0] + m * r);
        assert(x < m * p1) by (nonlinear_arith)
            requires
                x == c[0] + m * r,
                c[0] < m,
                r < p1,
                r >= 0,
        ;
        vstd::arithmetic::div_mod::lemma_fundamental_div_mod_converse(x as int, m as int, r as int, c[0] as int);
        assert(base_digits(x, m, c.len()) == seq![x % m] + base_digits(x / m, m, rest.len()));
        assert(base_digits(x, m, c.len()) =~= c);
    }
}

/// `Σ sign · val(edge)` over a list of signed edges.
pub open spec fn signed_value(s: Seq<(usize, i64)>, val: spec_fn(int) -> int) -> int
    decreases s.len(),
{
    if s.len() == 0 { 0 } else { signed_value(s.drop_last(), val) + s.last().1 * val(s.last().0 as int) }
}

/// The signed sum of a digit vector that gives each edge its value.
proof fn lemma_signed_sum_value(inc: Seq<(usize, i64)>, combo: Seq<nat>, val: spec_fn(int) -> int, k: nat)
    requires
        k <= inc.len(),
        k <= combo.len(),
        forall|i: int| 0 <= i < k ==> #[trigger] combo[i] == val(inc[i].0 as int),
    ensures
        signed_sum(inc, combo, k) == signed_value(inc.take(k as int), val),
    decreases k,
{
    if k > 0 {
        lemma_signed_sum_value(inc, combo, val, (k - 1) as nat);
        assert(inc.take(k as int).drop_last() =~= inc.take(k - 1));
    }
}

/// Signed values over a concatenation.
proof fn lemma_signed_value_concat(s: Seq<(usize, i64)>, t: Seq<(usize, i64)>, val: spec_fn(int) -> int)
    ensures
        signed_value(s + t, val) == signed_value(s, val) + signed_value(t, val),
    decreases t.len(),
{
    if t.len() > 0 {
        lemma_signed_value_concat(s, t.drop_last(), val);
        assert((s + t).drop_last() =~= s + t.drop_last());
    } else {
        assert(s + t =~= s);
    }
}

/// What edge `e` adds to the signed sum of `v`: `+val(e)` at its tail, `−val(e)` at its head.
pub open spec fn edge_share(es: Seq<(usize, usize)>, v: int, e: int, val: spec_fn(int) -> int) -> int {
    if es[e].0 == v {
        val(e)
    } else if es[e].1 == v {
        -val(e)
    } else {
        0
    }
}

/// Signed values over the signed incident edges of `v`: each edge counts `+val` at its tail
/// and `−val` at its head.
proof fn lemma_signed_value_inc(es: Seq<(usize, usize)>, v: int, val: spec_fn(int) -> int, k: nat)
    requires
        k <= es.len(),
        es.len() <= usize::MAX,
    ensures
        signed_value(Seq::new(k, |e: int| signed_step(es, v, e)).flatten(), val) == isum(|e: int| edge_share(es, v, e,
            val), k),
    decreases k,
{
    let g = |e: int| signed_step(es, v, e);
    if k == 0 {
        assert(Seq::new(k, g).flatten() =~= Seq::<(usize, i64)>::empty());
    } else {
        lemma_signed_value_inc(es, v, val, (k - 1) as nat);
        lemma_flatten_new_push((k - 1) as nat, g);
        lemma_signed_value_concat(Seq::new((k - 1) as nat, g).flatten(), g(k - 1), val);
        let e = k - 1;
        let one: Seq<(usize, i64)> = Seq::empty();
        assert(signed_value(one, val) == 0);
        assert((e as usize) as int == e);
        if es[e].0 == v {
            assert(g(e).drop_last() =~= one);
            assert(signed_value(g(e), val) == val(e));
        } else if es[e].1 == v {
            assert(g(e).drop_last() =~= one);
            assert(signed_value(g(e), val) == -val(e));
        } else {
            assert(g(e) =~= one);
        }
        assert(signed_value(g(e), val) == edge_share(es, v, e, val));
    }
}

/// Some value `x < m` of edge `e` is chosen by `a`.
pub open spec fn has_value(a: spec_fn(u32) -> bool, e: int, m: nat) -> bool {
    exists|x: int| 0 <= x < m && #[trigger] a(bvar(e, x, m))
}

/// Vertex `v`'s signed sum of the values of its edges.
pub open spec fn vertex_flow(es: Seq<(usize, usize)>, v: int, val: spec_fn(int) -> int) -> int {
    signed_value(signed_inc(es, v), val)
}

/// The values `val` satisfy the clauses of vertex `v` only if its signed sum is its charge
/// modulo `m`.
proof fn lemma_vertex_holds(es: Seq<(usize, usize)>, v: int, m: nat, consistent: bool, a: spec_fn(u32) -> bool,
    val: spec_fn(int) -> int)
    requires
        m >= 2,
        forall|e: int| 0 <= e < es.len() ==> 0 <= #[trigger] val(e) < m && a(bvar(e, val(e), m)),
        cnf_holds(a, vertex_clauses(es, v, m, consistent)),
    ensures
        vertex_flow(es, v, val) % (m as int) == (mod_charge(v, m, consistent) as int) % (m as int),
{
    let inc = signed_inc(es, v);
    let d = inc.len();
    let combo = Seq::new(d, |i: int| val(inc[i].0 as int) as nat);
    assert forall|i: int| 0 <= i < d implies #[trigger] inc[i].0 < es.len() by {
        lemma_signed_entry(es, v, i);
    }
    assert forall|i: int| 0 <= i < combo.len() implies #[trigger] combo[i] < m by {
        assert(inc[i].0 < es.len());
    }
    lemma_digits_value(combo, m);
    let idx = digits_value(combo, m);
    lemma_signed_sum_value(inc, combo, val, d);
    assert(inc.take(d as int) =~= inc);
    let want = mod_charge(v, m, consistent) as int;
    if signed_sum(inc, combo, d) % (m as int) != want % (m as int) {
        let blocks = vertex_blocks(es, v, m, consistent);
        let cl = value_clause(inc, combo, m);
        assert(blocks[idx as int] == seq![cl]);
        lemma_flatten_contains(blocks, idx as int, 0);
        lemma_contained_clause_holds(a, vertex_clauses(es, v, m, consistent), cl);
        let i = choose|i: int| 0 <= i < cl.len() && lit_holds(a, #[trigger] cl[i]);
        assert(inc[i].0 < es.len());
        assert(cl[i] == neg(bvar(inc[i].0 as int, combo[i] as int, m)));
    }
}

/// The divergence obstruction with total charge `2` is unsatisfiable modulo every `m >= 3`,
/// on any graph without loops: summing the vertices' signed sums counts every edge once with
/// each sign, so the charges would add up to `0` modulo `m`.
pub proof fn lemma_divergence_unsat(es: Seq<(usize, usize)>, n: nat, m: nat)
    requires
        m >= 3,
        n >= 2,
        es.len() <= usize::MAX,
        forall|e: int| 0 <= e < es.len() ==> (#[trigger] es[e]).0 < es[e].1 < n,
    ensures
        !satisfiable(onehot_cnf(es, n, m, false)),
{
    let cls = onehot_cnf(es, n, m, false);
    if satisfiable(cls) {
        let a = choose|a: spec_fn(u32) -> bool| cnf_holds(a, cls);
        let ne = es.len();
        let hots = Seq::new(ne, |e: int| onehot(e, m));
        let verts = Seq::new(n, |v: int| vertex_clauses(es, v, m, false));
        assert(cls == hots.flatten() + verts.flatten());
        // Each edge takes a value.
        assert forall|e: int| 0 <= e < ne implies #[trigger] has_value(a, e, m) by {
            assert(hots[e][0] == onehot_alo(e, m));
            lemma_flatten_contains(hots, e, 0);
            let j = choose|j: int| 0 <= j < hots.flatten().len() && hots.flatten()[j] == onehot_alo(e, m);
            assert(cls[j] == onehot_alo(e, m));
            let i = choose|i: int| 0 <= i < onehot_alo(e, m).len() && lit_holds(a, #[trigger] onehot_alo(e, m)[i]);
            assert(a(bvar(e, i, m)));
        }
        let val = |e: int| choose|x: int| 0 <= x < m && #[trigger] a(bvar(e, x, m));
        assert forall|e: int| 0 <= e < ne implies 0 <= #[trigger] val(e) < m && a(bvar(e, val(e), m)) by {
            assert(has_value(a, e, m));
        }
        // Each vertex's signed sum is its charge modulo m.
        assert forall|v: int| 0 <= v < n implies #[trigger] vertex_flow(es, v, val) % (m as int) == (mod_charge(v, m,
            false) as int) % (m as int) by {
            assert forall|j: int| 0 <= j < vertex_clauses(es, v, m, false).len() implies clause_holds(a,
                #[trigger] vertex_clauses(es, v, m, false)[j]) by {
                assert(verts[v] == vertex_clauses(es, v, m, false));
                lemma_flatten_contains(verts, v, j);
                let k = choose|k: int| 0 <= k < verts.flatten().len() && verts.flatten()[k] == vertex_clauses(es, v,
                    m, false)[j];
                assert(cls[hots.flatten().len() + k] == vertex_clauses(es, v, m, false)[j]);
            }
            lemma_vertex_holds(es, v, m, false, a, val);
        }
        // Summed over the vertices, the signed sums cancel.
        let share = |v: int, e: int| edge_share(es, v, e, val);
        let flows = |v: int| vertex_flow(es, v, val);
        assert forall|v: int| 0 <= v < n implies #[trigger] flows(v) == isum(|e: int| share(v, e), ne) by {
            lemma_signed_value_inc(es, v, val, ne);
            lemma_isum_ext(|e: int| edge_share(es, v, e, val), |e: int| share(v, e), ne);
        }
        lemma_isum_ext(flows, |v: int| isum(|e: int| share(v, e), ne), n);
        lemma_isum_swap(share, n, ne);
        let per_edge = |e: int| isum(|v: int| share(v, e), n);
        assert forall|e: int| 0 <= e < ne implies #[trigger] per_edge(e) == 0 by {
            let x = es[e].0 as int;
            let y = es[e].1 as int;
            let p0 = |v: int| if v == x { val(e) } else { 0 };
            let p1 = |v: int| if v == y { -val(e) } else { 0 };
            lemma_isum_add(p0, p1, |v: int| share(v, e), n);
            lemma_isum_single(p0, x, val(e), n);
            lemma_isum_single(p1, y, -val(e), n);
        }
        lemma_isum_zero(per_edge, ne);
        // The charges add up to 2.
        let charge = |v: int| mod_charge(v, m, false) as int;
        let c0 = |v: int| if v == 0 { 1int } else { 0 };
        let c1 = |v: int| if v == 1 { 1int } else { 0 };
        lemma_isum_add(c0, c1, charge, n);
        lemma_isum_single(c0, 0, 1, n);
        lemma_isum_single(c1, 1, 1, n);
        // Each difference is a multiple of m.
        let mi = m as int;
        let quot = |v: int| flows(v) / mi - charge(v) / mi;
        let diff = |v: int| flows(v) - charge(v);
        assert forall|v: int| 0 <= v < n implies #[trigger] diff(v) == mi * quot(v) by {
            vstd::arithmetic::div_mod::lemma_fundamental_div_mod(flows(v), mi);
            vstd::arithmetic::div_mod::lemma_fundamental_div_mod(charge(v), mi);
            assert(mi * (flows(v) / mi - charge(v) / mi) == mi * (flows(v) / mi) - mi * (charge(v) / mi))
                by (nonlinear_arith);
        }
        lemma_isum_scale(quot, mi, diff, n);
        let neg_charge = |v: int| -charge(v);
        lemma_isum_scale(charge, -1, neg_charge, n);
        lemma_isum_add(flows, neg_charge, diff, n);
        let t = isum(quot, n);
        assert(mi * t == -2);
        assert(false) by (nonlinear_arith)
            requires
                mi * t == -2,
                mi >= 3,
        ;
    }
}

/// The verdict of [`mod_p_tseitin_expander`] and [`mod_m_tseitin_expander`] is right: on the
/// random 3-regular graph, the one-hot CNF of the total-charge-2 divergence system is
/// unsatisfiable for every modulus `m >= 3`.
pub proof fn lemma_mod_tseitin_unsat(n: nat, m: nat, seed: u64)
    requires
        m >= 3,
        n % 2 == 0 && n >= 4,
        3 * n <= usize::MAX,
        regular_graph(n, seed) is Some,
    ensures
        !satisfiable(onehot_cnf(regular_graph(n, seed)->0, n, m, false)),
{
    lemma_regular_graph(n, seed);
    lemma_divergence_unsat(regular_graph(n, seed)->0, n, m);
}


// ---------------------------------------------------------------------------
// The divergence system itself is inconsistent
// ---------------------------------------------------------------------------

/// `Σ c · x(e)` over the terms `(e, c)` of an equation.
pub open spec fn modp_lhs(coeffs: Seq<(usize, u64)>, x: spec_fn(int) -> int) -> int
    decreases coeffs.len(),
{
    if coeffs.len() == 0 {
        0
    } else {
        modp_lhs(coeffs.drop_last(), x) + coeffs.last().1 * x(coeffs.last().0 as int)
    }
}

/// The values `x` satisfy the equation modulo `m`.
pub open spec fn modp_eq_holds(eq: ModpEquation, x: spec_fn(int) -> int, m: nat) -> bool {
    modp_lhs(eq.coeffs@, x) % (m as int) == (eq.rhs as int) % (m as int)
}

/// What edge `e` adds to the left side at `v`: `x(e)` at its tail, `(m−1)·x(e)` at its head.
pub open spec fn coeff_share(es: Seq<(usize, usize)>, v: int, e: int, m: nat, x: spec_fn(int) -> int) -> int {
    if es[e].0 == v {
        x(e)
    } else if es[e].1 == v {
        (m - 1) * x(e)
    } else {
        0
    }
}

/// Left sides over a concatenation.
proof fn lemma_modp_lhs_concat(s: Seq<(usize, u64)>, t: Seq<(usize, u64)>, x: spec_fn(int) -> int)
    ensures
        modp_lhs(s + t, x) == modp_lhs(s, x) + modp_lhs(t, x),
    decreases t.len(),
{
    if t.len() > 0 {
        lemma_modp_lhs_concat(s, t.drop_last(), x);
        assert((s + t).drop_last() =~= s + t.drop_last());
    } else {
        assert(s + t =~= s);
    }
}

/// The left side at `v` is the sum of the edges' shares.
proof fn lemma_modp_lhs_coeffs(es: Seq<(usize, usize)>, v: int, m: nat, x: spec_fn(int) -> int, k: nat)
    requires
        k <= es.len(),
        es.len() <= usize::MAX,
        1 <= m <= u64::MAX,
    ensures
        modp_lhs(Seq::new(k, |e: int| coeff_step(es, v, e, m)).flatten(), x) == isum(|e: int| coeff_share(es, v, e, m,
            x), k),
    decreases k,
{
    let g = |e: int| coeff_step(es, v, e, m);
    if k == 0 {
        assert(Seq::new(k, g).flatten() =~= Seq::<(usize, u64)>::empty());
    } else {
        lemma_modp_lhs_coeffs(es, v, m, x, (k - 1) as nat);
        lemma_flatten_new_push((k - 1) as nat, g);
        lemma_modp_lhs_concat(Seq::new((k - 1) as nat, g).flatten(), g(k - 1), x);
        let e = k - 1;
        let none: Seq<(usize, u64)> = Seq::empty();
        assert(modp_lhs(none, x) == 0);
        assert((e as usize) as int == e);
        if es[e].0 == v {
            assert(g(e).drop_last() =~= none);
        } else if es[e].1 == v {
            assert(g(e).drop_last() =~= none);
            assert(((m - 1) as u64) as int == m - 1);
        } else {
            assert(g(e) =~= none);
        }
        assert(modp_lhs(g(e), x) == coeff_share(es, v, e, m, x));
    }
}

/// The divergence system with total charge `2` is inconsistent modulo every `m >= 3`, on any
/// graph without loops: whatever values `x` the edges take, some vertex's equation fails,
/// since summing all equations counts each edge `1 + (m − 1) = m` times.
pub proof fn lemma_divergence_inconsistent(eqs: Seq<ModpEquation>, es: Seq<(usize, usize)>, n: nat, m: nat,
    x: spec_fn(int) -> int)
    requires
        3 <= m <= u64::MAX,
        n >= 2,
        es.len() <= usize::MAX,
        forall|e: int| 0 <= e < es.len() ==> (#[trigger] es[e]).0 < es[e].1 < n,
        divergence_eqs(eqs, es, n, m, false),
    ensures
        !(forall|v: int| 0 <= v < eqs.len() ==> modp_eq_holds(#[trigger] eqs[v], x, m)),
{
    if forall|v: int| 0 <= v < eqs.len() ==> modp_eq_holds(#[trigger] eqs[v], x, m) {
        let ne = es.len();
        let mi = m as int;
        let lhs = |v: int| modp_lhs(div_coeffs(es, v, m), x);
        let share = |v: int, e: int| coeff_share(es, v, e, m, x);
        assert forall|v: int| 0 <= v < n implies #[trigger] lhs(v) == isum(|e: int| share(v, e), ne) by {
            lemma_modp_lhs_coeffs(es, v, m, x, ne);
            lemma_isum_ext(|e: int| coeff_share(es, v, e, m, x), |e: int| share(v, e), ne);
        }
        lemma_isum_ext(lhs, |v: int| isum(|e: int| share(v, e), ne), n);
        lemma_isum_swap(share, n, ne);
        let per_edge = |e: int| isum(|v: int| share(v, e), n);
        let xm = |e: int| x(e);
        assert forall|e: int| 0 <= e < ne implies #[trigger] per_edge(e) == mi * xm(e) by {
            let a = es[e].0 as int;
            let b = es[e].1 as int;
            let p0 = |v: int| if v == a { x(e) } else { 0 };
            let p1 = |v: int| if v == b { (m - 1) * x(e) } else { 0 };
            lemma_isum_add(p0, p1, |v: int| share(v, e), n);
            lemma_isum_single(p0, a, x(e), n);
            lemma_isum_single(p1, b, (m - 1) * x(e), n);
            assert(x(e) + (m - 1) * x(e) == mi * x(e)) by (nonlinear_arith)
                requires
                    mi == m,
            ;
        }
        lemma_isum_scale(xm, mi, per_edge, ne);
        // The right sides add up to 2.
        let charge = |v: int| mod_charge(v, m, false) as int;
        let c0 = |v: int| if v == 0 { 1int } else { 0 };
        let c1 = |v: int| if v == 1 { 1int } else { 0 };
        lemma_isum_add(c0, c1, charge, n);
        lemma_isum_single(c0, 0, 1, n);
        lemma_isum_single(c1, 1, 1, n);
        // Each equation holds modulo m.
        let quot = |v: int| lhs(v) / mi - charge(v) / mi;
        let diff = |v: int| lhs(v) - charge(v);
        assert forall|v: int| 0 <= v < n implies #[trigger] diff(v) == mi * quot(v) by {
            assert(modp_eq_holds(eqs[v], x, m));
            vstd::arithmetic::div_mod::lemma_fundamental_div_mod(lhs(v), mi);
            vstd::arithmetic::div_mod::lemma_fundamental_div_mod(charge(v), mi);
            assert(mi * (lhs(v) / mi - charge(v) / mi) == mi * (lhs(v) / mi) - mi * (charge(v) / mi))
                by (nonlinear_arith);
        }
        lemma_isum_scale(quot, mi, diff, n);
        let neg_charge = |v: int| -charge(v);
        lemma_isum_scale(charge, -1, neg_charge, n);
        lemma_isum_add(lhs, neg_charge, diff, n);
        let t = isum(quot, n);
        let sx = isum(xm, ne);
        assert(mi * sx - 2 == mi * t);
        assert(false) by (nonlinear_arith)
            requires
                mi * sx - 2 == mi * t,
                mi >= 3,
        ;
    }
}


// ---------------------------------------------------------------------------
// The consistent control is satisfiable when a trail joins its two charges
// ---------------------------------------------------------------------------

/// `base_digits` yields `d` digits.
proof fn lemma_digits_len(x: nat, m: nat, d: nat)
    requires
        m > 0,
    ensures
        base_digits(x, m, d).len() == d,
    decreases d,
{
    if d > 0 {
        lemma_digits_len(x / m, m, (d - 1) as nat);
    }
}

/// Every base-`m` digit is below `m`.
proof fn lemma_digits_bound(x: nat, m: nat, d: nat, i: int)
    requires
        m > 0,
        0 <= i < d,
    ensures
        base_digits(x, m, d)[i] < m,
    decreases d,
{
    lemma_digits_len(x / m, m, (d - 1) as nat);
    if i > 0 {
        lemma_digits_bound(x / m, m, (d - 1) as nat, i - 1);
    }
}

/// `path` is a trail from vertex `0` to vertex `1`: distinct edges, the `k`-th joining
/// `verts[k]` and `verts[k + 1]` in either direction.
pub open spec fn trail_0_to_1(es: Seq<(usize, usize)>, verts: Seq<int>, path: Seq<int>) -> bool {
    &&& verts.len() == path.len() + 1
    &&& verts[0] == 0
    &&& verts[path.len() as int] == 1
    &&& forall|k: int| 0 <= k < path.len() ==> 0 <= #[trigger] path[k] < es.len() && ((es[path[k]].0 == verts[k]
        && es[path[k]].1 == verts[k + 1]) || (es[path[k]].1 == verts[k] && es[path[k]].0 == verts[k + 1]))
    &&& forall|k1: int, k2: int| 0 <= k1 < k2 < path.len() ==> #[trigger] path[k1] != #[trigger] path[k2]
}

/// The unit flow along the trail: `+1` on an edge walked from tail to head, `−1` on one walked
/// backwards, `0` off the trail.
pub open spec fn trail_flow(es: Seq<(usize, usize)>, verts: Seq<int>, path: Seq<int>, e: int) -> int {
    if exists|k: int| 0 <= k < path.len() && #[trigger] path[k] == e {
        let k = choose|k: int| 0 <= k < path.len() && #[trigger] path[k] == e;
        if es[e].0 == verts[k] { 1 } else { -1 }
    } else {
        0
    }
}

/// A sum of terms that vanish off a list of distinct positions is the sum over the list.
proof fn lemma_isum_support(h: spec_fn(int) -> int, m: nat, path: Seq<int>, l: nat)
    requires
        l <= path.len(),
        forall|k: int| 0 <= k < l ==> 0 <= #[trigger] path[k] < m,
        forall|k1: int, k2: int| 0 <= k1 < k2 < l ==> #[trigger] path[k1] != #[trigger] path[k2],
        forall|e: int| 0 <= e < m && !(exists|k: int| 0 <= k < l && #[trigger] path[k] == e) ==> #[trigger] h(e) == 0,
    ensures
        isum(h, m) == isum(|k: int| h(path[k]), l),
    decreases l,
{
    if l == 0 {
        assert forall|e: int| 0 <= e < m implies #[trigger] h(e) == 0 by {}
        lemma_isum_zero(h, m);
    } else {
        let p = path[l - 1];
        let h1 = |e: int| if e == p { 0 } else { h(e) };
        let pt = |e: int| if e == p { h(p) } else { 0 };
        assert forall|e: int| 0 <= e < m && !(exists|k: int| 0 <= k < l - 1 && #[trigger] path[k] == e) implies
            #[trigger] h1(e) == 0 by {
            if e != p {
                if exists|k: int| 0 <= k < l && #[trigger] path[k] == e {
                    let k = choose|k: int| 0 <= k < l && #[trigger] path[k] == e;
                    assert(k < l - 1);
                }
            }
        }
        lemma_isum_support(h1, m, path, (l - 1) as nat);
        lemma_isum_add(h1, pt, h, m);
        lemma_isum_single(pt, p, h(p), m);
        let g1 = |k: int| h1(path[k]);
        let g = |k: int| h(path[k]);
        assert forall|k: int| 0 <= k < l - 1 implies #[trigger] g1(k) == g(k) by {
            assert(path[k] != path[l - 1]);
        }
        lemma_isum_ext(g1, g, (l - 1) as nat);
    }
}

/// Telescoping along the trail's vertices.
proof fn lemma_telescope(verts: Seq<int>, w: int, l: nat)
    requires
        l < verts.len(),
    ensures
        isum(|k: int| (if verts[k] == w { 1int } else { 0int }) - (if verts[k + 1] == w { 1int } else { 0int }), l)
            == (if verts[0] == w { 1int } else { 0int }) - (if verts[l as int] == w { 1int } else { 0int }),
    decreases l,
{
    if l > 0 {
        lemma_telescope(verts, w, (l - 1) as nat);
    }
}

/// The trail flow leaves `0`, enters `1`, and is conserved everywhere else.
proof fn lemma_trail_divergence(es: Seq<(usize, usize)>, verts: Seq<int>, path: Seq<int>, w: int)
    requires
        es.len() <= usize::MAX,
        forall|e: int| 0 <= e < es.len() ==> (#[trigger] es[e]).0 < es[e].1,
        trail_0_to_1(es, verts, path),
    ensures
        vertex_flow(es, w, |e: int| trail_flow(es, verts, path, e)) == (if w == 0 { 1int } else { 0int }) - (if w
            == 1 { 1int } else { 0int }),
{
    let f = |e: int| trail_flow(es, verts, path, e);
    let l = path.len();
    let h = |e: int| edge_share(es, w, e, f);
    lemma_signed_value_inc(es, w, f, es.len());
    assert forall|e: int| 0 <= e < es.len() && !(exists|k: int| 0 <= k < l && #[trigger] path[k] == e) implies
        #[trigger] h(e) == 0 by {
        assert(f(e) == 0);
    }
    lemma_isum_support(h, es.len(), path, l);
    let step = |k: int| (if verts[k] == w { 1int } else { 0int }) - (if verts[k + 1] == w { 1int } else { 0int });
    assert forall|k: int| 0 <= k < l implies #[trigger] h(path[k]) == step(k) by {
        let e = path[k];
        assert(exists|k2: int| 0 <= k2 < l && #[trigger] path[k2] == e);
        let k2 = choose|k2: int| 0 <= k2 < l && #[trigger] path[k2] == e;
        if k2 != k {
            if k2 < k {
                assert(path[k2] != path[k]);
            } else {
                assert(path[k] != path[k2]);
            }
        }
        assert(es[e].0 < es[e].1);
    }
    lemma_isum_ext(|k: int| h(path[k]), step, l);
    lemma_telescope(verts, w, l);
}

/// The value of edge `e` modulo `m` under the trail flow: `1`, `m − 1` or `0`.
pub open spec fn flow_value(es: Seq<(usize, usize)>, verts: Seq<int>, path: Seq<int>, m: nat, e: int) -> int {
    let x = trail_flow(es, verts, path, e);
    if x < 0 { m + x } else { x }
}

/// The one-hot assignment of the trail flow: bit `(e, val)` is set when `val` is edge `e`'s value.
pub open spec fn flow_bits(es: Seq<(usize, usize)>, verts: Seq<int>, path: Seq<int>, m: nat) -> spec_fn(u32) -> bool {
    |v: u32| exists|e: int, val: int| 0 <= e < es.len() && 0 <= val < m && #[trigger] bvar(e, val, m) == v && val
        == flow_value(es, verts, path, m, e)
}

/// Distinct (edge, value) bits are distinct variables while they fit in 32 bits.
proof fn lemma_bvar_injective(e1: int, v1: int, e2: int, v2: int, m: nat, ne: nat)
    requires
        ne * m <= 0x1_0000_0000,
        0 <= e1 < ne,
        0 <= e2 < ne,
        0 <= v1 < m,
        0 <= v2 < m,
        bvar(e1, v1, m) == bvar(e2, v2, m),
    ensures
        e1 == e2 && v1 == v2,
{
    assert(e1 * m + v1 < ne * m && e2 * m + v2 < ne * m) by (nonlinear_arith)
        requires
            e1 < ne,
            e2 < ne,
            v1 < m,
            v2 < m,
            e1 >= 0,
            e2 >= 0,
    ;
    assert(0 <= e1 * m && 0 <= e2 * m) by (nonlinear_arith)
        requires
            e1 >= 0,
            e2 >= 0,
    ;
    assert((e1 * m + v1) as u32 as int == e1 * m + v1);
    assert((e2 * m + v2) as u32 as int == e2 * m + v2);
    vstd::arithmetic::div_mod::lemma_fundamental_div_mod_converse(e1 * m + v1, m as int, e1, v1);
    vstd::arithmetic::div_mod::lemma_fundamental_div_mod_converse(e2 * m + v2, m as int, e2, v2);
}

/// The one-hot bits give each edge its flow value.
proof fn lemma_flow_bit(es: Seq<(usize, usize)>, verts: Seq<int>, path: Seq<int>, m: nat, e: int, val: int)
    requires
        m >= 2,
        es.len() * m <= 0x1_0000_0000,
        0 <= e < es.len(),
        0 <= val < m,
    ensures
        flow_bits(es, verts, path, m)(bvar(e, val, m)) == (val == flow_value(es, verts, path, m, e)),
{
    let a = flow_bits(es, verts, path, m);
    if val == flow_value(es, verts, path, m, e) {
        assert(bvar(e, val, m) == bvar(e, val, m));
    } else if a(bvar(e, val, m)) {
        let (e2, v2) = choose|e2: int, v2: int| 0 <= e2 < es.len() && 0 <= v2 < m && #[trigger] bvar(e2, v2, m)
            == bvar(e, val, m) && v2 == flow_value(es, verts, path, m, e2);
        lemma_bvar_injective(e2, v2, e, val, m, es.len());
    }
}

/// A signed sum over digits congruent to values differs from the signed value by a multiple
/// of `m`.
proof fn lemma_signed_sum_congruent(inc: Seq<(usize, i64)>, combo: Seq<nat>, f: spec_fn(int) -> int, m: nat, k: nat)
    -> (q: int)
    requires
        k <= inc.len(),
        k <= combo.len(),
        m >= 1,
        forall|i: int| 0 <= i < k ==> (#[trigger] combo[i]) == f(inc[i].0 as int) || combo[i] == m + f(inc[i].0 as int),
    ensures
        signed_sum(inc, combo, k) == signed_value(inc.take(k as int), f) + m * q,
    decreases k,
{
    if k == 0 {
        assert(inc.take(0) =~= Seq::<(usize, i64)>::empty());
        0
    } else {
        let q0 = lemma_signed_sum_congruent(inc, combo, f, m, (k - 1) as nat);
        assert(inc.take(k as int).drop_last() =~= inc.take(k - 1));
        let s = inc[k - 1].1 as int;
        let c = combo[k - 1] as int;
        let x = f(inc[k - 1].0 as int);
        if c == x {
            q0
        } else {
            assert(s * c == s * x + m * s) by (nonlinear_arith)
                requires
                    c == m + x,
            ;
            assert(m * q0 + m * s == m * (q0 + s)) by (nonlinear_arith);
            q0 + s
        }
    }
}

/// The trail flow satisfies every clause of vertex `w`: any assignment it forbids differs from
/// the flow on some edge.
proof fn lemma_flow_vertex(es: Seq<(usize, usize)>, n: nat, m: nat, verts: Seq<int>, path: Seq<int>, w: int)
    requires
        3 <= m <= u64::MAX,
        es.len() <= usize::MAX,
        es.len() * m <= 0x1_0000_0000,
        forall|e: int| 0 <= e < es.len() ==> (#[trigger] es[e]).0 < es[e].1 < n,
        trail_0_to_1(es, verts, path),
    ensures
        cnf_holds(flow_bits(es, verts, path, m), vertex_clauses(es, w, m, true)),
{
    let a = flow_bits(es, verts, path, m);
    let f = |e: int| trail_flow(es, verts, path, e);
    let inc = signed_inc(es, w);
    let d = inc.len();
    let blocks = vertex_blocks(es, w, m, true);
    let want = mod_charge(w, m, true) as int;
    let cls = vertex_clauses(es, w, m, true);
    assert forall|j: int| 0 <= j < cls.len() implies clause_holds(a, #[trigger] cls[j]) by {
        lemma_flatten_index(blocks, j);
        let (idx, z) = choose|idx: int, z: int| 0 <= idx < blocks.len() && 0 <= z < blocks[idx].len()
            && blocks.flatten()[j] == #[trigger] blocks[idx][z];
        let combo = base_digits(idx as nat, m, d);
        assert(blocks[idx] == value_block(inc, want, m, idx as nat));
        assert(signed_sum(inc, combo, d) % (m as int) != want % (m as int));
        assert(cls[j] == value_clause(inc, combo, m));
        lemma_flow_clause(es, n, m, verts, path, w, idx as nat);
    }
}

/// A clause of vertex `w` (its signed sum misses the charge) holds under the flow bits.
proof fn lemma_flow_clause(es: Seq<(usize, usize)>, n: nat, m: nat, verts: Seq<int>, path: Seq<int>, w: int, idx: nat)
    requires
        3 <= m <= u64::MAX,
        es.len() <= usize::MAX,
        es.len() * m <= 0x1_0000_0000,
        forall|e: int| 0 <= e < es.len() ==> (#[trigger] es[e]).0 < es[e].1 < n,
        trail_0_to_1(es, verts, path),
        signed_sum(signed_inc(es, w), base_digits(idx, m, signed_inc(es, w).len()), signed_inc(es, w).len()) % (m as int)
            != (mod_charge(w, m, true) as int) % (m as int),
    ensures
        clause_holds(flow_bits(es, verts, path, m), value_clause(signed_inc(es, w), base_digits(idx, m, signed_inc(es,
            w).len()), m)),
{
    let a = flow_bits(es, verts, path, m);
    let f = |e: int| trail_flow(es, verts, path, e);
    let inc = signed_inc(es, w);
    let d = inc.len();
    let want = mod_charge(w, m, true) as int;
    let combo = base_digits(idx, m, d);
    lemma_digits_len(idx, m, d);
    let cl = value_clause(inc, combo, m);
    if !clause_holds(a, cl) {
        // Every digit is the flow value, so the signed sum is the divergence.
        assert forall|i: int| 0 <= i < d implies (#[trigger] combo[i]) == f(inc[i].0 as int) || combo[i] == m + f(
            inc[i].0 as int) by {
            lemma_signed_entry(es, w, i);
            lemma_digits_bound(idx, m, d, i);
            assert(cl[i] == neg(bvar(inc[i].0 as int, combo[i] as int, m)));
            assert(!lit_holds(a, cl[i]));
            lemma_flow_bit(es, verts, path, m, inc[i].0 as int, combo[i] as int);
        }
        let q = lemma_signed_sum_congruent(inc, combo, f, m, d);
        assert(inc.take(d as int) =~= inc);
        lemma_trail_divergence(es, verts, path, w);
        let div = (if w == 0 { 1int } else { 0int }) - (if w == 1 { 1int } else { 0int });
        assert(signed_sum(inc, combo, d) == div + m * q);
        vstd::arithmetic::div_mod::lemma_mod_multiples_vanish(q, div, m as int);
        assert((m * q + div) % (m as int) == div % (m as int));
        if w == 1 {
            vstd::arithmetic::div_mod::lemma_mod_multiples_vanish(-1, (m - 1) as int, m as int);
            assert(m * -1 + (m - 1) == -1) by (nonlinear_arith);
            assert(div == -1);
            assert(want == m - 1);
        } else if w == 0 {
            assert(div == 1);
        } else {
            assert(div == 0);
        }
    }
}

/// The one-hot clauses of each edge hold under the flow bits.
proof fn lemma_flow_onehot(es: Seq<(usize, usize)>, m: nat, verts: Seq<int>, path: Seq<int>, e: int)
    requires
        3 <= m,
        es.len() * m <= 0x1_0000_0000,
        0 <= e < es.len(),
    ensures
        cnf_holds(flow_bits(es, verts, path, m), onehot(e, m)),
{
    let a = flow_bits(es, verts, path, m);
    let x = flow_value(es, verts, path, m, e);
    let alo = onehot_alo(e, m);
    assert(0 <= x < m);
    let cls = onehot(e, m);
    assert forall|j: int| 0 <= j < cls.len() implies clause_holds(a, #[trigger] cls[j]) by {
        lemma_flow_bit(es, verts, path, m, e, x);
        if j == 0 {
            assert(cls[0] == alo);
            assert(lit_holds(a, alo[x]));
        } else {
            let rows = Seq::new(alo.len(), |i: int| crate::families::amo_row(alo, i));
            assert(amo(alo) == rows.flatten());
            assert(cls[j] == amo(alo)[j - 1]);
            crate::cnf::lemma_flatten_index(rows, j - 1);
            let (i, z) = choose|i: int, z: int| 0 <= i < rows.len() && 0 <= z < rows[i].len() && rows.flatten()[j - 1]
                == #[trigger] rows[i][z];
            let v2 = i + 1 + z;
            assert(cls[j] == seq![neg(bvar(e, i, m)), neg(bvar(e, v2, m))]);
            lemma_flow_bit(es, verts, path, m, e, i);
            lemma_flow_bit(es, verts, path, m, e, v2);
            if i == x {
                assert(lit_holds(a, cls[j][1]));
            } else {
                assert(lit_holds(a, cls[j][0]));
            }
        }
    }
}

/// The consistent control is satisfiable whenever a trail joins its two charged vertices: the
/// unit flow along the trail, taken modulo `m`, meets every vertex's charge (as long as the
/// one-hot variables fit in 32 bits).
pub proof fn lemma_consistent_sat(es: Seq<(usize, usize)>, n: nat, m: nat, verts: Seq<int>, path: Seq<int>)
    requires
        3 <= m <= u64::MAX,
        es.len() <= usize::MAX,
        es.len() * m <= 0x1_0000_0000,
        forall|e: int| 0 <= e < es.len() ==> (#[trigger] es[e]).0 < es[e].1 < n,
        trail_0_to_1(es, verts, path),
    ensures
        satisfiable(onehot_cnf(es, n, m, true)),
{
    let a = flow_bits(es, verts, path, m);
    let cls = onehot_cnf(es, n, m, true);
    let hots = Seq::new(es.len(), |e: int| onehot(e, m));
    let verts_cls = Seq::new(n, |v: int| vertex_clauses(es, v, m, true));
    assert(cls == hots.flatten() + verts_cls.flatten());
    assert forall|c: int| 0 <= c < cls.len() implies clause_holds(a, #[trigger] cls[c]) by {
        if c < hots.flatten().len() {
            crate::cnf::lemma_flatten_index(hots, c);
            let (e, j) = choose|e: int, j: int| 0 <= e < hots.len() && 0 <= j < hots[e].len() && hots.flatten()[c]
                == #[trigger] hots[e][j];
            lemma_flow_onehot(es, m, verts, path, e);
        } else {
            let k = c - hots.flatten().len();
            crate::cnf::lemma_flatten_index(verts_cls, k);
            let (v, j) = choose|v: int, j: int| 0 <= v < verts_cls.len() && 0 <= j < verts_cls[v].len()
                && verts_cls.flatten()[k] == #[trigger] verts_cls[v][j];
            lemma_flow_vertex(es, n, m, verts, path, v);
        }
    }
    assert(cnf_holds(a, cls));
}


/// The verdict of [`mod_p_consistent_onehot`] is right whenever the random 3-regular graph
/// joins vertices `0` and `1` by a trail (`verts`, `path`) and the one-hot variables fit in 32
/// bits.
pub proof fn lemma_mod_p_consistent_sat(n: nat, p: nat, seed: u64, verts: Seq<int>, path: Seq<int>)
    requires
        3 <= p <= u64::MAX,
        n % 2 == 0 && n >= 4,
        3 * n <= usize::MAX,
        regular_graph(n, seed) is Some,
        (3 * n / 2) * p <= 0x1_0000_0000,
        trail_0_to_1(regular_graph(n, seed)->0, verts, path),
    ensures
        satisfiable(onehot_cnf(regular_graph(n, seed)->0, n, p, true)),
{
    lemma_regular_graph(n, seed);
    lemma_consistent_sat(regular_graph(n, seed)->0, n, p, verts, path);
}

} // verus!
