//! Parity constraints and the Tseitin families on grids and boards.

use vstd::prelude::*;
use vstd::arithmetic::power2::pow2;
use crate::cnf::{Lit, DimacsCnf, XorEquation, pos, neg, negate, clauses_view, lit_holds, clause_holds, cnf_holds, satisfiable,
    lemma_flatten_contains, lemma_flatten_index, lemma_contained_clause_holds};
use crate::families::{ExpectedVerdict, amo, push_amo, lemma_cv_push, lemma_flatten_new_push};
use crate::families::tally::{isum, chosen, lemma_isum_ext, lemma_isum_add, lemma_isum_scale, lemma_isum_single, lemma_isum_zero,
    lemma_isum_swap, lemma_isum_rows, lemma_chosen_concat, lemma_chosen_flatten, lemma_chosen_single, lemma_chosen_one,
    lemma_cover_clause, lemma_exclusion_clause};

verus! {

// ---------------------------------------------------------------------------
// XOR constraints as clauses
// ---------------------------------------------------------------------------

/// Bit `t` of `mask`.
pub open spec fn mask_bit(mask: u32, t: int) -> bool {
    ((mask >> (t as u32)) & 1u32) == 1u32
}

/// The parity of the low `k` bits of `mask`.
pub open spec fn low_parity(mask: u32, k: nat) -> bool
    decreases k,
{
    if k == 0 { false } else { low_parity(mask, (k - 1) as nat) != mask_bit(mask, k - 1) }
}

/// The clause ruling out the assignment of `vs` that `mask` encodes: a literal is true
/// exactly when it differs from its mask bit.
pub open spec fn xor_clause(vs: Seq<u32>, mask: u32) -> Seq<Lit> {
    Seq::new(vs.len(), |t: int| Lit { var: vs[t], positive: !mask_bit(mask, t) })
}

/// The clause for `mask` if its parity is wrong for `rhs`, nothing otherwise.
pub open spec fn xor_block(vs: Seq<u32>, rhs: bool, mask: int) -> Seq<Seq<Lit>> {
    if low_parity(mask as u32, vs.len()) != rhs { seq![xor_clause(vs, mask as u32)] } else { Seq::empty() }
}

/// The CNF of `⊕ vs = rhs`: one clause per wrong-parity assignment, in order of the mask.
pub open spec fn xor_cnf(vs: Seq<u32>, rhs: bool) -> Seq<Seq<Lit>> {
    Seq::new(pow2(vs.len()), |m: int| xor_block(vs, rhs, m)).flatten()
}

fn low_parity_of(mask: u32, k: usize) -> (r: bool)
    requires
        k < 32,
    ensures
        r == low_parity(mask, k as nat),
{
    let mut p = false;
    let mut t: usize = 0;
    while t < k
        invariant
            t <= k < 32,
            p == low_parity(mask, t as nat),
        decreases k - t,
    {
        let b = ((mask >> (t as u32)) & 1u32) == 1u32;
        p = p != b;
        t += 1;
    }
    p
}

fn xor_clause_of(vs: &[u32], mask: u32) -> (r: Vec<Lit>)
    requires
        vs@.len() < 32,
    ensures
        r@ == xor_clause(vs@, mask),
{
    let mut r: Vec<Lit> = Vec::new();
    let mut t: usize = 0;
    while t < vs.len()
        invariant
            t <= vs@.len() < 32,
            r@ == xor_clause(vs@, mask).take(t as int),
        decreases vs@.len() - t,
    {
        let s = t as u32;
        let positive = (mask >> s) & 1u32 == 0u32;
        let l = Lit::new(vs[t], positive);
        proof {
            assert(((mask >> s) & 1u32 == 0u32) == !((mask >> s) & 1u32 == 1u32)) by (bit_vector);
            assert(xor_clause(vs@, mask).take(t + 1) =~= xor_clause(vs@, mask).take(t as int).push(l));
        }
        r.push(l);
        t += 1;
    }
    proof {
        assert(xor_clause(vs@, mask).take(vs@.len() as int) =~= xor_clause(vs@, mask));
    }
    r
}

/// Append the clauses of `⊕ vs = rhs` to `out`.
pub fn push_xor_clauses(out: &mut Vec<Vec<Lit>>, vs: &[u32], rhs: bool)
    requires
        vs@.len() < 32,
    ensures
        clauses_view(final(out)@) == clauses_view(old(out)@) + xor_cnf(vs@, rhs),
{
    let ghost base = clauses_view(out@);
    let ghost f = |m: int| xor_block(vs@, rhs, m);
    let k = vs.len();
    proof {
        vstd::bits::lemma_u32_pow2_no_overflow(k as nat);
        vstd::bits::lemma_u32_shl_is_mul(1u32, k as u32);
    }
    let limit: u32 = 1u32 << (k as u32);
    let mut mask: u32 = 0;
    while mask < limit
        invariant
            k == vs@.len() < 32,
            limit == pow2(k as nat),
            mask <= limit,
            f == (|m: int| xor_block(vs@, rhs, m)),
            clauses_view(out@) == base + Seq::new(mask as nat, f).flatten(),
        decreases limit - mask,
    {
        proof {
            lemma_flatten_new_push(mask as nat, f);
        }
        let odd = low_parity_of(mask, k);
        if odd != rhs {
            let cl = xor_clause_of(vs, mask);
            proof {
                lemma_cv_push(out@, cl);
                assert(f(mask as int) =~= seq![cl@]);
                assert(base + Seq::new(mask as nat, f).flatten() + f(mask as int) =~= (base + Seq::new(mask as nat,
                    f).flatten()).push(cl@));
            }
            out.push(cl);
        } else {
            proof {
                assert(f(mask as int) =~= Seq::<Seq<Lit>>::empty());
                assert(base + Seq::new(mask as nat, f).flatten() + f(mask as int) =~= base + Seq::new(mask as nat,
                    f).flatten());
            }
        }
        mask += 1;
    }
    proof {
        assert(Seq::new(pow2(k as nat), f) =~= Seq::new(pow2(vs@.len()), |m: int| xor_block(vs@, rhs, m)));
    }
}

/// The clauses encoding the parity constraint `v0 ⊕ v1 ⊕ … = rhs`: every wrong-parity
/// assignment of the listed variables is forbidden.
pub fn xor_clauses(vs: &[u32], rhs: bool) -> (out: Vec<Vec<Lit>>)
    requires
        vs@.len() < 32,
    ensures
        clauses_view(out@) == xor_cnf(vs@, rhs),
{
    let mut out: Vec<Vec<Lit>> = Vec::new();
    push_xor_clauses(&mut out, vs, rhs);
    proof {
        assert(clauses_view(Seq::<Vec<Lit>>::empty()) =~= Seq::<Seq<Lit>>::empty());
        assert(Seq::<Seq<Lit>>::empty() + xor_cnf(vs@, rhs) =~= xor_cnf(vs@, rhs));
    }
    out
}

/// The parity of the first `k` bits of `b`.
pub open spec fn parity_of(b: spec_fn(int) -> bool, k: nat) -> bool
    decreases k,
{
    if k == 0 { false } else { parity_of(b, (k - 1) as nat) != b(k - 1) }
}

/// The XOR of the values the assignment `a` gives the variables `vs`.
pub open spec fn xor_value(a: spec_fn(u32) -> bool, vs: Seq<u32>) -> bool {
    parity_of(|t: int| a(vs[t]), vs.len())
}

/// The mask whose low `k` bits are `b(0), …, b(k-1)`.
spec fn mask_of(b: spec_fn(int) -> bool, k: nat) -> u32
    decreases k,
{
    if k == 0 {
        0u32
    } else {
        mask_of(b, (k - 1) as nat) | (if b(k - 1) { 1u32 << ((k - 1) as u32) } else { 0u32 })
    }
}

proof fn lemma_set_bit(x: u32, k: u32, t: u32)
    by (bit_vector)
    requires
        k < 31,
        t < k,
        x >> k == 0u32,
    ensures
        ((x | (1u32 << k)) >> t) & 1u32 == (x >> t) & 1u32,
        ((x | (1u32 << k)) >> k) & 1u32 == 1u32,
{
}

proof fn lemma_top_bit(x: u32, k: u32, k1: u32)
    by (bit_vector)
    requires
        k < 31,
        k1 == k + 1,
        x >> k == 0u32,
    ensures
        ((x | (1u32 << k)) >> k) & 1u32 == 1u32,
        (x | (1u32 << k)) >> k1 == 0u32,
        (x >> k) & 1u32 == 0u32,
        x >> k1 == 0u32,
{
}

/// The low `k` bits of `mask_of(b, k)` are `b`'s, and no higher bit is set.
proof fn lemma_mask_of(b: spec_fn(int) -> bool, k: nat)
    requires
        k <= 31,
    ensures
        mask_of(b, k) >> (k as u32) == 0u32,
        forall|t: int| 0 <= t < k ==> mask_bit(mask_of(b, k), t) == #[trigger] b(t),
    decreases k,
{
    if k == 0 {
        assert(0u32 >> 0u32 == 0u32) by (bit_vector);
    } else {
        let j = (k - 1) as nat;
        lemma_mask_of(b, j);
        let x = mask_of(b, j);
        let ju = j as u32;
        lemma_top_bit(x, ju, k as u32);
        assert forall|t: int| 0 <= t < k implies mask_bit(mask_of(b, k), t) == #[trigger] b(t) by {
            let tu = t as u32;
            if t < j {
                if b(j as int) {
                    lemma_set_bit(x, ju, tu);
                } else {
                    assert((x | 0u32) == x) by (bit_vector);
                }
                assert(mask_bit(x, t) == b(t));
            } else {
                if !b(j as int) {
                    assert((x | 0u32) == x) by (bit_vector);
                }
            }
        }
        if !b(j as int) {
            assert((x | 0u32) == x) by (bit_vector);
        }
    }
}

/// A mask whose low `j` bits agree with `b` has `b`'s parity on those bits.
proof fn lemma_low_parity_agrees(m: u32, b: spec_fn(int) -> bool, j: nat)
    requires
        forall|t: int| 0 <= t < j ==> mask_bit(m, t) == #[trigger] b(t),
    ensures
        low_parity(m, j) == parity_of(b, j),
    decreases j,
{
    if j > 0 {
        lemma_low_parity_agrees(m, b, (j - 1) as nat);
        assert(mask_bit(m, j - 1) == b(j - 1));
    }
}

/// The XOR encoding is exact: an assignment satisfies `xor_cnf(vs, rhs)` exactly when the XOR of
/// the values it gives `vs` is `rhs`.
pub proof fn lemma_xor_cnf_encodes(vs: Seq<u32>, rhs: bool, a: spec_fn(u32) -> bool)
    requires
        vs.len() < 32,
    ensures
        cnf_holds(a, xor_cnf(vs, rhs)) == (xor_value(a, vs) == rhs),
{
    let b = |t: int| a(vs[t]);
    let len = vs.len();
    let blocks = Seq::new(pow2(len), |m: int| xor_block(vs, rhs, m));
    vstd::bits::lemma_u32_pow2_no_overflow(len);
    if cnf_holds(a, xor_cnf(vs, rhs)) && xor_value(a, vs) != rhs {
        let m = mask_of(b, len);
        lemma_mask_of(b, len);
        vstd::bits::lemma_u32_shr_is_div(m, len as u32);
        vstd::arithmetic::power2::lemma_pow2_pos(len);
        assert(m < pow2(len)) by {
            vstd::arithmetic::div_mod::lemma_div_is_ordered_by_denominator(m as int, 1, pow2(len) as int);
            if m >= pow2(len) {
                vstd::arithmetic::div_mod::lemma_div_non_zero(m as int, pow2(len) as int);
            }
        }
        lemma_low_parity_agrees(m, b, len);
        let c = xor_clause(vs, m);
        assert((m as int) as u32 == m);
        assert(blocks[m as int] == seq![c]);
        lemma_flatten_contains(blocks, m as int, 0);
        lemma_contained_clause_holds(a, xor_cnf(vs, rhs), c);
        let t = choose|t: int| 0 <= t < c.len() && lit_holds(a, #[trigger] c[t]);
        assert(mask_bit(m, t) == b(t));
    }
    if xor_value(a, vs) == rhs {
        assert forall|j: int| 0 <= j < xor_cnf(vs, rhs).len() implies clause_holds(a, #[trigger] xor_cnf(vs, rhs)[j]) by {
            lemma_flatten_index(blocks, j);
            let (mm, e) = choose|i: int, k: int| 0 <= i < blocks.len() && 0 <= k < blocks[i].len() && blocks.flatten()[j] == #[trigger] blocks[i][k];
            let m = mm as u32;
            assert(low_parity(m, len) != rhs);
            assert(blocks[mm][e] == xor_clause(vs, m));
            if forall|t: int| 0 <= t < len ==> mask_bit(m, t) == #[trigger] b(t) {
                lemma_low_parity_agrees(m, b, len);
            }
            let t = choose|t: int| 0 <= t < len && mask_bit(m, t) != #[trigger] b(t);
            assert(lit_holds(a, xor_clause(vs, m)[t]));
        }
    }
}

// ---------------------------------------------------------------------------
// Exactly-one coupled with parity
// ---------------------------------------------------------------------------

/// The selectors `x₀ … x_{n-1}` as positive literals.
pub open spec fn selectors(n: nat) -> Seq<Lit> {
    Seq::new(n, |i: int| pos(i as u32))
}

/// The prefix-XOR auxiliary `sᵢ`: variable `n + i`.
pub open spec fn prefix_aux(n: nat, i: int) -> u32 {
    (n + i) as u32
}

/// The prefix-XOR chain step `sᵢ = s_{i-1} ⊕ xᵢ` for `i = t + 1`.
pub open spec fn chain_step(n: nat, t: int) -> Seq<Seq<Lit>> {
    xor_cnf(seq![prefix_aux(n, t + 1), prefix_aux(n, t), (t + 1) as u32], false)
}

/// The clauses of `parity_exactly_one(n)`: exactly one selector true, and the selectors'
/// XOR (through the prefix chain ending in `s_{n-1} = 0`) even.
pub open spec fn parity_exactly_one_clauses(n: nat) -> Seq<Seq<Lit>> {
    seq![selectors(n)] + amo(selectors(n))
        + xor_cnf(seq![prefix_aux(n, 0), 0u32], false)
        + Seq::new((n - 1) as nat, |t: int| chain_step(n, t)).flatten()
        + seq![seq![neg(prefix_aux(n, n - 1))]]
}

/// A formula satisfied as a whole is satisfied in each part.
proof fn lemma_cnf_holds_split(a: spec_fn(u32) -> bool, x: Seq<Seq<Lit>>, y: Seq<Seq<Lit>>)
    requires
        cnf_holds(a, x + y),
    ensures
        cnf_holds(a, x),
        cnf_holds(a, y),
{
    assert forall|j: int| 0 <= j < x.len() implies clause_holds(a, #[trigger] x[j]) by {
        assert((x + y)[j] == x[j]);
    }
    assert forall|j: int| 0 <= j < y.len() implies clause_holds(a, #[trigger] y[j]) by {
        assert((x + y)[x.len() + j] == y[j]);
    }
}

/// A satisfied flattening of blocks satisfies each block.
pub proof fn lemma_cnf_holds_block(a: spec_fn(u32) -> bool, blocks: Seq<Seq<Seq<Lit>>>, i: int)
    requires
        cnf_holds(a, blocks.flatten()),
        0 <= i < blocks.len(),
    ensures
        cnf_holds(a, blocks[i]),
{
    assert forall|j: int| 0 <= j < blocks[i].len() implies clause_holds(a, #[trigger] blocks[i][j]) by {
        lemma_flatten_contains(blocks, i, j);
        lemma_contained_clause_holds(a, blocks.flatten(), blocks[i][j]);
    }
}

/// Along the prefix-XOR chain, with at most one selector true, `sₜ` says whether one of
/// `x₀ … xₜ` is true.
proof fn lemma_prefix_any(a: spec_fn(u32) -> bool, n: nat, t: int)
    requires
        0 <= t < n,
        forall|i: int, j: int| 0 <= i < j < n ==> !(#[trigger] a(i as u32) && #[trigger] a(j as u32)),
        a(prefix_aux(n, 0)) == a(0u32),
        forall|u: int| 0 <= u < n - 1 ==> #[trigger] a(prefix_aux(n, u + 1)) == (a(prefix_aux(n, u)) != a((u + 1) as u32)),
    ensures
        a(prefix_aux(n, t)) == exists|i: int| 0 <= i <= t && #[trigger] a(i as u32),
    decreases t,
{
    if t == 0 {
        if a(prefix_aux(n, 0)) {
            assert(a(0int as u32));
        }
    } else {
        lemma_prefix_any(a, n, t - 1);
        let u = t - 1;
        assert(a(prefix_aux(n, u + 1)) == (a(prefix_aux(n, u)) != a((u + 1) as u32)));
        assert(u + 1 == t);
        assert(a(prefix_aux(n, t)) == (a(prefix_aux(n, t - 1)) != a(t as u32)));
        if a(prefix_aux(n, t - 1)) {
            let i = choose|i: int| 0 <= i <= t - 1 && #[trigger] a(i as u32);
            assert(!a(t as u32)) by {
                assert(!(a(i as u32) && a(t as u32)));
            }
        } else {
            if exists|i: int| 0 <= i <= t && #[trigger] a(i as u32) {
                let i = choose|i: int| 0 <= i <= t && #[trigger] a(i as u32);
                if i < t {
                    assert(exists|k: int| 0 <= k <= t - 1 && #[trigger] a(k as u32));
                }
            }
        }
    }
}

/// The verdict of [`parity_exactly_one`] is right: exactly one selector true makes the XOR of
/// the selectors odd, while the prefix chain ending in `s_{n-1} = 0` makes it even.
pub proof fn lemma_parity_exactly_one_unsat(n: nat)
    requires
        n >= 2,
    ensures
        !satisfiable(parity_exactly_one_clauses(n)),
{
    let cls = parity_exactly_one_clauses(n);
    if satisfiable(cls) {
        let a = choose|a: spec_fn(u32) -> bool| cnf_holds(a, cls);
        let sel = selectors(n);
        let p1 = seq![sel];
        let p2 = amo(sel);
        let p3 = xor_cnf(seq![prefix_aux(n, 0), 0u32], false);
        let chain = Seq::new((n - 1) as nat, |t: int| chain_step(n, t));
        let p4 = chain.flatten();
        let p5 = seq![seq![neg(prefix_aux(n, n - 1))]];
        assert(cls == p1 + p2 + p3 + p4 + p5);
        lemma_cnf_holds_split(a, p1 + p2 + p3 + p4, p5);
        lemma_cnf_holds_split(a, p1 + p2 + p3, p4);
        lemma_cnf_holds_split(a, p1 + p2, p3);
        lemma_cnf_holds_split(a, p1, p2);
        // At least one selector.
        assert(clause_holds(a, p1[0]));
        let i0 = choose|i: int| 0 <= i < sel.len() && lit_holds(a, #[trigger] sel[i]);
        assert(a(i0 as u32));
        // At most one selector.
        assert forall|i: int, j: int| 0 <= i < j < n implies !(#[trigger] a(i as u32) && #[trigger] a(j as u32)) by {
            let rows = Seq::new(sel.len(), |k: int| crate::families::amo_row(sel, k));
            assert(p2 == rows.flatten());
            let c = rows[i][j - i - 1];
            assert(c == seq![neg(i as u32), neg(j as u32)]);
            lemma_flatten_contains(rows, i, j - i - 1);
            lemma_contained_clause_holds(a, p2, c);
            let k = choose|k: int| 0 <= k < c.len() && lit_holds(a, #[trigger] c[k]);
        }
        // The chain.
        lemma_xor_cnf_encodes(seq![prefix_aux(n, 0), 0u32], false, a);
        assert(a(prefix_aux(n, 0)) == a(0u32)) by {
            reveal_with_fuel(parity_of, 3);
        }
        assert forall|u: int| 0 <= u < n - 1 implies #[trigger] a(prefix_aux(n, u + 1)) == (a(prefix_aux(n, u)) != a(
            (u + 1) as u32,
        )) by {
            lemma_cnf_holds_block(a, chain, u);
            let vs = seq![prefix_aux(n, u + 1), prefix_aux(n, u), (u + 1) as u32];
            lemma_xor_cnf_encodes(vs, false, a);
            reveal_with_fuel(parity_of, 4);
        }
        lemma_prefix_any(a, n, n - 1);
        assert(a(prefix_aux(n, n - 1))) by {
            assert(0 <= i0 <= n - 1 && a(i0 as u32));
        }
        assert(clause_holds(a, p5[0]));
        let k = choose|k: int| 0 <= k < p5[0].len() && lit_holds(a, #[trigger] p5[0][k]);
    }
}

/// Coupled exactly-one + parity over `n ≥ 2` selectors: unsatisfiable, though neither half
/// alone is; `2n` variables.
pub fn parity_exactly_one(n: usize) -> (res: (DimacsCnf, ExpectedVerdict))
    requires
        n >= 2,
        2 * n <= usize::MAX,
    ensures
        res.0.num_vars == 2 * n,
        res.0.cls() == parity_exactly_one_clauses(n as nat),
        res.1 == ExpectedVerdict::Unsat,
{
    let mut clauses: Vec<Vec<Lit>> = Vec::new();
    let mut sel: Vec<Lit> = Vec::new();
    let mut i: usize = 0;
    while i < n
        invariant
            i <= n,
            sel@ == selectors(n as nat).take(i as int),
        decreases n - i,
    {
        let l = Lit::pos(i as u32);
        proof {
            assert(selectors(n as nat).take(i + 1) =~= selectors(n as nat).take(i as int).push(l));
        }
        sel.push(l);
        i += 1;
    }
    proof {
        assert(selectors(n as nat).take(n as int) =~= selectors(n as nat));
    }
    let alo = sel.clone();
    proof {
        assert(alo@ =~= sel@);
        lemma_cv_push(clauses@, alo);
        assert(clauses_view(Seq::<Vec<Lit>>::empty()) =~= Seq::<Seq<Lit>>::empty());
    }
    clauses.push(alo);
    push_amo(&mut clauses, &sel);
    let first = vec![(n + 0) as u32, 0u32];
    proof {
        assert(first@ =~= seq![prefix_aux(n as nat, 0), 0u32]);
    }
    push_xor_clauses(&mut clauses, first.as_slice(), false);
    let ghost before = clauses_view(clauses@);
    let ghost steps = |t: int| chain_step(n as nat, t);
    let mut i: usize = 1;
    while i < n
        invariant
            1 <= i <= n,
            2 * n <= usize::MAX,
            steps == (|t: int| chain_step(n as nat, t)),
            clauses_view(clauses@) == before + Seq::new((i - 1) as nat, steps).flatten(),
        decreases n - i,
    {
        let vars = vec![(n + i) as u32, (n + i - 1) as u32, i as u32];
        proof {
            assert(vars@ =~= seq![prefix_aux(n as nat, i as int), prefix_aux(n as nat, i - 1), i as u32]);
        }
        push_xor_clauses(&mut clauses, vars.as_slice(), false);
        proof {
            lemma_flatten_new_push((i - 1) as nat, steps);
        }
        i += 1;
    }
    let last = vec![Lit::neg((n + n - 1) as u32)];
    proof {
        lemma_cv_push(clauses@, last);
        assert(last@ =~= seq![neg(prefix_aux(n as nat, n - 1))]);
        assert(Seq::new((n - 1) as nat, steps) =~= Seq::new((n - 1) as nat, |t: int| chain_step(n as nat, t)));
    }
    clauses.push(last);
    proof {
        assert(clauses_view(clauses@) =~= parity_exactly_one_clauses(n as nat));
    }
    (DimacsCnf { num_vars: 2 * n, clauses }, ExpectedVerdict::Unsat)
}

// ---------------------------------------------------------------------------
// Tseitin systems
// ---------------------------------------------------------------------------

/// Edge indices as `u32` variables.
pub open spec fn as_vars(s: Seq<usize>) -> Seq<u32> {
    Seq::new(s.len(), |i: int| s[i] as u32)
}

/// The clauses of the Tseitin system with incidence lists `inc`: per vertex `v`, the XOR of its
/// incident edges equals its charge, vertex `0` charged and the others not.
pub open spec fn tseitin_cnf(inc: Seq<Seq<usize>>) -> Seq<Seq<Lit>> {
    Seq::new(inc.len(), |v: int| xor_cnf(as_vars(inc[v]), v == 0)).flatten()
}

/// The equations of a Tseitin system agree with its incidence lists and charges.
pub open spec fn tseitin_eqs(eqs: Seq<XorEquation>, inc: Seq<Seq<usize>>) -> bool {
    &&& eqs.len() == inc.len()
    &&& forall|v: int| 0 <= v < inc.len() ==> (#[trigger] eqs[v]).vars@ == inc[v] && eqs[v].rhs == (v == 0)
}

/// The XOR of the values `a` gives the edges listed in `s`.
pub open spec fn xs(a: spec_fn(u32) -> bool, s: Seq<usize>) -> bool
    decreases s.len(),
{
    if s.len() == 0 { false } else { xs(a, s.drop_last()) != a(s.last() as u32) }
}

proof fn lemma_xs_take(a: spec_fn(u32) -> bool, s: Seq<usize>, k: nat)
    requires
        k <= s.len(),
    ensures
        parity_of(|t: int| a(as_vars(s)[t]), k) == xs(a, s.take(k as int)),
    decreases k,
{
    if k > 0 {
        lemma_xs_take(a, s, (k - 1) as nat);
        assert(s.take(k as int).drop_last() =~= s.take(k - 1));
    }
}

/// The XOR of an equation's variables is the XOR of its edge list.
pub proof fn lemma_xs_xor_value(a: spec_fn(u32) -> bool, s: Seq<usize>)
    ensures
        xor_value(a, as_vars(s)) == xs(a, s),
{
    lemma_xs_take(a, s, s.len());
    assert(s.take(s.len() as int) =~= s);
}

/// XOR over a concatenation.
pub proof fn lemma_xs_concat(a: spec_fn(u32) -> bool, s: Seq<usize>, t: Seq<usize>)
    ensures
        xs(a, s + t) == (xs(a, s) != xs(a, t)),
    decreases t.len(),
{
    if t.len() > 0 {
        lemma_xs_concat(a, s, t.drop_last());
        assert((s + t).drop_last() =~= s + t.drop_last());
    } else {
        assert(s + t =~= s);
    }
}

/// XOR over flattened blocks is the XOR of the blocks' XORs.
pub proof fn lemma_xs_flatten(a: spec_fn(u32) -> bool, g: spec_fn(int) -> Seq<usize>, m: nat)
    ensures
        xs(a, Seq::new(m, g).flatten()) == parity_of(|e: int| xs(a, g(e)), m),
    decreases m,
{
    if m == 0 {
        assert(Seq::new(m, g).flatten() =~= Seq::<usize>::empty());
    } else {
        lemma_xs_flatten(a, g, (m - 1) as nat);
        crate::families::lemma_flatten_new_push((m - 1) as nat, g);
        lemma_xs_concat(a, Seq::new((m - 1) as nat, g).flatten(), g(m - 1));
    }
}

/// Parities of pointwise-equal bit sequences are equal.
pub proof fn lemma_parity_ext(f: spec_fn(int) -> bool, g: spec_fn(int) -> bool, k: nat)
    requires
        forall|i: int| 0 <= i < k ==> #[trigger] f(i) == g(i),
    ensures
        parity_of(f, k) == parity_of(g, k),
    decreases k,
{
    if k > 0 {
        lemma_parity_ext(f, g, (k - 1) as nat);
    }
}

/// The parity of a pointwise XOR is the XOR of the parities.
pub proof fn lemma_parity_add(f: spec_fn(int) -> bool, g: spec_fn(int) -> bool, k: nat)
    ensures
        parity_of(|i: int| f(i) != g(i), k) == (parity_of(f, k) != parity_of(g, k)),
    decreases k,
{
    if k > 0 {
        lemma_parity_add(f, g, (k - 1) as nat);
    }
}

/// Only position `c` may be set, to `b`: the parity is `b` when `c` is in range.
pub proof fn lemma_parity_single(f: spec_fn(int) -> bool, c: int, b: bool, k: nat)
    requires
        forall|v: int| 0 <= v < k ==> #[trigger] f(v) == (v == c && b),
    ensures
        parity_of(f, k) == (0 <= c < k && b),
    decreases k,
{
    if k > 0 {
        lemma_parity_single(f, c, b, (k - 1) as nat);
    }
}

/// No bit set: even parity.
pub proof fn lemma_parity_none(f: spec_fn(int) -> bool, k: nat)
    requires
        forall|i: int| 0 <= i < k ==> !#[trigger] f(i),
    ensures
        !parity_of(f, k),
    decreases k,
{
    if k > 0 {
        lemma_parity_none(f, (k - 1) as nat);
    }
}

/// XOR over a rectangle does not depend on the order of summation.
pub proof fn lemma_parity_swap(f: spec_fn(int, int) -> bool, n: nat, m: nat)
    ensures
        parity_of(|v: int| parity_of(|e: int| f(v, e), m), n) == parity_of(|e: int| parity_of(|v: int| f(v, e), n), m),
    decreases n,
{
    let outer = |v: int| parity_of(|e: int| f(v, e), m);
    let now = |e: int| parity_of(|v: int| f(v, e), n);
    if n == 0 {
        assert forall|e: int| 0 <= e < m implies !#[trigger] now(e) by {
            assert(now(e) == parity_of(|v: int| f(v, e), 0));
        }
        lemma_parity_none(now, m);
        assert(parity_of(outer, n) == parity_of(now, m));
    } else {
        lemma_parity_swap(f, (n - 1) as nat, m);
        let before = |e: int| parity_of(|v: int| f(v, e), (n - 1) as nat);
        let last = |e: int| f(n - 1, e);
        lemma_parity_add(before, last, m);
        lemma_parity_ext(now, |e: int| before(e) != last(e), m);
        assert(parity_of(outer, n) == (parity_of(outer, (n - 1) as nat) != outer(n - 1)));
        assert(outer(n - 1) == parity_of(last, m));
        assert(parity_of(outer, n) == parity_of(now, m));
    }
}

/// A satisfied Tseitin system: the XOR of the edges at each vertex is its charge (vertex `0`
/// charged, the others not).
pub proof fn lemma_tseitin_charge(lists: Seq<Seq<usize>>, a: spec_fn(u32) -> bool)
    requires
        forall|v: int| 0 <= v < lists.len() ==> (#[trigger] lists[v]).len() < 32,
        cnf_holds(a, tseitin_cnf(lists)),
    ensures
        forall|v: int| 0 <= v < lists.len() ==> xs(a, #[trigger] lists[v]) == (v == 0),
{
    let blocks = Seq::new(lists.len(), |v: int| xor_cnf(as_vars(lists[v]), v == 0));
    assert forall|v: int| 0 <= v < lists.len() implies xs(a, #[trigger] lists[v]) == (v == 0) by {
        lemma_cnf_holds_block(a, blocks, v);
        lemma_xor_cnf_encodes(as_vars(lists[v]), v == 0, a);
        lemma_xs_xor_value(a, lists[v]);
    }
}

/// The incidence lists as sequences.
pub open spec fn lists_view(inc: Seq<Vec<usize>>) -> Seq<Seq<usize>> {
    Seq::new(inc.len(), |v: int| inc[v]@)
}

fn copy_list(s: &Vec<usize>) -> (r: Vec<usize>)
    ensures
        r@ == s@,
{
    let mut r: Vec<usize> = Vec::new();
    let mut i: usize = 0;
    while i < s.len()
        invariant
            i <= s@.len(),
            r@ == s@.take(i as int),
        decreases s@.len() - i,
    {
        proof {
            assert(s@.take(i + 1) =~= s@.take(i as int).push(s@[i as int]));
        }
        r.push(s[i]);
        i += 1;
    }
    proof {
        assert(s@.take(s@.len() as int) =~= s@);
    }
    r
}

fn to_vars(s: &Vec<usize>) -> (r: Vec<u32>)
    ensures
        r@ == as_vars(s@),
{
    let mut r: Vec<u32> = Vec::new();
    let mut i: usize = 0;
    while i < s.len()
        invariant
            i <= s@.len(),
            r@ == as_vars(s@).take(i as int),
        decreases s@.len() - i,
    {
        proof {
            assert(as_vars(s@).take(i + 1) =~= as_vars(s@).take(i as int).push(s@[i as int] as u32));
        }
        r.push(s[i] as u32);
        i += 1;
    }
    proof {
        assert(as_vars(s@).take(s@.len() as int) =~= as_vars(s@));
    }
    r
}

/// The Tseitin system of the incidence lists `inc`, vertex `0` charged: its XOR equations
/// and its clauses.
pub(crate) fn tseitin_system(inc: &Vec<Vec<usize>>) -> (res: (Vec<XorEquation>, Vec<Vec<Lit>>))
    requires
        forall|v: int| 0 <= v < inc@.len() ==> (#[trigger] inc@[v])@.len() < 32,
    ensures
        tseitin_eqs(res.0@, lists_view(inc@)),
        clauses_view(res.1@) == tseitin_cnf(lists_view(inc@)),
{
    let mut eqs: Vec<XorEquation> = Vec::new();
    let mut clauses: Vec<Vec<Lit>> = Vec::new();
    let ghost lv = lists_view(inc@);
    let ghost f = |v: int| xor_cnf(as_vars(lv[v]), v == 0);
    let mut v: usize = 0;
    while v < inc.len()
        invariant
            v <= inc@.len(),
            lv == lists_view(inc@),
            forall|v: int| 0 <= v < inc@.len() ==> (#[trigger] inc@[v])@.len() < 32,
            f == (|v: int| xor_cnf(as_vars(lv[v]), v == 0)),
            eqs@.len() == v,
            forall|u: int| 0 <= u < v ==> (#[trigger] eqs@[u]).vars@ == lv[u] && eqs@[u].rhs == (u == 0),
            clauses_view(clauses@) == Seq::new(v as nat, f).flatten(),
        decreases inc@.len() - v,
    {
        let vars = copy_list(&inc[v]);
        eqs.push(XorEquation::new(vars, v == 0));
        let vs = to_vars(&inc[v]);
        push_xor_clauses(&mut clauses, vs.as_slice(), v == 0);
        proof {
            lemma_flatten_new_push(v as nat, f);
        }
        v += 1;
    }
    proof {
        assert(Seq::new(lv.len(), f) =~= Seq::new(lv.len(), |v: int| xor_cnf(as_vars(lv[v]), v == 0)));
    }
    (eqs, clauses)
}

// ---------------------------------------------------------------------------
// Tseitin on the grid
// ---------------------------------------------------------------------------

/// The number of grid edges created before vertex `(i, j)` of the `w × n` grid, scanning
/// vertices row by row and creating at each its rightward edge, then its downward edge.
pub open spec fn grid_before(w: int, n: int, i: int, j: int) -> int {
    i * (2 * n - 1) + j * (if i + 1 < w { 2int } else { 1int })
}

/// The rightward edge of `(i, j)` (present when `j + 1 < n`).
pub open spec fn grid_right(w: int, n: int, i: int, j: int) -> usize {
    grid_before(w, n, i, j) as usize
}

/// The downward edge of `(i, j)` (present when `i + 1 < w`).
pub open spec fn grid_down(w: int, n: int, i: int, j: int) -> usize {
    (grid_before(w, n, i, j) + (if j + 1 < n { 1int } else { 0int })) as usize
}

/// The edges at vertex `(i, j)` in increasing order: up, left, right, down, as present.
pub open spec fn grid_incident(w: int, n: int, i: int, j: int) -> Seq<usize> {
    (if i > 0 { seq![grid_down(w, n, i - 1, j)] } else { Seq::empty() })
        + (if j > 0 { seq![grid_right(w, n, i, j - 1)] } else { Seq::empty() })
        + (if j + 1 < n { seq![grid_right(w, n, i, j)] } else { Seq::empty() })
        + (if i + 1 < w { seq![grid_down(w, n, i, j)] } else { Seq::empty() })
}

/// The incidence lists of the `w × n` grid, vertex `(i, j)` at index `i*n + j`.
pub open spec fn grid_lists(w: nat, n: nat) -> Seq<Seq<usize>> {
    Seq::new(w * n, |v: int| grid_incident(w as int, n as int, v / (n as int), v % (n as int)))
}

proof fn lemma_grid_before_bound(w: int, n: int, i: int, j: int)
    requires
        2 <= w,
        2 <= n,
        0 <= i < w,
        0 <= j < n,
        2 * w * n <= usize::MAX,
    ensures
        0 <= grid_before(w, n, i, j),
        grid_before(w, n, i, j) + 2 <= 2 * w * n,
{
    assert(0 <= i * (2 * n - 1)) by (nonlinear_arith)
        requires 0 <= i, 2 <= n;
    assert(i * (2 * n - 1) + (n - 1) * 2 + 2 <= 2 * w * n) by (nonlinear_arith)
        requires 0 <= i < w, 2 <= n;
    assert(j * (if i + 1 < w { 2int } else { 1int }) <= (n - 1) * 2) by (nonlinear_arith)
        requires 0 <= j < n;
}

fn grid_vertex_list(w: usize, n: usize, i: usize, j: usize) -> (r: Vec<usize>)
    requires
        2 <= w,
        2 <= n,
        i < w,
        j < n,
        2 * w * n <= usize::MAX,
    ensures
        r@ == grid_incident(w as int, n as int, i as int, j as int),
        r@.len() <= 4,
{
    let mut r: Vec<usize> = Vec::new();
    let step: usize = if i + 1 < w { 2 } else { 1 };
    proof {
        lemma_grid_before_bound(w as int, n as int, i as int, j as int);
        if i > 0 {
            lemma_grid_before_bound(w as int, n as int, i - 1, j as int);
        }
        if j > 0 {
            lemma_grid_before_bound(w as int, n as int, i as int, j - 1);
        }
        assert(i * (2 * n - 1) <= 2 * w * n) by (nonlinear_arith)
            requires i < w, 2 <= n;
        assert(j * step <= 2 * n) by (nonlinear_arith)
            requires j < n, step <= 2;
        assert(i * (2 * n - 1) + j * step == grid_before(w as int, n as int, i as int, j as int));
        assert(2 * n <= 2 * w * n) by (nonlinear_arith)
            requires 2 <= w, 2 <= n;
    }
    let before = i * (2 * n - 1) + j * step;
    if i > 0 {
        let up_step: usize = 2;
        proof {
            assert((i - 1) * (2 * n - 1) + j * 2 <= 2 * w * n) by (nonlinear_arith)
                requires 1 <= i < w, j < n, 2 <= n;
        }
        let up = (i - 1) * (2 * n - 1) + j * up_step + (if j + 1 < n { 1usize } else { 0usize });
        r.push(up);
    }
    if j > 0 {
        let left = i * (2 * n - 1) + (j - 1) * step;
        r.push(left);
    }
    if j + 1 < n {
        r.push(before);
    }
    if i + 1 < w {
        let down = before + (if j + 1 < n { 1usize } else { 0usize });
        r.push(down);
    }
    proof {
        assert(r@ =~= grid_incident(w as int, n as int, i as int, j as int));
    }
    r
}

/// The number of edges of the `w × n` grid.
pub open spec fn grid_edge_count(w: nat, n: nat) -> nat {
    (w * (n - 1) + (w - 1) * n) as nat
}

/// The Tseitin formula on the `w × n` grid with odd total charge (vertex `0` charged):
/// unsatisfiable. One Boolean per grid edge; returns the XOR system and its CNF.
pub fn grid_tseitin(w: usize, n: usize) -> (res: (Vec<XorEquation>, DimacsCnf, ExpectedVerdict))
    requires
        w >= 2 && n >= 2,
        2 * w * n <= usize::MAX,
    ensures
        res.1.num_vars == grid_edge_count(w as nat, n as nat),
        tseitin_eqs(res.0@, grid_lists(w as nat, n as nat)),
        res.1.cls() == tseitin_cnf(grid_lists(w as nat, n as nat)),
        res.2 == ExpectedVerdict::Unsat,
{
    let mut inc: Vec<Vec<usize>> = Vec::new();
    let mut i: usize = 0;
    proof {
        assert(w * n <= 2 * w * n) by (nonlinear_arith);
    }
    while i < w
        invariant
            2 <= w,
            2 <= n,
            i <= w,
            2 * w * n <= usize::MAX,
            inc@.len() == i * n,
            forall|v: int| 0 <= v < inc@.len() ==> (#[trigger] inc@[v])@.len() <= 4,
            forall|v: int| 0 <= v < inc@.len() ==> (#[trigger] inc@[v])@ == grid_lists(w as nat, n as nat)[v],
        decreases w - i,
    {
        let mut j: usize = 0;
        while j < n
            invariant
                2 <= w,
                2 <= n,
                i < w,
                j <= n,
                2 * w * n <= usize::MAX,
                inc@.len() == i * n + j,
                forall|v: int| 0 <= v < inc@.len() ==> (#[trigger] inc@[v])@.len() <= 4,
                forall|v: int| 0 <= v < inc@.len() ==> (#[trigger] inc@[v])@ == grid_lists(w as nat, n as nat)[v],
            decreases n - j,
        {
            let l = grid_vertex_list(w, n, i, j);
            proof {
                let v = i * n + j;
                assert(v < w * n) by (nonlinear_arith)
                    requires i < w, j < n, v == i * n + j;
                assert(v / (n as int) == i && v % (n as int) == j) by (nonlinear_arith)
                    requires v == i * n + j, j < n, 0 <= i, 0 <= j;
            }
            inc.push(l);
            j += 1;
        }
        proof {
            assert((i + 1) * n == i * n + n) by (nonlinear_arith);
        }
        i += 1;
    }
    proof {
        assert(lists_view(inc@) =~= grid_lists(w as nat, n as nat));
    }
    let (eqs, clauses) = tseitin_system(&inc);
    proof {
        assert(w * (n - 1) + (w - 1) * n <= 2 * w * n) by (nonlinear_arith)
            requires 2 <= w, 2 <= n;
    }
    let num_edges = w * (n - 1) + (w - 1) * n;
    (eqs, DimacsCnf { num_vars: num_edges, clauses }, ExpectedVerdict::Unsat)
}

// ---------------------------------------------------------------------------
// Incidence lists of an edge list
// ---------------------------------------------------------------------------

/// What edge `e` contributes to the incidence list of `v`: `e` once per endpoint equal to `v`.
pub open spec fn inc_step(edges: Seq<(usize, usize)>, v: int, e: int) -> Seq<usize> {
    (if edges[e].0 == v { seq![e as usize] } else { Seq::empty() })
        + (if edges[e].1 == v { seq![e as usize] } else { Seq::empty() })
}

/// The incidence list of `v`: the edges at `v` in increasing order.
pub open spec fn incident(edges: Seq<(usize, usize)>, v: int) -> Seq<usize> {
    Seq::new(edges.len(), |e: int| inc_step(edges, v, e)).flatten()
}

/// The incidence lists of `edges` over the vertices `0..nv`.
pub fn incidence(nv: usize, edges: &Vec<(usize, usize)>) -> (inc: Vec<Vec<usize>>)
    requires
        forall|e: int| 0 <= e < edges@.len() ==> (#[trigger] edges@[e]).0 < nv && edges@[e].1 < nv,
    ensures
        inc@.len() == nv,
        forall|v: int| 0 <= v < nv ==> (#[trigger] inc@[v])@ == incident(edges@, v),
{
    let mut inc: Vec<Vec<usize>> = Vec::new();
    let mut v: usize = 0;
    while v < nv
        invariant
            v <= nv,
            inc@.len() == v,
            forall|u: int| 0 <= u < v ==> (#[trigger] inc@[u])@ == Seq::<usize>::empty(),
        decreases nv - v,
    {
        inc.push(Vec::new());
        v += 1;
    }
    let mut e: usize = 0;
    while e < edges.len()
        invariant
            e <= edges@.len(),
            inc@.len() == nv,
            forall|e: int| 0 <= e < edges@.len() ==> (#[trigger] edges@[e]).0 < nv && edges@[e].1 < nv,
            forall|u: int| 0 <= u < nv ==> (#[trigger] inc@[u])@ == Seq::new(e as nat,
                |k: int| inc_step(edges@, u, k)).flatten(),
        decreases edges@.len() - e,
    {
        let (a, b) = edges[e];
        let ghost old_inc = inc@;
        inc[a].push(e);
        let ghost mid = inc@;
        inc[b].push(e);
        proof {
            assert forall|u: int| 0 <= u < nv implies (#[trigger] inc@[u])@ == Seq::new((e + 1) as nat,
                |k: int| inc_step(edges@, u, k)).flatten() by {
                let f = |k: int| inc_step(edges@, u, k);
                lemma_flatten_new_push(e as nat, f);
                assert(Seq::new(e as nat, f) =~= Seq::new(e as nat, |k: int| inc_step(edges@, u, k)));
                assert(Seq::new((e + 1) as nat, f) =~= Seq::new((e + 1) as nat, |k: int| inc_step(edges@, u, k)));
                let base = old_inc[u]@;
                if u == a && u == b {
                    assert(inc@[u]@ =~= base.push(e).push(e));
                    assert(f(e as int) =~= seq![e, e]);
                    assert(base + f(e as int) =~= base.push(e).push(e));
                } else if u == a {
                    assert(inc@[u]@ =~= base.push(e));
                    assert(f(e as int) =~= seq![e]);
                    assert(base + f(e as int) =~= base.push(e));
                } else if u == b {
                    assert(inc@[u]@ =~= base.push(e));
                    assert(f(e as int) =~= seq![e]);
                    assert(base + f(e as int) =~= base.push(e));
                } else {
                    assert(inc@[u]@ == base);
                    assert(f(e as int) =~= Seq::<usize>::empty());
                    assert(base + f(e as int) =~= base);
                }
            }
        }
        e += 1;
    }
    proof {
        assert forall|v: int| 0 <= v < nv implies (#[trigger] inc@[v])@ == incident(edges@, v) by {
            assert(Seq::new(edges@.len(), |k: int| inc_step(edges@, v, k)) =~= Seq::new(edges@.len(),
                |e: int| inc_step(edges@, v, e)));
        }
    }
    inc
}

// ---------------------------------------------------------------------------
// The mutilated chessboard
// ---------------------------------------------------------------------------

/// The two opposite corners removed from the `n × n` board.
pub open spec fn removed(n: int, r: int, c: int) -> bool {
    (r == 0 && c == 0) || (r == n - 1 && c == n - 1)
}

/// The dominoes with `(r, c)` as their upper-left square: rightward, then downward, when both
/// squares survive. Square `(r, c)` is index `r*n + c`.
pub open spec fn board_edges_at(n: int, r: int, c: int) -> Seq<(usize, usize)> {
    if removed(n, r, c) {
        Seq::empty()
    } else {
        (if c + 1 < n && !removed(n, r, c + 1) { seq![((r * n + c) as usize, (r * n + c + 1) as usize)] } else {
            Seq::empty()
        }) + (if r + 1 < n && !removed(n, r + 1, c) { seq![((r * n + c) as usize, ((r + 1) * n + c) as usize)] } else {
            Seq::empty()
        })
    }
}

/// The dominoes of the row `r`, in order of the column.
pub open spec fn board_row_edges(n: nat, r: int) -> Seq<(usize, usize)> {
    Seq::new(n, |c: int| board_edges_at(n as int, r, c)).flatten()
}

/// All dominoes, row by row: the variables of the mutilated chessboard.
pub open spec fn board_edges(n: nat) -> Seq<(usize, usize)> {
    Seq::new(n, |r: int| board_row_edges(n, r)).flatten()
}

/// The positive literals of a list of variables.
pub open spec fn pos_lits(s: Seq<usize>) -> Seq<Lit> {
    Seq::new(s.len(), |i: int| pos(s[i] as u32))
}

/// The clauses of surviving square `(r, c)`: covered at least once, and at most once.
pub open spec fn board_square(n: nat, r: int, c: int) -> Seq<Seq<Lit>> {
    if removed(n as int, r, c) {
        Seq::empty()
    } else {
        seq![pos_lits(incident(board_edges(n), r * n + c))] + amo(pos_lits(incident(board_edges(n), r * n + c)))
    }
}

/// The clauses of `mutilated_chessboard(n)`, square by square.
pub open spec fn chessboard_clauses(n: nat) -> Seq<Seq<Lit>> {
    Seq::new(n, |r: int| Seq::new(n, |c: int| board_square(n, r, c)).flatten()).flatten()
}

fn pos_lits_of(s: &Vec<usize>) -> (r: Vec<Lit>)
    ensures
        r@ == pos_lits(s@),
{
    let mut r: Vec<Lit> = Vec::new();
    let mut i: usize = 0;
    while i < s.len()
        invariant
            i <= s@.len(),
            r@ == pos_lits(s@).take(i as int),
        decreases s@.len() - i,
    {
        let l = Lit::pos(s[i] as u32);
        proof {
            assert(pos_lits(s@).take(i + 1) =~= pos_lits(s@).take(i as int).push(l));
        }
        r.push(l);
        i += 1;
    }
    proof {
        assert(pos_lits(s@).take(s@.len() as int) =~= pos_lits(s@));
    }
    r
}

fn is_removed(n: usize, r: usize, c: usize) -> (b: bool)
    requires
        n >= 1,
    ensures
        b == removed(n as int, r as int, c as int),
{
    (r == 0 && c == 0) || (r == n - 1 && c == n - 1)
}

/// The mutilated chessboard: an `n × n` board with two opposite corners removed, asking for a
/// perfect domino tiling — unsatisfiable for even `n ≥ 4`. One variable per domino; each
/// surviving square is covered exactly once.
pub fn mutilated_chessboard(n: usize) -> (res: (DimacsCnf, ExpectedVerdict))
    requires
        n >= 4 && n % 2 == 0,
        n * n <= usize::MAX,
    ensures
        res.0.num_vars == board_edges(n as nat).len(),
        res.0.cls() == chessboard_clauses(n as nat),
        res.1 == ExpectedVerdict::Unsat,
{
    let mut edges: Vec<(usize, usize)> = Vec::new();
    let ghost rowf = |r: int| board_row_edges(n as nat, r);
    let mut r: usize = 0;
    while r < n
        invariant
            4 <= n,
            r <= n,
            n * n <= usize::MAX,
            rowf == (|r: int| board_row_edges(n as nat, r)),
            edges@ == Seq::new(r as nat, rowf).flatten(),
            forall|e: int| 0 <= e < edges@.len() ==> (#[trigger] edges@[e]).0 < n * n && edges@[e].1 < n * n,
        decreases n - r,
    {
        let ghost before = edges@;
        let ghost cellf = |c: int| board_edges_at(n as int, r as int, c);
        let mut c: usize = 0;
        while c < n
            invariant
                4 <= n,
                r < n,
                c <= n,
                n * n <= usize::MAX,
                cellf == (|c: int| board_edges_at(n as int, r as int, c)),
                edges@ == before + Seq::new(c as nat, cellf).flatten(),
                forall|e: int| 0 <= e < edges@.len() ==> (#[trigger] edges@[e]).0 < n * n && edges@[e].1 < n * n,
            decreases n - c,
        {
            proof {
                lemma_flatten_new_push(c as nat, cellf);
                assert(r * n + c < n * n) by (nonlinear_arith)
                    requires r < n, c < n;
                assert((r + 1) * n == r * n + n) by (nonlinear_arith);
            }
            let ghost pre = edges@;
            if !is_removed(n, r, c) {
                let sq = r * n + c;
                if c + 1 < n && !is_removed(n, r, c + 1) {
                    edges.push((sq, sq + 1));
                }
                let ghost mid = edges@;
                if r + 1 < n && !is_removed(n, r + 1, c) {
                    proof {
                        assert((r + 1) * n + c < n * n) by (nonlinear_arith)
                            requires r + 1 < n, c < n;
                    }
                    edges.push((sq, sq + n));
                }
                proof {
                    assert(edges@ =~= pre + cellf(c as int));
                }
            } else {
                proof {
                    assert(edges@ =~= pre + cellf(c as int));
                }
            }
            c += 1;
        }
        proof {
            assert(Seq::new(n as nat, cellf) =~= Seq::new(n as nat, |c: int| board_edges_at(n as int, r as int, c)));
            lemma_flatten_new_push(r as nat, rowf);
        }
        r += 1;
    }
    proof {
        assert(Seq::new(n as nat, rowf) =~= Seq::new(n as nat, |r: int| board_row_edges(n as nat, r)));
    }
    let num_vars = edges.len();
    let inc = incidence(n * n, &edges);
    let mut clauses: Vec<Vec<Lit>> = Vec::new();
    let ghost sqrow = |r: int| Seq::new(n as nat, |c: int| board_square(n as nat, r, c)).flatten();
    let mut r: usize = 0;
    while r < n
        invariant
            4 <= n,
            r <= n,
            n * n <= usize::MAX,
            edges@ == board_edges(n as nat),
            inc@.len() == n * n,
            forall|v: int| 0 <= v < n * n ==> (#[trigger] inc@[v])@ == incident(edges@, v),
            sqrow == (|r: int| Seq::new(n as nat, |c: int| board_square(n as nat, r, c)).flatten()),
            clauses_view(clauses@) == Seq::new(r as nat, sqrow).flatten(),
        decreases n - r,
    {
        let ghost before = clauses_view(clauses@);
        let ghost sqf = |c: int| board_square(n as nat, r as int, c);
        let mut c: usize = 0;
        while c < n
            invariant
                4 <= n,
                r < n,
                c <= n,
                n * n <= usize::MAX,
                edges@ == board_edges(n as nat),
                inc@.len() == n * n,
                forall|v: int| 0 <= v < n * n ==> (#[trigger] inc@[v])@ == incident(edges@, v),
                sqf == (|c: int| board_square(n as nat, r as int, c)),
                clauses_view(clauses@) == before + Seq::new(c as nat, sqf).flatten(),
            decreases n - c,
        {
            proof {
                lemma_flatten_new_push(c as nat, sqf);
                assert(r * n + c < n * n) by (nonlinear_arith)
                    requires r < n, c < n;
            }
            if !is_removed(n, r, c) {
                let lits = pos_lits_of(&inc[r * n + c]);
                let alo = pos_lits_of(&inc[r * n + c]);
                proof {
                    lemma_cv_push(clauses@, alo);
                }
                clauses.push(alo);
                push_amo(&mut clauses, &lits);
                proof {
                    assert(sqf(c as int) =~= seq![lits@] + amo(lits@));
                    assert(before + Seq::new(c as nat, sqf).flatten() + sqf(c as int) =~= before + Seq::new(c as nat,
                        sqf).flatten() + seq![lits@] + amo(lits@));
                }
            } else {
                proof {
                    assert(sqf(c as int) =~= Seq::<Seq<Lit>>::empty());
                    assert(before + Seq::new(c as nat, sqf).flatten() + sqf(c as int) =~= before + Seq::new(c as nat,
                        sqf).flatten());
                }
            }
            c += 1;
        }
        proof {
            assert(Seq::new(n as nat, sqf) =~= Seq::new(n as nat, |c: int| board_square(n as nat, r as int, c)));
            lemma_flatten_new_push(r as nat, sqrow);
        }
        r += 1;
    }
    proof {
        assert(Seq::new(n as nat, sqrow) =~= Seq::new(n as nat, |r: int| Seq::new(n as nat,
            |c: int| board_square(n as nat, r, c)).flatten()));
    }
    (DimacsCnf { num_vars, clauses }, ExpectedVerdict::Unsat)
}


// ---------------------------------------------------------------------------
// The grid Tseitin formula is unsatisfiable
// ---------------------------------------------------------------------------

/// The parity of `h`, pointwise the XOR of `f` and `g`, is the XOR of their parities.
pub proof fn lemma_parity_xor(f: spec_fn(int) -> bool, g: spec_fn(int) -> bool, h: spec_fn(int) -> bool, k: nat)
    requires
        forall|i: int| 0 <= i < k ==> #[trigger] h(i) == (f(i) != g(i)),
    ensures
        parity_of(h, k) == (parity_of(f, k) != parity_of(g, k)),
    decreases k,
{
    if k > 0 {
        lemma_parity_xor(f, g, h, (k - 1) as nat);
    }
}

/// Splitting a parity at `k1`.
proof fn lemma_parity_split(f: spec_fn(int) -> bool, g: spec_fn(int) -> bool, k1: nat, k2: nat)
    requires
        forall|t: int| 0 <= t < k2 ==> #[trigger] g(t) == f(k1 + t),
    ensures
        parity_of(f, k1 + k2) == (parity_of(f, k1) != parity_of(g, k2)),
    decreases k2,
{
    if k2 > 0 {
        lemma_parity_split(f, g, k1, (k2 - 1) as nat);
        assert(g(k2 - 1) == f(k1 + k2 - 1));
    }
}

proof fn lemma_parity_shift_left(f: spec_fn(int) -> bool, h: spec_fn(int) -> bool, k: nat)
    requires
        k >= 1,
        forall|j: int| 0 <= j < k ==> #[trigger] f(j) == (j > 0 && h(j - 1)),
    ensures
        parity_of(f, k) == parity_of(h, (k - 1) as nat),
    decreases k,
{
    if k > 1 {
        lemma_parity_shift_left(f, h, (k - 1) as nat);
        assert(f(k - 1) == h(k - 2));
        assert(parity_of(f, k) == (parity_of(f, (k - 1) as nat) != f(k - 1)));
        assert(parity_of(h, (k - 1) as nat) == (parity_of(h, (k - 2) as nat) != h(k - 2)));
        assert(((k - 1) as nat - 1) as nat == (k - 2) as nat);
    } else {
        assert(f(0) == false);
        assert(parity_of(f, 1) == (parity_of(f, 0) != f(0)));
    }
}

/// Shifting by one position: the terms `h(j-1)` for `j > 0` and `h(j)` for `j + 1 < n` are the
/// same `n - 1` terms.
proof fn lemma_parity_shift(f: spec_fn(int) -> bool, g: spec_fn(int) -> bool, h: spec_fn(int) -> bool, n: nat)
    requires
        n >= 1,
        forall|j: int| 0 <= j < n ==> #[trigger] f(j) == (j > 0 && h(j - 1)),
        forall|j: int| 0 <= j < n ==> #[trigger] g(j) == (j + 1 < n && h(j)),
    ensures
        parity_of(f, n) == parity_of(g, n),
{
    lemma_parity_shift_left(f, h, n);
    assert(!g(n - 1));
    assert forall|j: int| 0 <= j < n - 1 implies #[trigger] g(j) == h(j) by {}
    lemma_parity_ext(g, h, (n - 1) as nat);
}

/// The parity over `w` rows of `n` consecutive positions is the parity of the row parities.
proof fn lemma_parity_rows(v: spec_fn(int) -> bool, rs: spec_fn(int) -> bool, w: nat, n: nat)
    requires
        forall|i: int| 0 <= i < w ==> #[trigger] rs(i) == parity_of(|j: int| v(i * n + j), n),
    ensures
        parity_of(v, w * n) == parity_of(rs, w),
    decreases w,
{
    if w > 0 {
        let k1 = ((w - 1) * n) as nat;
        lemma_parity_rows(v, rs, (w - 1) as nat, n);
        assert(k1 + n == w * n) by (nonlinear_arith)
            requires k1 == (w - 1) * n, w >= 1;
        let row = |j: int| v((w - 1) * n + j);
        lemma_parity_split(v, row, k1, n);
        assert(rs(w - 1) == parity_of(row, n));
        assert(parity_of(rs, w) == (parity_of(rs, (w - 1) as nat) != rs(w - 1)));
        assert(((w - 1) as nat) * n == k1);
        assert(parity_of(v, k1) == parity_of(rs, (w - 1) as nat));
        assert(parity_of(v, (k1 + n) as nat) == (parity_of(v, k1) != parity_of(row, n)));
        assert(parity_of(v, w * n) == parity_of(v, (k1 + n) as nat));
    } else {
        assert(w * n == 0) by (nonlinear_arith)
            requires w == 0;
    }
}

/// The XOR of a vertex's grid edges: up, left, right and down, as present.
proof fn lemma_grid_vertex_xs(a: spec_fn(u32) -> bool, w: int, n: int, i: int, j: int)
    ensures
        xs(a, grid_incident(w, n, i, j)) == ((((i > 0 && a(grid_down(w, n, i - 1, j) as u32)) != (j > 0 && a(
            grid_right(w, n, i, j - 1) as u32,
        ))) != (j + 1 < n && a(grid_right(w, n, i, j) as u32))) != (i + 1 < w && a(grid_down(w, n, i, j) as u32))),
{
    let s_up: Seq<usize> = if i > 0 { seq![grid_down(w, n, i - 1, j)] } else { Seq::empty() };
    let s_left: Seq<usize> = if j > 0 { seq![grid_right(w, n, i, j - 1)] } else { Seq::empty() };
    let s_right: Seq<usize> = if j + 1 < n { seq![grid_right(w, n, i, j)] } else { Seq::empty() };
    let s_down: Seq<usize> = if i + 1 < w { seq![grid_down(w, n, i, j)] } else { Seq::empty() };
    assert(grid_incident(w, n, i, j) == s_up + s_left + s_right + s_down);
    lemma_xs_concat(a, s_up + s_left + s_right, s_down);
    lemma_xs_concat(a, s_up + s_left, s_right);
    lemma_xs_concat(a, s_up, s_left);
    assert forall|x: usize| xs(a, #[trigger] seq![x]) == a(x as u32) by {
        assert(seq![x].drop_last() =~= Seq::<usize>::empty());
        assert(seq![x].last() == x);
        assert(xs(a, Seq::<usize>::empty()) == false);
    }
}

/// The verdict of [`grid_tseitin`] is right: the charges are odd (vertex `0` alone) while every
/// grid edge is counted at both of its ends, so the Tseitin clauses are unsatisfiable.
pub proof fn lemma_grid_tseitin_unsat(w: nat, n: nat)
    requires
        w >= 2,
        n >= 2,
    ensures
        !satisfiable(tseitin_cnf(grid_lists(w, n))),
{
    let lists = grid_lists(w, n);
    if satisfiable(tseitin_cnf(lists)) {
        let a = choose|a: spec_fn(u32) -> bool| cnf_holds(a, tseitin_cnf(lists));
        let wi = w as int;
        let ni = n as int;
        assert forall|v: int| 0 <= v < lists.len() implies (#[trigger] lists[v]).len() < 32 by {
            assert(lists[v] == grid_incident(wi, ni, v / ni, v % ni));
        }
        lemma_tseitin_charge(lists, a);
        let vx = |v: int| xs(a, lists[v]);
        // The charges: only vertex 0.
        assert(w * n >= 1) by (nonlinear_arith)
            requires w >= 2, n >= 2;
        lemma_parity_single(vx, 0, true, w * n);
        // Each vertex's XOR from its four sides.
        let hd = |i: int, j: int| a(grid_down(wi, ni, i, j) as u32);
        let hr = |i: int, j: int| a(grid_right(wi, ni, i, j) as u32);
        let up = |i: int, j: int| i > 0 && hd(i - 1, j);
        let down = |i: int, j: int| i + 1 < wi && hd(i, j);
        let left = |i: int, j: int| j > 0 && hr(i, j - 1);
        let right = |i: int, j: int| j + 1 < ni && hr(i, j);
        let vert = |i: int, j: int| up(i, j) != down(i, j);
        let horiz = |i: int, j: int| left(i, j) != right(i, j);
        let rs = |i: int| parity_of(|j: int| vx(i * ni + j), n);
        assert forall|i: int| 0 <= i < w implies #[trigger] rs(i) == parity_of(|j: int| vx(i * n + j), n) by {}
        lemma_parity_rows(vx, rs, w, n);
        let rv = |i: int| parity_of(|j: int| vert(i, j), n);
        assert forall|i: int| 0 <= i < w implies #[trigger] rs(i) == rv(i) by {
            let row = |j: int| vx(i * ni + j);
            let vrow = |j: int| vert(i, j);
            let hrow = |j: int| horiz(i, j);
            assert forall|j: int| 0 <= j < n implies #[trigger] row(j) == (vrow(j) != hrow(j)) by {
                let v = i * ni + j;
                assert(v / ni == i && v % ni == j) by {
                    vstd::arithmetic::div_mod::lemma_fundamental_div_mod_converse(v, ni, i, j);
                }
                assert(0 <= v < w * n) by (nonlinear_arith)
                    requires 0 <= i < w, 0 <= j < n, v == i * n + j;
                assert(lists[v] == grid_incident(wi, ni, i, j));
                lemma_grid_vertex_xs(a, wi, ni, i, j);
            }
            lemma_parity_xor(vrow, hrow, row, n);
            let lrow = |j: int| left(i, j);
            let rrow = |j: int| right(i, j);
            lemma_parity_xor(lrow, rrow, hrow, n);
            lemma_parity_shift(lrow, rrow, |j: int| hr(i, j), n);
        }
        lemma_parity_ext(rs, rv, w);
        lemma_parity_swap(vert, w, n);
        let cv = |j: int| parity_of(|i: int| vert(i, j), w);
        assert forall|j: int| 0 <= j < n implies !#[trigger] cv(j) by {
            let col = |i: int| vert(i, j);
            let ucol = |i: int| up(i, j);
            let dcol = |i: int| down(i, j);
            lemma_parity_xor(ucol, dcol, col, w);
            lemma_parity_shift(ucol, dcol, |i: int| hd(i, j), w);
        }
        lemma_parity_none(cv, n);
    }
}


// ---------------------------------------------------------------------------
// The mutilated chessboard is unsatisfiable
// ---------------------------------------------------------------------------

/// The colour of square `v = r*n + c` of the `n × n` board: `+1` when `r + c` is even, `−1`
/// otherwise.
pub open spec fn colour(n: int, v: int) -> int {
    if (v / n + v % n) % 2 == 0 { 1 } else { -1 }
}

/// Square `(r, c)` is index `r*n + c`, inside the board, and its row and column come back by
/// division.
proof fn lemma_square_index(n: int, r: int, c: int)
    requires
        n >= 1,
        0 <= r < n,
        0 <= c < n,
    ensures
        0 <= r * n + c < n * n,
        (r * n + c) / n == r,
        (r * n + c) % n == c,
{
    assert(0 <= r * n && r * n + c <= (n - 1) * n + (n - 1)) by (nonlinear_arith)
        requires
            0 <= r <= n - 1,
            0 <= c <= n - 1,
            n >= 1,
    ;
    assert((n - 1) * n + (n - 1) == n * n - 1) by (nonlinear_arith);
    vstd::arithmetic::div_mod::lemma_fundamental_div_mod_converse(r * n + c, n, r, c);
}

/// Every domino joins two surviving squares of opposite colours inside the board.
proof fn lemma_domino(n: nat, e: int)
    requires
        n >= 2,
        n * n <= usize::MAX,
        0 <= e < board_edges(n).len(),
    ensures
        0 <= board_edges(n)[e].0 < n * n,
        0 <= board_edges(n)[e].1 < n * n,
        !removed(n as int, board_edges(n)[e].0 as int / n as int, board_edges(n)[e].0 as int % n as int),
        !removed(n as int, board_edges(n)[e].1 as int / n as int, board_edges(n)[e].1 as int % n as int),
        colour(n as int, board_edges(n)[e].0 as int) == -colour(n as int, board_edges(n)[e].1 as int),
{
    let ni = n as int;
    let rows = Seq::new(n, |r: int| board_row_edges(n, r));
    lemma_flatten_index(rows, e);
    let (i, j) = choose|i: int, j: int| 0 <= i < rows.len() && 0 <= j < rows[i].len() && rows.flatten()[e] == #[trigger] rows[i][j];
    let cells = Seq::new(n, |c: int| board_edges_at(ni, i, c));
    assert(rows[i] == cells.flatten());
    lemma_flatten_index(cells, j);
    let (c, k) = choose|c: int, k: int| 0 <= c < cells.len() && 0 <= k < cells[c].len() && cells.flatten()[j] == #[trigger] cells[c][k];
    let x = i * ni + c;
    lemma_square_index(ni, i, c);
    assert(!removed(ni, i, c));
    let right = c + 1 < ni && !removed(ni, i, c + 1);
    let down = i + 1 < ni && !removed(ni, i + 1, c);
    let rs: Seq<(usize, usize)> = if right { seq![(x as usize, (x + 1) as usize)] } else { Seq::empty() };
    let ds: Seq<(usize, usize)> = if down { seq![(x as usize, ((i + 1) * ni + c) as usize)] } else { Seq::empty() };
    assert(cells[c] == rs + ds);
    if right && k == 0 {
        lemma_square_index(ni, i, c + 1);
        assert(board_edges(n)[e] == (x as usize, (x + 1) as usize));
    } else {
        assert(down);
        lemma_square_index(ni, i + 1, c);
        assert(board_edges(n)[e] == (x as usize, ((i + 1) * ni + c) as usize));
    }
}

/// A clause of the square `(r, c)` is a clause of the board.
proof fn lemma_square_clause(n: nat, r: int, c: int, k: int)
    requires
        0 <= r < n,
        0 <= c < n,
        0 <= k < board_square(n, r, c).len(),
    ensures
        chessboard_clauses(n).contains(board_square(n, r, c)[k]),
{
    let row = Seq::new(n, |c: int| board_square(n, r, c));
    lemma_flatten_contains(row, c, k);
    let j = choose|j: int| 0 <= j < row.flatten().len() && row.flatten()[j] == board_square(n, r, c)[k];
    let rows = Seq::new(n, |r: int| Seq::new(n, |c: int| board_square(n, r, c)).flatten());
    assert(rows[r] == row.flatten());
    lemma_flatten_contains(rows, r, j);
}

/// In a satisfying assignment each surviving square is covered by exactly one chosen domino.
proof fn lemma_square_covered(n: nat, a: spec_fn(u32) -> bool, r: int, c: int)
    requires
        0 <= r < n,
        0 <= c < n,
        !removed(n as int, r, c),
        cnf_holds(a, chessboard_clauses(n)),
    ensures
        chosen(a, incident(board_edges(n), r * n + c)) == 1,
{
    let inc = incident(board_edges(n), r * n + c);
    let lits = pos_lits(inc);
    assert(board_square(n, r, c) == seq![lits] + amo(lits));
    lemma_square_clause(n, r, c, 0);
    lemma_contained_clause_holds(a, chessboard_clauses(n), lits);
    lemma_cover_clause(a, inc);
    assert forall|i: int, j: int| 0 <= i < j < inc.len() implies !(a(#[trigger] inc[i] as u32) && a(
        #[trigger] inc[j] as u32,
    )) by {
        let rowsf = |p: int| crate::families::amo_row(lits, p);
        assert(amo(lits) == Seq::new(lits.len(), rowsf).flatten());
        lemma_flatten_contains(Seq::new(lits.len(), rowsf), i, j - i - 1);
        let cl = seq![negate(pos(inc[i] as u32)), negate(pos(inc[j] as u32))];
        assert(crate::families::amo_row(lits, i)[j - i - 1] == cl);
        let q = choose|q: int| 0 <= q < amo(lits).len() && amo(lits)[q] == cl;
        assert(board_square(n, r, c)[q + 1] == cl);
        lemma_square_clause(n, r, c, q + 1);
        lemma_contained_clause_holds(a, chessboard_clauses(n), cl);
        lemma_exclusion_clause(a, inc[i], inc[j]);
    }
    lemma_chosen_one(a, inc);
}

/// Alternating colours along a row of even length sum to zero.
proof fn lemma_row_balanced(g: spec_fn(int) -> int, r: int, k: nat)
    requires
        k % 2 == 0,
        forall|c: int| 0 <= c < k ==> #[trigger] g(c) == (if (r + c) % 2 == 0 { 1int } else { -1int }),
    ensures
        isum(g, k) == 0,
    decreases k,
{
    if k > 0 {
        lemma_row_balanced(g, r, (k - 2) as nat);
        assert(isum(g, (k - 1) as nat) == isum(g, (k - 2) as nat) + g(k - 2));
        assert(isum(g, k) == isum(g, (k - 1) as nat) + g(k - 1));
        assert(g(k - 2) + g(k - 1) == 0);
    }
}

/// The colours of the full `n × n` board (even `n`) sum to zero.
proof fn lemma_board_balanced(n: nat)
    requires
        n >= 2,
        n % 2 == 0,
    ensures
        isum(|v: int| colour(n as int, v), n * n) == 0,
{
    let w = |v: int| colour(n as int, v);
    let rows = |r: int| isum(|c: int| w(r * n + c), n);
    assert forall|r: int| 0 <= r < n implies #[trigger] rows(r) == 0 by {
        let g = |c: int| w(r * n + c);
        assert forall|c: int| 0 <= c < n implies #[trigger] g(c) == (if (r + c) % 2 == 0 { 1int } else { -1int }) by {
            lemma_square_index(n as int, r, c);
        }
        lemma_row_balanced(g, r, n);
    }
    lemma_isum_rows(w, rows, n, n);
    lemma_isum_zero(rows, n);
}

/// The verdict of [`mutilated_chessboard`] is right: every domino covers one square of each
/// colour, but the two removed corners share a colour, so the surviving squares of one colour
/// outnumber the other by two and no exact cover exists.
pub proof fn lemma_chessboard_unsat(n: nat)
    requires
        n >= 4,
        n % 2 == 0,
        n * n <= usize::MAX,
    ensures
        !satisfiable(chessboard_clauses(n)),
{
    if satisfiable(chessboard_clauses(n)) {
        let a = choose|a: spec_fn(u32) -> bool| cnf_holds(a, chessboard_clauses(n));
        let ni = n as int;
        let es = board_edges(n);
        let m = es.len();
        let nn = n * n;
        assert(nn >= 16) by (nonlinear_arith)
            requires n >= 4, nn == n * n;
        let w = |v: int| colour(ni, v);
        let total = |v: int| w(v) * chosen(a, incident(es, v));
        // Counting by dominoes: each chosen domino adds one square of each colour.
        let f = |v: int, e: int| w(v) * chosen(a, inc_step(es, v, e));
        assert forall|v: int| 0 <= v < nn implies #[trigger] total(v) == isum(|e: int| f(v, e), m) by {
            let g = |e: int| inc_step(es, v, e);
            lemma_chosen_flatten(a, g, m);
            lemma_isum_scale(|e: int| chosen(a, g(e)), w(v), |e: int| f(v, e), m);
        }
        lemma_isum_ext(total, |v: int| isum(|e: int| f(v, e), m), nn);
        lemma_isum_swap(f, nn, m);
        let per_domino = |e: int| isum(|v: int| f(v, e), nn);
        assert forall|e: int| 0 <= e < m implies #[trigger] per_domino(e) == 0 by {
            lemma_domino(n, e);
            let x = es[e].0 as int;
            let y = es[e].1 as int;
            let b: int = if a((e as usize) as u32) { 1 } else { 0 };
            let p0 = |v: int| if v == x { w(x) * b } else { 0 };
            let p1 = |v: int| if v == y { w(y) * b } else { 0 };
            lemma_chosen_single(a, e as usize);
            assert(chosen(a, Seq::<usize>::empty()) == 0);
            assert forall|v: int| 0 <= v < nn implies #[trigger] f(v, e) == p0(v) + p1(v) by {
                let s0: Seq<usize> = if es[e].0 == v { seq![e as usize] } else { Seq::empty() };
                let s1: Seq<usize> = if es[e].1 == v { seq![e as usize] } else { Seq::empty() };
                assert(inc_step(es, v, e) == s0 + s1);
                lemma_chosen_concat(a, s0, s1);
                assert(w(v) * (chosen(a, s0) + chosen(a, s1)) == w(v) * chosen(a, s0) + w(v) * chosen(a, s1))
                    by (nonlinear_arith);
            }
            lemma_isum_add(p0, p1, |v: int| f(v, e), nn);
            lemma_isum_single(p0, x, w(x) * b, nn);
            lemma_isum_single(p1, y, w(y) * b, nn);
            assert(w(x) * b + w(y) * b == 0) by (nonlinear_arith)
                requires w(x) == -w(y);
        }
        lemma_isum_zero(per_domino, m);
        // Counting by squares: each surviving square is covered once, the corners never.
        let corner0 = |v: int| if v == 0 { -w(0) } else { 0 };
        let corner1 = |v: int| if v == nn - 1 { -w(nn - 1) } else { 0 };
        let part = |v: int| w(v) + corner0(v);
        let surv = |v: int| part(v) + corner1(v);
        lemma_square_index(ni, 0, 0);
        lemma_square_index(ni, ni - 1, ni - 1);
        assert((ni - 1) * ni + (ni - 1) == nn - 1) by (nonlinear_arith)
            requires nn == ni * ni;
        assert forall|v: int| 0 <= v < nn implies #[trigger] total(v) == surv(v) by {
            let r = v / ni;
            let c = v % ni;
            vstd::arithmetic::div_mod::lemma_fundamental_div_mod(v, ni);
            assert(0 <= r < ni) by {
                vstd::arithmetic::div_mod::lemma_div_pos_is_pos(v, ni);
                vstd::arithmetic::div_mod::lemma_multiply_divide_lt(v, ni, ni);
            }
            assert(v == r * ni + c) by (nonlinear_arith)
                requires v == ni * r + c;
            if v == 0 || v == nn - 1 {
                let g = |e: int| inc_step(es, v, e);
                assert forall|e: int| 0 <= e < m implies #[trigger] chosen(a, g(e)) == 0 by {
                    lemma_domino(n, e);
                    assert(g(e) =~= Seq::<usize>::empty());
                }
                lemma_chosen_flatten(a, g, m);
                lemma_isum_zero(|e: int| chosen(a, g(e)), m);
            } else {
                assert(!removed(ni, r, c));
                lemma_square_covered(n, a, r, c);
            }
        }
        lemma_isum_ext(total, surv, nn);
        lemma_isum_add(part, corner1, surv, nn);
        lemma_isum_add(w, corner0, part, nn);
        lemma_isum_single(corner0, 0, -w(0), nn);
        lemma_isum_single(corner1, nn - 1, -w(nn - 1), nn);
        lemma_board_balanced(n);
    }
}

} // verus!
