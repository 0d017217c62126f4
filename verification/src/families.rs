//! Parametric generators for symmetry-rich SAT families — the canonical hard cases where
//! symmetry breaking earns its keep — each pinned to its known verdict.

use vstd::prelude::*;
use crate::cnf::{Lit, pos, negate, clauses_view};

pub mod pigeon;
pub mod classic;
pub mod parity;
pub mod counting;
pub mod random;
pub mod expander;
pub mod modular;
pub mod xor;
pub mod tally;
pub mod ramsey_bounds;

pub use pigeon::{php, weak_php, functional_php, onto_php};
pub use classic::{clique_coloring, ordering_principle, pebbling_pyramid};
pub use parity::{parity_exactly_one, grid_tseitin, mutilated_chessboard};
pub use counting::{mod_counting, mod_counting_edges, mod_counting_groups, ramsey_number, ramsey};
pub use random::{random_3sat, random_ksat};
pub use expander::{tseitin_expander, random_3regular};
pub use modular::{mod_p_tseitin_expander, mod_m_tseitin_expander, mod_p_consistent_onehot};
pub use xor::{random_kxor, parity_unsat};

verus! {

/// The known verdict of a generated instance.
#[derive(Clone, Copy, Debug, PartialEq, Eq, Structural)]
pub enum ExpectedVerdict {
    Sat,
    Unsat,
}

// ---------------------------------------------------------------------------
// Clause-list building blocks
// ---------------------------------------------------------------------------

/// The at-most-one clauses `¬s[i] ∨ ¬s[j]` for the pairs with first index `i`, in order of `j`.
pub open spec fn amo_row(s: Seq<Lit>, i: int) -> Seq<Seq<Lit>> {
    Seq::new((s.len() - i - 1) as nat, |d: int| seq![negate(s[i]), negate(s[i + 1 + d])])
}

/// The at-most-one clauses over `s`: one binary clause `¬s[i] ∨ ¬s[j]` per pair `i < j`, in
/// lexicographic order of the pair.
pub open spec fn amo(s: Seq<Lit>) -> Seq<Seq<Lit>> {
    Seq::new(s.len(), |i: int| amo_row(s, i)).flatten()
}

/// `Seq::new` grows by one element at a time.
pub proof fn lemma_new_push<A>(k: nat, f: spec_fn(int) -> A)
    ensures
        Seq::new(k + 1, f) == Seq::new(k, f).push(f(k as int)),
{
    assert(Seq::new(k + 1, f) =~= Seq::new(k, f).push(f(k as int)));
}

/// Flattening `Seq::new` grows by one block at a time.
pub proof fn lemma_flatten_new_push<A>(k: nat, f: spec_fn(int) -> Seq<A>)
    ensures
        Seq::new(k + 1, f).flatten() == Seq::new(k, f).flatten() + f(k as int),
{
    lemma_new_push(k, f);
    Seq::new(k, f).lemma_flatten_push(f(k as int));
}

/// Pushing a clause pushes its view.
pub proof fn lemma_cv_push(out: Seq<Vec<Lit>>, v: Vec<Lit>)
    ensures
        clauses_view(out.push(v)) == clauses_view(out).push(v@),
{
    assert(clauses_view(out.push(v)) =~= clauses_view(out).push(v@));
}

/// The positive literals of `base, base + stride, …` (`count` of them), each index taken
/// modulo 2³² as a `u32` variable.
pub open spec fn strided(base: int, stride: int, count: nat) -> Seq<Lit> {
    Seq::new(count, |i: int| pos((base + i * stride) as u32))
}

/// The positive literals of `base + i*stride` for `i < count`.
pub fn strided_lits(base: usize, stride: usize, count: usize) -> (r: Vec<Lit>)
    requires
        count > 0 ==> base + (count - 1) * stride <= usize::MAX,
    ensures
        r@ == strided(base as int, stride as int, count as nat),
{
    let mut r: Vec<Lit> = Vec::new();
    let mut i: usize = 0;
    let mut acc: usize = base;
    while i < count
        invariant
            i <= count,
            count > 0 ==> base + (count - 1) * stride <= usize::MAX,
            i < count ==> acc == base + i * stride,
            r@ == strided(base as int, stride as int, i as nat),
        decreases count - i,
    {
        proof {
            assert(strided(base as int, stride as int, (i + 1) as nat) =~= strided(base as int, stride as int,
                i as nat).push(pos(acc as u32)));
        }
        r.push(Lit::pos(acc as u32));
        if i + 1 < count {
            proof {
                assert((i + 1) * stride <= (count - 1) * stride) by (nonlinear_arith)
                    requires i + 1 <= count - 1;
                assert((i + 1) * stride == i * stride + stride) by (nonlinear_arith);
            }
            acc = acc + stride;
        }
        i += 1;
    }
    r
}

/// Append the at-most-one clauses over `s` to `out`.
pub fn push_amo(out: &mut Vec<Vec<Lit>>, s: &Vec<Lit>)
    ensures
        clauses_view(final(out)@) == clauses_view(old(out)@) + amo(s@),
{
    let ghost base = clauses_view(out@);
    let ghost rows = |i: int| amo_row(s@, i);
    let len = s.len();
    let mut i: usize = 0;
    while i < len
        invariant
            len == s@.len(),
            i <= len,
            rows == (|i: int| amo_row(s@, i)),
            clauses_view(out@) == base + Seq::new(i as nat, rows).flatten(),
        decreases len - i,
    {
        let ghost before_row = clauses_view(out@);
        let mut j: usize = i + 1;
        while j < len
            invariant
                len == s@.len(),
                i < len,
                i + 1 <= j <= len,
                clauses_view(out@) == before_row + amo_row(s@, i as int).take(j - i - 1),
            decreases len - j,
        {
            let c = vec![s[i].negated(), s[j].negated()];
            proof {
                lemma_cv_push(out@, c);
                assert(amo_row(s@, i as int).take(j - i) =~= amo_row(s@, i as int).take(j - i - 1).push(c@));
            }
            out.push(c);
            j += 1;
        }
        proof {
            assert(amo_row(s@, i as int).take(j - i - 1) =~= amo_row(s@, i as int));
            lemma_flatten_new_push(i as nat, rows);
        }
        i += 1;
    }
    proof {
        assert(Seq::new(len as nat, rows) =~= Seq::new(s@.len(), |i: int| amo_row(s@, i)));
    }
}

} // verus!
