//! Integer sums over ranges and the number of chosen items of a list: the double counting
//! behind the chessboard and modular counting verdicts.

use vstd::prelude::*;
use crate::cnf::{pos, negate, lit_holds, clause_holds};
use crate::families::parity::pos_lits;

verus! {

/// `f(0) + … + f(k-1)`.
pub open spec fn isum(f: spec_fn(int) -> int, k: nat) -> int
    decreases k,
{
    if k == 0 { 0 } else { isum(f, (k - 1) as nat) + f(k - 1) }
}

/// How many items of `s` the assignment `a` makes true (counted with repetition).
pub open spec fn chosen(a: spec_fn(u32) -> bool, s: Seq<usize>) -> int
    decreases s.len(),
{
    if s.len() == 0 {
        0
    } else {
        chosen(a, s.drop_last()) + if a(s.last() as u32) { 1int } else { 0int }
    }
}

/// Sums of pointwise-equal terms are equal.
pub proof fn lemma_isum_ext(f: spec_fn(int) -> int, g: spec_fn(int) -> int, k: nat)
    requires
        forall|i: int| 0 <= i < k ==> #[trigger] f(i) == g(i),
    ensures
        isum(f, k) == isum(g, k),
    decreases k,
{
    if k > 0 {
        lemma_isum_ext(f, g, (k - 1) as nat);
    }
}

/// The sum of pointwise sums is the sum of the sums.
pub proof fn lemma_isum_add(f: spec_fn(int) -> int, g: spec_fn(int) -> int, h: spec_fn(int) -> int, k: nat)
    requires
        forall|i: int| 0 <= i < k ==> #[trigger] h(i) == f(i) + g(i),
    ensures
        isum(h, k) == isum(f, k) + isum(g, k),
    decreases k,
{
    if k > 0 {
        lemma_isum_add(f, g, h, (k - 1) as nat);
    }
}

/// A constant factor comes out of the sum.
pub proof fn lemma_isum_scale(f: spec_fn(int) -> int, c: int, h: spec_fn(int) -> int, k: nat)
    requires
        forall|i: int| 0 <= i < k ==> #[trigger] h(i) == c * f(i),
    ensures
        isum(h, k) == c * isum(f, k),
    decreases k,
{
    if k > 0 {
        lemma_isum_scale(f, c, h, (k - 1) as nat);
        let s1 = isum(f, (k - 1) as nat);
        let fk = f(k - 1);
        assert(isum(f, k) == s1 + fk);
        assert(c * (s1 + fk) == c * s1 + c * fk) by (nonlinear_arith);
    }
}

/// Only position `c` may be nonzero, with value `x`: the sum is `x` when `c` is in range.
pub proof fn lemma_isum_single(f: spec_fn(int) -> int, c: int, x: int, k: nat)
    requires
        forall|v: int| 0 <= v < k ==> #[trigger] f(v) == (if v == c { x } else { 0 }),
    ensures
        isum(f, k) == (if 0 <= c < k { x } else { 0 }),
    decreases k,
{
    if k > 0 {
        lemma_isum_single(f, c, x, (k - 1) as nat);
    }
}

/// All terms zero: the sum is zero.
pub proof fn lemma_isum_zero(f: spec_fn(int) -> int, k: nat)
    requires
        forall|i: int| 0 <= i < k ==> #[trigger] f(i) == 0,
    ensures
        isum(f, k) == 0,
    decreases k,
{
    if k > 0 {
        lemma_isum_zero(f, (k - 1) as nat);
    }
}

/// A sum over a rectangle does not depend on the order of summation.
pub proof fn lemma_isum_swap(f: spec_fn(int, int) -> int, n: nat, m: nat)
    ensures
        isum(|v: int| isum(|e: int| f(v, e), m), n) == isum(|e: int| isum(|v: int| f(v, e), n), m),
    decreases n,
{
    let outer = |v: int| isum(|e: int| f(v, e), m);
    let now = |e: int| isum(|v: int| f(v, e), n);
    if n == 0 {
        assert forall|e: int| 0 <= e < m implies #[trigger] now(e) == 0 by {
            assert(now(e) == isum(|v: int| f(v, e), 0));
        }
        lemma_isum_zero(now, m);
    } else {
        lemma_isum_swap(f, (n - 1) as nat, m);
        let before = |e: int| isum(|v: int| f(v, e), (n - 1) as nat);
        let last = |e: int| f(n - 1, e);
        lemma_isum_add(before, last, now, m);
        assert(isum(outer, n) == isum(outer, (n - 1) as nat) + outer(n - 1));
        assert(outer(n - 1) == isum(last, m));
    }
}

/// A sum over `k1 + k2` terms splits after the first `k1`.
pub proof fn lemma_isum_split(f: spec_fn(int) -> int, g: spec_fn(int) -> int, k1: nat, k2: nat)
    requires
        forall|i: int| 0 <= i < k2 ==> #[trigger] g(i) == f(k1 + i),
    ensures
        isum(f, k1 + k2) == isum(f, k1) + isum(g, k2),
    decreases k2,
{
    if k2 > 0 {
        lemma_isum_split(f, g, k1, (k2 - 1) as nat);
        assert(g(k2 - 1) == f(k1 + k2 - 1));
    }
}

/// A sum over `w` consecutive rows of `n` positions is the sum of the row sums.
pub proof fn lemma_isum_rows(f: spec_fn(int) -> int, rows: spec_fn(int) -> int, w: nat, n: nat)
    requires
        forall|r: int| 0 <= r < w ==> #[trigger] rows(r) == isum(|c: int| f(r * n + c), n),
    ensures
        isum(f, w * n) == isum(rows, w),
    decreases w,
{
    if w > 0 {
        lemma_isum_rows(f, rows, (w - 1) as nat, n);
        assert((w - 1) * n + n == w * n) by (nonlinear_arith);
        let g = |c: int| f((w - 1) * n + c);
        assert((w - 1) * n >= 0) by (nonlinear_arith)
            requires
                w >= 1,
        ;
        let k1 = ((w - 1) * n) as nat;
        assert(k1 + n == w * n);
        lemma_isum_split(f, g, k1, n);
        assert(rows(w - 1) == isum(g, n));
        assert(isum(rows, w) == isum(rows, (w - 1) as nat) + rows(w - 1));
        assert(((w - 1) as nat) * n == k1);
    } else {
        assert(w * n == 0) by (nonlinear_arith)
            requires
                w == 0,
        ;
    }
}

/// Terms `0` or `1`, no two of them `1`: the sum is `1` when some term is `1`, else `0`.
pub proof fn lemma_isum_indicator(f: spec_fn(int) -> int, k: nat)
    requires
        forall|i: int| 0 <= i < k ==> #[trigger] f(i) == 0 || f(i) == 1,
        forall|i: int, j: int| 0 <= i < j < k ==> !(#[trigger] f(i) == 1 && #[trigger] f(j) == 1),
    ensures
        isum(f, k) == (if exists|i: int| 0 <= i < k && #[trigger] f(i) == 1 { 1int } else { 0int }),
    decreases k,
{
    if k > 0 {
        lemma_isum_indicator(f, (k - 1) as nat);
        if f(k - 1) == 1 {
            assert forall|i: int| 0 <= i < k - 1 implies #[trigger] f(i) != 1 by {
                assert(!(f(i) == 1 && f(k - 1) == 1));
            }
        } else {
            assert(f(k - 1) == 0);
            if exists|i: int| 0 <= i < k && #[trigger] f(i) == 1 {
                let i = choose|i: int| 0 <= i < k && #[trigger] f(i) == 1;
                assert(0 <= i < k - 1 && f(i) == 1);
            }
        }
    }
}

/// `k` terms equal to `1` sum to `k`.
pub proof fn lemma_isum_ones(f: spec_fn(int) -> int, k: nat)
    requires
        forall|i: int| 0 <= i < k ==> #[trigger] f(i) == 1,
    ensures
        isum(f, k) == k,
    decreases k,
{
    if k > 0 {
        lemma_isum_ones(f, (k - 1) as nat);
    }
}

/// Counting over a concatenation.
pub proof fn lemma_chosen_concat(a: spec_fn(u32) -> bool, s: Seq<usize>, t: Seq<usize>)
    ensures
        chosen(a, s + t) == chosen(a, s) + chosen(a, t),
    decreases t.len(),
{
    if t.len() > 0 {
        lemma_chosen_concat(a, s, t.drop_last());
        assert((s + t).drop_last() =~= s + t.drop_last());
    } else {
        assert(s + t =~= s);
    }
}

/// Counting over flattened blocks is the sum of the blocks' counts.
pub proof fn lemma_chosen_flatten(a: spec_fn(u32) -> bool, g: spec_fn(int) -> Seq<usize>, m: nat)
    ensures
        chosen(a, Seq::new(m, g).flatten()) == isum(|e: int| chosen(a, g(e)), m),
    decreases m,
{
    if m == 0 {
        assert(Seq::new(m, g).flatten() =~= Seq::<usize>::empty());
    } else {
        lemma_chosen_flatten(a, g, (m - 1) as nat);
        crate::families::lemma_flatten_new_push((m - 1) as nat, g);
        lemma_chosen_concat(a, Seq::new((m - 1) as nat, g).flatten(), g(m - 1));
    }
}

/// A one-item list counts `1` if its item is true.
pub proof fn lemma_chosen_single(a: spec_fn(u32) -> bool, x: usize)
    ensures
        chosen(a, seq![x]) == (if a(x as u32) { 1int } else { 0int }),
{
    assert(seq![x].drop_last() =~= Seq::<usize>::empty());
    assert(chosen(a, Seq::<usize>::empty()) == 0);
}

/// No item true: the count is zero.
pub proof fn lemma_chosen_none(a: spec_fn(u32) -> bool, s: Seq<usize>)
    requires
        forall|i: int| 0 <= i < s.len() ==> !a(#[trigger] s[i] as u32),
    ensures
        chosen(a, s) == 0,
    decreases s.len(),
{
    if s.len() > 0 {
        lemma_chosen_none(a, s.drop_last());
    }
}

/// Some item true and no two positions true: the count is one.
pub proof fn lemma_chosen_one(a: spec_fn(u32) -> bool, s: Seq<usize>)
    requires
        exists|i: int| 0 <= i < s.len() && a(#[trigger] s[i] as u32),
        forall|i: int, j: int| 0 <= i < j < s.len() ==> !(a(#[trigger] s[i] as u32) && a(#[trigger] s[j] as u32)),
    ensures
        chosen(a, s) == 1,
    decreases s.len(),
{
    let init = s.drop_last();
    if a(s.last() as u32) {
        assert forall|i: int| 0 <= i < init.len() implies !a(#[trigger] init[i] as u32) by {
            assert(init[i] == s[i]);
            assert(s[s.len() - 1] == s.last());
        }
        lemma_chosen_none(a, init);
    } else {
        let i = choose|i: int| 0 <= i < s.len() && a(#[trigger] s[i] as u32);
        assert(init[i] == s[i]);
        assert forall|i: int, j: int| 0 <= i < j < init.len() implies !(a(#[trigger] init[i] as u32) && a(
            #[trigger] init[j] as u32,
        )) by {
            assert(init[i] == s[i] && init[j] == s[j]);
        }
        lemma_chosen_one(a, init);
    }
}

/// A true covering clause over `s` makes some item of `s` true.
pub proof fn lemma_cover_clause(a: spec_fn(u32) -> bool, s: Seq<usize>)
    requires
        clause_holds(a, pos_lits(s)),
    ensures
        exists|i: int| 0 <= i < s.len() && a(#[trigger] s[i] as u32),
{
    let i = choose|i: int| 0 <= i < pos_lits(s).len() && lit_holds(a, #[trigger] pos_lits(s)[i]);
    assert(a(s[i] as u32));
}

/// A true exclusion clause `¬x ∨ ¬y` keeps `x` and `y` from both being true.
pub proof fn lemma_exclusion_clause(a: spec_fn(u32) -> bool, x: usize, y: usize)
    requires
        clause_holds(a, seq![negate(pos(x as u32)), negate(pos(y as u32))]),
    ensures
        !(a(x as u32) && a(y as u32)),
{
    let c = seq![negate(pos(x as u32)), negate(pos(y as u32))];
    let i = choose|i: int| 0 <= i < c.len() && lit_holds(a, #[trigger] c[i]);
    assert(i == 0 || i == 1);
}

} // verus!
