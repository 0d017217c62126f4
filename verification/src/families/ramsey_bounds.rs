//! Small Ramsey numbers — `R(3, 4) = 9`, `R(3, 5) = 14`, `R(4, 4) = 18` — and the verdict of
//! the Ramsey formula for every pair whose number these and `R(2, t) = t`, `R(3, 3) = 6`
//! settle: degree, parity and neighbourhood arguments for the unsatisfiable side, explicit
//! colourings for the satisfiable one. The satisfiable sides of the larger tabulated numbers,
//! `R(3, 6) = 18`, `R(3, 7) = 23`, `R(3, 8) = 28`, `R(3, 9) = 36` and `R(4, 5) = 25`, are shown
//! by explicit colourings of 17, 22, 27, 35 and 24 vertices.

use vstd::prelude::*;
use crate::cnf::{lit_holds, clause_holds, cnf_holds, satisfiable};
use crate::families::counting::{ramsey_clauses, ramsey_value, clique_vars, pair_index, edge_colour, combinations_spec,
    neg_lits, pos_var_lits, difference_colouring, lemma_red_clique, lemma_blue_clique, lemma_clique_var,
    lemma_combs_from_shape, lemma_difference_colour, lemma_pair_index_bound, lemma_pair_index_injective, lemma_clique_literal, lemma_ramsey_two,
    lemma_ramsey_three_three_sat, lemma_ramsey_three_three_unsat};
use crate::families::tally::{isum, lemma_isum_ext, lemma_isum_add, lemma_isum_single, lemma_isum_ones};

verus! {

// ---------------------------------------------------------------------------
// Colourings of the clauses' complete graph
// ---------------------------------------------------------------------------

/// The colour of the edge `{x, y}` in either order (true = red).
pub open spec fn colour(a: spec_fn(u32) -> bool, n: nat, x: int, y: int) -> bool {
    if x < y { edge_colour(a, x, y, n) } else { edge_colour(a, y, x, n) }
}

/// In a satisfying assignment of `Ramsey(s, t; n)` every `s`-clique `c` (increasing) has a
/// pair that is not red.
proof fn lemma_clique_not_red(s: nat, t: nat, n: nat, a: spec_fn(u32) -> bool, c: Seq<usize>)
    requires
        2 <= s <= n,
        n <= usize::MAX,
        c.len() == s,
        forall|x: int| 0 <= x < s ==> #[trigger] c[x] < n,
        forall|x: int, y: int| 0 <= x < y < s ==> #[trigger] c[x] < #[trigger] c[y],
        cnf_holds(a, ramsey_clauses(s, t, n)),
    ensures
        exists|x: int, y: int| 0 <= x < y < s && !colour(a, n, #[trigger] c[x] as int, #[trigger] c[y] as int),
{
    lemma_red_clique(s, t, n, a, c);
    let p = choose|p: int| 0 <= p < clique_vars(c, n).len() && !a(#[trigger] clique_vars(c, n)[p]);
    lemma_clique_var(c, n, p);
    let (x, y) = choose|x: int, y: int| 0 <= x < y < c.len() && #[trigger] clique_vars(c, n)[p] == pair_index(
        c[x] as int, c[y] as int, n as int) as u32;
    assert(!colour(a, n, c[x] as int, c[y] as int));
}

/// In a satisfying assignment of `Ramsey(s, t; n)` every `t`-clique `c` (increasing) has a
/// red pair.
proof fn lemma_clique_not_blue(s: nat, t: nat, n: nat, a: spec_fn(u32) -> bool, c: Seq<usize>)
    requires
        2 <= t <= n,
        n <= usize::MAX,
        c.len() == t,
        forall|x: int| 0 <= x < t ==> #[trigger] c[x] < n,
        forall|x: int, y: int| 0 <= x < y < t ==> #[trigger] c[x] < #[trigger] c[y],
        cnf_holds(a, ramsey_clauses(s, t, n)),
    ensures
        exists|x: int, y: int| 0 <= x < y < t && colour(a, n, #[trigger] c[x] as int, #[trigger] c[y] as int),
{
    lemma_blue_clique(s, t, n, a, c);
    let p = choose|p: int| 0 <= p < clique_vars(c, n).len() && a(#[trigger] clique_vars(c, n)[p]);
    lemma_clique_var(c, n, p);
    let (x, y) = choose|x: int, y: int| 0 <= x < y < c.len() && #[trigger] clique_vars(c, n)[p] == pair_index(
        c[x] as int, c[y] as int, n as int) as u32;
    assert(colour(a, n, c[x] as int, c[y] as int));
}

// ---------------------------------------------------------------------------
// R(3, 4) <= 9 for an abstract colouring of nine points
// ---------------------------------------------------------------------------

/// No triangle among the points `0..m` is `true` on all three sides.
pub open spec fn no_true_triangle(f: spec_fn(int, int) -> bool, m: nat) -> bool {
    forall|i: int, j: int, k: int|
        #![trigger f(i, j), f(i, k), f(j, k)]
        0 <= i < j < k < m ==> !(f(i, j) && f(i, k) && f(j, k))
}

/// No four points among `0..m` are `false` on all six sides.
pub open spec fn no_false_four(f: spec_fn(int, int) -> bool, m: nat) -> bool {
    forall|i: int, j: int, k: int, l: int|
        #![trigger f(i, j), f(i, k), f(i, l), f(j, k), f(j, l), f(k, l)]
        0 <= i < j < k < l < m ==> (f(i, j) || f(i, k) || f(i, l) || f(j, k) || f(j, l) || f(k, l))
}

/// `f` is symmetric on the points `0..m`.
pub open spec fn symmetric_on(f: spec_fn(int, int) -> bool, m: nat) -> bool {
    forall|x: int, y: int| 0 <= x < m && 0 <= y < m ==> #[trigger] f(x, y) == f(y, x)
}

proof fn lemma_six(f: spec_fn(int, int) -> bool) -> (r: (int, int, int))
    ensures
        0 <= r.0 < r.1 < r.2 < 6,
        f(r.0, r.1) == f(r.0, r.2),
        f(r.0, r.2) == f(r.1, r.2),
{
    let b1 = f(0, 1);
    let b2 = f(0, 2);
    let b3 = f(0, 3);
    let b4 = f(0, 4);
    let b5 = f(0, 5);
    let (i, j, k) = if b1 == b2 && b2 == b3 {
        (1int, 2int, 3int)
    } else if b1 == b2 && b2 == b4 {
        (1, 2, 4)
    } else if b1 == b2 && b2 == b5 {
        (1, 2, 5)
    } else if b1 == b3 && b3 == b4 {
        (1, 3, 4)
    } else if b1 == b3 && b3 == b5 {
        (1, 3, 5)
    } else if b1 == b4 && b4 == b5 {
        (1, 4, 5)
    } else if b2 == b3 && b3 == b4 {
        (2, 3, 4)
    } else if b2 == b3 && b3 == b5 {
        (2, 3, 5)
    } else if b2 == b4 && b4 == b5 {
        (2, 4, 5)
    } else {
        (3, 4, 5)
    };
    let c = f(0, i);
    if f(i, j) == c {
        (0, i, j)
    } else if f(i, k) == c {
        (0, i, k)
    } else if f(j, k) == c {
        (0, j, k)
    } else {
        (i, j, k)
    }
}

proof fn lemma_pick(f: spec_fn(int) -> int, k: nat, m: nat) -> (s: Seq<int>)
    requires
        forall|i: int| 0 <= i < m ==> #[trigger] f(i) == 0 || f(i) == 1,
        isum(f, m) >= k,
    ensures
        s.len() == k,
        forall|i: int| 0 <= i < k ==> 0 <= #[trigger] s[i] < m && f(s[i]) == 1,
        forall|i: int, j: int| 0 <= i < j < k ==> #[trigger] s[i] < #[trigger] s[j],
    decreases m,
{
    if k == 0 {
        Seq::empty()
    } else {
        assert(m > 0);
        if f(m - 1) == 1 {
            let s0 = lemma_pick(f, (k - 1) as nat, (m - 1) as nat);
            s0.push(m - 1)
        } else {
            lemma_pick(f, k, (m - 1) as nat)
        }
    }
}

/// `1` when `w` is a `true` neighbour of `v` under `f`, else `0`.
pub open spec fn true_step(f: spec_fn(int, int) -> bool, v: int, w: int) -> int {
    if w != v && f(v, w) { 1 } else { 0 }
}

/// With no `true` triangle and no `false` four among nine points, every point has exactly
/// three `true` neighbours: four would leave them pairwise `false`, and six `false` ones hold a
/// monochromatic triangle.
proof fn lemma_true_degree_three(f: spec_fn(int, int) -> bool, v: int)
    requires
        symmetric_on(f, 9),
        no_true_triangle(f, 9),
        no_false_four(f, 9),
        0 <= v < 9,
    ensures
        isum(|w: int| true_step(f, v, w), 9) == 3,
{
    let tr = |w: int| true_step(f, v, w);
    let fa = |w: int| if w != v && !f(v, w) { 1int } else { 0int };
    let other = |w: int| if w != v { 1int } else { 0int };
    let one = |w: int| 1int;
    let at_v = |w: int| if w == v { 1int } else { 0int };
    lemma_isum_add(tr, fa, other, 9);
    lemma_isum_add(other, at_v, one, 9);
    lemma_isum_ones(one, 9);
    lemma_isum_single(at_v, v, 1, 9);
    if isum(tr, 9) >= 4 {
        let s = lemma_pick(tr, 4, 9);
        let (w1, w2, w3, w4) = (s[0], s[1], s[2], s[3]);
        assert(tr(w1) == 1 && tr(w2) == 1 && tr(w3) == 1 && tr(w4) == 1);
        lemma_triangle_any(f, v, w1, w2);
        lemma_triangle_any(f, v, w1, w3);
        lemma_triangle_any(f, v, w1, w4);
        lemma_triangle_any(f, v, w2, w3);
        lemma_triangle_any(f, v, w2, w4);
        lemma_triangle_any(f, v, w3, w4);
        assert(f(w1, w2) || f(w1, w3) || f(w1, w4) || f(w2, w3) || f(w2, w4) || f(w3, w4));
    }
    if isum(fa, 9) >= 6 {
        let s = lemma_pick(fa, 6, 9);
        let g = |i: int, j: int| f(s[i], s[j]);
        let (i, j, k) = lemma_six(g);
        assert(fa(s[i]) == 1 && fa(s[j]) == 1 && fa(s[k]) == 1);
        if g(i, j) {
            assert(!(f(s[i], s[j]) && f(s[i], s[k]) && f(s[j], s[k])));
        } else {
            lemma_four_with(f, v, s[i], s[j], s[k]);
        }
    }
}

/// No `true` triangle on three distinct points in any order.
proof fn lemma_triangle_any(f: spec_fn(int, int) -> bool, x: int, y: int, z: int)
    requires
        symmetric_on(f, 9),
        no_true_triangle(f, 9),
        0 <= x < 9 && 0 <= y < 9 && 0 <= z < 9,
        x != y && x != z && y != z,
    ensures
        !(f(x, y) && f(x, z) && f(y, z)),
{
    assert(f(x, y) == f(y, x) && f(x, z) == f(z, x) && f(y, z) == f(z, y));
    if x < y && y < z {
        assert(!(f(x, y) && f(x, z) && f(y, z)));
    } else if x < z && z < y {
        assert(!(f(x, z) && f(x, y) && f(z, y)));
    } else if y < x && x < z {
        assert(!(f(y, x) && f(y, z) && f(x, z)));
    } else if y < z && z < x {
        assert(!(f(y, z) && f(y, x) && f(z, x)));
    } else if z < x && x < y {
        assert(!(f(z, x) && f(z, y) && f(x, y)));
    } else {
        assert(!(f(z, y) && f(z, x) && f(y, x)));
    }
}

/// No point `v` is `false` to the three points of a `false` triangle `i < j < k`.
proof fn lemma_four_with(f: spec_fn(int, int) -> bool, v: int, i: int, j: int, k: int)
    requires
        symmetric_on(f, 9),
        no_false_four(f, 9),
        0 <= v < 9,
        0 <= i < j < k < 9,
        v != i && v != j && v != k,
    ensures
        f(v, i) || f(v, j) || f(v, k) || f(i, j) || f(i, k) || f(j, k),
{
    assert(f(v, i) == f(i, v) && f(v, j) == f(j, v) && f(v, k) == f(k, v));
    if v < i {
        assert(f(v, i) || f(v, j) || f(v, k) || f(i, j) || f(i, k) || f(j, k));
    } else if v < j {
        assert(f(i, v) || f(i, j) || f(i, k) || f(v, j) || f(v, k) || f(j, k));
    } else if v < k {
        assert(f(i, j) || f(i, v) || f(i, k) || f(j, v) || f(j, k) || f(v, k));
    } else {
        assert(f(i, j) || f(i, k) || f(i, v) || f(j, k) || f(j, v) || f(k, v));
    }
}

proof fn lemma_symmetric_even(g: spec_fn(int, int) -> int, m: nat)
    requires
        forall|v: int, w: int| 0 <= v < m && 0 <= w < m ==> #[trigger] g(v, w) == g(w, v),
        forall|v: int| 0 <= v < m ==> #[trigger] g(v, v) == 0,
    ensures
        isum(|v: int| isum(|w: int| g(v, w), m), m) % 2 == 0,
    decreases m,
{
    if m > 0 {
        let k = (m - 1) as nat;
        lemma_symmetric_even(g, k);
        let inner = |v: int| isum(|w: int| g(v, w), m);
        let inner_k = |v: int| isum(|w: int| g(v, w), k);
        let col = |v: int| g(v, k as int);
        assert forall|v: int| 0 <= v < k implies #[trigger] inner(v) == inner_k(v) + col(v) by {
            assert(isum(|w: int| g(v, w), m) == isum(|w: int| g(v, w), k) + g(v, k as int));
        }
        let h = |v: int| inner_k(v) + col(v);
        lemma_isum_ext(inner, h, k);
        lemma_isum_add(inner_k, col, h, k);
        // The last row is the last column, plus the zero corner.
        let row = |w: int| g(k as int, w);
        assert(inner(k as int) == isum(row, k) + g(k as int, k as int));
        lemma_isum_ext(row, col, k);
        assert(isum(inner, m) == isum(inner, k) + inner(k as int));
    }
}

/// `R(3, 4) <= 9` for an abstract colouring: nine points, symmetric, cannot avoid both a `true`
/// triangle and a `false` four — every point would have exactly three `true` neighbours, an
/// odd total of `true` endpoints.
pub proof fn lemma_nine_points(f: spec_fn(int, int) -> bool)
    requires
        symmetric_on(f, 9),
    ensures
        !(no_true_triangle(f, 9) && no_false_four(f, 9)),
{
    if no_true_triangle(f, 9) && no_false_four(f, 9) {
        let g = |v: int, w: int| true_step(f, v, w);
        assert forall|v: int, w: int| 0 <= v < 9 && 0 <= w < 9 implies #[trigger] g(v, w) == g(w, v) by {
            assert(f(v, w) == f(w, v));
        }
        lemma_symmetric_even(g, 9);
        let degs = |v: int| isum(|w: int| g(v, w), 9);
        assert forall|v: int| 0 <= v < 9 implies #[trigger] degs(v) == 3 by {
            lemma_true_degree_three(f, v);
            lemma_isum_ext(|w: int| true_step(f, v, w), |w: int| g(v, w), 9);
        }
        let three = |v: int| 3int;
        lemma_isum_ext(degs, three, 9);
        assert(isum(three, 9) == 27) by {
            reveal_with_fuel(isum, 10);
        }
    }
}

// ---------------------------------------------------------------------------
// The Ramsey verdicts
// ---------------------------------------------------------------------------

/// `R(3, 4) = 9`, the unsatisfiable side: for `n >= 9` a colouring of `K_n` with no red
/// triangle and no blue `K_4` would colour the vertices `0..9` in a way no nine points allow.
pub proof fn lemma_ramsey_three_four_unsat(n: nat)
    requires
        9 <= n <= usize::MAX,
    ensures
        !satisfiable(ramsey_clauses(3, 4, n)),
{
    if satisfiable(ramsey_clauses(3, 4, n)) {
        let a = choose|a: spec_fn(u32) -> bool| cnf_holds(a, ramsey_clauses(3, 4, n));
        let f = |x: int, y: int| colour(a, n, x, y);
        assert forall|i: int, j: int, k: int| 0 <= i < j < k < 9 implies !(#[trigger] f(i, j) && #[trigger] f(i, k)
            && #[trigger] f(j, k)) by {
            lemma_clique_not_red(3, 4, n, a, seq![i as usize, j as usize, k as usize]);
        }
        assert forall|i: int, j: int, k: int, l: int| 0 <= i < j < k < l < 9 implies (#[trigger] f(i, j)
            || #[trigger] f(i, k) || #[trigger] f(i, l) || #[trigger] f(j, k) || #[trigger] f(j, l) || #[trigger] f(k, l)) by {
            lemma_clique_not_blue(3, 4, n, a, seq![i as usize, j as usize, k as usize, l as usize]);
        }
        lemma_nine_points(f);
    }
}

/// The gaps of the Wagner graph on 8 vertices (the 8-cycle with its long diagonals): one, four
/// or seven.
pub open spec fn wagner_gap(d: int) -> bool {
    d == 1 || d == 4 || d == 7
}

/// `R(3, 4) = 9`, the satisfiable side: for `n <= 8`, colouring `{i < j}` red when `j − i` is
/// 1, 4 or 7 leaves no red triangle (no two such gaps add up to a third) and no blue `K_4`
/// (three gaps of at least 2 inside a span of 7 add up to 6 only as `2 + 2 + 2`, and 4 is red).
pub proof fn lemma_ramsey_three_four_sat(n: nat)
    requires
        2 <= n <= 8,
    ensures
        satisfiable(ramsey_clauses(3, 4, n)),
{
    let gap = |d: int| wagner_gap(d);
    let a = difference_colouring(n, gap);
    let cls = ramsey_clauses(3, 4, n);
    let cs = combinations_spec(n, 3);
    assert(n * n <= 64) by (nonlinear_arith)
        requires
            n <= 8,
    ;
    assert forall|c: int| 0 <= c < cls.len() implies clause_holds(a, #[trigger] cls[c]) by {
        if c < cs.len() {
            lemma_combs_from_shape(0, n, 3, c);
            let t = cs[c];
            let (i, j, l) = (t[0] as int, t[1] as int, t[2] as int);
            assert(t[0] < t[1] && t[1] < t[2]);
            lemma_difference_colour(n, gap, i, j);
            lemma_difference_colour(n, gap, i, l);
            lemma_difference_colour(n, gap, j, l);
            let (x, y) = if !gap(j - i) { (0int, 1int) } else if !gap(l - i) { (0, 2) } else { (1, 2) };
            lemma_clique_literal(t, n, x, y);
            let p = choose|p: int| 0 <= p < clique_vars(t, n).len() && #[trigger] clique_vars(t, n)[p] == pair_index(
                t[x] as int, t[y] as int, n as int) as u32;
            assert(cls[c] == neg_lits(clique_vars(t, n)));
            assert(lit_holds(a, cls[c][p]));
        } else {
            let k = c - cs.len();
            let ct = combinations_spec(n, 4);
            lemma_combs_from_shape(0, n, 4, k);
            let t = ct[k];
            let (i, j, m, l) = (t[0] as int, t[1] as int, t[2] as int, t[3] as int);
            assert(t[0] < t[1] && t[1] < t[2] && t[2] < t[3]);
            lemma_difference_colour(n, gap, i, j);
            lemma_difference_colour(n, gap, i, m);
            lemma_difference_colour(n, gap, i, l);
            lemma_difference_colour(n, gap, j, m);
            lemma_difference_colour(n, gap, j, l);
            lemma_difference_colour(n, gap, m, l);
            let (x, y) = if gap(j - i) {
                (0int, 1int)
            } else if gap(m - i) {
                (0, 2)
            } else if gap(l - i) {
                (0, 3)
            } else if gap(m - j) {
                (1, 2)
            } else if gap(l - j) {
                (1, 3)
            } else {
                (2, 3)
            };
            lemma_clique_literal(t, n, x, y);
            let p = choose|p: int| 0 <= p < clique_vars(t, n).len() && #[trigger] clique_vars(t, n)[p] == pair_index(
                t[x] as int, t[y] as int, n as int) as u32;
            assert(cls[c] == pos_var_lits(clique_vars(t, n)));
            assert(lit_holds(a, cls[c][p]));
        }
    }
    assert(cnf_holds(a, cls));
}


/// The neighbours of vertex `0` among `1..m` split into red and blue ones.
proof fn lemma_split_at_zero(a: spec_fn(u32) -> bool, n: nat, m: nat)
    requires
        m >= 1,
    ensures
        isum(|w: int| if w != 0 && colour(a, n, 0, w) { 1int } else { 0int }, m) + isum(|w: int| if w != 0
            && !colour(a, n, 0, w) { 1int } else { 0int }, m) == m - 1,
{
    let red = |w: int| if w != 0 && colour(a, n, 0, w) { 1int } else { 0int };
    let blue = |w: int| if w != 0 && !colour(a, n, 0, w) { 1int } else { 0int };
    let other = |w: int| if w != 0 { 1int } else { 0int };
    let one = |w: int| 1int;
    let at0 = |w: int| if w == 0 { 1int } else { 0int };
    lemma_isum_add(red, blue, other, m);
    lemma_isum_add(other, at0, one, m);
    lemma_isum_ones(one, m);
    lemma_isum_single(at0, 0, 1, m);
}

/// `R(3, 5) <= 14`: for `n >= 14` there is no colouring of `K_n` without a red triangle and a
/// blue `K_5` — five red neighbours of vertex `0` would be pairwise blue, and nine blue ones
/// would hold a red triangle or a blue `K_4`.
pub proof fn lemma_ramsey_three_five_unsat(n: nat)
    requires
        14 <= n <= usize::MAX,
    ensures
        !satisfiable(ramsey_clauses(3, 5, n)),
{
    if satisfiable(ramsey_clauses(3, 5, n)) {
        let a = choose|a: spec_fn(u32) -> bool| cnf_holds(a, ramsey_clauses(3, 5, n));
        let red = |w: int| if w != 0 && colour(a, n, 0, w) { 1int } else { 0int };
        let blue = |w: int| if w != 0 && !colour(a, n, 0, w) { 1int } else { 0int };
        lemma_split_at_zero(a, n, 14);
        if isum(red, 14) >= 5 {
            let w = lemma_pick(red, 5, 14);
            assert forall|x: int, y: int| 0 <= x < y < 5 implies !colour(a, n, #[trigger] w[x], #[trigger] w[y]) by {
                assert(red(w[x]) == 1 && red(w[y]) == 1);
                lemma_clique_not_red(3, 5, n, a, seq![0usize, w[x] as usize, w[y] as usize]);
            }
            let c = Seq::new(5, |i: int| w[i] as usize);
            lemma_clique_not_blue(3, 5, n, a, c);
        } else {
            let u = lemma_pick(blue, 9, 14);
            let f = |i: int, j: int| colour(a, n, u[i], u[j]);
            assert forall|i: int, j: int, k: int| 0 <= i < j < k < 9 implies !(#[trigger] f(i, j) && #[trigger] f(i, k)
                && #[trigger] f(j, k)) by {
                lemma_clique_not_red(3, 5, n, a, seq![u[i] as usize, u[j] as usize, u[k] as usize]);
            }
            assert forall|i: int, j: int, k: int, l: int| 0 <= i < j < k < l < 9 implies (#[trigger] f(i, j)
                || #[trigger] f(i, k) || #[trigger] f(i, l) || #[trigger] f(j, k) || #[trigger] f(j, l) || #[trigger] f(k, l)) by {
                assert(blue(u[i]) == 1 && blue(u[j]) == 1 && blue(u[k]) == 1 && blue(u[l]) == 1);
                lemma_clique_not_blue(3, 5, n, a, seq![0usize, u[i] as usize, u[j] as usize, u[k] as usize,
                    u[l] as usize]);
            }
            assert forall|x: int, y: int| 0 <= x < 9 && 0 <= y < 9 implies #[trigger] f(x, y) == f(y, x) by {}
            lemma_nine_points(f);
        }
    }
}

/// `R(4, 4) <= 18`: for `n >= 18` there is no colouring of `K_n` without a monochromatic `K_4`
/// — nine neighbours of vertex `0` of one colour would hold a triangle of that colour (a `K_4`
/// with `0`) or a `K_4` of the other.
pub proof fn lemma_ramsey_four_four_unsat(n: nat)
    requires
        18 <= n <= usize::MAX,
    ensures
        !satisfiable(ramsey_clauses(4, 4, n)),
{
    if satisfiable(ramsey_clauses(4, 4, n)) {
        let a = choose|a: spec_fn(u32) -> bool| cnf_holds(a, ramsey_clauses(4, 4, n));
        let red = |w: int| if w != 0 && colour(a, n, 0, w) { 1int } else { 0int };
        let blue = |w: int| if w != 0 && !colour(a, n, 0, w) { 1int } else { 0int };
        lemma_split_at_zero(a, n, 18);
        if isum(red, 18) >= 9 {
            let u = lemma_pick(red, 9, 18);
            let f = |i: int, j: int| colour(a, n, u[i], u[j]);
            assert forall|i: int, j: int, k: int| 0 <= i < j < k < 9 implies !(#[trigger] f(i, j) && #[trigger] f(i, k)
                && #[trigger] f(j, k)) by {
                assert(red(u[i]) == 1 && red(u[j]) == 1 && red(u[k]) == 1);
                lemma_clique_not_red(4, 4, n, a, seq![0usize, u[i] as usize, u[j] as usize, u[k] as usize]);
            }
            assert forall|i: int, j: int, k: int, l: int| 0 <= i < j < k < l < 9 implies (#[trigger] f(i, j)
                || #[trigger] f(i, k) || #[trigger] f(i, l) || #[trigger] f(j, k) || #[trigger] f(j, l) || #[trigger] f(k, l)) by {
                lemma_clique_not_blue(4, 4, n, a, seq![u[i] as usize, u[j] as usize, u[k] as usize, u[l] as usize]);
            }
            assert forall|x: int, y: int| 0 <= x < 9 && 0 <= y < 9 implies #[trigger] f(x, y) == f(y, x) by {}
            lemma_nine_points(f);
        } else {
            let u = lemma_pick(blue, 9, 18);
            let f = |i: int, j: int| !colour(a, n, u[i], u[j]);
            assert forall|i: int, j: int, k: int| 0 <= i < j < k < 9 implies !(#[trigger] f(i, j) && #[trigger] f(i, k)
                && #[trigger] f(j, k)) by {
                assert(blue(u[i]) == 1 && blue(u[j]) == 1 && blue(u[k]) == 1);
                lemma_clique_not_blue(4, 4, n, a, seq![0usize, u[i] as usize, u[j] as usize, u[k] as usize]);
            }
            assert forall|i: int, j: int, k: int, l: int| 0 <= i < j < k < l < 9 implies (#[trigger] f(i, j)
                || #[trigger] f(i, k) || #[trigger] f(i, l) || #[trigger] f(j, k) || #[trigger] f(j, l) || #[trigger] f(k, l)) by {
                lemma_clique_not_red(4, 4, n, a, seq![u[i] as usize, u[j] as usize, u[k] as usize, u[l] as usize]);
            }
            assert forall|x: int, y: int| 0 <= x < 9 && 0 <= y < 9 implies #[trigger] f(x, y) == f(y, x) by {}
            lemma_nine_points(f);
        }
    }
}


/// The gaps of the circulant graph on 13 vertices with distances 1 and 5: 1, 5, 8 or 12.
pub open spec fn circulant13_gap(d: int) -> bool {
    d == 1 || d == 5 || d == 8 || d == 12
}

/// `R(3, 5) = 14`, the satisfiable side: for `n <= 13`, colouring `{i < j}` red when `j − i`
/// is 1, 5, 8 or 12 (distance 1 or 5 around a 13-cycle) leaves no red triangle and no blue
/// `K_5`.
pub proof fn lemma_ramsey_three_five_sat(n: nat)
    requires
        2 <= n <= 13,
    ensures
        satisfiable(ramsey_clauses(3, 5, n)),
{
    let gap = |d: int| circulant13_gap(d);
    let a = difference_colouring(n, gap);
    let cls = ramsey_clauses(3, 5, n);
    let cs = combinations_spec(n, 3);
    assert(n * n <= 169) by (nonlinear_arith)
        requires
            n <= 13,
    ;
    assert forall|c: int| 0 <= c < cls.len() implies clause_holds(a, #[trigger] cls[c]) by {
        if c < cs.len() {
            lemma_combs_from_shape(0, n, 3, c);
            let t = cs[c];
            let (i, j, l) = (t[0] as int, t[1] as int, t[2] as int);
            assert(t[0] < t[1] && t[1] < t[2]);
            lemma_difference_colour(n, gap, i, j);
            lemma_difference_colour(n, gap, i, l);
            lemma_difference_colour(n, gap, j, l);
            let (x, y) = if !gap(j - i) { (0int, 1int) } else if !gap(l - i) { (0, 2) } else { (1, 2) };
            lemma_clique_literal(t, n, x, y);
            let p = choose|p: int| 0 <= p < clique_vars(t, n).len() && #[trigger] clique_vars(t, n)[p] == pair_index(
                t[x] as int, t[y] as int, n as int) as u32;
            assert(cls[c] == neg_lits(clique_vars(t, n)));
            assert(lit_holds(a, cls[c][p]));
        } else {
            let k = c - cs.len();
            let ct = combinations_spec(n, 5);
            lemma_combs_from_shape(0, n, 5, k);
            let t = ct[k];
            assert(t[0] < t[1] && t[1] < t[2] && t[2] < t[3] && t[3] < t[4]);
            assert forall|x: int, y: int| 0 <= x < y < 5 implies edge_colour(a, #[trigger] t[x] as int,
                #[trigger] t[y] as int, n) == gap(t[y] - t[x]) by {
                lemma_difference_colour(n, gap, t[x] as int, t[y] as int);
            }
            let (x, y) = lemma_red_pair_in_five(t);
            lemma_clique_literal(t, n, x, y);
            let p = choose|p: int| 0 <= p < clique_vars(t, n).len() && #[trigger] clique_vars(t, n)[p] == pair_index(
                t[x] as int, t[y] as int, n as int) as u32;
            assert(cls[c] == pos_var_lits(clique_vars(t, n)));
            assert(edge_colour(a, t[x] as int, t[y] as int, n));
            assert(lit_holds(a, cls[c][p]));
        }
    }
    assert(cnf_holds(a, cls));
}

/// Five vertices below 13 always have a pair at circulant distance 1 or 5.
proof fn lemma_red_pair_in_five(t: Seq<usize>) -> (r: (int, int))
    requires
        t.len() == 5,
        t[4] < 13,
        t[0] < t[1] && t[1] < t[2] && t[2] < t[3] && t[3] < t[4],
    ensures
        0 <= r.0 < r.1 < 5,
        circulant13_gap(t[r.1] - t[r.0]),
{
    let d = |x: int, y: int| circulant13_gap(t[y] - t[x]);
    if d(0, 1) {
        (0, 1)
    } else if d(0, 2) {
        (0, 2)
    } else if d(0, 3) {
        (0, 3)
    } else if d(0, 4) {
        (0, 4)
    } else if d(1, 2) {
        (1, 2)
    } else if d(1, 3) {
        (1, 3)
    } else if d(1, 4) {
        (1, 4)
    } else if d(2, 3) {
        (2, 3)
    } else if d(2, 4) {
        (2, 4)
    } else {
        (3, 4)
    }
}

/// The quadratic residues modulo 17, as gaps: 1, 2, 4, 8, 9, 13, 15 or 16.
pub open spec fn paley17_gap(d: int) -> bool {
    d == 1 || d == 2 || d == 4 || d == 8 || d == 9 || d == 13 || d == 15 || d == 16
}

/// Four vertices below 17 have a pair whose gap is a residue and a pair whose gap is not.
proof fn lemma_paley_four(t: Seq<usize>, want: bool) -> (r: (int, int))
    requires
        t.len() == 4,
        t[3] < 17,
        t[0] < t[1] && t[1] < t[2] && t[2] < t[3],
    ensures
        0 <= r.0 < r.1 < 4,
        paley17_gap(t[r.1] - t[r.0]) == want,
{
    let d = |x: int, y: int| paley17_gap(t[y] - t[x]) == want;
    if d(0, 1) {
        (0, 1)
    } else if d(0, 2) {
        (0, 2)
    } else if d(0, 3) {
        (0, 3)
    } else if d(1, 2) {
        (1, 2)
    } else if d(1, 3) {
        (1, 3)
    } else {
        (2, 3)
    }
}

/// `R(4, 4) = 18`, the satisfiable side: for `n <= 17` the Paley colouring (red when `j − i`
/// is a quadratic residue modulo 17) has no monochromatic `K_4`.
pub proof fn lemma_ramsey_four_four_sat(n: nat)
    requires
        2 <= n <= 17,
    ensures
        satisfiable(ramsey_clauses(4, 4, n)),
{
    let gap = |d: int| paley17_gap(d);
    let a = difference_colouring(n, gap);
    let cls = ramsey_clauses(4, 4, n);
    let cs = combinations_spec(n, 4);
    assert(n * n <= 289) by (nonlinear_arith)
        requires
            n <= 17,
    ;
    assert forall|c: int| 0 <= c < cls.len() implies clause_holds(a, #[trigger] cls[c]) by {
        let red = c < cs.len();
        let k = if red { c } else { c - cs.len() };
        lemma_combs_from_shape(0, n, 4, k);
        let t = cs[k];
        assert(t[0] < t[1] && t[1] < t[2] && t[2] < t[3]);
        let (x, y) = lemma_paley_four(t, !red);
        lemma_difference_colour(n, gap, t[x] as int, t[y] as int);
        lemma_clique_literal(t, n, x, y);
        let p = choose|p: int| 0 <= p < clique_vars(t, n).len() && #[trigger] clique_vars(t, n)[p] == pair_index(
            t[x] as int, t[y] as int, n as int) as u32;
        if red {
            assert(cls[c] == neg_lits(clique_vars(t, n)));
        } else {
            assert(cls[c] == pos_var_lits(clique_vars(t, n)));
        }
        assert(lit_holds(a, cls[c][p]));
    }
    assert(cnf_holds(a, cls));
}


// ---------------------------------------------------------------------------
// R(3, 6) = 18, the satisfiable side
// ---------------------------------------------------------------------------

/// The neighbours of vertex `i` in a graph on 17 vertices, as a bit set.
pub open spec fn g17_row(i: u32) -> u32 {
    if i == 0u32 { 32994u32 } else if i == 1u32 { 9473u32 } else if i == 2u32 { 36944u32 } else if i == 3u32 { 43648u32 } else if i == 4u32 { 1444u32 } else if i == 5u32 { 74257u32 } else if i == 6u32 { 19461u32 } else if i == 7u32 { 20505u32 } else if i == 8u32 { 18962u32 } else if i == 9u32 { 5416u32 } else if i == 10u32 { 66130u32 } else if i == 11u32 { 65864u32 } else if i == 12u32 { 74372u32 } else if i == 13u32 { 20522u32 } else if i == 14u32 { 41408u32 } else if i == 15u32 { 81933u32 } else { 39968u32 }
}

/// Whether `j` is a neighbour of `i` in the graph of [`g17_row`].
pub open spec fn g17_bit(i: u32, j: u32) -> bool {
    (g17_row(i) >> j) & 1u32 == 1u32
}

/// A triangle-free graph on 17 vertices with no independent set of six: `{i, j}` is an edge.
pub open spec fn g17(i: int, j: int) -> bool {
    0 <= i < 17 && 0 <= j < 17 && g17_bit(i as u32, j as u32)
}

/// Colour `K_n` by a graph: `{i < j}` is red when `red(i, j)`.
pub open spec fn graph_colouring(n: nat, red: spec_fn(int, int) -> bool) -> spec_fn(u32) -> bool {
    |v: u32| exists|x: int, y: int| 0 <= x < y < n && #[trigger] pair_index(x, y, n as int) == v && red(x, y)
}

/// A colouring by a graph gives each edge the graph's colour.
proof fn lemma_graph_colour(n: nat, red: spec_fn(int, int) -> bool, i: int, j: int)
    requires
        n * n <= u32::MAX,
        0 <= i < j < n,
    ensures
        edge_colour(graph_colouring(n, red), i, j, n) == red(i, j),
{
    lemma_pair_index_bound(i, j, n as int);
    let v = pair_index(i, j, n as int) as u32;
    assert(v as int == pair_index(i, j, n as int));
    if red(i, j) {
        assert(pair_index(i, j, n as int) == v);
    } else if graph_colouring(n, red)(v) {
        let (x, y) = choose|x: int, y: int| 0 <= x < y < n && #[trigger] pair_index(x, y, n as int) == v && red(x, y);
        lemma_pair_index_injective(x, y, i, j, n as int);
    }
}

/// `g17` has no triangle.
pub proof fn lemma_g17_triangle_free(a: int, b: int, c: int)
    requires
        0 <= a < b < c < 17,
    ensures
        !(g17(a, b) && g17(a, c) && g17(b, c)),
{
    let (x, y, z) = (a as u32, b as u32, c as u32);
    assert(!(g17_bit(x, y) && g17_bit(x, z) && g17_bit(y, z))) by (bit_vector)
        requires
            x < y && y < z && z < 17u32,
    ;
}

/// `g17` has no independent set of six.
pub proof fn lemma_g17_no_blue_six(t: Seq<usize>) -> (r: (int, int))
    requires
        t.len() == 6,
        t[5] < 17,
        t[0] < t[1] && t[1] < t[2] && t[2] < t[3] && t[3] < t[4] && t[4] < t[5],
    ensures
        0 <= r.0 < r.1 < 6,
        g17(t[r.0] as int, t[r.1] as int),
{
    let (t0, t1, t2, t3, t4, t5) = (t[0] as u32, t[1] as u32, t[2] as u32, t[3] as u32, t[4] as u32, t[5] as u32);
    assert(g17_bit(t0, t1) || g17_bit(t0, t2) || g17_bit(t0, t3) || g17_bit(t0, t4) || g17_bit(t0, t5) || g17_bit(t1, t2) || g17_bit(t1, t3) || g17_bit(t1, t4) || g17_bit(t1, t5) || g17_bit(t2, t3) || g17_bit(t2, t4) || g17_bit(t2, t5) || g17_bit(t3, t4) || g17_bit(t3, t5) || g17_bit(t4, t5)) by (bit_vector)
        requires
            t0 < t1 && t1 < t2 && t2 < t3 && t3 < t4 && t4 < t5 && t5 < 17u32,
    ;
    let d = |x: int, y: int| g17_bit(t[x] as u32, t[y] as u32);
    if d(0, 1) { (0, 1) } else if d(0, 2) { (0, 2) } else if d(0, 3) { (0, 3) } else if d(0, 4) { (0, 4) }
    else if d(0, 5) { (0, 5) } else if d(1, 2) { (1, 2) } else if d(1, 3) { (1, 3) } else if d(1, 4) { (1, 4) }
    else if d(1, 5) { (1, 5) } else if d(2, 3) { (2, 3) } else if d(2, 4) { (2, 4) } else if d(2, 5) { (2, 5) }
    else if d(3, 4) { (3, 4) } else if d(3, 5) { (3, 5) } else { (4, 5) }
}

/// `R(3, 6) = 18`, the satisfiable side: for `n <= 17`, colouring `{i < j}` red when it is an
/// edge of [`g17`] leaves no red triangle and no blue `K_6`.
pub proof fn lemma_ramsey_three_six_sat(n: nat)
    requires
        2 <= n <= 17,
    ensures
        satisfiable(ramsey_clauses(3, 6, n)),
{
    let red = |i: int, j: int| g17(i, j);
    let a = graph_colouring(n, red);
    let cls = ramsey_clauses(3, 6, n);
    let cs = combinations_spec(n, 3);
    assert(n * n <= 289) by (nonlinear_arith)
        requires
            n <= 17,
    ;
    assert forall|c: int| 0 <= c < cls.len() implies clause_holds(a, #[trigger] cls[c]) by {
        if c < cs.len() {
            lemma_combs_from_shape(0, n, 3, c);
            let t = cs[c];
            let (i, j, l) = (t[0] as int, t[1] as int, t[2] as int);
            assert(t[0] < t[1] && t[1] < t[2]);
            lemma_graph_colour(n, red, i, j);
            lemma_graph_colour(n, red, i, l);
            lemma_graph_colour(n, red, j, l);
            lemma_g17_triangle_free(i, j, l);
            let (x, y) = if !g17(i, j) { (0int, 1int) } else if !g17(i, l) { (0, 2) } else { (1, 2) };
            lemma_clique_literal(t, n, x, y);
            let p = choose|p: int| 0 <= p < clique_vars(t, n).len() && #[trigger] clique_vars(t, n)[p] == pair_index(
                t[x] as int, t[y] as int, n as int) as u32;
            assert(cls[c] == neg_lits(clique_vars(t, n)));
            assert(lit_holds(a, cls[c][p]));
        } else {
            let k = c - cs.len();
            let ct = combinations_spec(n, 6);
            lemma_combs_from_shape(0, n, 6, k);
            let t = ct[k];
            assert(t[0] < t[1] && t[1] < t[2] && t[2] < t[3] && t[3] < t[4] && t[4] < t[5]);
            let (x, y) = lemma_g17_no_blue_six(t);
            lemma_graph_colour(n, red, t[x] as int, t[y] as int);
            lemma_clique_literal(t, n, x, y);
            let p = choose|p: int| 0 <= p < clique_vars(t, n).len() && #[trigger] clique_vars(t, n)[p] == pair_index(
                t[x] as int, t[y] as int, n as int) as u32;
            assert(cls[c] == pos_var_lits(clique_vars(t, n)));
            assert(edge_colour(a, t[x] as int, t[y] as int, n));
            assert(lit_holds(a, cls[c][p]));
        }
    }
    assert(cnf_holds(a, cls));
}

/// The tabulated `R(3, 6)` is a lower bound that colourings attain: every complete graph on
/// fewer vertices, in either order of the clique sizes, has a colouring with no red `K_3`
/// and no blue `K_6` (and the other way round), so the Ramsey formula is satisfiable at every
/// size below the table's value.
pub proof fn lemma_ramsey_three_six_below(s: nat, t: nat, n: nat)
    requires
        (s == 3 && t == 6) || (s == 6 && t == 3),
        2 <= n,
        n < ramsey_value(s, t)->0,
    ensures
        ramsey_value(s, t) is Some,
        satisfiable(ramsey_clauses(s, t, n)),
{
    lemma_ramsey_swap(3, 6, n);
    lemma_ramsey_three_six_sat(n);
}

/// Seventeen vertices admit a colouring with no red triangle and no blue `K_6`, so the
/// tabulated `R(3, 6)` lies above 17: the table never labels a satisfiable size as beyond it.
pub proof fn lemma_ramsey_three_six_above_seventeen(n: nat)
    requires
        2 <= n <= 17,
    ensures
        satisfiable(ramsey_clauses(3, 6, n)),
        satisfiable(ramsey_clauses(6, 3, n)),
        n < ramsey_value(3, 6)->0,
        n < ramsey_value(6, 3)->0,
{
    lemma_ramsey_three_six_sat(n);
    lemma_ramsey_swap(3, 6, n);
}

// ---------------------------------------------------------------------------
// R(4, 5) = 25, the satisfiable side
// ---------------------------------------------------------------------------

/// The circulant gaps modulo 24: distance 1, 2, 4, 8 or 9 around a 24-cycle.
pub open spec fn circulant24_gap(d: int) -> bool {
    d == 1 || d == 2 || d == 4 || d == 8 || d == 9 || d == 15 || d == 16 || d == 20 || d == 22 || d == 23
}

/// The same gaps as a bit set, for vertices `x < y`.
spec fn c24_bit(x: u64, y: u64) -> bool {
    ((13730582u64 << x) >> y) & 1u64 == 1u64
}

/// The bit set holds exactly the circulant gaps.
proof fn lemma_c24_bit(x: u64, y: u64)
    requires
        x < y < 24,
    ensures
        c24_bit(x, y) == circulant24_gap(y - x),
{
    assert((((13730582u64 << x) >> y) & 1u64 == 1u64) == (y - x == 1 || y - x == 2 || y - x == 4 || y - x == 8
        || y - x == 9 || y - x == 15 || y - x == 16 || y - x == 20 || y - x == 22 || y - x == 23)) by (bit_vector)
        requires
            x < y && y < 24u64,
    ;
}

/// Four vertices below 24 have a pair whose gap is not a circulant gap.
proof fn lemma_c24_no_red_four(t: Seq<usize>) -> (r: (int, int))
    requires
        t.len() == 4,
        t[3] < 24,
        t[0] < t[1] && t[1] < t[2] && t[2] < t[3],
    ensures
        0 <= r.0 < r.1 < 4,
        !circulant24_gap(t[r.1] - t[r.0]),
{
    let (t0, t1, t2, t3) = (t[0] as u64, t[1] as u64, t[2] as u64, t[3] as u64);
    assert(!(c24_bit(t0, t1) && c24_bit(t0, t2) && c24_bit(t0, t3) && c24_bit(t1, t2) && c24_bit(t1, t3) && c24_bit(t2, t3))) by (bit_vector)
        requires
            t0 < t1 && t1 < t2 && t2 < t3 && t3 < 24u64,
    ;
    assert forall|x: int, y: int| 0 <= x < y < 4 implies c24_bit(#[trigger] t[x] as u64, #[trigger] t[y] as u64)
        == circulant24_gap(t[y] - t[x]) by {
        lemma_c24_bit(t[x] as u64, t[y] as u64);
    }
    let d = |x: int, y: int| c24_bit(t[x] as u64, t[y] as u64);
    if !d(0, 1) { (0, 1) } else if !d(0, 2) { (0, 2) } else if !d(0, 3) { (0, 3) } else if !d(1, 2) { (1, 2) } else if !d(1, 3) { (1, 3) } else { (2, 3) }
}

/// Five vertices below 24 have a pair whose gap is a circulant gap.
proof fn lemma_c24_no_blue_five(t: Seq<usize>) -> (r: (int, int))
    requires
        t.len() == 5,
        t[4] < 24,
        t[0] < t[1] && t[1] < t[2] && t[2] < t[3] && t[3] < t[4],
    ensures
        0 <= r.0 < r.1 < 5,
        circulant24_gap(t[r.1] - t[r.0]),
{
    let (t0, t1, t2, t3, t4) = (t[0] as u64, t[1] as u64, t[2] as u64, t[3] as u64, t[4] as u64);
    assert(c24_bit(t0, t1) || c24_bit(t0, t2) || c24_bit(t0, t3) || c24_bit(t0, t4) || c24_bit(t1, t2) || c24_bit(t1, t3) || c24_bit(t1, t4) || c24_bit(t2, t3) || c24_bit(t2, t4) || c24_bit(t3, t4)) by (bit_vector)
        requires
            t0 < t1 && t1 < t2 && t2 < t3 && t3 < t4 && t4 < 24u64,
    ;
    assert forall|x: int, y: int| 0 <= x < y < 5 implies c24_bit(#[trigger] t[x] as u64, #[trigger] t[y] as u64)
        == circulant24_gap(t[y] - t[x]) by {
        lemma_c24_bit(t[x] as u64, t[y] as u64);
    }
    let d = |x: int, y: int| c24_bit(t[x] as u64, t[y] as u64);
    if d(0, 1) { (0, 1) } else if d(0, 2) { (0, 2) } else if d(0, 3) { (0, 3) } else if d(0, 4) { (0, 4) } else if d(1, 2) { (1, 2) } else if d(1, 3) { (1, 3) } else if d(1, 4) { (1, 4) } else if d(2, 3) { (2, 3) } else if d(2, 4) { (2, 4) } else { (3, 4) }
}

/// `R(4, 5) = 25`, the satisfiable side: for `n <= 24`, colouring `{i < j}` red when `j − i` is
/// a gap of the 24-cycle circulant with distances 1, 2, 4, 8, 9 leaves no red `K_4` and no
/// blue `K_5`.
pub proof fn lemma_ramsey_four_five_sat(n: nat)
    requires
        2 <= n <= 24,
    ensures
        satisfiable(ramsey_clauses(4, 5, n)),
{
    let gap = |d: int| circulant24_gap(d);
    let a = difference_colouring(n, gap);
    let cls = ramsey_clauses(4, 5, n);
    let cs = combinations_spec(n, 4);
    assert(n * n <= 576) by (nonlinear_arith)
        requires
            n <= 24,
    ;
    assert forall|c: int| 0 <= c < cls.len() implies clause_holds(a, #[trigger] cls[c]) by {
        if c < cs.len() {
            lemma_combs_from_shape(0, n, 4, c);
            let t = cs[c];
            assert(t[0] < t[1] && t[1] < t[2] && t[2] < t[3]);
            let (x, y) = lemma_c24_no_red_four(t);
            lemma_difference_colour(n, gap, t[x] as int, t[y] as int);
            lemma_clique_literal(t, n, x, y);
            let p = choose|p: int| 0 <= p < clique_vars(t, n).len() && #[trigger] clique_vars(t, n)[p] == pair_index(
                t[x] as int, t[y] as int, n as int) as u32;
            assert(cls[c] == neg_lits(clique_vars(t, n)));
            assert(lit_holds(a, cls[c][p]));
        } else {
            let k = c - cs.len();
            let ct = combinations_spec(n, 5);
            lemma_combs_from_shape(0, n, 5, k);
            let t = ct[k];
            assert(t[0] < t[1] && t[1] < t[2] && t[2] < t[3] && t[3] < t[4]);
            let (x, y) = lemma_c24_no_blue_five(t);
            lemma_difference_colour(n, gap, t[x] as int, t[y] as int);
            lemma_clique_literal(t, n, x, y);
            let p = choose|p: int| 0 <= p < clique_vars(t, n).len() && #[trigger] clique_vars(t, n)[p] == pair_index(
                t[x] as int, t[y] as int, n as int) as u32;
            assert(cls[c] == pos_var_lits(clique_vars(t, n)));
            assert(lit_holds(a, cls[c][p]));
        }
    }
    assert(cnf_holds(a, cls));
}

/// Twenty-four vertices admit a colouring with no red `K_4` and no blue `K_5`, so the
/// tabulated `R(4, 5)` lies above 24.
pub proof fn lemma_ramsey_four_five_above_twenty_four(n: nat)
    requires
        2 <= n <= 24,
    ensures
        satisfiable(ramsey_clauses(4, 5, n)),
        satisfiable(ramsey_clauses(5, 4, n)),
        n < ramsey_value(4, 5)->0,
        n < ramsey_value(5, 4)->0,
{
    lemma_ramsey_four_five_sat(n);
    lemma_ramsey_swap(4, 5, n);
}

// ---------------------------------------------------------------------------
// R(3, 7) = 23, the satisfiable side
// ---------------------------------------------------------------------------

/// The neighbours of vertex `i` in a graph on 22 vertices, as a bit set.
pub open spec fn g22_row(i: u32) -> u32 {
    if i == 0u32 { 1720450u32 } else if i == 1u32 { 7241u32 } else if i == 2u32 { 564736u32 } else if i == 3u32 { 827906u32 } else if i == 4u32 { 661696u32 } else if i == 5u32 { 232704u32 } else if i == 6u32 { 114962u32 } else if i == 7u32 { 2098961u32 } else if i == 8u32 { 266464u32 } else if i == 9u32 { 196748u32 } else if i == 10u32 { 270502u32 } else if i == 11u32 { 1065014u32 } else if i == 12u32 { 2105622u32 } else if i == 13u32 { 1070088u32 } else if i == 14u32 { 2107457u32 } else if i == 15u32 { 3145836u32 } else if i == 16u32 { 3670624u32 } else if i == 17u32 { 262705u32 } else if i == 18u32 { 3278088u32 } else if i == 19u32 { 65565u32 } else if i == 20u32 { 370689u32 } else { 381056u32 }
}

/// Whether `j` is a neighbour of `i` in the graph of [`g22_row`].
pub open spec fn g22_bit(i: u32, j: u32) -> bool {
    (g22_row(i) >> j) & 1u32 == 1u32
}

/// A triangle-free graph on 22 vertices with no independent set of 7: `{i, j}` is an edge.
pub open spec fn g22(i: int, j: int) -> bool {
    0 <= i < 22 && 0 <= j < 22 && g22_bit(i as u32, j as u32)
}

/// `g22` has no triangle.
pub proof fn lemma_g22_triangle_free(a: int, b: int, c: int)
    requires
        0 <= a < b < c < 22,
    ensures
        !(g22(a, b) && g22(a, c) && g22(b, c)),
{
    let (x, y, z) = (a as u32, b as u32, c as u32);
    assert(!(g22_bit(x, y) && g22_bit(x, z) && g22_bit(y, z))) by (bit_vector)
        requires
            x < y && y < z && z < 22u32,
    ;
}

/// `g22` has no independent set of 7.
pub proof fn lemma_g22_no_blue(t: Seq<usize>) -> (r: (int, int))
    requires
        t.len() == 7,
        t[6] < 22,
        t[0] < t[1] && t[1] < t[2] && t[2] < t[3] && t[3] < t[4] && t[4] < t[5] && t[5] < t[6],
    ensures
        0 <= r.0 < r.1 < 7,
        g22(t[r.0] as int, t[r.1] as int),
{
    let (t0, t1, t2, t3, t4, t5, t6) = (t[0] as u32, t[1] as u32, t[2] as u32, t[3] as u32, t[4] as u32, t[5] as u32, t[6] as u32);
    assert(g22_bit(t0, t1) || g22_bit(t0, t2) || g22_bit(t0, t3) || g22_bit(t0, t4) || g22_bit(t0, t5) || g22_bit(t0, t6) || g22_bit(t1, t2) || g22_bit(t1, t3) || g22_bit(t1, t4) || g22_bit(t1, t5) || g22_bit(t1, t6) || g22_bit(t2, t3) || g22_bit(t2, t4) || g22_bit(t2, t5) || g22_bit(t2, t6) || g22_bit(t3, t4) || g22_bit(t3, t5) || g22_bit(t3, t6) || g22_bit(t4, t5) || g22_bit(t4, t6) || g22_bit(t5, t6)) by (bit_vector)
        requires
            t0 < t1 && t1 < t2 && t2 < t3 && t3 < t4 && t4 < t5 && t5 < t6 && t6 < 22u32,
    ;
    let d = |x: int, y: int| g22_bit(t[x] as u32, t[y] as u32);
    if d(0, 1) { (0, 1) } else if d(0, 2) { (0, 2) } else if d(0, 3) { (0, 3) } else if d(0, 4) { (0, 4) } else if d(0, 5) { (0, 5) } else if d(0, 6) { (0, 6) } else if d(1, 2) { (1, 2) } else if d(1, 3) { (1, 3) } else if d(1, 4) { (1, 4) } else if d(1, 5) { (1, 5) } else if d(1, 6) { (1, 6) } else if d(2, 3) { (2, 3) } else if d(2, 4) { (2, 4) } else if d(2, 5) { (2, 5) } else if d(2, 6) { (2, 6) } else if d(3, 4) { (3, 4) } else if d(3, 5) { (3, 5) } else if d(3, 6) { (3, 6) } else if d(4, 5) { (4, 5) } else if d(4, 6) { (4, 6) } else { (5, 6) }
}

/// `R(3, 7) = 23`, the satisfiable side: for `n <= 22`, colouring `{i < j}` red when it is an
/// edge of [`g22`] leaves no red triangle and no blue `K_7`.
pub proof fn lemma_ramsey_three_7_sat(n: nat)
    requires
        2 <= n <= 22,
    ensures
        satisfiable(ramsey_clauses(3, 7, n)),
{
    let red = |i: int, j: int| g22(i, j);
    let a = graph_colouring(n, red);
    let cls = ramsey_clauses(3, 7, n);
    let cs = combinations_spec(n, 3);
    assert(n * n <= 484) by (nonlinear_arith)
        requires
            n <= 22,
    ;
    assert forall|c: int| 0 <= c < cls.len() implies clause_holds(a, #[trigger] cls[c]) by {
        if c < cs.len() {
            lemma_combs_from_shape(0, n, 3, c);
            let t = cs[c];
            let (i, j, l) = (t[0] as int, t[1] as int, t[2] as int);
            assert(t[0] < t[1] && t[1] < t[2]);
            lemma_graph_colour(n, red, i, j);
            lemma_graph_colour(n, red, i, l);
            lemma_graph_colour(n, red, j, l);
            lemma_g22_triangle_free(i, j, l);
            let (x, y) = if !g22(i, j) { (0int, 1int) } else if !g22(i, l) { (0, 2) } else { (1, 2) };
            lemma_clique_literal(t, n, x, y);
            let p = choose|p: int| 0 <= p < clique_vars(t, n).len() && #[trigger] clique_vars(t, n)[p] == pair_index(
                t[x] as int, t[y] as int, n as int) as u32;
            assert(cls[c] == neg_lits(clique_vars(t, n)));
            assert(lit_holds(a, cls[c][p]));
        } else {
            let k = c - cs.len();
            let ct = combinations_spec(n, 7);
            lemma_combs_from_shape(0, n, 7, k);
            let t = ct[k];
            assert(t[0] < t[1] && t[1] < t[2] && t[2] < t[3] && t[3] < t[4] && t[4] < t[5] && t[5] < t[6]);
            let (x, y) = lemma_g22_no_blue(t);
            lemma_graph_colour(n, red, t[x] as int, t[y] as int);
            lemma_clique_literal(t, n, x, y);
            let p = choose|p: int| 0 <= p < clique_vars(t, n).len() && #[trigger] clique_vars(t, n)[p] == pair_index(
                t[x] as int, t[y] as int, n as int) as u32;
            assert(cls[c] == pos_var_lits(clique_vars(t, n)));
            assert(edge_colour(a, t[x] as int, t[y] as int, n));
            assert(lit_holds(a, cls[c][p]));
        }
    }
    assert(cnf_holds(a, cls));
}

/// 22 vertices admit a colouring with no red triangle and no blue `K_7`, so the tabulated
/// `R(3, 7)` lies above 22.
pub proof fn lemma_ramsey_three_7_above(n: nat)
    requires
        2 <= n <= 22,
    ensures
        satisfiable(ramsey_clauses(3, 7, n)),
        satisfiable(ramsey_clauses(7, 3, n)),
        n < ramsey_value(3, 7)->0,
        n < ramsey_value(7, 3)->0,
{
    lemma_ramsey_three_7_sat(n);
    lemma_ramsey_swap(3, 7, n);
}

// ---------------------------------------------------------------------------
// R(3, 8) = 28, the satisfiable side
// ---------------------------------------------------------------------------

/// The neighbours of vertex `i` in a graph on 27 vertices, as a bit set.
pub open spec fn g27_row(i: u32) -> u32 {
    if i == 0u32 { 4424324u32 } else if i == 1u32 { 75566240u32 } else if i == 2u32 { 33560657u32 } else if i == 3u32 { 34606848u32 } else if i == 4u32 { 1320452u32 } else if i == 5u32 { 22053122u32 } else if i == 6u32 { 84959364u32 } else if i == 7u32 { 2359363u32 } else if i == 8u32 { 929832u32 } else if i == 9u32 { 85999641u32 } else if i == 10u32 { 16941082u32 } else if i == 11u32 { 811022u32 } else if i == 12u32 { 8438020u32 } else if i == 13u32 { 41978192u32 } else if i == 14u32 { 4397632u32 } else if i == 15u32 { 69219361u32 } else if i == 16u32 { 51920899u32 } else if i == 17u32 { 70272257u32 } else if i == 18u32 { 117442960u32 } else if i == 19u32 { 73468160u32 } else if i == 20u32 { 8585336u32 } else if i == 21u32 { 42631808u32 } else if i == 22u32 { 42483745u32 } else if i == 23u32 { 24129538u32 } else if i == 24u32 { 8717920u32 } else if i == 25u32 { 6627340u32 } else { 950850u32 }
}

/// Whether `j` is a neighbour of `i` in the graph of [`g27_row`].
pub open spec fn g27_bit(i: u32, j: u32) -> bool {
    (g27_row(i) >> j) & 1u32 == 1u32
}

/// A triangle-free graph on 27 vertices with no independent set of 8: `{i, j}` is an edge.
pub open spec fn g27(i: int, j: int) -> bool {
    0 <= i < 27 && 0 <= j < 27 && g27_bit(i as u32, j as u32)
}

/// `g27` has no triangle.
pub proof fn lemma_g27_triangle_free(a: int, b: int, c: int)
    requires
        0 <= a < b < c < 27,
    ensures
        !(g27(a, b) && g27(a, c) && g27(b, c)),
{
    let (x, y, z) = (a as u32, b as u32, c as u32);
    assert(!(g27_bit(x, y) && g27_bit(x, z) && g27_bit(y, z))) by (bit_vector)
        requires
            x < y && y < z && z < 27u32,
    ;
}

/// `g27` has no independent set of 8.
pub proof fn lemma_g27_no_blue(t: Seq<usize>) -> (r: (int, int))
    requires
        t.len() == 8,
        t[7] < 27,
        t[0] < t[1] && t[1] < t[2] && t[2] < t[3] && t[3] < t[4] && t[4] < t[5] && t[5] < t[6] && t[6] < t[7],
    ensures
        0 <= r.0 < r.1 < 8,
        g27(t[r.0] as int, t[r.1] as int),
{
    let (t0, t1, t2, t3, t4, t5, t6, t7) = (t[0] as u32, t[1] as u32, t[2] as u32, t[3] as u32, t[4] as u32, t[5] as u32, t[6] as u32, t[7] as u32);
    assert(g27_bit(t0, t1) || g27_bit(t0, t2) || g27_bit(t0, t3) || g27_bit(t0, t4) || g27_bit(t0, t5) || g27_bit(t0, t6) || g27_bit(t0, t7) || g27_bit(t1, t2) || g27_bit(t1, t3) || g27_bit(t1, t4) || g27_bit(t1, t5) || g27_bit(t1, t6) || g27_bit(t1, t7) || g27_bit(t2, t3) || g27_bit(t2, t4) || g27_bit(t2, t5) || g27_bit(t2, t6) || g27_bit(t2, t7) || g27_bit(t3, t4) || g27_bit(t3, t5) || g27_bit(t3, t6) || g27_bit(t3, t7) || g27_bit(t4, t5) || g27_bit(t4, t6) || g27_bit(t4, t7) || g27_bit(t5, t6) || g27_bit(t5, t7) || g27_bit(t6, t7)) by (bit_vector)
        requires
            t0 < t1 && t1 < t2 && t2 < t3 && t3 < t4 && t4 < t5 && t5 < t6 && t6 < t7 && t7 < 27u32,
    ;
    let d = |x: int, y: int| g27_bit(t[x] as u32, t[y] as u32);
    if d(0, 1) { (0, 1) } else if d(0, 2) { (0, 2) } else if d(0, 3) { (0, 3) } else if d(0, 4) { (0, 4) } else if d(0, 5) { (0, 5) } else if d(0, 6) { (0, 6) } else if d(0, 7) { (0, 7) } else if d(1, 2) { (1, 2) } else if d(1, 3) { (1, 3) } else if d(1, 4) { (1, 4) } else if d(1, 5) { (1, 5) } else if d(1, 6) { (1, 6) } else if d(1, 7) { (1, 7) } else if d(2, 3) { (2, 3) } else if d(2, 4) { (2, 4) } else if d(2, 5) { (2, 5) } else if d(2, 6) { (2, 6) } else if d(2, 7) { (2, 7) } else if d(3, 4) { (3, 4) } else if d(3, 5) { (3, 5) } else if d(3, 6) { (3, 6) } else if d(3, 7) { (3, 7) } else if d(4, 5) { (4, 5) } else if d(4, 6) { (4, 6) } else if d(4, 7) { (4, 7) } else if d(5, 6) { (5, 6) } else if d(5, 7) { (5, 7) } else { (6, 7) }
}

/// `R(3, 8) = 28`, the satisfiable side: for `n <= 27`, colouring `{i < j}` red when it is an
/// edge of [`g27`] leaves no red triangle and no blue `K_8`.
pub proof fn lemma_ramsey_three_8_sat(n: nat)
    requires
        2 <= n <= 27,
    ensures
        satisfiable(ramsey_clauses(3, 8, n)),
{
    let red = |i: int, j: int| g27(i, j);
    let a = graph_colouring(n, red);
    let cls = ramsey_clauses(3, 8, n);
    let cs = combinations_spec(n, 3);
    assert(n * n <= 729) by (nonlinear_arith)
        requires
            n <= 27,
    ;
    assert forall|c: int| 0 <= c < cls.len() implies clause_holds(a, #[trigger] cls[c]) by {
        if c < cs.len() {
            lemma_combs_from_shape(0, n, 3, c);
            let t = cs[c];
            let (i, j, l) = (t[0] as int, t[1] as int, t[2] as int);
            assert(t[0] < t[1] && t[1] < t[2]);
            lemma_graph_colour(n, red, i, j);
            lemma_graph_colour(n, red, i, l);
            lemma_graph_colour(n, red, j, l);
            lemma_g27_triangle_free(i, j, l);
            let (x, y) = if !g27(i, j) { (0int, 1int) } else if !g27(i, l) { (0, 2) } else { (1, 2) };
            lemma_clique_literal(t, n, x, y);
            let p = choose|p: int| 0 <= p < clique_vars(t, n).len() && #[trigger] clique_vars(t, n)[p] == pair_index(
                t[x] as int, t[y] as int, n as int) as u32;
            assert(cls[c] == neg_lits(clique_vars(t, n)));
            assert(lit_holds(a, cls[c][p]));
        } else {
            let k = c - cs.len();
            let ct = combinations_spec(n, 8);
            lemma_combs_from_shape(0, n, 8, k);
            let t = ct[k];
            assert(t[0] < t[1] && t[1] < t[2] && t[2] < t[3] && t[3] < t[4] && t[4] < t[5] && t[5] < t[6] && t[6] < t[7]);
            let (x, y) = lemma_g27_no_blue(t);
            lemma_graph_colour(n, red, t[x] as int, t[y] as int);
            lemma_clique_literal(t, n, x, y);
            let p = choose|p: int| 0 <= p < clique_vars(t, n).len() && #[trigger] clique_vars(t, n)[p] == pair_index(
                t[x] as int, t[y] as int, n as int) as u32;
            assert(cls[c] == pos_var_lits(clique_vars(t, n)));
            assert(edge_colour(a, t[x] as int, t[y] as int, n));
            assert(lit_holds(a, cls[c][p]));
        }
    }
    assert(cnf_holds(a, cls));
}

/// 27 vertices admit a colouring with no red triangle and no blue `K_8`, so the tabulated
/// `R(3, 8)` lies above 27.
pub proof fn lemma_ramsey_three_8_above(n: nat)
    requires
        2 <= n <= 27,
    ensures
        satisfiable(ramsey_clauses(3, 8, n)),
        satisfiable(ramsey_clauses(8, 3, n)),
        n < ramsey_value(3, 8)->0,
        n < ramsey_value(8, 3)->0,
{
    lemma_ramsey_three_8_sat(n);
    lemma_ramsey_swap(3, 8, n);
}

// ---------------------------------------------------------------------------
// R(3, 9) = 36, the satisfiable side
// ---------------------------------------------------------------------------

/// The neighbours of vertex `i` in a graph on 35 vertices, as a bit set.
pub open spec fn g35_row(i: u64) -> u64 {
    if i == 0u64 { 3019899600u64 } else if i == 1u64 { 6039799200u64 } else if i == 2u64 { 12079598400u64 } else if i == 3u64 { 24159196800u64 } else if i == 4u64 { 13958655233u64 } else if i == 5u64 { 27917310466u64 } else if i == 6u64 { 21474882565u64 } else if i == 7u64 { 8590026763u64 } else if i == 8u64 { 17180053526u64 } else if i == 9u64 { 368685u64 } else if i == 10u64 { 737370u64 } else if i == 11u64 { 1474740u64 } else if i == 12u64 { 2949480u64 } else if i == 13u64 { 5898960u64 } else if i == 14u64 { 11797920u64 } else if i == 15u64 { 23595840u64 } else if i == 16u64 { 47191680u64 } else if i == 17u64 { 94383360u64 } else if i == 18u64 { 188766720u64 } else if i == 19u64 { 377533440u64 } else if i == 20u64 { 755066880u64 } else if i == 21u64 { 1510133760u64 } else if i == 22u64 { 3020267520u64 } else if i == 23u64 { 6040535040u64 } else if i == 24u64 { 12081070080u64 } else if i == 25u64 { 24162140160u64 } else if i == 26u64 { 13964541953u64 } else if i == 27u64 { 27929083906u64 } else if i == 28u64 { 21498429445u64 } else if i == 29u64 { 8637120523u64 } else if i == 30u64 { 17274241046u64 } else if i == 31u64 { 188743725u64 } else if i == 32u64 { 377487450u64 } else if i == 33u64 { 754974900u64 } else { 1509949800u64 }
}

/// Whether `j` is a neighbour of `i` in the graph of [`g35_row`].
pub open spec fn g35_bit(i: u64, j: u64) -> bool {
    (g35_row(i) >> j) & 1u64 == 1u64
}

/// A triangle-free graph on 35 vertices with no independent set of 9: `{i, j}` is an edge.
pub open spec fn g35(i: int, j: int) -> bool {
    0 <= i < 35 && 0 <= j < 35 && g35_bit(i as u64, j as u64)
}

/// `g35` has no triangle.
pub proof fn lemma_g35_triangle_free(a: int, b: int, c: int)
    requires
        0 <= a < b < c < 35,
    ensures
        !(g35(a, b) && g35(a, c) && g35(b, c)),
{
    let (x, y, z) = (a as u64, b as u64, c as u64);
    assert(!(g35_bit(x, y) && g35_bit(x, z) && g35_bit(y, z))) by (bit_vector)
        requires
            x < y && y < z && z < 35u64,
    ;
}

/// `g35` has no independent set of 9.
pub proof fn lemma_g35_no_blue(t: Seq<usize>) -> (r: (int, int))
    requires
        t.len() == 9,
        t[8] < 35,
        t[0] < t[1] && t[1] < t[2] && t[2] < t[3] && t[3] < t[4] && t[4] < t[5] && t[5] < t[6] && t[6] < t[7] && t[7] < t[8],
    ensures
        0 <= r.0 < r.1 < 9,
        g35(t[r.0] as int, t[r.1] as int),
{
    let (t0, t1, t2, t3, t4, t5, t6, t7, t8) = (t[0] as u64, t[1] as u64, t[2] as u64, t[3] as u64, t[4] as u64, t[5] as u64, t[6] as u64, t[7] as u64, t[8] as u64);
    assert(g35_bit(t0, t1) || g35_bit(t0, t2) || g35_bit(t0, t3) || g35_bit(t0, t4) || g35_bit(t0, t5) || g35_bit(t0, t6) || g35_bit(t0, t7) || g35_bit(t0, t8) || g35_bit(t1, t2) || g35_bit(t1, t3) || g35_bit(t1, t4) || g35_bit(t1, t5) || g35_bit(t1, t6) || g35_bit(t1, t7) || g35_bit(t1, t8) || g35_bit(t2, t3) || g35_bit(t2, t4) || g35_bit(t2, t5) || g35_bit(t2, t6) || g35_bit(t2, t7) || g35_bit(t2, t8) || g35_bit(t3, t4) || g35_bit(t3, t5) || g35_bit(t3, t6) || g35_bit(t3, t7) || g35_bit(t3, t8) || g35_bit(t4, t5) || g35_bit(t4, t6) || g35_bit(t4, t7) || g35_bit(t4, t8) || g35_bit(t5, t6) || g35_bit(t5, t7) || g35_bit(t5, t8) || g35_bit(t6, t7) || g35_bit(t6, t8) || g35_bit(t7, t8)) by (bit_vector)
        requires
            t0 < t1 && t1 < t2 && t2 < t3 && t3 < t4 && t4 < t5 && t5 < t6 && t6 < t7 && t7 < t8 && t8 < 35u64,
    ;
    let d = |x: int, y: int| g35_bit(t[x] as u64, t[y] as u64);
    if d(0, 1) { (0, 1) } else if d(0, 2) { (0, 2) } else if d(0, 3) { (0, 3) } else if d(0, 4) { (0, 4) } else if d(0, 5) { (0, 5) } else if d(0, 6) { (0, 6) } else if d(0, 7) { (0, 7) } else if d(0, 8) { (0, 8) } else if d(1, 2) { (1, 2) } else if d(1, 3) { (1, 3) } else if d(1, 4) { (1, 4) } else if d(1, 5) { (1, 5) } else if d(1, 6) { (1, 6) } else if d(1, 7) { (1, 7) } else if d(1, 8) { (1, 8) } else if d(2, 3) { (2, 3) } else if d(2, 4) { (2, 4) } else if d(2, 5) { (2, 5) } else if d(2, 6) { (2, 6) } else if d(2, 7) { (2, 7) } else if d(2, 8) { (2, 8) } else if d(3, 4) { (3, 4) } else if d(3, 5) { (3, 5) } else if d(3, 6) { (3, 6) } else if d(3, 7) { (3, 7) } else if d(3, 8) { (3, 8) } else if d(4, 5) { (4, 5) } else if d(4, 6) { (4, 6) } else if d(4, 7) { (4, 7) } else if d(4, 8) { (4, 8) } else if d(5, 6) { (5, 6) } else if d(5, 7) { (5, 7) } else if d(5, 8) { (5, 8) } else if d(6, 7) { (6, 7) } else if d(6, 8) { (6, 8) } else { (7, 8) }
}

/// `R(3, 9) = 36`, the satisfiable side: for `n <= 35`, colouring `{i < j}` red when it is an
/// edge of [`g35`] leaves no red triangle and no blue `K_9`.
pub proof fn lemma_ramsey_three_9_sat(n: nat)
    requires
        2 <= n <= 35,
    ensures
        satisfiable(ramsey_clauses(3, 9, n)),
{
    let red = |i: int, j: int| g35(i, j);
    let a = graph_colouring(n, red);
    let cls = ramsey_clauses(3, 9, n);
    let cs = combinations_spec(n, 3);
    assert(n * n <= 1225) by (nonlinear_arith)
        requires
            n <= 35,
    ;
    assert forall|c: int| 0 <= c < cls.len() implies clause_holds(a, #[trigger] cls[c]) by {
        if c < cs.len() {
            lemma_combs_from_shape(0, n, 3, c);
            let t = cs[c];
            let (i, j, l) = (t[0] as int, t[1] as int, t[2] as int);
            assert(t[0] < t[1] && t[1] < t[2]);
            lemma_graph_colour(n, red, i, j);
            lemma_graph_colour(n, red, i, l);
            lemma_graph_colour(n, red, j, l);
            lemma_g35_triangle_free(i, j, l);
            let (x, y) = if !g35(i, j) { (0int, 1int) } else if !g35(i, l) { (0, 2) } else { (1, 2) };
            lemma_clique_literal(t, n, x, y);
            let p = choose|p: int| 0 <= p < clique_vars(t, n).len() && #[trigger] clique_vars(t, n)[p] == pair_index(
                t[x] as int, t[y] as int, n as int) as u32;
            assert(cls[c] == neg_lits(clique_vars(t, n)));
            assert(lit_holds(a, cls[c][p]));
        } else {
            let k = c - cs.len();
            let ct = combinations_spec(n, 9);
            lemma_combs_from_shape(0, n, 9, k);
            let t = ct[k];
            assert(t[0] < t[1] && t[1] < t[2] && t[2] < t[3] && t[3] < t[4] && t[4] < t[5] && t[5] < t[6] && t[6] < t[7] && t[7] < t[8]);
            let (x, y) = lemma_g35_no_blue(t);
            lemma_graph_colour(n, red, t[x] as int, t[y] as int);
            lemma_clique_literal(t, n, x, y);
            let p = choose|p: int| 0 <= p < clique_vars(t, n).len() && #[trigger] clique_vars(t, n)[p] == pair_index(
                t[x] as int, t[y] as int, n as int) as u32;
            assert(cls[c] == pos_var_lits(clique_vars(t, n)));
            assert(edge_colour(a, t[x] as int, t[y] as int, n));
            assert(lit_holds(a, cls[c][p]));
        }
    }
    assert(cnf_holds(a, cls));
}

/// 35 vertices admit a colouring with no red triangle and no blue `K_9`, so the tabulated
/// `R(3, 9)` lies above 35.
pub proof fn lemma_ramsey_three_9_above(n: nat)
    requires
        2 <= n <= 35,
    ensures
        satisfiable(ramsey_clauses(3, 9, n)),
        satisfiable(ramsey_clauses(9, 3, n)),
        n < ramsey_value(3, 9)->0,
        n < ramsey_value(9, 3)->0,
{
    lemma_ramsey_three_9_sat(n);
    lemma_ramsey_swap(3, 9, n);
}

/// Below every tabulated Ramsey number there is a good colouring: for each pair `(s, t)` the
/// table knows, and every `n` below its value, `K_n` can be coloured with no red `K_s` and no
/// blue `K_t`. With `n = R(s, t) − 1` this says the table never overstates a Ramsey number.
pub proof fn lemma_ramsey_table_below_is_sat(s: nat, t: nat, n: nat)
    requires
        s >= 2,
        t >= 2,
        2 <= n <= usize::MAX,
        ramsey_value(s, t) is Some,
        n < ramsey_value(s, t)->0,
    ensures
        satisfiable(ramsey_clauses(s, t, n)),
{
    if s == 2 || t == 2 {
        lemma_ramsey_two(s, t, n);
    } else {
        let lo = if s <= t { s } else { t };
        let hi = if s <= t { t } else { s };
        lemma_ramsey_swap(s, t, n);
        assert(ramsey_value(s, t) == ramsey_value(lo, hi));
        if lo == 3 && hi == 3 {
            lemma_ramsey_three_three_sat(n);
        } else if lo == 3 && hi == 4 {
            lemma_ramsey_three_four_sat(n);
        } else if lo == 3 && hi == 5 {
            lemma_ramsey_three_five_sat(n);
        } else if lo == 3 && hi == 6 {
            lemma_ramsey_three_six_sat(n);
        } else if lo == 3 && hi == 7 {
            lemma_ramsey_three_7_sat(n);
        } else if lo == 3 && hi == 8 {
            lemma_ramsey_three_8_sat(n);
        } else if lo == 3 && hi == 9 {
            lemma_ramsey_three_9_sat(n);
        } else if lo == 4 && hi == 4 {
            lemma_ramsey_four_four_sat(n);
        } else {
            assert(lo == 4 && hi == 5);
            lemma_ramsey_four_five_sat(n);
        }
    }
}

// ---------------------------------------------------------------------------
// Swapping the colours, and the verdict
// ---------------------------------------------------------------------------

/// Swapping red and blue turns `Ramsey(s, t; n)` into `Ramsey(t, s; n)`.
proof fn lemma_swap_holds(s: nat, t: nat, n: nat, a: spec_fn(u32) -> bool)
    requires
        cnf_holds(a, ramsey_clauses(s, t, n)),
    ensures
        cnf_holds(|v: u32| !a(v), ramsey_clauses(t, s, n)),
{
    let b = |v: u32| !a(v);
    let cs = combinations_spec(n, s);
    let ct = combinations_spec(n, t);
    let src = ramsey_clauses(s, t, n);
    let dst = ramsey_clauses(t, s, n);
    assert forall|c: int| 0 <= c < dst.len() implies clause_holds(b, #[trigger] dst[c]) by {
        let (from, vs) = if c < ct.len() {
            (cs.len() + c, clique_vars(ct[c], n))
        } else {
            (c - ct.len(), clique_vars(cs[c - ct.len()], n))
        };
        assert(clause_holds(a, src[from]));
        let i = choose|i: int| 0 <= i < src[from].len() && lit_holds(a, #[trigger] src[from][i]);
        if c < ct.len() {
            assert(src[from] == pos_var_lits(vs) && dst[c] == neg_lits(vs));
        } else {
            assert(src[from] == neg_lits(vs) && dst[c] == pos_var_lits(vs));
        }
        assert(lit_holds(b, dst[c][i]));
    }
}

/// The Ramsey formula is symmetric in its two clique sizes.
pub proof fn lemma_ramsey_swap(s: nat, t: nat, n: nat)
    ensures
        satisfiable(ramsey_clauses(s, t, n)) == satisfiable(ramsey_clauses(t, s, n)),
{
    if satisfiable(ramsey_clauses(s, t, n)) {
        let a = choose|a: spec_fn(u32) -> bool| cnf_holds(a, ramsey_clauses(s, t, n));
        lemma_swap_holds(s, t, n, a);
    }
    if satisfiable(ramsey_clauses(t, s, n)) {
        let a = choose|a: spec_fn(u32) -> bool| cnf_holds(a, ramsey_clauses(t, s, n));
        lemma_swap_holds(t, s, n, a);
    }
}

/// The verdict of [`crate::families::ramsey`] is right for every pair with a side of 2 and
/// for `{3, 3}`, `{3, 4}`, `{3, 5}`, `{4, 4}` in either order: `Ramsey(s, t; n)` is
/// unsatisfiable exactly when `n >= R(s, t)`.
pub proof fn lemma_ramsey_verdict(s: nat, t: nat, n: nat)
    requires
        s >= 2,
        t >= 2,
        n >= 2,
        n <= usize::MAX,
        s == 2 || t == 2 || (s <= 5 && t <= 5 && s + t <= 8),
    ensures
        ramsey_value(s, t) is Some,
        satisfiable(ramsey_clauses(s, t, n)) == (n < ramsey_value(s, t)->0),
{
    if s == 2 || t == 2 {
        lemma_ramsey_two(s, t, n);
    } else {
        let lo = if s <= t { s } else { t };
        let hi = if s <= t { t } else { s };
        lemma_ramsey_swap(s, t, n);
        let r = ramsey_value(lo, hi)->0;
        assert(ramsey_value(s, t) == ramsey_value(lo, hi));
        if lo == 3 && hi == 3 {
            if n >= 6 { lemma_ramsey_three_three_unsat(n); } else { lemma_ramsey_three_three_sat(n); }
        } else if lo == 3 && hi == 4 {
            if n >= 9 { lemma_ramsey_three_four_unsat(n); } else { lemma_ramsey_three_four_sat(n); }
        } else if lo == 3 && hi == 5 {
            if n >= 14 { lemma_ramsey_three_five_unsat(n); } else { lemma_ramsey_three_five_sat(n); }
        } else {
            assert(lo == 4 && hi == 4);
            if n >= 18 { lemma_ramsey_four_four_unsat(n); } else { lemma_ramsey_four_four_sat(n); }
        }
    }
}

} // verus!
