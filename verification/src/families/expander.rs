//! Random 3-regular expanders and the Tseitin families built on them.

use vstd::prelude::*;
use crate::cnf::{DimacsCnf, XorEquation, cnf_holds, satisfiable};
use crate::families::{ExpectedVerdict, lemma_new_push};
use crate::families::random::{SplitMix64, sm_advance, sm_mix, sm_gamma};
use crate::families::parity::{incident, inc_step, incidence, tseitin_system, tseitin_eqs, tseitin_cnf, lists_view, xs,
    parity_of, lemma_xs_flatten, lemma_xs_concat, lemma_parity_ext, lemma_parity_add, lemma_parity_single,
    lemma_parity_swap, lemma_parity_none, lemma_tseitin_charge};

verus! {

// ---------------------------------------------------------------------------
// The configuration model
// ---------------------------------------------------------------------------

/// Three stubs per vertex: `0, 0, 0, 1, 1, 1, …`.
pub open spec fn stubs(n: nat) -> Seq<usize> {
    Seq::new(3 * n, |i: int| (i / 3) as usize)
}

/// Fisher–Yates over positions `i, i−1, …, 1`: position `i` swaps with a drawn `j ≤ i`.
pub open spec fn shuffle(st: Seq<usize>, s: u64, i: nat) -> (Seq<usize>, u64)
    decreases i,
{
    if i == 0 {
        (st, s)
    } else {
        let s1 = sm_advance(s);
        let j = ((sm_mix(s1) as usize) as nat % (i + 1)) as int;
        shuffle(st.update(i as int, st[j]).update(j, st[i as int]), s1, (i - 1) as nat)
    }
}

/// The first `c` stub pairs as edges `(min, max)`, or `None` at the first self-loop or
/// repeated edge.
pub open spec fn pair_up(st: Seq<usize>, c: nat) -> Option<Seq<(usize, usize)>>
    decreases c,
{
    if c == 0 {
        Some(Seq::empty())
    } else {
        match pair_up(st, (c - 1) as nat) {
            None => None,
            Some(es) => {
                let x = st[2 * c - 2];
                let y = st[2 * c - 1];
                let a = if x <= y { x } else { y };
                let b = if x <= y { y } else { x };
                if a == b || es.contains((a, b)) { None } else { Some(es.push((a, b))) }
            },
        }
    }
}

/// One attempt: shuffle the stubs and pair them up.
pub open spec fn attempt(n: nat, s: u64) -> (Option<Seq<(usize, usize)>>, u64) {
    let len = 3 * n;
    let (st, s1) = shuffle(stubs(n), s, if len == 0 { 0 } else { (len - 1) as nat });
    (pair_up(st, len / 2), s1)
}

/// Up to `tries` attempts, stopping at the first simple graph.
pub open spec fn attempts(n: nat, s: u64, tries: nat) -> (Option<Seq<(usize, usize)>>, u64)
    decreases tries,
{
    if tries == 0 {
        (None, s)
    } else {
        let (r, s1) = attempts(n, s, (tries - 1) as nat);
        if r is Some { (r, s1) } else { attempt(n, s1) }
    }
}

/// The random 3-regular graph on `n` vertices drawn from `seed`, if one of 4000 attempts
/// yields a simple graph.
pub open spec fn regular_graph(n: nat, seed: u64) -> Option<Seq<(usize, usize)>> {
    attempts(n, seed ^ sm_gamma(), 4000).0
}

fn contains_edge(es: &Vec<(usize, usize)>, e: (usize, usize)) -> (r: bool)
    ensures
        r == es@.contains(e),
{
    let mut i: usize = 0;
    while i < es.len()
        invariant
            i <= es@.len(),
            forall|j: int| 0 <= j < i ==> es@[j] != e,
        decreases es@.len() - i,
    {
        if es[i].0 == e.0 && es[i].1 == e.1 {
            return true;
        }
        i += 1;
    }
    false
}

fn shuffle_stubs(rng: &mut SplitMix64, n: usize) -> (st: Vec<usize>)
    requires
        3 * n <= usize::MAX,
    ensures
        (st@, final(rng).state) == shuffle(stubs(n as nat), old(rng).state,
            if 3 * n == 0 { 0 } else { (3 * n - 1) as nat }),
{
    let mut st: Vec<usize> = Vec::new();
    let len = 3 * n;
    let mut k: usize = 0;
    while k < len
        invariant
            len == 3 * n,
            k <= len,
            st@ == stubs(n as nat).take(k as int),
        decreases len - k,
    {
        proof {
            assert(stubs(n as nat).take(k + 1) =~= stubs(n as nat).take(k as int).push((k / 3) as usize));
        }
        st.push(k / 3);
        k += 1;
    }
    proof {
        assert(stubs(n as nat).take(len as int) =~= stubs(n as nat));
    }
    if len == 0 {
        return st;
    }
    let mut i: usize = len - 1;
    while i > 0
        invariant
            st@.len() == len,
            i < len,
            shuffle(stubs(n as nat), old(rng).state, (len - 1) as nat) == shuffle(st@, rng.state, i as nat),
        decreases i,
    {
        let out = rng.next();
        let j = (out as usize) % (i + 1);
        let a = st[i];
        let b = st[j];
        st.set(i, b);
        st.set(j, a);
        i -= 1;
    }
    st
}

fn pair_stubs(st: &Vec<usize>) -> (r: Option<Vec<(usize, usize)>>)
    ensures
        r matches Some(es) ==> pair_up(st@, st@.len() / 2) == Some(es@),
        r is None ==> pair_up(st@, st@.len() / 2) is None,
{
    let len = st.len();
    let half = len / 2;
    let mut edges: Vec<(usize, usize)> = Vec::new();
    let mut c: usize = 0;
    while c < half
        invariant
            half == st@.len() / 2,
            len == st@.len(),
            c <= half,
            pair_up(st@, c as nat) == Some(edges@),
        decreases half - c,
    {
        assert(2 * c + 1 < len);
        let x = st[2 * c];
        let y = st[2 * c + 1];
        let a = if x <= y { x } else { y };
        let b = if x <= y { y } else { x };
        if a == b || contains_edge(&edges, (a, b)) {
            proof {
                assert(pair_up(st@, (c + 1) as nat) is None);
                lemma_pair_up_stays_none(st@, (c + 1) as nat, half as nat);
            }
            return None;
        }
        edges.push((a, b));
        c += 1;
    }
    Some(edges)
}

proof fn lemma_pair_up_stays_none(st: Seq<usize>, c: nat, d: nat)
    requires
        c <= d,
        pair_up(st, c) is None,
    ensures
        pair_up(st, d) is None,
    decreases d - c,
{
    if c < d {
        lemma_pair_up_stays_none(st, c, (d - 1) as nat);
    }
}

/// A random 3-regular graph on `n` (even) vertices via the configuration model with
/// self-loop and multi-edge rejection, up to 4000 attempts.
pub fn random_3regular(n: usize, seed: u64) -> (r: Option<Vec<(usize, usize)>>)
    requires
        n % 2 == 0,
        3 * n <= usize::MAX,
    ensures
        r matches Some(es) ==> regular_graph(n as nat, seed) == Some(es@),
        r is None ==> regular_graph(n as nat, seed) is None,
{
    let mut rng = SplitMix64 { state: seed ^ 0x9E3779B97F4A7C15u64 };
    let ghost s0 = rng.state;
    let mut t: usize = 0;
    while t < 4000
        invariant
            t <= 4000,
            n % 2 == 0,
            3 * n <= usize::MAX,
            s0 == seed ^ sm_gamma(),
            attempts(n as nat, s0, t as nat) == (None::<Seq<(usize, usize)>>, rng.state),
        decreases 4000 - t,
    {
        let ghost before = rng.state;
        let st = shuffle_stubs(&mut rng, n);
        let r = pair_stubs(&st);
        proof {
            let i: nat = if 3 * n == 0 { 0 } else { (3 * n - 1) as nat };
            lemma_shuffle_len(stubs(n as nat), before, i);
            assert(st@.len() == 3 * n);
            assert(attempt(n as nat, before) == (pair_up(st@, (3 * n / 2) as nat), rng.state));
            lemma_attempts_unfold(n as nat, s0, (t + 1) as nat);
        }
        match r {
            Some(es) => {
                proof {
                    lemma_attempts_found(n as nat, s0, (t + 1) as nat, 4000);
                }
                return Some(es);
            },
            None => {},
        }
        t += 1;
    }
    None
}

proof fn lemma_attempts_unfold(n: nat, s: u64, t: nat)
    requires
        t > 0,
        attempts(n, s, (t - 1) as nat).0 is None,
    ensures
        attempts(n, s, t) == attempt(n, attempts(n, s, (t - 1) as nat).1),
{
}

proof fn lemma_shuffle_len(st: Seq<usize>, s: u64, i: nat)
    requires
        i < st.len() || i == 0,
    ensures
        shuffle(st, s, i).0.len() == st.len(),
    decreases i,
{
    if i > 0 {
        let s1 = sm_advance(s);
        let j = ((sm_mix(s1) as usize) as nat % (i + 1)) as int;
        lemma_shuffle_len(st.update(i as int, st[j]).update(j, st[i as int]), s1, (i - 1) as nat);
    }
}

proof fn lemma_attempts_found(n: nat, s: u64, t: nat, u: nat)
    requires
        t <= u,
        attempts(n, s, t).0 is Some,
    ensures
        attempts(n, s, u) == attempts(n, s, t),
    decreases u - t,
{
    if t < u {
        lemma_attempts_found(n, s, t, (u - 1) as nat);
    }
}

// ---------------------------------------------------------------------------
// The graph is simple and 3-regular
// ---------------------------------------------------------------------------

/// The number of occurrences of `v` in `s`.
pub open spec fn occ(s: Seq<usize>, v: usize) -> nat
    decreases s.len(),
{
    if s.len() == 0 { 0 } else { occ(s.drop_last(), v) + (if s.last() == v { 1nat } else { 0nat }) }
}

proof fn lemma_occ_push(s: Seq<usize>, x: usize, v: usize)
    ensures
        occ(s.push(x), v) == occ(s, v) + (if x == v { 1nat } else { 0nat }),
{
    assert(s.push(x).drop_last() =~= s);
}

proof fn lemma_occ_update(s: Seq<usize>, i: int, x: usize, v: usize)
    requires
        0 <= i < s.len(),
    ensures
        occ(s.update(i, x), v) + (if s[i] == v { 1nat } else { 0nat }) == occ(s, v) + (if x == v { 1nat } else {
            0nat }),
    decreases s.len(),
{
    if i == s.len() - 1 {
        assert(s.update(i, x).drop_last() =~= s.drop_last());
    } else {
        lemma_occ_update(s.drop_last(), i, x, v);
        assert(s.update(i, x).drop_last() =~= s.drop_last().update(i, x));
    }
}

proof fn lemma_occ_stubs(k: nat, v: usize)
    requires
        k / 3 <= usize::MAX,
    ensures
        occ(Seq::new(k, |i: int| (i / 3) as usize), v) == (if v < k / 3 { 3 } else if v == k / 3 { k % 3 } else {
            0 }),
    decreases k,
{
    let f = |i: int| (i / 3) as usize;
    if k > 0 {
        lemma_occ_stubs((k - 1) as nat, v);
        lemma_new_push((k - 1) as nat, f);
        assert(Seq::new(k, |i: int| (i / 3) as usize) == Seq::new(k, f));
        assert(Seq::new((k - 1) as nat, |i: int| (i / 3) as usize) == Seq::new((k - 1) as nat, f));
        lemma_occ_push(Seq::new((k - 1) as nat, f), f((k - 1) as int), v);
        let q = (k - 1) / 3;
        assert((k - 1) / 3 == q);
        assert(k / 3 == (if (k - 1) % 3 == 2 { q + 1 } else { q })) by (nonlinear_arith)
            requires q == (k - 1) / 3, k >= 1;
        assert(k % 3 == (if (k - 1) % 3 == 2 { 0 } else { (k - 1) % 3 + 1 })) by (nonlinear_arith)
            requires k >= 1;
        assert(f((k - 1) as int) == q as usize);
        assert(q <= usize::MAX);
    }
}

/// The stub list holds each vertex `v < n` three times and nothing else.
proof fn lemma_stubs_occ(n: nat, v: usize)
    requires
        n <= usize::MAX,
    ensures
        occ(stubs(n), v) == (if v < n { 3nat } else { 0nat }),
{
    assert((3 * n) / 3 == n && (3 * n) % 3 == 0) by (nonlinear_arith);
    lemma_occ_stubs(3 * n, v);
}

proof fn lemma_occ_zero(s: Seq<usize>, v: usize, k: int)
    requires
        0 <= k < s.len(),
        s[k] == v,
    ensures
        occ(s, v) > 0,
    decreases s.len(),
{
    if k < s.len() - 1 {
        lemma_occ_zero(s.drop_last(), v, k);
    }
}

/// Shuffling keeps the length and every vertex's number of stubs.
proof fn lemma_shuffle_occ(st: Seq<usize>, s: u64, i: nat, v: usize)
    requires
        i < st.len() || i == 0,
    ensures
        occ(shuffle(st, s, i).0, v) == occ(st, v),
    decreases i,
{
    if i > 0 {
        let s1 = sm_advance(s);
        let j = ((sm_mix(s1) as usize) as nat % (i + 1)) as int;
        let st1 = st.update(i as int, st[j]);
        let st2 = st1.update(j, st[i as int]);
        lemma_occ_update(st, i as int, st[j], v);
        lemma_occ_update(st1, j, st[i as int], v);
        lemma_shuffle_occ(st2, s1, (i - 1) as nat, v);
    }
}

proof fn lemma_incident_push(es: Seq<(usize, usize)>, p: (usize, usize), v: int)
    ensures
        incident(es.push(p), v).len() == incident(es, v).len() + (if p.0 == v { 1int } else { 0int }) + (if p.1
            == v { 1int } else { 0int }),
{
    let f = |e: int| inc_step(es.push(p), v, e);
    crate::families::lemma_flatten_new_push(es.len(), f);
    assert(Seq::new(es.len(), f) =~= Seq::new(es.len(), |e: int| inc_step(es, v, e)));
    assert(Seq::new(es.len() + 1, f) =~= Seq::new(es.push(p).len(), |e: int| inc_step(es.push(p), v, e)));
}

/// What `pair_up` returns: `c` edges `(a, b)` with `a < b`, none repeated, each vertex as
/// often an endpoint as it has stubs among the first `2c`.
proof fn lemma_pair_up(st: Seq<usize>, c: nat)
    requires
        2 * c <= st.len(),
        pair_up(st, c) is Some,
    ensures
        pair_up(st, c)->0.len() == c,
        pair_up(st, c)->0.no_duplicates(),
        forall|e: int| 0 <= e < c ==> (#[trigger] pair_up(st, c)->0[e]).0 < pair_up(st, c)->0[e].1,
        forall|e: int| 0 <= e < c ==> exists|k: int| 0 <= k < 2 * c && st[k] == (#[trigger] pair_up(st, c)->0[e]).1,
        forall|v: usize| #[trigger] incident(pair_up(st, c)->0, v as int).len() == occ(st.take((2 * c) as int), v),
    decreases c,
{
    if c == 0 {
        assert forall|v: usize| #[trigger] incident(pair_up(st, c)->0, v as int).len() == occ(st.take((2 * c) as int), v) by {
            assert(st.take(0) =~= Seq::<usize>::empty());
            assert(incident(Seq::<(usize, usize)>::empty(), v as int) =~= Seq::<usize>::empty());
        }
    } else {
        lemma_pair_up(st, (c - 1) as nat);
        let es = pair_up(st, (c - 1) as nat)->0;
        let x = st[2 * c - 2];
        let y = st[2 * c - 1];
        let a = if x <= y { x } else { y };
        let b = if x <= y { y } else { x };
        let es2 = es.push((a, b));
        assert(pair_up(st, c)->0 == es2);
        assert forall|i: int, j: int| 0 <= i < j < es2.len() implies es2[i] != es2[j] by {
            if j == es2.len() - 1 {
                assert(es.contains(es[i]));
            }
        }
        assert forall|e: int| 0 <= e < c implies exists|k: int| 0 <= k < 2 * c && st[k] == (#[trigger] es2[e]).1 by {
            if e == c - 1 {
                if x <= y {
                    assert(st[2 * c - 1] == es2[e].1);
                } else {
                    assert(st[2 * c - 2] == es2[e].1);
                }
            } else {
                assert(es2[e] == es[e]);
            }
        }
        assert forall|v: usize| #[trigger] incident(es2, v as int).len() == occ(st.take((2 * c) as int), v) by {
            lemma_incident_push(es, (a, b), v as int);
            assert(incident(es, v as int).len() == occ(st.take((2 * (c - 1)) as int), v));
            assert(st.take((2 * c) as int) =~= st.take((2 * c - 2) as int).push(x).push(y));
            lemma_occ_push(st.take((2 * c - 2) as int), x, v);
            lemma_occ_push(st.take((2 * c - 2) as int).push(x), y, v);
        }
    }
}

/// Every element of a shuffle of the stubs is a vertex below `n`.
proof fn lemma_shuffle_bound(n: nat, st: Seq<usize>, s: u64, i: nat, k: int)
    requires
        st.len() == 3 * n,
        i < st.len() || i == 0,
        forall|v: usize| #[trigger] occ(st, v) == (if v < n { 3nat } else { 0nat }),
        0 <= k < st.len(),
    ensures
        shuffle(st, s, i).0[k] < n,
{
    let r = shuffle(st, s, i).0;
    lemma_shuffle_len(st, s, i);
    lemma_shuffle_occ(st, s, i, r[k]);
    lemma_occ_zero(r, r[k], k);
}

/// The random graph, when found, is simple and 3-regular: every edge `(a, b)` has
/// `a < b < n`, no edge repeats, and every vertex below `n` lies on exactly three edges.
pub proof fn lemma_regular_graph(n: nat, seed: u64)
    requires
        n % 2 == 0,
        n <= usize::MAX,
        regular_graph(n, seed) is Some,
    ensures
        regular_graph(n, seed)->0.len() == 3 * n / 2,
        regular_graph(n, seed)->0.no_duplicates(),
        forall|e: int| 0 <= e < regular_graph(n, seed)->0.len() ==> (#[trigger] regular_graph(n, seed)->0[e]).0
            < regular_graph(n, seed)->0[e].1 < n,
        forall|v: usize| v < n ==> (#[trigger] incident(regular_graph(n, seed)->0, v as int)).len() == 3,
{
    let s0 = seed ^ sm_gamma();
    let (st, s1) = lemma_attempts_some(n, s0, 4000);
    let es = regular_graph(n, seed)->0;
    let c = 3 * n / 2;
    assert(2 * c == 3 * n) by (nonlinear_arith)
        requires n % 2 == 0, c == 3 * n / 2;
    lemma_pair_up(st, c);
    assert(st.take((2 * c) as int) =~= st);
    assert forall|e: int| 0 <= e < es.len() implies (#[trigger] es[e]).0 < es[e].1 < n by {
        let k = choose|k: int| 0 <= k < 2 * c && st[k] == es[e].1;
        lemma_stubs_shuffle_bound(n, s1, st, k);
    }
    assert forall|v: usize| v < n implies (#[trigger] incident(es, v as int)).len() == 3 by {
        lemma_stubs_shuffle_occ(n, st, v);
    }
}

/// The stub list of any successful attempt: a shuffle of the stubs whose pairing is the graph.
proof fn lemma_attempts_some(n: nat, s: u64, t: nat) -> (r: (Seq<usize>, u64))
    requires
        attempts(n, s, t).0 is Some,
    ensures
        exists|s2: u64, i: nat| r.0 == shuffle(stubs(n), s2, i).0 && i == (if 3 * n == 0 { 0 } else { (3 * n
            - 1) as nat }),
        r.0.len() == 3 * n,
        attempts(n, s, t).0 == pair_up(r.0, 3 * n / 2),
    decreases t,
{
    let (prev, s1) = attempts(n, s, (t - 1) as nat);
    if prev is Some {
        lemma_attempts_some(n, s, (t - 1) as nat)
    } else {
        let i: nat = if 3 * n == 0 { 0 } else { (3 * n - 1) as nat };
        let (st, s2) = shuffle(stubs(n), s1, i);
        lemma_shuffle_len(stubs(n), s1, i);
        (st, s2)
    }
}

proof fn lemma_stubs_shuffle_occ(n: nat, st: Seq<usize>, v: usize)
    requires
        n <= usize::MAX,
        exists|s2: u64, i: nat| st == shuffle(stubs(n), s2, i).0 && i == (if 3 * n == 0 { 0 } else { (3 * n
            - 1) as nat }),
    ensures
        occ(st, v) == (if v < n { 3nat } else { 0nat }),
{
    let (s2, i) = choose|s2: u64, i: nat| st == shuffle(stubs(n), s2, i).0 && i == (if 3 * n == 0 { 0 } else { (3
        * n - 1) as nat });
    lemma_shuffle_occ(stubs(n), s2, i, v);
    lemma_stubs_occ(n, v);
}

proof fn lemma_stubs_shuffle_bound(n: nat, s1: u64, st: Seq<usize>, k: int)
    requires
        n <= usize::MAX,
        exists|s2: u64, i: nat| st == shuffle(stubs(n), s2, i).0 && i == (if 3 * n == 0 { 0 } else { (3 * n
            - 1) as nat }),
        st.len() == 3 * n,
        0 <= k < st.len(),
    ensures
        st[k] < n,
{
    let (s2, i) = choose|s2: u64, i: nat| st == shuffle(stubs(n), s2, i).0 && i == (if 3 * n == 0 { 0 } else { (3
        * n - 1) as nat });
    assert forall|v: usize| #[trigger] occ(stubs(n), v) == (if v < n { 3nat } else { 0nat }) by {
        lemma_stubs_occ(n, v);
    }
    lemma_shuffle_bound(n, stubs(n), s2, i, k);
}

// ---------------------------------------------------------------------------
// Tseitin on the expander
// ---------------------------------------------------------------------------

/// The incidence lists of the graph `es` over the vertices `0..n`.
pub open spec fn graph_lists(es: Seq<(usize, usize)>, n: nat) -> Seq<Seq<usize>> {
    Seq::new(n, |v: int| incident(es, v))
}

/// The edges of the random 3-regular graph for `(n, seed)`, which the caller's `requires`
/// guarantees exist.
pub(crate) fn expander_edges(n: usize, seed: u64) -> (es: Vec<(usize, usize)>)
    requires
        n % 2 == 0,
        3 * n <= usize::MAX,
        regular_graph(n as nat, seed) is Some,
    ensures
        regular_graph(n as nat, seed) == Some(es@),
        es@.len() == 3 * n / 2,
        forall|e: int| 0 <= e < es@.len() ==> (#[trigger] es@[e]).0 < es@[e].1 < n,
        forall|v: usize| v < n ==> (#[trigger] incident(es@, v as int)).len() == 3,
{
    proof {
        lemma_regular_graph(n as nat, seed);
    }
    match random_3regular(n, seed) {
        Some(es) => es,
        None => Vec::new(),
    }
}

/// The Tseitin formula on a random 3-regular expander with odd total charge (vertex `0`
/// charged): unsatisfiable. One Boolean per edge; returns the XOR system and its CNF. The
/// graph must come out of the 4000 attempts (otherwise no instance is produced).
pub fn tseitin_expander(n: usize, seed: u64) -> (res: (Vec<XorEquation>, DimacsCnf, ExpectedVerdict))
    requires
        n % 2 == 0 && n >= 4,
        3 * n <= usize::MAX,
        regular_graph(n as nat, seed) is Some,
    ensures
        res.1.num_vars == 3 * n / 2,
        tseitin_eqs(res.0@, graph_lists(regular_graph(n as nat, seed)->0, n as nat)),
        res.1.cls() == tseitin_cnf(graph_lists(regular_graph(n as nat, seed)->0, n as nat)),
        res.2 == ExpectedVerdict::Unsat,
{
    let edges = expander_edges(n, seed);
    let m = edges.len();
    let inc = incidence(n, &edges);
    proof {
        assert forall|v: int| 0 <= v < inc@.len() implies (#[trigger] inc@[v])@.len() < 32 by {
            assert(incident(edges@, (v as usize) as int).len() == 3);
        }
        assert(lists_view(inc@) =~= graph_lists(edges@, n as nat));
    }
    let (eqs, clauses) = tseitin_system(&inc);
    (eqs, DimacsCnf { num_vars: m, clauses }, ExpectedVerdict::Unsat)
}


/// Each edge is counted at both of its ends: in a graph whose edges have both endpoints among
/// the vertices, the XOR over the vertices of the XOR of their incident edges is even.
pub proof fn lemma_incidence_parity(es: Seq<(usize, usize)>, n: nat, a: spec_fn(u32) -> bool)
    requires
        forall|e: int| 0 <= e < es.len() ==> (#[trigger] es[e]).0 < n && es[e].1 < n,
    ensures
        !parity_of(|v: int| xs(a, incident(es, v)), n),
{
    let m = es.len();
    let f = |v: int, e: int| xs(a, inc_step(es, v, e));
    let rows = |v: int| parity_of(|e: int| f(v, e), m);
    assert forall|v: int| 0 <= v < n implies #[trigger] xs(a, incident(es, v)) == rows(v) by {
        let g = |e: int| inc_step(es, v, e);
        lemma_xs_flatten(a, g, m);
        lemma_parity_ext(|e: int| xs(a, g(e)), |e: int| f(v, e), m);
    }
    lemma_parity_ext(|v: int| xs(a, incident(es, v)), rows, n);
    lemma_parity_swap(f, n, m);
    let cols = |e: int| parity_of(|v: int| f(v, e), n);
    assert forall|e: int| 0 <= e < m implies !#[trigger] cols(e) by {
        let c0 = es[e].0 as int;
        let c1 = es[e].1 as int;
        let b = a((e as usize) as u32);
        let p0 = |v: int| v == c0 && b;
        let p1 = |v: int| v == c1 && b;
        let sum = |i: int| p0(i) != p1(i);
        assert forall|v: int| 0 <= v < n implies #[trigger] f(v, e) == sum(v) by {
            let s0: Seq<usize> = if es[e].0 == v { seq![e as usize] } else { Seq::empty() };
            let s1: Seq<usize> = if es[e].1 == v { seq![e as usize] } else { Seq::empty() };
            assert(inc_step(es, v, e) == s0 + s1);
            lemma_xs_concat(a, s0, s1);
            assert(seq![e as usize].drop_last() =~= Seq::<usize>::empty());
        }
        lemma_parity_ext(|v: int| f(v, e), sum, n);
        lemma_parity_add(p0, p1, n);
        lemma_parity_single(p0, c0, b, n);
        lemma_parity_single(p1, c1, b, n);
    }
    lemma_parity_none(cols, m);
}

/// The verdict of [`tseitin_expander`] is right: the charges are odd (vertex `0` alone) while
/// every edge is counted at both ends, so the Tseitin clauses are unsatisfiable.
pub proof fn lemma_tseitin_expander_unsat(n: nat, seed: u64)
    requires
        n % 2 == 0,
        n >= 4,
        n <= usize::MAX,
        regular_graph(n, seed) is Some,
    ensures
        !satisfiable(tseitin_cnf(graph_lists(regular_graph(n, seed)->0, n))),
{
    lemma_regular_graph(n, seed);
    let es = regular_graph(n, seed)->0;
    let lists = graph_lists(es, n);
    if satisfiable(tseitin_cnf(lists)) {
        let a = choose|a: spec_fn(u32) -> bool| cnf_holds(a, tseitin_cnf(lists));
        assert forall|v: int| 0 <= v < lists.len() implies (#[trigger] lists[v]).len() < 32 by {
            assert((v as usize) as int == v);
            assert(incident(es, (v as usize) as int).len() == 3);
        }
        lemma_tseitin_charge(lists, a);
        lemma_incidence_parity(es, n, a);
        assert forall|v: int| 0 <= v < n implies #[trigger] xs(a, incident(es, v)) == (v == 0 && true) by {
            assert(lists[v] == incident(es, v));
        }
        let charge = |v: int| v == 0 && true;
        lemma_parity_ext(|v: int| xs(a, incident(es, v)), charge, n);
        lemma_parity_single(charge, 0, true, n);
    }
}

} // verus!
