//! Reproducible random families driven by a seeded SplitMix64 stream.

use vstd::prelude::*;
use vstd::wrapping::u64_specs;
use crate::cnf::{Lit, DimacsCnf, clauses_view};
use crate::families::lemma_cv_push;

verus! {

// ---------------------------------------------------------------------------
// The SplitMix64 stream
// ---------------------------------------------------------------------------

/// The SplitMix64 increment.
pub open spec fn sm_gamma() -> u64 {
    0x9E3779B97F4A7C15u64
}

/// The state after one step.
pub open spec fn sm_advance(s: u64) -> u64 {
    u64_specs::wrapping_add(s, sm_gamma())
}

/// The output mixed from the advanced state `z`.
pub open spec fn sm_mix(z: u64) -> u64 {
    let z1 = u64_specs::wrapping_mul(z ^ (z >> 30u64), 0xBF58476D1CE4E5B9u64);
    let z2 = u64_specs::wrapping_mul(z1 ^ (z1 >> 27u64), 0x94D049BB133111EBu64);
    z2 ^ (z2 >> 31u64)
}

/// A SplitMix64 generator.
pub struct SplitMix64 {
    pub state: u64,
}

impl SplitMix64 {
    /// The next output: advance the state by the increment, then mix it.
    pub fn next(&mut self) -> (r: u64)
        ensures
            final(self).state == sm_advance(old(self).state),
            r == sm_mix(final(self).state),
    {
        self.state = self.state.wrapping_add(0x9E3779B97F4A7C15u64);
        let mut z = self.state;
        z = (z ^ (z >> 30u64)).wrapping_mul(0xBF58476D1CE4E5B9u64);
        z = (z ^ (z >> 27u64)).wrapping_mul(0x94D049BB133111EBu64);
        z ^ (z >> 31u64)
    }
}

// ---------------------------------------------------------------------------
// Drawing distinct variables
// ---------------------------------------------------------------------------

/// How many draws a clause may take before its variable list is left as it is. SplitMix64
/// outputs every 64-bit value once per period, so every residue turns up within this many
/// draws.
pub open spec fn draw_fuel() -> nat {
    0x1_0000_0000_0000_0000
}

/// The variable an output draws among `vars`.
pub open spec fn draw_var(out: u64, vars: nat) -> u32 {
    ((out as usize) as nat % vars) as u32
}

/// Draw until `vs` holds `k` distinct variables below `vars`, skipping repeats; returns the
/// list and the final state.
pub open spec fn draw_distinct(s: u64, k: nat, vars: nat, vs: Seq<u32>, fuel: nat) -> (Seq<u32>, u64)
    decreases fuel,
{
    if vs.len() >= k || fuel == 0 {
        (vs, s)
    } else {
        let s1 = sm_advance(s);
        let v = draw_var(sm_mix(s1), vars);
        if vs.contains(v) {
            draw_distinct(s1, k, vars, vs, (fuel - 1) as nat)
        } else {
            draw_distinct(s1, k, vars, vs.push(v), (fuel - 1) as nat)
        }
    }
}

/// The literals of `vs[..i]`, each sign drawn in turn (positive when the output is even).
pub open spec fn draw_signs(s: u64, vs: Seq<u32>, i: nat) -> (Seq<Lit>, u64)
    decreases i,
{
    if i == 0 {
        (Seq::empty(), s)
    } else {
        let (prev, s1) = draw_signs(s, vs, (i - 1) as nat);
        let s2 = sm_advance(s1);
        (prev.push(Lit { var: vs[i - 1], positive: sm_mix(s2) & 1u64 == 0u64 }), s2)
    }
}

/// The first `m` clauses of a random `k`-SAT stream from state `s`, and the state after them.
pub open spec fn ksat_stream(s: u64, k: nat, vars: nat, m: nat) -> (Seq<Seq<Lit>>, u64)
    decreases m,
{
    if m == 0 {
        (Seq::empty(), s)
    } else {
        let (prev, s1) = ksat_stream(s, k, vars, (m - 1) as nat);
        let (vs, s2) = draw_distinct(s1, k, vars, Seq::empty(), draw_fuel());
        let (c, s3) = draw_signs(s2, vs, vs.len());
        (prev.push(c), s3)
    }
}

/// A clause of at most `k` literals over distinct variables, each below `vars`.
pub open spec fn sound_clause(c: Seq<Lit>, k: nat, vars: nat) -> bool {
    &&& c.len() <= k
    &&& forall|j: int| 0 <= j < c.len() ==> (#[trigger] c[j]).var < vars
    &&& forall|a: int, b: int| 0 <= a < b < c.len() ==> (#[trigger] c[a]).var != (#[trigger] c[b]).var
}

proof fn lemma_draw_distinct(s: u64, k: nat, vars: nat, vs: Seq<u32>, fuel: nat)
    requires
        0 < vars <= 0x1_0000_0000,
        vs.len() <= k,
        vs.no_duplicates(),
        forall|j: int| 0 <= j < vs.len() ==> #[trigger] vs[j] < vars,
    ensures
        draw_distinct(s, k, vars, vs, fuel).0.len() <= k,
        draw_distinct(s, k, vars, vs, fuel).0.no_duplicates(),
        forall|j: int| 0 <= j < draw_distinct(s, k, vars, vs, fuel).0.len() ==> #[trigger] draw_distinct(
            s,
            k,
            vars,
            vs,
            fuel,
        ).0[j] < vars,
    decreases fuel,
{
    if !(vs.len() >= k || fuel == 0) {
        let s1 = sm_advance(s);
        let x = (sm_mix(s1) as usize) as nat % vars;
        assert(x < vars);
        let v = draw_var(sm_mix(s1), vars);
        assert(v == x);
        if vs.contains(v) {
            lemma_draw_distinct(s1, k, vars, vs, (fuel - 1) as nat);
        } else {
            let w = vs.push(v);
            assert forall|a: int, b: int| 0 <= a < b < w.len() implies w[a] != w[b] by {
                if b == vs.len() {
                    assert(vs[a] == w[a]);
                    if w[a] == v {
                        assert(vs.contains(v));
                    }
                }
            }
            lemma_draw_distinct(s1, k, vars, w, (fuel - 1) as nat);
        }
    }
}

proof fn lemma_draw_signs(s: u64, vs: Seq<u32>, i: nat)
    requires
        i <= vs.len(),
    ensures
        draw_signs(s, vs, i).0.len() == i,
        forall|j: int| 0 <= j < i ==> (#[trigger] draw_signs(s, vs, i).0[j]).var == vs[j],
    decreases i,
{
    if i > 0 {
        lemma_draw_signs(s, vs, (i - 1) as nat);
    }
}

/// Every clause of a random `k`-SAT stream holds at most `k` literals over distinct variables
/// below `vars`.
/// The state after `n` steps of the stream from `s`.
pub open spec fn sm_nth(s: u64, n: nat) -> u64
    decreases n,
{
    if n == 0 {
        s
    } else {
        sm_advance(sm_nth(s, (n - 1) as nat))
    }
}

/// The signs of a clause come from the stream: drawing signs for `vs[..i]` from state `s`
/// takes `i` outputs, and the `j`-th literal, over `vs[j]`, is positive exactly when the
/// `(j + 1)`-th output is even.
pub proof fn lemma_signs_follow_stream(s: u64, vs: Seq<u32>, i: nat)
    requires
        i <= vs.len(),
    ensures
        draw_signs(s, vs, i).0.len() == i,
        draw_signs(s, vs, i).1 == sm_nth(s, i),
        forall|j: int| 0 <= j < i ==> #[trigger] draw_signs(s, vs, i).0[j] == (Lit {
            var: vs[j],
            positive: sm_mix(sm_nth(s, (j + 1) as nat)) % 2 == 0,
        }),
    decreases i,
{
    if i > 0 {
        lemma_signs_follow_stream(s, vs, (i - 1) as nat);
        let x = sm_mix(sm_nth(s, i));
        assert((x & 1u64 == 0u64) == (x % 2 == 0)) by (bit_vector);
        let prev = draw_signs(s, vs, (i - 1) as nat).0;
        assert forall|j: int| 0 <= j < i implies #[trigger] draw_signs(s, vs, i).0[j] == (Lit {
            var: vs[j],
            positive: sm_mix(sm_nth(s, (j + 1) as nat)) % 2 == 0,
        }) by {
            if j < i - 1 {
                assert(draw_signs(s, vs, i).0[j] == prev[j]);
            }
        }
    }
}

/// Every clause of a random `k`-SAT stream takes its signs from the stream: after the draws
/// that pick its variables, the `j`-th literal is positive exactly when the `(j + 1)`-th
/// following output is even.
pub proof fn lemma_ksat_signs(s: u64, k: nat, vars: nat, m: nat, c: int, j: int)
    requires
        0 <= c < m,
        0 < vars <= 0x1_0000_0000,
        0 <= j < ksat_stream(s, k, vars, m).0[c].len(),
    ensures
        ({
            let start = ksat_stream(s, k, vars, c as nat).1;
            let (vs, s2) = draw_distinct(start, k, vars, Seq::empty(), draw_fuel());
            ksat_stream(s, k, vars, m).0[c][j] == (Lit {
                var: vs[j],
                positive: sm_mix(sm_nth(s2, (j + 1) as nat)) % 2 == 0,
            })
        }),
    decreases m,
{
    let prev = ksat_stream(s, k, vars, (m - 1) as nat);
    let (vs1, s2a) = draw_distinct(prev.1, k, vars, Seq::empty(), draw_fuel());
    let cl = draw_signs(s2a, vs1, vs1.len());
    assert(ksat_stream(s, k, vars, m) == (prev.0.push(cl.0), cl.1));
    lemma_ksat_clauses_sound(s, k, vars, (m - 1) as nat);
    if c < m - 1 {
        assert(ksat_stream(s, k, vars, m).0[c] == prev.0[c]);
        lemma_ksat_signs(s, k, vars, (m - 1) as nat, c, j);
    } else {
        assert(ksat_stream(s, k, vars, m).0[c] == cl.0);
        lemma_signs_follow_stream(s2a, vs1, vs1.len());
    }
}

pub proof fn lemma_ksat_clauses_sound(s: u64, k: nat, vars: nat, m: nat)
    requires
        0 < vars <= 0x1_0000_0000,
    ensures
        ksat_stream(s, k, vars, m).0.len() == m,
        forall|i: int| 0 <= i < m ==> sound_clause(#[trigger] ksat_stream(s, k, vars, m).0[i], k, vars),
    decreases m,
{
    if m > 0 {
        lemma_ksat_clauses_sound(s, k, vars, (m - 1) as nat);
        let (prev, s1) = ksat_stream(s, k, vars, (m - 1) as nat);
        lemma_draw_distinct(s1, k, vars, Seq::empty(), draw_fuel());
        let (vs, s2) = draw_distinct(s1, k, vars, Seq::empty(), draw_fuel());
        lemma_draw_signs(s2, vs, vs.len());
        let c = draw_signs(s2, vs, vs.len()).0;
        assert forall|a: int, b: int| 0 <= a < b < c.len() implies (#[trigger] c[a]).var != (#[trigger] c[b]).var by {
            assert(vs[a] != vs[b]);
        }
        assert(sound_clause(c, k, vars));
        let all = ksat_stream(s, k, vars, m).0;
        assert forall|i: int| 0 <= i < m implies sound_clause(#[trigger] all[i], k, vars) by {
            if i < m - 1 {
                assert(all[i] == prev[i]);
            }
        }
    }
}

fn contains_var(vs: &Vec<u32>, v: u32) -> (r: bool)
    ensures
        r == vs@.contains(v),
{
    let mut i: usize = 0;
    while i < vs.len()
        invariant
            i <= vs@.len(),
            forall|j: int| 0 <= j < i ==> vs@[j] != v,
        decreases vs@.len() - i,
    {
        if vs[i] == v {
            return true;
        }
        i += 1;
    }
    false
}

/// Draw `k` distinct variables below `vars`.
pub fn draw_vars(rng: &mut SplitMix64, k: usize, vars: usize) -> (vs: Vec<u32>)
    requires
        k > 0 ==> vars > 0,
    ensures
        (vs@, final(rng).state) == draw_distinct(old(rng).state, k as nat, vars as nat, Seq::empty(), draw_fuel()),
{
    let mut vs: Vec<u32> = Vec::new();
    let mut fuel: u128 = 0x1_0000_0000_0000_0000u128;
    while vs.len() < k && fuel > 0
        invariant
            k > 0 ==> vars > 0,
            draw_distinct(old(rng).state, k as nat, vars as nat, Seq::empty(), draw_fuel())
                == draw_distinct(rng.state, k as nat, vars as nat, vs@, fuel as nat),
        decreases fuel,
    {
        let out = rng.next();
        let v = ((out as usize) % vars) as u32;
        if !contains_var(&vs, v) {
            vs.push(v);
        }
        fuel -= 1;
    }
    vs
}

fn draw_clause(rng: &mut SplitMix64, vs: &Vec<u32>) -> (c: Vec<Lit>)
    ensures
        (c@, final(rng).state) == draw_signs(old(rng).state, vs@, vs@.len()),
{
    let mut c: Vec<Lit> = Vec::new();
    let mut i: usize = 0;
    while i < vs.len()
        invariant
            i <= vs@.len(),
            (c@, rng.state) == draw_signs(old(rng).state, vs@, i as nat),
        decreases vs@.len() - i,
    {
        let out = rng.next();
        c.push(Lit::new(vs[i], out & 1u64 == 0u64));
        i += 1;
    }
    c
}

fn ksat_clauses(rng: &mut SplitMix64, k: usize, vars: usize, num_clauses: usize) -> (clauses: Vec<Vec<Lit>>)
    requires
        num_clauses > 0 && k > 0 ==> vars > 0,
    ensures
        (clauses_view(clauses@), final(rng).state) == ksat_stream(old(rng).state, k as nat, vars as nat,
            num_clauses as nat),
{
    let mut clauses: Vec<Vec<Lit>> = Vec::new();
    while clauses.len() < num_clauses
        invariant
            num_clauses > 0 && k > 0 ==> vars > 0,
            clauses@.len() <= num_clauses,
            (clauses_view(clauses@), rng.state) == ksat_stream(old(rng).state, k as nat, vars as nat,
                clauses@.len() as nat),
        decreases num_clauses - clauses@.len(),
    {
        let vs = draw_vars(rng, k, vars);
        let c = draw_clause(rng, &vs);
        proof {
            lemma_cv_push(clauses@, c);
        }
        clauses.push(c);
    }
    clauses
}

/// A random 3-SAT instance: `num_clauses` clauses of three distinct variables with random
/// signs over `vars` variables, from a SplitMix64 stream seeded with `seed`.
pub fn random_3sat(vars: usize, num_clauses: usize, seed: u64) -> (cnf: DimacsCnf)
    requires
        num_clauses > 0 ==> vars >= 3,
    ensures
        cnf.num_vars == vars,
        cnf.cls() == ksat_stream(seed, 3, vars as nat, num_clauses as nat).0,
{
    let mut rng = SplitMix64 { state: seed };
    let clauses = ksat_clauses(&mut rng, 3, vars, num_clauses);
    DimacsCnf { num_vars: vars, clauses }
}

/// A random `k`-SAT instance: `num_clauses` clauses of `k` distinct variables with random
/// signs over `vars` variables, from a SplitMix64 stream seeded with `seed`. Requires
/// `k ≤ vars`.
pub fn random_ksat(k: usize, vars: usize, num_clauses: usize, seed: u64) -> (cnf: DimacsCnf)
    requires
        num_clauses > 0 ==> k <= vars,
    ensures
        cnf.num_vars == vars,
        cnf.cls() == ksat_stream(seed, k as nat, vars as nat, num_clauses as nat).0,
{
    let mut rng = SplitMix64 { state: seed };
    let clauses = ksat_clauses(&mut rng, k, vars, num_clauses);
    DimacsCnf { num_vars: vars, clauses }
}

} // verus!
