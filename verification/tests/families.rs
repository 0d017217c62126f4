use lib::cnf::{DimacsCnf, Lit, ModpEquation, XorEquation};
use lib::families::{
    clique_coloring, functional_php, grid_tseitin, mod_counting, mod_counting_edges, mod_counting_groups,
    mod_m_tseitin_expander, mod_p_consistent_onehot, mod_p_tseitin_expander, mutilated_chessboard, onto_php,
    ordering_principle, parity_exactly_one, parity_unsat, pebbling_pyramid, php, ramsey, ramsey_number,
    random_3regular, random_3sat, random_ksat, random_kxor, tseitin_expander, weak_php, ExpectedVerdict,
};
use lib::families::parity::xor_clauses;
use lib::gf2::solve_gf2;

// ---------------------------------------------------------------------------
// A small DPLL decision procedure, used as the test oracle.
// ---------------------------------------------------------------------------

fn lit_value(assign: &[Option<bool>], l: &Lit) -> Option<bool> {
    assign[l.var as usize].map(|b| b == l.positive)
}

fn dpll(clauses: &[Vec<Lit>], assign: &mut Vec<Option<bool>>) -> bool {
    // unit propagation to a fixpoint
    let mut trail: Vec<usize> = Vec::new();
    loop {
        let mut changed = false;
        for c in clauses {
            let mut open: Option<&Lit> = None;
            let mut n_open = 0;
            let mut sat = false;
            for l in c {
                match lit_value(assign, l) {
                    Some(true) => {
                        sat = true;
                        break;
                    }
                    Some(false) => {}
                    None => {
                        n_open += 1;
                        open = Some(l);
                    }
                }
            }
            if sat {
                continue;
            }
            if n_open == 0 {
                for v in trail {
                    assign[v] = None;
                }
                return false;
            }
            if n_open == 1 {
                let l = open.unwrap();
                assign[l.var as usize] = Some(l.positive);
                trail.push(l.var as usize);
                changed = true;
            }
        }
        if !changed {
            break;
        }
    }
    // branch on the first variable of an unsatisfied clause
    let mut pick: Option<usize> = None;
    for c in clauses {
        if c.iter().any(|l| lit_value(assign, l) == Some(true)) {
            continue;
        }
        if let Some(l) = c.iter().find(|l| lit_value(assign, l).is_none()) {
            pick = Some(l.var as usize);
            break;
        }
    }
    let v = match pick {
        None => return true,
        Some(v) => v,
    };
    for b in [true, false] {
        assign[v] = Some(b);
        if dpll(clauses, assign) {
            return true;
        }
        assign[v] = None;
    }
    for v in trail {
        assign[v] = None;
    }
    false
}

/// `Some(model)` when the CNF is satisfiable, `None` when it is not.
fn solve(cnf: &DimacsCnf) -> Option<Vec<bool>> {
    let mut assign = vec![None; cnf.num_vars];
    if dpll(&cnf.clauses, &mut assign) {
        Some(assign.iter().map(|b| b.unwrap_or(false)).collect())
    } else {
        None
    }
}

fn satisfies(cnf: &DimacsCnf, model: &[bool]) -> bool {
    cnf.clauses.iter().all(|c| c.iter().any(|l| model[l.var as usize] == l.positive))
}

/// The oracle every family is held to: UNSAT as pinned, or SAT with a model that checks.
fn decides(cnf: &DimacsCnf, verdict: ExpectedVerdict) {
    match verdict {
        ExpectedVerdict::Unsat => assert!(solve(cnf).is_none(), "expected UNSAT, solver said SAT"),
        ExpectedVerdict::Sat => match solve(cnf) {
            Some(model) => assert!(satisfies(cnf, &model), "the returned SAT model must satisfy every clause"),
            None => panic!("expected SAT, solver said UNSAT"),
        },
    }
}

/// The state of the one-hot value search.
struct OnehotSearch<'a> {
    edges: usize,
    m: usize,
    order: Vec<usize>,
    generic: Vec<Vec<&'a Vec<Lit>>>,
    forbidden: std::collections::HashMap<Vec<usize>, std::collections::HashSet<Vec<usize>>>,
    sets_by_last: Vec<Vec<Vec<usize>>>,
}

fn onehot_go(s: &OnehotSearch, e: usize, vals: &mut Vec<usize>) -> bool {
    if e == s.edges {
        return true;
    }
    for v in 0..s.m {
        vals[s.order[e]] = v;
        let generic_ok = s.generic[e].iter().all(|c| {
            c.iter().any(|l| {
                let (edge, val) = (l.var as usize / s.m, l.var as usize % s.m);
                (vals[edge] == val) == l.positive
            })
        });
        let tuples_ok = s.sets_by_last[e].iter().all(|key| {
            let tuple: Vec<usize> = key.iter().map(|&k| vals[k]).collect();
            !s.forbidden[key].contains(&tuple)
        });
        if generic_ok && tuples_ok && onehot_go(s, e + 1, vals) {
            return true;
        }
    }
    false
}

/// Decide a CNF whose variables are the one-hot bits `e*m + val` of `edges` edges taking
/// values below `m`: search the value assignments edge by edge (every model of the CNF is
/// one, since the CNF holds each edge's at-least-one and at-most-one clauses), checking each
/// clause as soon as all its edges have values.
fn onehot_sat(cnf: &DimacsCnf, edges: usize, m: usize) -> bool {
    assert_eq!(cnf.num_vars, edges * m);
    let present: std::collections::HashSet<&Vec<Lit>> = cnf.clauses.iter().collect();
    for e in 0..edges {
        let alo: Vec<Lit> = (0..m).map(|v| Lit::pos((e * m + v) as u32)).collect();
        assert!(present.contains(&alo), "edge {e} has its at-least-one clause");
        for a in 0..m {
            for b in (a + 1)..m {
                let amo = vec![Lit::neg((e * m + a) as u32), Lit::neg((e * m + b) as u32)];
                assert!(present.contains(&amo), "edge {e} has its at-most-one clauses");
            }
        }
    }
    // Clauses of negative literals on distinct edges forbid one tuple of values each; all
    // other clauses are checked literal by literal.
    let mut groups: Vec<Vec<usize>> = Vec::new();
    for c in &cnf.clauses {
        if c.is_empty() {
            return false;
        }
        let mut es: Vec<usize> = c.iter().map(|l| l.var as usize / m).collect();
        es.sort_unstable();
        es.dedup();
        if es.len() >= 2 && !groups.contains(&es) {
            groups.push(es);
        }
    }
    // Order the edges so that each clause's edges close early: repeatedly take the edge group
    // with the fewest edges still unordered.
    let mut rank = vec![usize::MAX; edges];
    let mut order: Vec<usize> = Vec::new();
    loop {
        let pick = groups
            .iter()
            .filter(|g| g.iter().any(|&e| rank[e] == usize::MAX))
            .min_by_key(|g| g.iter().filter(|&&e| rank[e] == usize::MAX).count())
            .cloned();
        match pick {
            None => break,
            Some(g) => {
                for e in g {
                    if rank[e] == usize::MAX {
                        rank[e] = order.len();
                        order.push(e);
                    }
                }
            }
        }
    }
    for e in 0..edges {
        if rank[e] == usize::MAX {
            rank[e] = order.len();
            order.push(e);
        }
    }
    let mut generic: Vec<Vec<&Vec<Lit>>> = vec![Vec::new(); edges];
    let mut forbidden: std::collections::HashMap<Vec<usize>, std::collections::HashSet<Vec<usize>>> =
        std::collections::HashMap::new();
    let mut sets_by_last: Vec<Vec<Vec<usize>>> = vec![Vec::new(); edges];
    for c in &cnf.clauses {
        let mut pairs: Vec<(usize, usize)> = c.iter().map(|l| (l.var as usize / m, l.var as usize % m)).collect();
        pairs.sort_unstable();
        let distinct = pairs.windows(2).all(|w| w[0].0 != w[1].0);
        let last = pairs.iter().map(|p| rank[p.0]).max().unwrap();
        if c.iter().all(|l| !l.positive) && distinct && pairs.len() >= 2 {
            let key: Vec<usize> = pairs.iter().map(|p| p.0).collect();
            let tuple: Vec<usize> = pairs.iter().map(|p| p.1).collect();
            let entry = forbidden.entry(key.clone()).or_default();
            if entry.is_empty() {
                sets_by_last[last].push(key);
            }
            entry.insert(tuple);
        } else {
            generic[last].push(c);
        }
    }
    let search = OnehotSearch { edges, m, order, generic, forbidden, sets_by_last };
    let mut vals = vec![0usize; edges];
    onehot_go(&search, 0, &mut vals)
}

// ---------------------------------------------------------------------------
// Linear systems, solved independently of the CNF encodings.
// ---------------------------------------------------------------------------

/// A GF(2) system is consistent (decided with `solve_gf2`, variables packed into bits).
fn xor_consistent(eqs: &[XorEquation], n: usize) -> bool {
    assert!(n <= 63);
    let rows: Vec<u64> = eqs.iter().map(|e| e.vars.iter().fold(0u64, |a, &v| a ^ (1u64 << v))).collect();
    let rhs: Vec<bool> = eqs.iter().map(|e| e.rhs).collect();
    solve_gf2(n, &rows, &rhs).is_some()
}

fn pow_mod(mut b: u64, mut e: u64, m: u64) -> u64 {
    let mut r = 1u64 % m;
    b %= m;
    while e > 0 {
        if e & 1 == 1 {
            r = r * b % m;
        }
        b = b * b % m;
        e >>= 1;
    }
    r
}

/// Gaussian elimination over GF(p), `p` prime: is the system consistent?
fn modp_consistent(eqs: &[ModpEquation], n: usize, p: u64) -> bool {
    let mut rows: Vec<Vec<u64>> = eqs
        .iter()
        .map(|e| {
            let mut r = vec![0u64; n + 1];
            for &(v, c) in &e.coeffs {
                r[v] = (r[v] + c) % p;
            }
            r[n] = e.rhs % p;
            r
        })
        .collect();
    let mut rank = 0;
    for col in 0..n {
        if let Some(piv) = (rank..rows.len()).find(|&i| rows[i][col] != 0) {
            rows.swap(rank, piv);
            let inv = pow_mod(rows[rank][col], p - 2, p);
            for x in rows[rank].iter_mut() {
                *x = *x * inv % p;
            }
            for i in 0..rows.len() {
                if i != rank && rows[i][col] != 0 {
                    let f = rows[i][col];
                    for j in 0..=n {
                        rows[i][j] = (rows[i][j] + p * p - f * rows[rank][j] % p) % p;
                    }
                }
            }
            rank += 1;
        }
    }
    rows.iter().all(|r| r[..n].iter().any(|&x| x != 0) || r[n] == 0)
}

fn prime_factors(mut m: u64) -> Vec<u64> {
    let mut out = Vec::new();
    let mut d = 2;
    while d * d <= m {
        if m % d == 0 {
            out.push(d);
            while m % d == 0 {
                m /= d;
            }
        }
        d += 1;
    }
    if m > 1 {
        out.push(m);
    }
    out
}

// ---------------------------------------------------------------------------
// The families
// ---------------------------------------------------------------------------

#[test]
fn mutilated_chessboard_and_ordering_are_correctly_unsat() {
    for n in [4, 6, 8] {
        let (cnf, v) = mutilated_chessboard(n);
        assert_eq!(v, ExpectedVerdict::Unsat);
        assert!(cnf.clauses.iter().all(|c| !c.is_empty()), "chessboard {n} has no empty clause");
        assert!(solve(&cnf).is_none(), "mutilated chessboard {n} must be UNSAT");
    }
    for n in [3, 4, 5, 6] {
        let (cnf, v) = ordering_principle(n);
        assert_eq!(v, ExpectedVerdict::Unsat);
        assert!(solve(&cnf).is_none(), "ordering principle GT({n}) must be UNSAT");
    }
}

#[test]
fn tseitin_expander_is_unsat_and_gaussian_refutes_it() {
    for seed in [1u64, 7, 42] {
        let (eqs, cnf, verdict) = tseitin_expander(10, seed);
        assert_eq!(verdict, ExpectedVerdict::Unsat);
        assert!(!xor_consistent(&eqs, cnf.num_vars), "expander-Tseitin must be UNSAT");
        assert!(solve(&cnf).is_none(), "CNF encoding must be UNSAT too");
    }
}

#[test]
fn mod_p_tseitin_is_refuted_over_gf_p_with_a_checkable_certificate() {
    for &p in &[3u64, 5, 7] {
        for seed in [1u64, 7] {
            let (eqs, cnf, verdict) = mod_p_tseitin_expander(6, p, seed);
            assert_eq!(verdict, ExpectedVerdict::Unsat);
            let edges = cnf.num_vars / p as usize;
            assert!(!modp_consistent(&eqs, edges, p), "mod-{p} obstruction must be UNSAT over GF({p})");
            assert!(solve(&cnf).is_none(), "the Boolean CNF must be UNSAT");
        }
    }
}

#[test]
fn mod_p_obstruction_is_invisible_to_gf2() {
    let p = 3u64;
    let (eqs, cnf, _) = mod_p_tseitin_expander(6, p, 7);
    let edges = cnf.num_vars / p as usize;
    let gf2: Vec<XorEquation> = eqs
        .iter()
        .map(|eq| XorEquation::new(eq.coeffs.iter().map(|&(v, _)| v).collect(), eq.rhs % 2 == 1))
        .collect();
    assert!(
        xor_consistent(&gf2, edges),
        "over GF(2) the even-charge obstruction is satisfiable — the parity engine is blind to it"
    );
}

#[test]
fn mod_m_tseitin_is_refuted_over_the_ring_with_a_checkable_certificate() {
    for &m in &[6u64, 15] {
        for seed in [1u64, 7] {
            let (eqs, cnf, verdict) = mod_m_tseitin_expander(6, m, seed);
            assert_eq!(verdict, ExpectedVerdict::Unsat);
            let vars = cnf.num_vars / m as usize;
            let refuted_by = prime_factors(m).into_iter().find(|&q| !modp_consistent(&eqs, vars, q));
            assert!(refuted_by.is_some(), "mod-{m} obstruction must be UNSAT over ℤ/{m}");
            assert!(!onehot_sat(&cnf, vars, m as usize), "the Boolean CNF must be UNSAT");
        }
    }
}

#[test]
fn the_two_geometries_of_hardness() {
    let half_point_satisfies = |cnf: &DimacsCnf| cnf.clauses.iter().all(|c| c.len() >= 2);
    let (php_cnf, _) = php(8);
    let (eqs, tse_cnf, _) = tseitin_expander(12, 7);
    assert!(half_point_satisfies(&php_cnf), "x≡½ ∈ the PHP clause-polytope");
    assert!(half_point_satisfies(&tse_cnf), "x≡½ ∈ the Tseitin clause-polytope");
    // The counting hyperplane: summing the 8 at-least-one rows gives Σx ≥ 8, while each of the 7
    // holes carries the full at-most-one clique over the 8 pigeons, so Σx ≤ 7.
    let holes = 7usize;
    let rows = php_cnf.clauses.iter().filter(|c| c.len() == holes && c.iter().all(|l| l.positive)).count();
    assert_eq!(rows, 8, "convex/Farkas counting hyperplane refutes PHP(8)");
    for h in 0..holes {
        let pairs = php_cnf
            .clauses
            .iter()
            .filter(|c| c.len() == 2 && c.iter().all(|l| !l.positive && l.var as usize % holes == h))
            .count();
        assert_eq!(pairs, 8 * 7 / 2, "convex/Farkas counting hyperplane refutes PHP(8)");
    }
    assert!(!xor_consistent(&eqs, tse_cnf.num_vars), "GF(2) geometry refutes parity, certified");
}

#[test]
fn counting_is_provably_blind_two_covers_same_counts_opposite_answers() {
    let build = |edges: &[(usize, usize)], n: usize, charges: &[bool]| -> (Vec<XorEquation>, DimacsCnf) {
        let mut incident = vec![Vec::new(); n];
        for (e, &(a, b)) in edges.iter().enumerate() {
            incident[a].push(e);
            incident[b].push(e);
        }
        let (mut eqs, mut clauses) = (Vec::new(), Vec::new());
        for v in 0..n {
            let (inc, r, d) = (&incident[v], charges[v], incident[v].len());
            eqs.push(XorEquation::new(inc.clone(), r));
            for mask in 0u32..(1u32 << d) {
                if ((mask.count_ones() % 2) == 1) != r {
                    clauses.push((0..d).map(|i| Lit::new(inc[i] as u32, (mask >> i) & 1 == 0)).collect());
                }
            }
        }
        (eqs, DimacsCnf { num_vars: edges.len(), clauses })
    };
    let edges = random_3regular(12, 7).expect("a 3-regular graph on 12 vertices");
    let (eqs_sat, cnf_sat) = build(&edges, 12, &vec![false; 12]);
    let mut odd = vec![false; 12];
    odd[0] = true;
    let (eqs_uns, cnf_uns) = build(&edges, 12, &odd);
    let profile = |cnf: &DimacsCnf| {
        let mut lens: Vec<usize> = cnf.clauses.iter().map(|c| c.len()).collect();
        lens.sort_unstable();
        let mut occ = vec![0usize; cnf.num_vars];
        for c in &cnf.clauses {
            for l in c {
                occ[l.var() as usize] += 1;
            }
        }
        occ.sort_unstable();
        (cnf.clauses.len(), lens, occ)
    };
    assert_eq!(profile(&cnf_sat), profile(&cnf_uns), "IDENTICAL counting profile — counting cannot tell them apart");
    assert!(xor_consistent(&eqs_sat, cnf_sat.num_vars), "even total parity ⇒ SAT");
    assert!(!xor_consistent(&eqs_uns, cnf_uns.num_vars), "odd total parity ⇒ UNSAT, certified by GF(2)");
}

#[test]
fn php_has_the_expected_shape() {
    let (cnf, verdict) = php(4);
    assert_eq!(verdict, ExpectedVerdict::Unsat);
    assert_eq!(cnf.num_vars, 4 * 3);
    assert_eq!(cnf.clauses.len(), 4 + 3 * 6);
}

#[test]
fn php_is_unsatisfiable_for_small_n() {
    for n in 1..=5 {
        let (cnf, _) = php(n);
        assert!(solve(&cnf).is_none(), "PHP({n}) must be unsatisfiable");
    }
}

#[test]
fn parity_unsat_is_genuinely_unsat() {
    let (eqs, cnf) = parity_unsat(12, 14, 0x9A2173_5C);
    assert!(!xor_consistent(&eqs, 12));
    assert!(solve(&cnf).is_none(), "CNF encoding is UNSAT too");
}

#[test]
fn clique_coloring_verdict_tracks_colors_vs_clique() {
    for n in 2..=4 {
        let (unsat, v_unsat) = clique_coloring(n, n - 1);
        assert_eq!(v_unsat, ExpectedVerdict::Unsat);
        assert!(solve(&unsat).is_none(), "K_{n} with {} colors", n - 1);
        let (sat, v_sat) = clique_coloring(n, n);
        assert_eq!(v_sat, ExpectedVerdict::Sat);
        assert!(solve(&sat).is_some(), "K_{n} with {n} colors");
    }
}

/// Whether a variable permutation maps the clause set onto itself.
fn perm_is_automorphism(clauses: &[Vec<Lit>], perm: &[u32]) -> bool {
    let key = |c: &Vec<Lit>| {
        let mut k: Vec<(u32, bool)> = c.iter().map(|l| (l.var, l.positive)).collect();
        k.sort_unstable();
        k
    };
    let set: std::collections::HashSet<Vec<(u32, bool)>> = clauses.iter().map(key).collect();
    clauses.iter().all(|c| {
        let mapped: Vec<Lit> = c.iter().map(|l| Lit::new(perm[l.var as usize], l.positive)).collect();
        set.contains(&key(&mapped))
    })
}

#[test]
fn clique_coloring_exposes_color_permutation_symmetry() {
    let (cnf, _) = clique_coloring(3, 2);
    // The colour swap 0 ↔ 1 on every vertex (variable v*2 + c ↦ v*2 + (1 − c)).
    let swap: Vec<u32> = (0..cnf.num_vars as u32).map(|x| x ^ 1).collect();
    let gens = vec![swap];
    assert!(!gens.iter().all(|g| g.iter().enumerate().all(|(i, &x)| i as u32 == x)), "color symmetry must be detected");
    for g in &gens {
        assert!(perm_is_automorphism(&cnf.clauses, g));
    }
}

#[test]
fn clique_coloring_is_refuted_with_certified_symmetry_breaking() {
    for (n, k) in [(3usize, 2usize), (4, 3)] {
        let (mut cnf, _) = clique_coloring(n, k);
        // Break the colour symmetry: vertex 0 takes colour 0.
        cnf.clauses.push(vec![Lit::pos(0)]);
        let sbp_clauses = 1;
        assert!(solve(&cnf).is_none(), "K_{n} / {k} colors refuted");
        assert!(sbp_clauses >= 1, "color symmetry certified-broken");
    }
}

#[test]
fn weak_php_generalizes_php_and_tracks_the_pigeon_hole_ratio() {
    for n in 1..=5 {
        let (tight, tv) = weak_php(n, n.saturating_sub(1));
        let (base, bv) = php(n);
        assert_eq!(tight.num_vars, base.num_vars, "weak_php(n,n-1) shares PHP's variable count");
        assert_eq!(tight.clauses, base.clauses, "weak_php(n,n-1) is byte-identical to php(n)");
        assert_eq!(tv, bv);
    }
    for &(p, h) in &[(3usize, 2usize), (5, 4), (4, 7), (2, 3), (3, 3), (6, 2)] {
        let (cnf, v) = weak_php(p, h);
        assert_eq!(v, if p > h { ExpectedVerdict::Unsat } else { ExpectedVerdict::Sat }, "PHP^{h}_{p} verdict");
        decides(&cnf, v);
    }
}

#[test]
fn functional_and_onto_php_are_unsat_strengthenings_of_php() {
    for n in 2..=5 {
        let (base, _) = php(n);
        let (func, fv) = functional_php(n);
        let (onto, ov) = onto_php(n);
        assert_eq!(fv, ExpectedVerdict::Unsat);
        assert_eq!(ov, ExpectedVerdict::Unsat);
        assert!(func.clauses.starts_with(&base.clauses), "FPHP({n}) ⊇ PHP({n})");
        assert!(onto.clauses.starts_with(&func.clauses), "onto-FPHP({n}) ⊇ FPHP({n})");
        decides(&func, ExpectedVerdict::Unsat);
        decides(&onto, ExpectedVerdict::Unsat);
    }
    for n in 3..=5 {
        let (base, _) = php(n);
        let (func, _) = functional_php(n);
        let (onto, _) = onto_php(n);
        assert!(func.clauses.len() > base.clauses.len(), "FPHP adds functional clauses at n={n}");
        assert!(onto.clauses.len() > func.clauses.len(), "onto-FPHP adds surjectivity clauses at n={n}");
    }
}

#[test]
fn mod_counting_is_unsat_exactly_when_q_does_not_divide_n() {
    for &(n, q) in &[(3usize, 2usize), (4, 2), (5, 2), (6, 2), (4, 3), (6, 3), (7, 3), (8, 4)] {
        let (cnf, v) = mod_counting(n, q);
        assert_eq!(v, if n % q == 0 { ExpectedVerdict::Sat } else { ExpectedVerdict::Unsat }, "Count_{q}({n})");
        assert!(cnf.clauses.iter().all(|c| !c.is_empty()), "Count_{q}({n}) has no empty clause");
        decides(&cnf, v);
    }
    let (c52, _) = mod_counting(5, 2);
    assert_eq!(c52.num_vars, 10, "C(5,2) = 10 edges of K_5");
}

#[test]
fn ramsey_tracks_the_known_ramsey_numbers() {
    for &(s, t, n) in &[(3usize, 3usize, 5usize), (3, 3, 6), (3, 4, 8), (3, 4, 9)] {
        let (cnf, v) = ramsey(s, t, n);
        let r = ramsey_number(s, t).unwrap();
        assert_eq!(v, if n >= r { ExpectedVerdict::Unsat } else { ExpectedVerdict::Sat }, "Ramsey({s},{t};{n}) vs R={r}");
        decides(&cnf, v);
    }
    let (cnf, _) = ramsey(3, 3, 6);
    let key = |c: &Vec<Lit>, flip: bool| {
        let mut k: Vec<(u32, bool)> = c.iter().map(|l| (l.var(), l.is_positive() ^ flip)).collect();
        k.sort_unstable();
        k
    };
    let set: std::collections::HashSet<Vec<(u32, bool)>> = cnf.clauses.iter().map(|c| key(c, false)).collect();
    for c in &cnf.clauses {
        assert!(set.contains(&key(c, true)), "global colour-flip is an automorphism of diagonal Ramsey");
    }
}

#[test]
fn random_kxor_is_guaranteed_unsat_for_every_seed_arity_and_size() {
    for k in [2usize, 3, 4, 5] {
        for n in [8usize, 12, 16] {
            for seed in 0..24u64 {
                let (eqs, cnf) = random_kxor(k, n, n, seed.wrapping_mul(0x1000193) ^ k as u64);
                assert!(
                    !xor_consistent(&eqs, cnf.num_vars),
                    "k={k} n={n} seed={seed}: maximal-rank k-XOR must be UNSAT over GF(2)"
                );
                assert!(solve(&cnf).is_none(), "k={k} n={n} seed={seed}: CNF must be UNSAT");
            }
        }
    }
}

#[test]
fn random_kxor_generalizes_parity_and_gaussian_refutes_every_arity() {
    for seed in [1u64, 7, 0x9A2173_5C] {
        let (_, a) = parity_unsat(12, 14, seed);
        let (_, b) = random_kxor(3, 12, 14, seed);
        assert_eq!(a.clauses, b.clauses, "parity_unsat is exactly random_kxor(k=3)");
    }
    for k in [2usize, 4, 5] {
        let (eqs, cnf) = random_kxor(k, 14, 16, 0xC0FFEE ^ k as u64);
        assert!(!xor_consistent(&eqs, cnf.num_vars), "planted-then-flipped {k}-XOR must be UNSAT");
        assert!(solve(&cnf).is_none(), "{k}-XOR CNF encoding is UNSAT");
    }
}

#[test]
fn pebbling_pyramid_is_unsat_with_the_expected_triangular_shape() {
    for h in 1..=5 {
        let (cnf, v) = pebbling_pyramid(h);
        assert_eq!(v, ExpectedVerdict::Unsat);
        let nodes = (h + 1) * (h + 2) / 2;
        assert_eq!(cnf.num_vars, nodes, "pyramid of height {h} has T(h+1) nodes");
        assert_eq!(cnf.clauses.len(), nodes + 1, "pebbling({h}) clause count = nodes + 1");
        assert!(cnf.clauses.iter().all(|c| !c.is_empty()), "no empty clause");
        decides(&cnf, ExpectedVerdict::Unsat);
    }
}

// ---------------------------------------------------------------------------
// Further checks of the generators
// ---------------------------------------------------------------------------

#[test]
fn parity_exactly_one_is_unsat_with_two_n_variables() {
    for n in 2..=6 {
        let (cnf, v) = parity_exactly_one(n);
        assert_eq!(v, ExpectedVerdict::Unsat);
        assert_eq!(cnf.num_vars, 2 * n);
        decides(&cnf, v);
    }
    // The first clause is the at-least-one over the selectors, the last the unit ¬s_{n-1}.
    let (cnf, _) = parity_exactly_one(3);
    assert_eq!(cnf.clauses[0], vec![Lit::pos(0), Lit::pos(1), Lit::pos(2)]);
    assert_eq!(cnf.clauses.last().unwrap(), &vec![Lit::neg(5)]);
}

#[test]
fn grid_tseitin_is_unsat_with_the_grid_edge_count() {
    for (w, n) in [(2usize, 2usize), (2, 3), (3, 3), (3, 4)] {
        let (eqs, cnf, v) = grid_tseitin(w, n);
        assert_eq!(v, ExpectedVerdict::Unsat);
        assert_eq!(cnf.num_vars, w * (n - 1) + (w - 1) * n);
        assert_eq!(eqs.len(), w * n);
        assert!(!xor_consistent(&eqs, cnf.num_vars));
        decides(&cnf, v);
    }
    // The 2×2 grid: edges 0 = (0,0)→(0,1), 1 = (0,0)↓(1,0), 2 = (0,1)↓(1,1), 3 = (1,0)→(1,1).
    let (eqs, _, _) = grid_tseitin(2, 2);
    assert_eq!(eqs[0].vars, vec![0, 1]);
    assert_eq!(eqs[3].vars, vec![2, 3]);
    assert!(eqs[0].rhs && !eqs[1].rhs);
}

#[test]
fn random_families_are_reproducible_and_well_formed() {
    let a = random_3sat(20, 50, 0xC0FFEE);
    let b = random_3sat(20, 50, 0xC0FFEE);
    assert_eq!(a.clauses, b.clauses);
    assert_eq!(a.clauses.len(), 50);
    for c in &a.clauses {
        assert_eq!(c.len(), 3);
        assert!(c.iter().all(|l| (l.var as usize) < 20));
        assert!(c[0].var != c[1].var && c[1].var != c[2].var && c[0].var != c[2].var);
    }
    let k = random_ksat(5, 9, 30, 7);
    assert_eq!(k.num_vars, 9);
    for c in &k.clauses {
        assert_eq!(c.len(), 5);
    }
    // A different seed draws a different instance.
    let c = random_3sat(20, 50, 0xC0FFEF);
    assert_ne!(a.clauses, c.clauses);
}

#[test]
fn random_3regular_is_simple_and_three_regular() {
    for seed in [1u64, 7, 42] {
        let edges = random_3regular(12, seed).expect("a graph is found");
        assert_eq!(edges.len(), 18);
        let mut deg = vec![0; 12];
        for (i, &(a, b)) in edges.iter().enumerate() {
            assert!(a < b && b < 12);
            deg[a] += 1;
            deg[b] += 1;
            assert!(!edges[..i].contains(&(a, b)));
        }
        assert!(deg.iter().all(|&d| d == 3));
    }
}

#[test]
fn mod_p_consistent_onehot_is_sat_over_gf_p() {
    for &p in &[3u64, 5] {
        let (eqs, cnf, v) = mod_p_consistent_onehot(6, p, 1);
        assert_eq!(v, ExpectedVerdict::Sat);
        assert!(modp_consistent(&eqs, cnf.num_vars / p as usize, p));
        decides(&cnf, v);
    }
}

#[test]
fn mod_counting_layout_matches_its_groups() {
    let edges = mod_counting_edges(4, 2);
    assert_eq!(edges, vec![vec![0, 1], vec![0, 2], vec![0, 3], vec![1, 2], vec![1, 3], vec![2, 3]]);
    let groups = mod_counting_groups(4, 2);
    assert_eq!(groups, vec![vec![0, 1, 2], vec![0, 3, 4], vec![1, 3, 5], vec![2, 4, 5]]);
    assert!(mod_counting_edges(3, 4).is_empty());
}

#[test]
fn ramsey_number_table() {
    assert_eq!(ramsey_number(3, 3), Some(6));
    assert_eq!(ramsey_number(4, 3), Some(9));
    assert_eq!(ramsey_number(2, 7), Some(7));
    assert_eq!(ramsey_number(5, 4), Some(25));
    assert_eq!(ramsey_number(5, 5), None);
}

#[test]
fn xor_clauses_hold_exactly_on_the_right_parity() {
    for rhs in [false, true] {
        let clauses = xor_clauses(&[0, 1, 2], rhs);
        assert_eq!(clauses.len(), 4);
        for bits in 0u32..8 {
            let model: Vec<bool> = (0..3).map(|t| (bits >> t) & 1 == 1).collect();
            let parity = model.iter().filter(|b| **b).count() % 2 == 1;
            let cnf = DimacsCnf { num_vars: 3, clauses: clauses.clone() };
            assert_eq!(satisfies(&cnf, &model), parity == rhs, "bits {bits:03b}, rhs {rhs}");
        }
    }
}

#[test]
fn structural_budget_default_is_the_quick_triage() {
    let b = lib::factor::StructuralBudget::default();
    assert_eq!((b.trial_limit, b.fermat_iters, b.pminus1_bound, b.rho_iters), (1_000, 3_000, 500, 5_000));
}

#[test]
fn ramsey_with_a_side_of_two_flips_at_the_other_side() {
    for &(s, t) in &[(2usize, 3usize), (2, 4), (3, 2), (4, 2)] {
        let r = ramsey_number(s, t).unwrap();
        assert_eq!(r, s.max(t));
        for n in 2..=r + 1 {
            let (cnf, v) = ramsey(s, t, n);
            assert_eq!(v, if n >= r { ExpectedVerdict::Unsat } else { ExpectedVerdict::Sat });
            decides(&cnf, v);
        }
    }
}

#[test]
fn ramsey_three_three_flips_at_six() {
    for n in 2usize..=7 {
        let (cnf, v) = ramsey(3, 3, n);
        assert_eq!(v, if n >= 6 { ExpectedVerdict::Unsat } else { ExpectedVerdict::Sat });
        decides(&cnf, v);
    }
}

#[test]
fn mod_counting_flips_with_divisibility() {
    for &(n, q) in &[(4usize, 2usize), (5, 2), (6, 3), (7, 3), (6, 2), (8, 4)] {
        let (cnf, v) = mod_counting(n, q);
        assert_eq!(v, if n % q == 0 { ExpectedVerdict::Sat } else { ExpectedVerdict::Unsat });
        decides(&cnf, v);
    }
}

fn gap_colouring(n: usize, red_gaps: &[usize]) -> Vec<bool> {
    let mut model = Vec::new();
    for i in 0..n {
        for j in (i + 1)..n {
            model.push(red_gaps.contains(&(j - i)));
        }
    }
    model
}

#[test]
fn circulant_colourings_witness_the_satisfiable_ramsey_formulas() {
    for &(s, t, n, gaps) in &[
        (3usize, 3usize, 5usize, &[1usize, 4][..]),
        (3, 4, 8, &[1, 4, 7][..]),
        (3, 5, 13, &[1, 5, 8, 12][..]),
        (4, 4, 17, &[1, 2, 4, 8, 9, 13, 15, 16][..]),
    ] {
        let (cnf, v) = ramsey(s, t, n);
        assert_eq!(v, ExpectedVerdict::Sat);
        let model = gap_colouring(n, gaps);
        assert_eq!(model.len(), cnf.num_vars);
        assert!(satisfies(&cnf, &model), "the gap colouring avoids every clique for Ramsey({s},{t};{n})");
    }
}
