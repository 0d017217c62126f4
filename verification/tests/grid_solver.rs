use lib::expr::{DerivationTree, InferenceRule, ProofExpr, ProofTerm};
use lib::grid_solver::{
    conj_elim, conj_intro, contradiction, disjunction_cases, disjunction_elim, eq_sym, grid_prove, leaf, modus_ponens,
    reductio,
};

// ---------------------------------------------------------------------------
// Builders
// ---------------------------------------------------------------------------

fn c(s: &str) -> ProofTerm {
    ProofTerm::Constant(s.to_string())
}
fn v(s: &str) -> ProofTerm {
    ProofTerm::Variable(s.to_string())
}
fn pred(name: &str, args: Vec<ProofTerm>) -> ProofExpr {
    ProofExpr::Predicate { name: name.to_string(), args, world: None }
}
fn imp(a: ProofExpr, b: ProofExpr) -> ProofExpr {
    ProofExpr::Implies(Box::new(a), Box::new(b))
}
fn or(a: ProofExpr, b: ProofExpr) -> ProofExpr {
    ProofExpr::Or(Box::new(a), Box::new(b))
}
fn and(a: ProofExpr, b: ProofExpr) -> ProofExpr {
    ProofExpr::And(Box::new(a), Box::new(b))
}
fn not(e: ProofExpr) -> ProofExpr {
    ProofExpr::Not(Box::new(e))
}
fn id(a: ProofTerm, b: ProofTerm) -> ProofExpr {
    ProofExpr::Identity(a, b)
}
fn all_of(var: &str, body: ProofExpr) -> ProofExpr {
    ProofExpr::ForAll { variable: var.to_string(), body: Box::new(body) }
}
fn some_of(var: &str, body: ProofExpr) -> ProofExpr {
    ProofExpr::Exists { variable: var.to_string(), body: Box::new(body) }
}
fn falsum_atom() -> ProofExpr {
    ProofExpr::Atom("⊥".to_string())
}

// ---------------------------------------------------------------------------
// A natural-deduction checker for the emitted trees (the test oracle)
// ---------------------------------------------------------------------------

/// A fact makes itself and each of its (nested) conjuncts available.
fn add_available(e: &ProofExpr, out: &mut Vec<ProofExpr>) {
    out.push(e.clone());
    if let ProofExpr::And(l, r) = e {
        add_available(l, out);
        add_available(r, out);
    }
}

fn with_hypothesis(avail: &[ProofExpr], h: &ProofExpr) -> Vec<ProofExpr> {
    let mut out = avail.to_vec();
    add_available(h, &mut out);
    out
}

fn check(t: &DerivationTree, avail: &[ProofExpr]) -> Result<(), String> {
    let ps = &t.premises;
    let concl = &t.conclusion;
    let arity = |n: usize| {
        if ps.len() == n {
            Ok(())
        } else {
            Err(format!("{:?} expects {} premises, got {}", t.rule, n, ps.len()))
        }
    };
    match t.rule {
        InferenceRule::PremiseMatch => {
            arity(0)?;
            if avail.iter().any(|a| a == concl) {
                Ok(())
            } else {
                Err(format!("{:?} is neither a premise nor a hypothesis", concl))
            }
        }
        InferenceRule::ModusPonens => {
            arity(2)?;
            check(&ps[0], avail)?;
            check(&ps[1], avail)?;
            match &ps[0].conclusion {
                ProofExpr::Implies(a, b) if **a == ps[1].conclusion && **b == *concl => Ok(()),
                other => Err(format!("bad modus ponens: {:?} with {:?}", other, ps[1].conclusion)),
            }
        }
        InferenceRule::DisjunctionElim => {
            arity(2)?;
            check(&ps[0], avail)?;
            check(&ps[1], avail)?;
            match &ps[0].conclusion {
                ProofExpr::Or(a, b) => {
                    let n = &ps[1].conclusion;
                    if (*n == not((**a).clone()) && **b == *concl) || (*n == not((**b).clone()) && **a == *concl) {
                        Ok(())
                    } else {
                        Err(format!("bad disjunctive syllogism on {:?}", ps[0].conclusion))
                    }
                }
                other => Err(format!("disjunction elimination from a non-disjunction {:?}", other)),
            }
        }
        InferenceRule::ConjunctionIntro => {
            arity(2)?;
            check(&ps[0], avail)?;
            check(&ps[1], avail)?;
            if *concl == and(ps[0].conclusion.clone(), ps[1].conclusion.clone()) {
                Ok(())
            } else {
                Err("bad conjunction introduction".to_string())
            }
        }
        InferenceRule::ConjunctionElim => {
            arity(1)?;
            check(&ps[0], avail)?;
            match &ps[0].conclusion {
                ProofExpr::And(a, b) if **a == *concl || **b == *concl => Ok(()),
                other => Err(format!("bad conjunction elimination from {:?}", other)),
            }
        }
        InferenceRule::Contradiction => {
            arity(2)?;
            check(&ps[0], avail)?;
            check(&ps[1], avail)?;
            let (p, q) = (&ps[0].conclusion, &ps[1].conclusion);
            if *concl == falsum_atom() && (*q == not(p.clone()) || *p == not(q.clone())) {
                Ok(())
            } else {
                Err(format!("bad contradiction between {:?} and {:?}", p, q))
            }
        }
        InferenceRule::ReductioAdAbsurdum => {
            arity(2)?;
            let assumed = match concl {
                ProofExpr::Not(a) => (**a).clone(),
                _ => return Err("reductio must conclude a negation".to_string()),
            };
            if ps[0].rule != InferenceRule::PremiseMatch || !ps[0].premises.is_empty() || ps[0].conclusion != assumed {
                return Err("reductio must first cite its assumption".to_string());
            }
            if ps[1].conclusion != falsum_atom() {
                return Err("reductio must derive ⊥".to_string());
            }
            check(&ps[1], &with_hypothesis(avail, &assumed))
        }
        InferenceRule::EqualitySymmetry => {
            arity(1)?;
            check(&ps[0], avail)?;
            match (&ps[0].conclusion, concl) {
                (ProofExpr::Identity(a, b), ProofExpr::Identity(x, y)) if a == y && b == x => Ok(()),
                _ => Err("bad equality symmetry".to_string()),
            }
        }
        InferenceRule::DisjunctionCases => {
            arity(3)?;
            check(&ps[0], avail)?;
            match &ps[0].conclusion {
                ProofExpr::Or(a, b) => {
                    if ps[1].conclusion != *concl || ps[2].conclusion != *concl {
                        return Err("case branches must reach the common conclusion".to_string());
                    }
                    check(&ps[1], &with_hypothesis(avail, a))?;
                    check(&ps[2], &with_hypothesis(avail, b))
                }
                other => Err(format!("case analysis on a non-disjunction {:?}", other)),
            }
        }
        _ => Err(format!("{:?} is not a rule the grid solver emits", t.rule)),
    }
}

struct Verified {
    verified: bool,
    verification_error: Option<String>,
}

/// Check that `tree` derives `goal` from `premises`.
fn verify(premises: &[ProofExpr], goal: &ProofExpr, tree: DerivationTree) -> Verified {
    let mut avail = Vec::new();
    for p in premises {
        add_available(p, &mut avail);
    }
    let res = if tree.conclusion != *goal {
        Err(format!("the tree concludes {:?}, not the goal {:?}", tree.conclusion, goal))
    } else {
        check(&tree, &avail)
    };
    Verified { verified: res.is_ok(), verification_error: res.err() }
}

// ---------------------------------------------------------------------------
// Grounding over the named constants (test-side preparation of quantified premises)
// ---------------------------------------------------------------------------

fn term_constants(t: &ProofTerm, out: &mut Vec<String>) {
    match t {
        ProofTerm::Constant(s) => {
            if !out.contains(s) {
                out.push(s.clone());
            }
        }
        ProofTerm::Function(_, args) | ProofTerm::Group(args) => args.iter().for_each(|a| term_constants(a, out)),
        _ => {}
    }
}

fn expr_constants(e: &ProofExpr, out: &mut Vec<String>) {
    match e {
        ProofExpr::Predicate { args, .. } => args.iter().for_each(|a| term_constants(a, out)),
        ProofExpr::Identity(a, b) => {
            term_constants(a, out);
            term_constants(b, out);
        }
        ProofExpr::Not(x) => expr_constants(x, out),
        ProofExpr::And(l, r) | ProofExpr::Or(l, r) | ProofExpr::Implies(l, r) | ProofExpr::Iff(l, r) => {
            expr_constants(l, out);
            expr_constants(r, out);
        }
        ProofExpr::ForAll { body, .. } | ProofExpr::Exists { body, .. } => expr_constants(body, out),
        ProofExpr::Atom(_) => {}
    }
}

fn subst_term(t: &ProofTerm, var: &str, k: &str) -> ProofTerm {
    match t {
        ProofTerm::Variable(s) if s == var => c(k),
        ProofTerm::Function(f, args) => ProofTerm::Function(f.clone(), args.iter().map(|a| subst_term(a, var, k)).collect()),
        ProofTerm::Group(args) => ProofTerm::Group(args.iter().map(|a| subst_term(a, var, k)).collect()),
        other => other.clone(),
    }
}

fn subst(e: &ProofExpr, var: &str, k: &str) -> ProofExpr {
    let b = |x: &ProofExpr| Box::new(subst(x, var, k));
    match e {
        ProofExpr::Predicate { name, args, world } => ProofExpr::Predicate {
            name: name.clone(),
            args: args.iter().map(|a| subst_term(a, var, k)).collect(),
            world: world.clone(),
        },
        ProofExpr::Identity(x, y) => ProofExpr::Identity(subst_term(x, var, k), subst_term(y, var, k)),
        ProofExpr::Not(x) => ProofExpr::Not(b(x)),
        ProofExpr::And(l, r) => ProofExpr::And(b(l), b(r)),
        ProofExpr::Or(l, r) => ProofExpr::Or(b(l), b(r)),
        ProofExpr::Implies(l, r) => ProofExpr::Implies(b(l), b(r)),
        ProofExpr::Iff(l, r) => ProofExpr::Iff(b(l), b(r)),
        ProofExpr::ForAll { variable, body } if variable != var => {
            ProofExpr::ForAll { variable: variable.clone(), body: b(body) }
        }
        ProofExpr::Exists { variable, body } if variable != var => {
            ProofExpr::Exists { variable: variable.clone(), body: b(body) }
        }
        other => other.clone(),
    }
}

/// Replace each quantifier by the conjunction (`∀`) or disjunction (`∃`) of its instances over
/// `consts`.
fn ground(e: &ProofExpr, consts: &[String]) -> ProofExpr {
    let b = |x: &ProofExpr| Box::new(ground(x, consts));
    match e {
        ProofExpr::ForAll { variable, body } | ProofExpr::Exists { variable, body } => {
            let universal = matches!(e, ProofExpr::ForAll { .. });
            let mut inst = consts.iter().map(|k| ground(&subst(body, variable, k), consts));
            let first = inst.next().expect("grounding needs a constant");
            inst.fold(first, |acc, x| if universal { and(acc, x) } else { or(acc, x) })
        }
        ProofExpr::Not(x) => ProofExpr::Not(b(x)),
        ProofExpr::And(l, r) => ProofExpr::And(b(l), b(r)),
        ProofExpr::Or(l, r) => ProofExpr::Or(b(l), b(r)),
        ProofExpr::Implies(l, r) => ProofExpr::Implies(b(l), b(r)),
        ProofExpr::Iff(l, r) => ProofExpr::Iff(b(l), b(r)),
        other => other.clone(),
    }
}

fn ground_problem(premises: &[ProofExpr], goal: &ProofExpr) -> (Vec<ProofExpr>, ProofExpr) {
    let mut consts = Vec::new();
    premises.iter().for_each(|p| expr_constants(p, &mut consts));
    expr_constants(goal, &mut consts);
    (premises.iter().map(|p| ground(p, &consts)).collect(), ground(goal, &consts))
}

/// For each uniqueness premise `∃x(φ(x) ∧ ∀y(φ(y) → y = x))`, the at-most-one lemma
/// `∀x∀y((φ(x) ∧ φ(y)) → x = y)`.
fn at_most_one_lemmas(premises: &[ProofExpr]) -> Vec<ProofExpr> {
    let mut out = Vec::new();
    for p in premises {
        if let ProofExpr::Exists { variable: x, body } = p {
            if let ProofExpr::And(phi_x, rest) = &**body {
                if let ProofExpr::ForAll { variable: y, body: inner } = &**rest {
                    if let ProofExpr::Implies(phi_y, _) = &**inner {
                        out.push(all_of(
                            x,
                            all_of(y, imp(and((**phi_x).clone(), (**phi_y).clone()), id(v(x), v(y)))),
                        ));
                    }
                }
            }
        }
    }
    out
}

fn count_rule(t: &DerivationTree, rule_dbg: &str) -> usize {
    let here = usize::from(format!("{:?}", t.rule).starts_with(rule_dbg));
    here + t.premises.iter().map(|c| count_rule(c, rule_dbg)).sum::<usize>()
}

// ---------------------------------------------------------------------------
// The emitter's tree shapes
// ---------------------------------------------------------------------------

#[test]
fn modus_ponens_shape_certifies() {
    let p = pred("P", vec![c("Obj")]);
    let q = pred("Q", vec![c("Obj")]);
    let premises = vec![p.clone(), imp(p.clone(), q.clone())];
    let tree = modus_ponens(q.clone(), leaf(imp(p.clone(), q.clone())), leaf(p));
    let r = verify(&premises, &q, tree);
    assert!(r.verified, "ModusPonens shape must certify; err: {:?}", r.verification_error);
}

#[test]
fn disjunction_elim_shape_certifies() {
    let p = pred("P", vec![c("Obj")]);
    let q = pred("Q", vec![c("Obj")]);
    let premises = vec![or(p.clone(), q.clone()), not(p.clone())];
    let tree = disjunction_elim(q.clone(), leaf(or(p.clone(), q.clone())), leaf(not(p)));
    let r = verify(&premises, &q, tree);
    assert!(r.verified, "DisjunctionElim shape must certify; err: {:?}", r.verification_error);
}

#[test]
fn two_value_grid_cell_handbuilt_certifies() {
    let trip = |t: ProofTerm| pred("Trip", vec![t]);
    let in_ = |t: ProofTerm, s: ProofTerm| pred("In", vec![t, s]);
    let fl = || c("Florida");
    let me_ = || c("Maine");

    let closure_beta = imp(trip(c("Beta")), or(in_(c("Beta"), fl()), in_(c("Beta"), me_())));
    let amo_beta_alpha = imp(
        and(and(trip(c("Beta")), in_(c("Beta"), fl())), and(trip(c("Alpha")), in_(c("Alpha"), fl()))),
        id(c("Beta"), c("Alpha")),
    );
    let premises = vec![
        trip(c("Alpha")),
        trip(c("Beta")),
        not(id(c("Alpha"), c("Beta"))),
        closure_beta.clone(),
        amo_beta_alpha.clone(),
        in_(c("Alpha"), fl()),
    ];
    let goal = in_(c("Beta"), me_());

    let ante = conj_intro(
        and(trip(c("Beta")), in_(c("Beta"), fl())),
        and(trip(c("Alpha")), in_(c("Alpha"), fl())),
        conj_intro(trip(c("Beta")), in_(c("Beta"), fl()), leaf(trip(c("Beta"))), leaf(in_(c("Beta"), fl()))),
        conj_intro(trip(c("Alpha")), in_(c("Alpha"), fl()), leaf(trip(c("Alpha"))), leaf(in_(c("Alpha"), fl()))),
    );
    let beta_eq_alpha = modus_ponens(id(c("Beta"), c("Alpha")), leaf(amo_beta_alpha), ante);
    let alpha_eq_beta = eq_sym(c("Beta"), c("Alpha"), beta_eq_alpha);
    let contra = contradiction(alpha_eq_beta, leaf(not(id(c("Alpha"), c("Beta")))));
    let neg_in_beta_fl = reductio(in_(c("Beta"), fl()), contra);

    let beta_disj = modus_ponens(
        or(in_(c("Beta"), fl()), in_(c("Beta"), me_())),
        leaf(closure_beta),
        leaf(trip(c("Beta"))),
    );
    let tree = disjunction_elim(in_(c("Beta"), me_()), beta_disj, neg_in_beta_fl);

    let r = verify(&premises, &goal, tree);
    assert!(r.verified, "hand-built 2-value grid cell must certify; err: {:?}", r.verification_error);
}

// ---------------------------------------------------------------------------
// The solver propagates and emits the tree itself
// ---------------------------------------------------------------------------

#[test]
fn two_value_grid_propagates_and_certifies() {
    let trip = |t: ProofTerm| pred("Trip", vec![t]);
    let in_ = |t: ProofTerm, s: ProofTerm| pred("In", vec![t, s]);
    let fl = || c("Florida");
    let me_ = || c("Maine");
    let closure = all_of("x", imp(trip(v("x")), or(in_(v("x"), fl()), in_(v("x"), me_()))));
    let exactly_one_fl = all_of(
        "x",
        all_of(
            "y",
            imp(
                and(and(trip(v("x")), in_(v("x"), fl())), and(trip(v("y")), in_(v("y"), fl()))),
                id(v("x"), v("y")),
            ),
        ),
    );
    let premises = vec![
        trip(c("Alpha")),
        trip(c("Beta")),
        not(id(c("Alpha"), c("Beta"))),
        closure,
        exactly_one_fl,
        in_(c("Alpha"), fl()),
    ];
    let goal = in_(c("Beta"), me_());
    let (gp, gg) = ground_problem(&premises, &goal);
    let tree = grid_prove(&gp, &gg).expect("2-value cell must be forced by propagation");
    let r = verify(&gp, &gg, tree);
    assert!(r.verified, "solver-emitted 2-value proof must certify; err: {:?}", r.verification_error);
}

#[test]
fn multi_category_grid_propagates_and_certifies() {
    let trips = ["Alpha", "Beta", "Gamma", "Delta"];
    let neq = |a: &str, b: &str| not(id(c(a), c(b)));
    let mut premises: Vec<ProofExpr> = Vec::new();
    let category = |rel: &str, vals: &[&str], out: &mut Vec<ProofExpr>| {
        for t in trips {
            let mut it = vals.iter().map(|val| pred(rel, vec![c(t), c(val)]));
            let first = it.next().unwrap();
            out.push(it.fold(first, or));
        }
        for val in vals {
            for (i, t) in trips.iter().enumerate() {
                for u in &trips[i + 1..] {
                    out.push(imp(
                        and(pred(rel, vec![c(t), c(val)]), pred(rel, vec![c(u), c(val)])),
                        id(c(t), c(u)),
                    ));
                }
            }
        }
    };
    for (i, t) in trips.iter().enumerate() {
        for u in &trips[i + 1..] {
            premises.push(neq(t, u));
        }
    }
    category("In", &["2001", "2002", "2003", "2004"], &mut premises);
    category("In", &["CT", "FL", "KY", "ME"], &mut premises);
    category("With", &["Bill", "Lillie", "Neal", "Yvonne"], &mut premises);
    premises.push(pred("In", vec![c("Alpha"), c("FL")]));
    premises.push(pred("In", vec![c("Beta"), c("KY")]));
    premises.push(pred("In", vec![c("Gamma"), c("CT")]));
    let goal = pred("In", vec![c("Delta"), c("ME")]);
    let tree = grid_prove(&premises, &goal).expect("Delta→ME must be forced by propagation");
    let r = verify(&premises, &goal, tree);
    assert!(r.verified, "solver-emitted multi-category proof must certify; err: {:?}", r.verification_error);
}

// ---------------------------------------------------------------------------
// Decision search over compound clauses
// ---------------------------------------------------------------------------

#[test]
fn of_pair_forces_cell_certifies() {
    let in_fl = |t: &str| pred("In", vec![c(t), c("FL")]);
    let amo = |t: &str, u: &str| imp(and(in_fl(t), in_fl(u)), id(c(t), c(u)));
    let of_pair = or(
        and(in_fl("A"), pred("With", vec![c("B"), c("Neal")])),
        and(in_fl("B"), pred("With", vec![c("A"), c("Neal")])),
    );
    let premises = vec![
        of_pair,
        amo("A", "C"),
        amo("B", "C"),
        not(id(c("A"), c("C"))),
        not(id(c("B"), c("C"))),
        not(id(c("A"), c("B"))),
    ];
    let goal = not(in_fl("C"));
    let tree = grid_prove(&premises, &goal).expect("of-pair must force ¬In(C,FL)");
    let r = verify(&premises, &goal, tree);
    assert!(r.verified, "solver-emitted of-pair proof must certify; err: {:?}", r.verification_error);
}

#[test]
fn compound_of_pair_resolves_certifies() {
    let a = pred("A", vec![c("Obj")]);
    let p = pred("P", vec![c("Obj")]);
    let q = pred("Q", vec![c("Obj")]);
    let bad = pred("Bad", vec![c("Obj")]);
    let cc = pred("C", vec![c("Obj")]);
    let rr = pred("R", vec![c("Obj")]);
    let of_pair = or(and(a, or(p.clone(), q.clone())), and(bad.clone(), cc));
    let premises = vec![of_pair, not(bad), imp(p, not(rr.clone())), imp(q, not(rr.clone()))];
    let goal = not(rr);
    let tree = grid_prove(&premises, &goal).expect("compound of-pair must force ¬R");
    let r = verify(&premises, &goal, tree);
    assert!(r.verified, "solver-emitted compound of-pair proof must certify; err: {:?}", r.verification_error);
}

#[test]
fn compound_clause_unit_propagates_linearly() {
    let o = || c("Obj");
    let p = pred("P", vec![o()]);
    let q = pred("Q", vec![o()]);
    let r = pred("R", vec![o()]);
    let s = pred("S", vec![o()]);
    let clause = or(and(p.clone(), q.clone()), and(r.clone(), s.clone()));
    let premises = vec![clause, not(r)];
    let tree = grid_prove(&premises, &p).expect("P must be forced by compound-clause propagation");
    assert_eq!(
        count_rule(&tree, "DisjunctionCases"),
        0,
        "compound-clause propagation must emit a LINEAR proof (no DisjunctionCases)"
    );
    let res = verify(&premises, &p, tree);
    assert!(res.verified, "linear compound-clause proof must certify; err: {:?}", res.verification_error);
}

#[test]
fn studio_simon_two_category_certifies() {
    let trip = |t: ProofTerm| pred("Trip", vec![t]);
    let in_ = |t: ProofTerm, s: ProofTerm| pred("In", vec![t, s]);
    let exactly_one = |val: &str| {
        let phi = |t: ProofTerm| and(trip(t.clone()), in_(t, c(val)));
        some_of("x", and(phi(v("x")), all_of("y", imp(phi(v("y")), id(v("y"), v("x"))))))
    };
    let mut premises = vec![
        trip(c("Alpha")),
        trip(c("Beta")),
        not(id(c("Alpha"), c("Beta"))),
        all_of("x", imp(trip(v("x")), or(in_(v("x"), c("2003")), in_(v("x"), c("2004"))))),
        all_of("x", imp(trip(v("x")), or(in_(v("x"), c("Florida")), in_(v("x"), c("Maine"))))),
        exactly_one("2003"),
        exactly_one("Florida"),
        in_(c("Alpha"), c("2003")),
        in_(c("Alpha"), c("Florida")),
    ];
    let goal = in_(c("Beta"), c("Maine"));
    premises.extend(at_most_one_lemmas(&premises));
    let (prepared, _) = ground_problem(&premises, &goal);
    let tree = grid_prove(&prepared, &goal).expect("studio Simon must solve by propagation");
    let r = verify(&prepared, &goal, tree);
    assert!(r.verified, "studio Simon (2-category) must certify via grid_solver; err: {:?}", r.verification_error);
}

// ---------------------------------------------------------------------------
// Further cases
// ---------------------------------------------------------------------------

#[test]
fn grid_prove_refuses_a_goal_that_is_not_a_literal() {
    let p = pred("P", vec![c("Obj")]);
    let q = pred("Q", vec![c("Obj")]);
    let premises = vec![p.clone(), q.clone()];
    assert!(grid_prove(&premises, &and(p, q)).is_none());
}

#[test]
fn grid_prove_fails_when_the_premises_conflict_at_the_root() {
    let p = pred("P", vec![c("Obj")]);
    let q = pred("Q", vec![c("Obj")]);
    let premises = vec![p.clone(), imp(p.clone(), q.clone()), not(q.clone())];
    assert!(grid_prove(&premises, &p).is_none());
}

#[test]
fn grid_prove_does_not_claim_an_unforced_cell() {
    let p = pred("P", vec![c("Obj")]);
    let q = pred("Q", vec![c("Obj")]);
    let premises = vec![or(p.clone(), q.clone())];
    assert!(grid_prove(&premises, &p).is_none());
    assert!(grid_prove(&premises, &not(p)).is_none());
}

#[test]
fn grid_prove_aligns_a_reversed_identity() {
    // The premise states `b = a`; the goal asks for `a = b`: the same atom, re-oriented by symmetry.
    let premises = vec![id(c("B"), c("A"))];
    let goal = id(c("A"), c("B"));
    let tree = grid_prove(&premises, &goal).expect("a premise identity proves its mirror");
    assert_eq!(tree.rule, InferenceRule::EqualitySymmetry);
    let r = verify(&premises, &goal, tree);
    assert!(r.verified, "err: {:?}", r.verification_error);
}

#[test]
fn grid_prove_proves_a_negative_cell_by_exclusion() {
    let p = pred("P", vec![c("Obj")]);
    let q = pred("Q", vec![c("Obj")]);
    let premises = vec![imp(p.clone(), q.clone()), not(q)];
    let goal = not(p);
    let tree = grid_prove(&premises, &goal).expect("modus tollens forces ¬P");
    assert_eq!(tree.rule, InferenceRule::ReductioAdAbsurdum);
    let r = verify(&premises, &goal, tree);
    assert!(r.verified, "err: {:?}", r.verification_error);
}

#[test]
fn grid_prove_proves_a_positive_cell_by_closure_search() {
    // P ∨ Q with Q → (A ∨ B), A → S, B → S and ¬S: propagation alone leaves P open, but assuming
    // Q fires the disjunctive rule into a clause whose disjuncts are both excluded.
    let p = pred("P", vec![c("Obj")]);
    let q = pred("Q", vec![c("Obj")]);
    let a = pred("A", vec![c("Obj")]);
    let b = pred("B", vec![c("Obj")]);
    let s = pred("S", vec![c("Obj")]);
    let premises = vec![
        or(p.clone(), q.clone()),
        imp(q.clone(), or(a.clone(), b.clone())),
        imp(a, s.clone()),
        imp(b, s.clone()),
        not(s),
    ];
    let tree = grid_prove(&premises, &p).expect("P is forced");
    assert_eq!(tree.rule, InferenceRule::DisjunctionElim);
    let res = verify(&premises, &p, tree);
    assert!(res.verified, "err: {:?}", res.verification_error);
    assert!(grid_prove(&premises, &q).is_none());
}

#[test]
fn tree_constructors_build_the_stated_shapes() {
    let p = pred("P", vec![c("Obj")]);
    let q = pred("Q", vec![c("Obj")]);
    let t = disjunction_cases(falsum_atom(), leaf(or(p.clone(), q.clone())), leaf(falsum_atom()), leaf(falsum_atom()));
    assert_eq!(t.rule, InferenceRule::DisjunctionCases);
    assert_eq!(t.premises.len(), 3);
    assert_eq!(t.depth, 1);
    let e = conj_elim(p.clone(), leaf(and(p.clone(), q.clone())));
    assert_eq!(e.conclusion, p);
    assert_eq!(e.premises[0].conclusion, and(p.clone(), q));
    let r = reductio(p.clone(), leaf(falsum_atom()));
    assert_eq!(r.conclusion, not(p.clone()));
    assert_eq!(r.premises[0].conclusion, p);
    assert_eq!(r.depth, 1);
}

#[test]
fn literal_premise_goal_is_proved() {
    let premises = vec![
        or(pred("In", vec![c("Alpha"), c("FL")]), pred("In", vec![c("Alpha"), c("KY")])),
        not(pred("In", vec![c("Beta"), c("FL")])),
        pred("In", vec![c("Gamma"), c("CT")]),
    ];
    let goal = not(pred("In", vec![c("Beta"), c("FL")]));
    let tree = grid_prove(&premises, &goal).expect("a literal premise must be proved");
    let r = verify(&premises, &goal, tree);
    assert!(r.verified, "citing a premise must certify; err: {:?}", r.verification_error);
    let goal2 = pred("In", vec![c("Gamma"), c("CT")]);
    assert!(grid_prove(&premises, &goal2).is_some());
}

#[test]
fn the_negation_of_a_premise_is_refused() {
    let pa = pred("P", vec![c("A")]);
    let qa = pred("Q", vec![c("A")]);
    let premises = vec![pa.clone()];
    assert!(grid_prove(&premises, &not(pa.clone())).is_none());
    assert!(grid_prove(&premises, &qa).is_none());
    let t = grid_prove(&premises, &pa).expect("a premise is proved");
    assert_eq!(format!("{:?}", t.conclusion), format!("{:?}", pa));
    assert_eq!(t.rule, InferenceRule::PremiseMatch);
}

#[test]
fn a_rule_fires_by_modus_ponens() {
    let pa = pred("P", vec![c("A")]);
    let qa = pred("Q", vec![c("A")]);
    let premises = vec![pa.clone(), imp(pa.clone(), qa.clone())];
    let t = grid_prove(&premises, &qa).expect("the consequent is forced");
    assert_eq!(format!("{:?}", t.conclusion), format!("{:?}", qa));
    assert_eq!(t.rule, InferenceRule::ModusPonens);
    assert_eq!(t.premises.len(), 2);
    assert_eq!(t.premises[0].rule, InferenceRule::PremiseMatch);
    assert_eq!(format!("{:?}", t.premises[1].conclusion), format!("{:?}", pa));
}
