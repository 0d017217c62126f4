use lib::engine::{BackwardChainer, ProofGoal};
use lib::error::ProofError;
use lib::expr::{DerivationTree, InferenceRule, ProofExpr, ProofTerm};

fn c(s: &str) -> ProofTerm {
    ProofTerm::Constant(s.to_string())
}
fn p(name: &str, arg: &str) -> ProofExpr {
    ProofExpr::Predicate { name: name.to_string(), args: vec![c(arg)], world: None }
}
fn imp(a: ProofExpr, b: ProofExpr) -> ProofExpr {
    ProofExpr::Implies(Box::new(a), Box::new(b))
}
fn or(a: ProofExpr, b: ProofExpr) -> ProofExpr {
    ProofExpr::Or(Box::new(a), Box::new(b))
}
fn and(a: ProofExpr, b: ProofExpr) -> ProofExpr {
    ProofExpr::And(Box::new(a), Box::new(b))
}
fn not(e: ProofExpr) -> ProofExpr {
    ProofExpr::Not(Box::new(e))
}
fn falsum() -> ProofExpr {
    ProofExpr::Atom("⊥".to_string())
}

/// The test oracle: every node is an instance of its rule and every cited premise is a
/// fact or a hypothesis.
fn valid(kb: &[ProofExpr], hyps: &[ProofExpr], t: &DerivationTree) -> bool {
    let ps = &t.premises;
    let sub = |i: usize| valid(kb, hyps, &ps[i]);
    match &t.rule {
        InferenceRule::PremiseMatch => ps.is_empty() && (kb.contains(&t.conclusion) || hyps.contains(&t.conclusion)),
        InferenceRule::Reflexivity => ps.is_empty() && matches!(&t.conclusion, ProofExpr::Identity(a, b) if a == b),
        InferenceRule::ModusPonens => {
            ps.len() == 2 && ps[0].conclusion == imp(ps[1].conclusion.clone(), t.conclusion.clone()) && sub(0) && sub(1)
        }
        InferenceRule::ConjunctionIntro => {
            ps.len() == 2 && t.conclusion == and(ps[0].conclusion.clone(), ps[1].conclusion.clone()) && sub(0) && sub(1)
        }
        InferenceRule::ConjunctionElim => {
            ps.len() == 1
                && matches!(&ps[0].conclusion, ProofExpr::And(l, r) if **l == t.conclusion || **r == t.conclusion)
                && sub(0)
        }
        InferenceRule::DisjunctionIntro => {
            ps.len() == 1
                && matches!(&t.conclusion, ProofExpr::Or(l, r) if **l == ps[0].conclusion || **r == ps[0].conclusion)
                && sub(0)
        }
        InferenceRule::DisjunctionElim => {
            ps.len() == 2
                && match &ps[0].conclusion {
                    ProofExpr::Or(l, r) => {
                        (ps[1].conclusion == not((**l).clone()) && t.conclusion == **r)
                            || (ps[1].conclusion == not((**r).clone()) && t.conclusion == **l)
                    }
                    _ => false,
                }
                && sub(0)
                && sub(1)
        }
        InferenceRule::DoubleNegation => {
            ps.len() == 1 && t.conclusion == not(not(ps[0].conclusion.clone())) && sub(0)
        }
        InferenceRule::Contradiction => {
            ps.len() == 2 && ps[1].conclusion == not(ps[0].conclusion.clone()) && sub(0) && sub(1)
        }
        InferenceRule::ImpliesIntro => {
            ps.len() == 1
                && match &t.conclusion {
                    ProofExpr::Implies(a, c) => {
                        let mut ext = hyps.to_vec();
                        ext.push((**a).clone());
                        **c == ps[0].conclusion && valid(kb, &ext, &ps[0])
                    }
                    _ => false,
                }
        }
        InferenceRule::BicondIntro => {
            ps.len() == 2
                && match &t.conclusion {
                    ProofExpr::Iff(a, b) => {
                        ps[0].conclusion == imp((**a).clone(), (**b).clone())
                            && ps[1].conclusion == imp((**b).clone(), (**a).clone())
                    }
                    _ => false,
                }
                && sub(0)
                && sub(1)
        }
        InferenceRule::ModusTollens => {
            ps.len() == 2
                && match &ps[0].conclusion {
                    ProofExpr::Implies(a, b) => {
                        ps[1].conclusion == not((**b).clone()) && t.conclusion == not((**a).clone())
                    }
                    _ => false,
                }
                && sub(0)
                && sub(1)
        }
        _ => false,
    }
}

fn engine_with(facts: Vec<ProofExpr>) -> BackwardChainer {
    let mut bc = BackwardChainer::new();
    for f in facts {
        bc.add_axiom(f);
    }
    bc
}

#[test]
fn a_fact_is_cited_as_a_premise() {
    let mut bc = engine_with(vec![p("P", "a")]);
    let t = bc.prove(p("P", "a")).unwrap();
    assert_eq!(t.conclusion, p("P", "a"));
    assert_eq!(t.rule, InferenceRule::PremiseMatch);
    assert!(t.premises.is_empty());
}

#[test]
fn modus_ponens_cites_the_rule_then_its_antecedent() {
    let kb = vec![p("P", "a"), imp(p("P", "a"), p("Q", "a"))];
    let mut bc = engine_with(kb.clone());
    let t = bc.prove(p("Q", "a")).unwrap();
    assert_eq!(t.rule, InferenceRule::ModusPonens);
    assert_eq!(t.premises.len(), 2);
    assert_eq!(t.premises[0].conclusion, imp(p("P", "a"), p("Q", "a")));
    assert_eq!(t.premises[0].rule, InferenceRule::PremiseMatch);
    assert_eq!(t.premises[1].conclusion, p("P", "a"));
    assert_eq!(t.depth, 1);
    assert!(valid(&kb, &[], &t));
}

#[test]
fn chains_of_rules_are_followed() {
    let kb = vec![p("P", "a"), imp(p("P", "a"), p("Q", "a")), imp(p("Q", "a"), p("R", "a"))];
    let mut bc = engine_with(kb.clone());
    let t = bc.prove(p("R", "a")).unwrap();
    assert_eq!(t.conclusion, p("R", "a"));
    assert_eq!(t.depth, 2);
    assert!(valid(&kb, &[], &t));
}

#[test]
fn conjunctions_are_introduced() {
    let kb = vec![p("P", "a"), p("Q", "b")];
    let mut bc = engine_with(kb.clone());
    let t = bc.prove(and(p("P", "a"), p("Q", "b"))).unwrap();
    assert_eq!(t.rule, InferenceRule::ConjunctionIntro);
    assert!(valid(&kb, &[], &t));
}

#[test]
fn a_conjunct_is_projected_from_a_conjunctive_fact() {
    let kb = vec![and(p("P", "a"), and(p("Q", "a"), p("R", "a")))];
    let mut bc = engine_with(kb.clone());
    let t = bc.prove(p("R", "a")).unwrap();
    assert_eq!(t.rule, InferenceRule::ConjunctionElim);
    assert_eq!(t.premises[0].conclusion, and(p("Q", "a"), p("R", "a")));
    assert_eq!(t.premises[0].premises[0].rule, InferenceRule::PremiseMatch);
    assert!(valid(&kb, &[], &t));
}

#[test]
fn a_disjunction_is_introduced_from_either_side() {
    let kb = vec![p("Q", "a")];
    let mut bc = engine_with(kb.clone());
    let t = bc.prove(or(p("P", "a"), p("Q", "a"))).unwrap();
    assert_eq!(t.rule, InferenceRule::DisjunctionIntro);
    assert_eq!(t.premises[0].conclusion, p("Q", "a"));
    assert!(valid(&kb, &[], &t));
}

#[test]
fn a_double_negation_is_introduced() {
    let kb = vec![p("P", "a")];
    let mut bc = engine_with(kb.clone());
    let t = bc.prove(not(not(p("P", "a")))).unwrap();
    assert_eq!(t.rule, InferenceRule::DoubleNegation);
    assert!(valid(&kb, &[], &t));
}

#[test]
fn disjunctive_syllogism_eliminates_the_refuted_side() {
    let kb = vec![or(p("P", "a"), p("Q", "a")), not(p("P", "a"))];
    let mut bc = engine_with(kb.clone());
    let t = bc.prove(p("Q", "a")).unwrap();
    assert_eq!(t.rule, InferenceRule::DisjunctionElim);
    assert_eq!(t.premises[0].conclusion, or(p("P", "a"), p("Q", "a")));
    assert_eq!(t.premises[1].conclusion, not(p("P", "a")));
    assert!(valid(&kb, &[], &t));

    let kb = vec![or(p("P", "a"), p("Q", "a")), not(p("Q", "a"))];
    let mut bc = engine_with(kb.clone());
    let t = bc.prove(p("P", "a")).unwrap();
    assert_eq!(t.premises[1].conclusion, not(p("Q", "a")));
    assert!(valid(&kb, &[], &t));
}

#[test]
fn a_disjunction_inside_a_conjunctive_fact_is_eliminated() {
    let kb = vec![and(p("R", "a"), or(p("P", "a"), p("Q", "a"))), not(p("P", "a"))];
    let mut bc = engine_with(kb.clone());
    let t = bc.prove(p("Q", "a")).unwrap();
    assert_eq!(t.rule, InferenceRule::DisjunctionElim);
    assert_eq!(t.premises[0].rule, InferenceRule::ConjunctionElim);
    assert!(valid(&kb, &[], &t));
}

#[test]
fn the_absurd_goal_is_refuted_from_a_contradiction() {
    let kb = vec![p("P", "a"), not(p("P", "a"))];
    let mut bc = engine_with(kb.clone());
    let t = bc.prove(falsum()).unwrap();
    assert_eq!(t.conclusion, falsum());
    assert_eq!(t.rule, InferenceRule::Contradiction);
    assert_eq!(t.premises[0].conclusion, p("P", "a"));
    assert_eq!(t.premises[1].conclusion, not(p("P", "a")));
    assert!(valid(&kb, &[], &t));

    let mut consistent = engine_with(vec![p("P", "a")]);
    assert!(matches!(consistent.prove(falsum()), Err(ProofError::NoProofFound)));
}

#[test]
fn an_identity_of_equal_sides_holds_by_reflexivity() {
    let mut bc = BackwardChainer::new();
    let t = bc.prove(ProofExpr::Identity(c("a"), c("a"))).unwrap();
    assert_eq!(t.rule, InferenceRule::Reflexivity);
    assert!(bc.prove(ProofExpr::Identity(c("a"), c("b"))).is_err());
}

#[test]
fn an_underivable_goal_is_refused() {
    let mut bc = engine_with(vec![p("P", "a"), imp(p("Q", "a"), p("R", "a"))]);
    assert!(matches!(bc.prove(p("R", "a")), Err(ProofError::NoProofFound)));
    assert!(matches!(bc.prove(p("S", "a")), Err(ProofError::NoProofFound)));
}

#[test]
fn a_self_supporting_rule_does_not_loop() {
    let mut bc = engine_with(vec![imp(p("P", "a"), p("P", "a"))]);
    assert!(matches!(bc.prove(p("P", "a")), Err(ProofError::NoProofFound)));
}

#[test]
fn a_spent_budget_ends_the_search() {
    let mut bc = engine_with(vec![p("P", "a")]);
    bc.set_step_budget(0);
    assert!(matches!(bc.prove(p("P", "a")), Err(ProofError::DepthExceeded)));
    bc.set_step_budget(1);
    assert!(bc.prove(p("P", "a")).is_ok());
}

#[test]
fn the_depth_bound_cuts_off_long_chains() {
    let kb = vec![p("P", "a"), imp(p("P", "a"), p("Q", "a"))];
    let mut bc = engine_with(kb);
    bc.set_max_depth(0);
    assert!(bc.prove(p("Q", "a")).is_err());
    bc.set_max_depth(1);
    assert!(bc.prove(p("Q", "a")).is_ok());
}

#[test]
fn hypotheses_of_the_goal_may_be_cited() {
    let mut bc = engine_with(vec![imp(p("P", "a"), p("Q", "a"))]);
    let goal = ProofGoal::with_context(p("Q", "a"), vec![p("P", "a")]);
    let t = bc.prove_with_goal(goal).unwrap();
    assert!(valid(bc.knowledge_base(), &[p("P", "a")], &t));
    assert!(bc.prove(p("Q", "a")).is_err());
}

#[test]
fn the_knowledge_base_lists_the_axioms_in_order() {
    let bc = engine_with(vec![p("P", "a"), p("Q", "b")]);
    assert_eq!(bc.knowledge_base(), &[p("P", "a"), p("Q", "b")][..]);
    assert!(BackwardChainer::new().knowledge_base().is_empty());
}

#[test]
fn a_proof_stays_valid_after_a_new_fact() {
    let kb = vec![p("P", "a"), imp(p("P", "a"), p("Q", "a"))];
    let mut bc = engine_with(kb.clone());
    let t = bc.prove(p("Q", "a")).unwrap();
    bc.add_axiom(p("Z", "z"));
    assert!(valid(bc.knowledge_base(), &[], &t));
}

fn var(s: &str) -> ProofTerm {
    ProofTerm::Variable(s.to_string())
}
fn pt(name: &str, args: Vec<ProofTerm>) -> ProofExpr {
    ProofExpr::Predicate { name: name.to_string(), args, world: None }
}
fn all_of(v: &str, body: ProofExpr) -> ProofExpr {
    ProofExpr::ForAll { variable: v.to_string(), body: Box::new(body) }
}
fn some_of(v: &str, body: ProofExpr) -> ProofExpr {
    ProofExpr::Exists { variable: v.to_string(), body: Box::new(body) }
}

#[test]
fn a_negated_existential_is_stored_as_a_universal() {
    let bc = engine_with(vec![not(some_of("x", pt("P", vec![var("x")])))]);
    assert_eq!(bc.knowledge_base()[0], all_of("x", not(pt("P", vec![var("x")]))));
}

#[test]
fn a_negated_conjunction_under_a_universal_is_stored_as_a_rule() {
    let bc = engine_with(vec![all_of("x", not(and(pt("P", vec![var("x")]), pt("Q", vec![var("x")]))))]);
    assert_eq!(bc.knowledge_base()[0], all_of("x", imp(pt("P", vec![var("x")]), not(pt("Q", vec![var("x")])))));
}

#[test]
fn an_event_description_is_abstracted_to_a_predicate() {
    let event = some_of(
        "e",
        and(pt("Shave", vec![var("e")]), and(pt("Agent", vec![var("e"), c("barber")]), pt("Theme", vec![var("e"), c("man")]))),
    );
    let mut bc = engine_with(vec![event.clone()]);
    assert_eq!(bc.knowledge_base()[0], pt("shave", vec![c("barber"), c("man")]));
    let t = bc.prove(event).unwrap();
    assert_eq!(t.conclusion, pt("shave", vec![c("barber"), c("man")]));
    // A quantified variable that is not an event variable is left alone.
    let other = some_of("x", pt("Shave", vec![var("x")]));
    let bc = engine_with(vec![other.clone()]);
    assert_eq!(bc.knowledge_base()[0], other);
}

#[test]
fn a_self_identity_is_dropped_from_a_conjunction() {
    let bc = engine_with(vec![and(pt("butler", vec![c("butler")]), p("P", "a"))]);
    assert_eq!(bc.knowledge_base()[0], p("P", "a"));
    let bc = engine_with(vec![and(p("P", "a"), pt("butler", vec![var("butler")]))]);
    assert_eq!(bc.knowledge_base()[0], p("P", "a"));
}

#[test]
fn the_rule_with_a_directly_known_antecedent_is_tried_first() {
    let kb = vec![
        p("S", "a"),
        imp(p("S", "a"), p("P", "a")),
        imp(p("P", "a"), p("G", "a")),
        p("Q", "a"),
        imp(p("Q", "a"), p("G", "a")),
    ];
    let mut bc = engine_with(kb.clone());
    let t = bc.prove(p("G", "a")).unwrap();
    assert_eq!(t.premises[0].conclusion, imp(p("Q", "a"), p("G", "a")));
    assert_eq!(t.premises[1].conclusion, p("Q", "a"));
    assert!(valid(&kb, &[], &t));
}

#[test]
fn errors_read_as_messages() {
    assert_eq!(
        ProofError::NoProofFound.to_text().unwrap(),
        "No proof found: the goal could not be derived from the knowledge base"
    );
    assert_eq!(ProofError::DepthExceeded.to_text().unwrap(), "Proof search exceeded maximum depth limit");
    assert_eq!(
        ProofError::ArityMismatch { expected: 2, found: 13 }.to_text().unwrap(),
        "Arity mismatch: expected 2 arguments, found 13"
    );
    assert_eq!(
        ProofError::SymbolMismatch { left: "f".to_string(), right: "g".to_string() }.to_text().unwrap(),
        "Symbol mismatch: 'f' vs 'g'"
    );
    assert_eq!(
        ProofError::PatternNotDistinct("x".to_string()).to_text().unwrap(),
        "Pattern has duplicate variable 'x': Miller patterns require distinct bound variables"
    );
    assert_eq!(
        ProofError::ScopeViolation { var: "x".to_string(), allowed: vec!["a".to_string(), "b".to_string()] }
            .to_text()
            .unwrap(),
        "Scope violation: variable 'x' not in pattern scope [\"a\", \"b\"]"
    );
    assert_eq!(
        ProofError::ScopeViolation { var: "x".to_string(), allowed: vec![] }.to_text().unwrap(),
        "Scope violation: variable 'x' not in pattern scope []"
    );
    assert!(ProofError::OccursCheck { variable: "x".to_string(), term: c("a") }.to_text().is_none());
}


#[test]
fn an_implication_is_introduced_under_its_antecedent() {
    let kb = vec![imp(p("P", "a"), p("Q", "a")), imp(p("Q", "a"), p("R", "a"))];
    let mut bc = engine_with(kb.clone());
    let t = bc.prove(imp(p("P", "a"), p("R", "a"))).unwrap();
    assert_eq!(t.rule, InferenceRule::ImpliesIntro);
    assert_eq!(t.premises[0].conclusion, p("R", "a"));
    assert!(valid(&kb, &[], &t));
    // Outside the hypothesis the antecedent is not available.
    assert!(bc.prove(p("R", "a")).is_err());
}

#[test]
fn a_biconditional_is_introduced_from_both_directions() {
    let kb = vec![imp(p("P", "a"), p("Q", "a")), imp(p("Q", "a"), p("P", "a"))];
    let mut bc = engine_with(kb.clone());
    let t = bc.prove(ProofExpr::Iff(Box::new(p("P", "a")), Box::new(p("Q", "a")))).unwrap();
    assert_eq!(t.rule, InferenceRule::BicondIntro);
    assert_eq!(t.premises[0].rule, InferenceRule::PremiseMatch);
    assert!(valid(&kb, &[], &t));
}

#[test]
fn modus_tollens_refutes_the_antecedent() {
    let kb = vec![imp(p("P", "a"), p("Q", "a")), not(p("Q", "a"))];
    let mut bc = engine_with(kb.clone());
    let t = bc.prove(not(p("P", "a"))).unwrap();
    assert_eq!(t.rule, InferenceRule::ModusTollens);
    assert_eq!(t.premises[0].conclusion, imp(p("P", "a"), p("Q", "a")));
    assert_eq!(t.premises[1].conclusion, not(p("Q", "a")));
    assert!(valid(&kb, &[], &t));

    let kb = vec![imp(p("P", "a"), p("Q", "a")), imp(p("Q", "a"), p("R", "a")), not(p("R", "a"))];
    let mut bc = engine_with(kb.clone());
    let t = bc.prove(not(p("P", "a"))).unwrap();
    assert_eq!(t.rule, InferenceRule::ModusTollens);
    assert_eq!(t.premises[1].rule, InferenceRule::ModusTollens);
    assert!(valid(&kb, &[], &t));
}
