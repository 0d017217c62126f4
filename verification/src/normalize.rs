//! The normal form the prover works in: event descriptions abstracted to plain
//! predicates, negated existentials turned into universals, and tautological
//! self-identities dropped from conjunctions.

use vstd::prelude::*;
use crate::expr::{copy_expr, copy_string, copy_term, same_string, Expr, ProofExpr, ProofTerm, Term};
use crate::formula::{lowercase, to_lowercase};
use crate::grid_solver::{and_leaves, exprs_view, flatten_and};

verus! {

/// The number of connectives and leaves in an expression.
pub open spec fn expr_size(e: Expr) -> nat
    decreases e,
{
    match e {
        Expr::Not(x) => 1 + expr_size(*x),
        Expr::And(l, r) => 1 + expr_size(*l) + expr_size(*r),
        Expr::Or(l, r) => 1 + expr_size(*l) + expr_size(*r),
        Expr::Implies(l, r) => 1 + expr_size(*l) + expr_size(*r),
        Expr::Iff(l, r) => 1 + expr_size(*l) + expr_size(*r),
        Expr::ForAll { body, .. } => 1 + expr_size(*body),
        Expr::Exists { body, .. } => 1 + expr_size(*body),
        _ => 1,
    }
}

/// Whether a variable name is an event variable: `e`, `e_…`, or `e` and one digit.
pub open spec fn is_event_var(v: Seq<char>) -> bool {
    ||| v == seq!['e']
    ||| (v.len() >= 2 && v[0] == 'e' && v[1] == '_')
    ||| (v.len() == 2 && v[0] == 'e' && '0' <= v[1] && v[1] <= '9')
}

/// Whether the term is the event variable `ev`.
pub open spec fn names_event(t: Term, ev: Seq<char>) -> bool {
    t == Term::Variable(ev) || t == Term::BoundVarRef(ev)
}

/// The verb, agent and theme that the event predicates among `comps` name: an
/// `Agent(ev, x)` or `Theme(ev, y)`/`Patient(ev, y)` sets its role (the last one
/// counts), and the first other one-place predicate of `ev` is the verb.
pub open spec fn event_roles(comps: Seq<Expr>, ev: Seq<char>) -> (Option<Seq<char>>, Option<Term>, Option<Term>)
    decreases comps.len(),
{
    if comps.len() == 0 {
        (None, None, None)
    } else {
        let prev = event_roles(comps.drop_last(), ev);
        match comps.last() {
            Expr::Predicate { name, args, .. } => {
                if args.len() >= 1 && names_event(args[0], ev) {
                    if name == seq!['A', 'g', 'e', 'n', 't'] && args.len() == 2 {
                        (prev.0, Some(args[1]), prev.2)
                    } else if (name == seq!['T', 'h', 'e', 'm', 'e'] || name == seq!['P', 'a', 't', 'i', 'e', 'n', 't'])
                        && args.len() == 2 {
                        (prev.0, prev.1, Some(args[1]))
                    } else if args.len() == 1 && prev.0 is None {
                        (Some(name), prev.1, prev.2)
                    } else {
                        prev
                    }
                } else {
                    prev
                }
            },
            _ => prev,
        }
    }
}

/// The terms of an optional role.
pub open spec fn role_args(r: Option<Term>) -> Seq<Term> {
    match r {
        Some(t) => seq![t],
        None => Seq::empty(),
    }
}

/// The plain predicate an event conjunction over `ev` stands for: the verb, lowercased,
/// applied to the agent and then the theme.
pub open spec fn event_predicate(ev: Seq<char>, body: Expr) -> Option<Expr> {
    let roles = event_roles(and_leaves(body), ev);
    match roles.0 {
        Some(verb) => Some(Expr::Predicate { name: lowercase(verb), args: role_args(roles.1) + role_args(roles.2), world: None }),
        None => None,
    }
}

/// The plain predicate an event quantification `∃ev. …` stands for, if any.
pub open spec fn event_abstraction(e: Expr) -> Option<Expr>
    decreases e,
{
    match e {
        Expr::Exists { variable, body } => {
            if !is_event_var(variable) {
                None
            } else {
                match event_abstraction(*body) {
                    Some(a) => Some(a),
                    None => event_predicate(variable, *body),
                }
            }
        },
        _ => None,
    }
}

/// Event abstraction throughout an expression, with `¬∃x.P` read as `∀x.¬P` and
/// `∀x.¬(P ∧ Q)` as `∀x.(P → ¬Q)`: the form in which facts are stored.
pub open spec fn abstract_all(e: Expr) -> Expr
    decreases expr_size(e),
{
    match event_abstraction(e) {
        Some(a) => a,
        None => match e {
            Expr::And(l, r) => Expr::And(Box::new(abstract_all(*l)), Box::new(abstract_all(*r))),
            Expr::Or(l, r) => Expr::Or(Box::new(abstract_all(*l)), Box::new(abstract_all(*r))),
            Expr::Implies(l, r) => Expr::Implies(Box::new(abstract_all(*l)), Box::new(abstract_all(*r))),
            Expr::Iff(l, r) => Expr::Iff(Box::new(abstract_all(*l)), Box::new(abstract_all(*r))),
            Expr::Not(inner) => match *inner {
                Expr::Exists { variable, body } => {
                    proof {
                        assert(expr_size(e) == 1 + expr_size(*inner));
                        assert(expr_size(*inner) == 1 + expr_size(*body));
                        assert(expr_size(Expr::Not(body)) == 1 + expr_size(*body));
                    }
                    Expr::ForAll { variable, body: Box::new(abstract_all(Expr::Not(body))) }
                },
                _ => Expr::Not(Box::new(abstract_all(*inner))),
            },
            Expr::ForAll { variable, body } => match *body {
                Expr::Not(inner) => match *inner {
                    Expr::And(l, r) => {
                        proof {
                            assert(expr_size(e) == 1 + expr_size(*body));
                            assert(expr_size(*body) == 1 + expr_size(*inner));
                            assert(expr_size(*inner) == 1 + expr_size(*l) + expr_size(*r));
                            assert(expr_size(Expr::Not(r)) == 1 + expr_size(*r));
                        }
                        Expr::ForAll {
                            variable,
                            body: Box::new(Expr::Implies(Box::new(abstract_all(*l)), Box::new(abstract_all(Expr::Not(r))))),
                        }
                    },
                    _ => Expr::ForAll { variable, body: Box::new(abstract_all(*body)) },
                },
                _ => Expr::ForAll { variable, body: Box::new(abstract_all(*body)) },
            },
            Expr::Exists { variable, body } => Expr::Exists { variable, body: Box::new(abstract_all(*body)) },
            _ => e,
        },
    }
}

/// Event abstraction throughout an expression and nothing more: the form in which
/// goals are searched for.
pub open spec fn abstract_only(e: Expr) -> Expr
    decreases e,
{
    match event_abstraction(e) {
        Some(a) => a,
        None => match e {
            Expr::And(l, r) => Expr::And(Box::new(abstract_only(*l)), Box::new(abstract_only(*r))),
            Expr::Or(l, r) => Expr::Or(Box::new(abstract_only(*l)), Box::new(abstract_only(*r))),
            Expr::Implies(l, r) => Expr::Implies(Box::new(abstract_only(*l)), Box::new(abstract_only(*r))),
            Expr::Iff(l, r) => Expr::Iff(Box::new(abstract_only(*l)), Box::new(abstract_only(*r))),
            Expr::Not(inner) => Expr::Not(Box::new(abstract_only(*inner))),
            Expr::ForAll { variable, body } => Expr::ForAll { variable, body: Box::new(abstract_only(*body)) },
            Expr::Exists { variable, body } => Expr::Exists { variable, body: Box::new(abstract_only(*body)) },
            _ => e,
        },
    }
}

/// Whether `e` is a one-place predicate applied to its own name, such as `butler(butler)`.
pub open spec fn tautological_identity(e: Expr) -> bool {
    e matches Expr::Predicate { name, args, .. } && args.len() == 1 && (
        args[0] == Term::Constant(name) || args[0] == Term::BoundVarRef(name) || args[0] == Term::Variable(name))
}

/// Drop tautological self-identities from conjunctions, throughout.
pub open spec fn simplify(e: Expr) -> Expr
    decreases e,
{
    match e {
        Expr::And(l, r) => {
            let ls = simplify(*l);
            let rs = simplify(*r);
            if tautological_identity(ls) {
                rs
            } else if tautological_identity(rs) {
                ls
            } else {
                Expr::And(Box::new(ls), Box::new(rs))
            }
        },
        Expr::Or(l, r) => Expr::Or(Box::new(simplify(*l)), Box::new(simplify(*r))),
        Expr::Implies(l, r) => Expr::Implies(Box::new(simplify(*l)), Box::new(simplify(*r))),
        Expr::Iff(l, r) => Expr::Iff(Box::new(simplify(*l)), Box::new(simplify(*r))),
        Expr::Not(x) => Expr::Not(Box::new(simplify(*x))),
        Expr::ForAll { variable, body } => Expr::ForAll { variable, body: Box::new(simplify(*body)) },
        Expr::Exists { variable, body } => Expr::Exists { variable, body: Box::new(simplify(*body)) },
        _ => e,
    }
}

/// The stored form of a fact.
pub open spec fn normalize_fact(e: Expr) -> Expr {
    simplify(abstract_all(e))
}

/// The searched form of a goal or hypothesis.
pub open spec fn normalize_goal(e: Expr) -> Expr {
    simplify(abstract_only(e))
}

/// The searched forms of a list of hypotheses.
pub open spec fn normalize_goals(s: Seq<Expr>) -> Seq<Expr> {
    Seq::new(s.len(), |i: int| normalize_goal(s[i]))
}

/// The model of an optional name.
pub open spec fn opt_text(o: Option<String>) -> Option<Seq<char>> {
    match o {
        Some(s) => Some(s@),
        None => None,
    }
}

/// The model of an optional term.
pub open spec fn opt_term(o: Option<ProofTerm>) -> Option<Term> {
    match o {
        Some(t) => Some(t@),
        None => None,
    }
}

/// The model of an optional expression.
pub open spec fn opt_expr(o: Option<ProofExpr>) -> Option<Expr> {
    match o {
        Some(e) => Some(e@),
        None => None,
    }
}

/// Whether a variable name is an event variable.
fn is_event_variable(v: &String) -> (r: bool)
    ensures
        r == is_event_var(v@),
{
    let s = v.as_str();
    let n = s.unicode_len();
    if n == 0 {
        return false;
    }
    let c0 = s.get_char(0);
    if c0 != 'e' {
        return false;
    }
    if n == 1 {
        assert(v@ =~= seq!['e']);
        return true;
    }
    let c1 = s.get_char(1);
    if c1 == '_' {
        return true;
    }
    n == 2 && '0' <= c1 && c1 <= '9'
}

/// Whether the term is the event variable `ev`.
fn is_event_term(t: &ProofTerm, ev: &String) -> (r: bool)
    ensures
        r == names_event(t@, ev@),
{
    match t {
        ProofTerm::Variable(s) => same_string(s, ev),
        ProofTerm::BoundVarRef(s) => same_string(s, ev),
        _ => false,
    }
}

/// The role names `Agent`, `Theme` and `Patient`.
fn role_names() -> (r: (String, String, String))
    ensures
        r.0@ == seq!['A', 'g', 'e', 'n', 't'],
        r.1@ == seq!['T', 'h', 'e', 'm', 'e'],
        r.2@ == seq!['P', 'a', 't', 'i', 'e', 'n', 't'],
{
    let a = String::from_str("Agent");
    let t = String::from_str("Theme");
    let p = String::from_str("Patient");
    proof {
        reveal_strlit("Agent");
        reveal_strlit("Theme");
        reveal_strlit("Patient");
        assert(a@ =~= seq!['A', 'g', 'e', 'n', 't']);
        assert(t@ =~= seq!['T', 'h', 'e', 'm', 'e']);
        assert(p@ =~= seq!['P', 'a', 't', 'i', 'e', 'n', 't']);
    }
    (a, t, p)
}

/// Scan the conjuncts for the verb, agent and theme of the event `ev`.
fn event_roles_of(comps: &Vec<ProofExpr>, ev: &String) -> (r: (Option<String>, Option<ProofTerm>, Option<ProofTerm>))
    ensures
        (opt_text(r.0), opt_term(r.1), opt_term(r.2)) == event_roles(exprs_view(comps@), ev@),
{
    let (agent_name, theme_name, patient_name) = role_names();
    let mut verb: Option<String> = None;
    let mut agent: Option<ProofTerm> = None;
    let mut theme: Option<ProofTerm> = None;
    let mut i: usize = 0;
    while i < comps.len()
        invariant
            i <= comps@.len(),
            agent_name@ == seq!['A', 'g', 'e', 'n', 't'],
            theme_name@ == seq!['T', 'h', 'e', 'm', 'e'],
            patient_name@ == seq!['P', 'a', 't', 'i', 'e', 'n', 't'],
            (opt_text(verb), opt_term(agent), opt_term(theme)) == event_roles(exprs_view(comps@).take(i as int), ev@),
        decreases comps.len() - i,
    {
        let ghost pre = exprs_view(comps@).take(i as int);
        let ghost next = exprs_view(comps@).take(i + 1);
        assert(next.drop_last() =~= pre);
        assert(next.last() == comps@[i as int]@);
        match &comps[i] {
            ProofExpr::Predicate { name, args, .. } => {
                assert(comps@[i as int]@->Predicate_args =~= crate::expr::terms_view(args@));
                if args.len() >= 1 && is_event_term(&args[0], ev) {
                    if same_string(name, &agent_name) && args.len() == 2 {
                        agent = Some(copy_term(&args[1]));
                    } else if (same_string(name, &theme_name) || same_string(name, &patient_name)) && args.len() == 2 {
                        theme = Some(copy_term(&args[1]));
                    } else if args.len() == 1 && verb.is_none() {
                        verb = Some(copy_string(name));
                    }
                }
            },
            _ => {},
        }
        i += 1;
    }
    assert(exprs_view(comps@).take(i as int) =~= exprs_view(comps@));
    (verb, agent, theme)
}

/// The plain predicate an event conjunction over `ev` stands for, if any.
fn abstract_event_conjunction(ev: &String, body: &ProofExpr) -> (r: Option<ProofExpr>)
    ensures
        opt_expr(r) == event_predicate(ev@, body@),
{
    let mut comps: Vec<ProofExpr> = Vec::new();
    flatten_and(body, &mut comps);
    assert(exprs_view(comps@) =~= and_leaves(body@));
    let (verb, agent, theme) = event_roles_of(&comps, ev);
    match verb {
        Some(v) => {
            let mut args: Vec<ProofTerm> = Vec::new();
            let ghost a = opt_term(agent);
            let ghost t = opt_term(theme);
            match agent {
                Some(x) => args.push(x),
                None => {},
            }
            match theme {
                Some(y) => args.push(y),
                None => {},
            }
            assert(crate::expr::terms_view(args@) =~= role_args(a) + role_args(t));
            Some(ProofExpr::Predicate { name: to_lowercase(&v), args, world: None })
        },
        None => None,
    }
}

/// The plain predicate an event quantification stands for, if any.
fn abstract_event_to_predicate(e: &ProofExpr) -> (r: Option<ProofExpr>)
    ensures
        opt_expr(r) == event_abstraction(e@),
    decreases e,
{
    match e {
        ProofExpr::Exists { variable, body } => {
            if !is_event_variable(variable) {
                None
            } else {
                match abstract_event_to_predicate(body) {
                    Some(a) => Some(a),
                    None => abstract_event_conjunction(variable, body),
                }
            }
        },
        _ => None,
    }
}

/// Normalize a fact: abstract events, read `¬∃x.P` as `∀x.¬P` and `∀x.¬(P ∧ Q)` as
/// `∀x.(P → ¬Q)`.
pub fn abstract_all_events(e: &ProofExpr) -> (r: ProofExpr)
    ensures
        r@ == abstract_all(e@),
    decreases expr_size(e@),
{
    if let Some(a) = abstract_event_to_predicate(e) {
        return a;
    }
    match e {
        ProofExpr::And(l, r) => ProofExpr::And(Box::new(abstract_all_events(l)), Box::new(abstract_all_events(r))),
        ProofExpr::Or(l, r) => ProofExpr::Or(Box::new(abstract_all_events(l)), Box::new(abstract_all_events(r))),
        ProofExpr::Implies(l, r) => ProofExpr::Implies(Box::new(abstract_all_events(l)), Box::new(abstract_all_events(r))),
        ProofExpr::Iff(l, r) => ProofExpr::Iff(Box::new(abstract_all_events(l)), Box::new(abstract_all_events(r))),
        ProofExpr::Not(inner) => match &**inner {
            ProofExpr::Exists { variable, body } => {
                let nb = ProofExpr::Not(Box::new(copy_expr(body)));
                proof {
                    assert(expr_size(e@) == 1 + expr_size(inner@));
                    assert(expr_size(inner@) == 1 + expr_size(body@));
                    assert(expr_size(nb@) == 1 + expr_size(body@));
                }
                let res = ProofExpr::ForAll { variable: copy_string(variable), body: Box::new(abstract_all_events(&nb)) };
                assert(res@ == abstract_all(e@));
                res
            },
            _ => ProofExpr::Not(Box::new(abstract_all_events(inner))),
        },
        ProofExpr::ForAll { variable, body } => match &**body {
            ProofExpr::Not(inner) => match &**inner {
                ProofExpr::And(l, r) => {
                    let nr = ProofExpr::Not(Box::new(copy_expr(r)));
                    proof {
                        assert(expr_size(e@) == 1 + expr_size(body@));
                        assert(expr_size(body@) == 1 + expr_size(inner@));
                        assert(expr_size(inner@) == 1 + expr_size(l@) + expr_size(r@));
                        assert(expr_size(nr@) == 1 + expr_size(r@));
                    }
                    let al = abstract_all_events(l);
                    assert(al@ == abstract_all(l@));
                    let ar = abstract_all_events(&nr);
                    assert(ar@ == abstract_all(nr@));
                    let imp = ProofExpr::Implies(Box::new(al), Box::new(ar));
                    assert(imp@ == Expr::Implies(Box::new(abstract_all(l@)), Box::new(abstract_all(nr@))));
                    let res = ProofExpr::ForAll { variable: copy_string(variable), body: Box::new(imp) };
                    assert(inner@ == Expr::And(Box::new(l@), Box::new(r@)));
                    assert(body@ == Expr::Not(Box::new(inner@)));
                    assert(e@ == Expr::ForAll { variable: variable@, body: Box::new(body@) });
                    assert(event_abstraction(e@) is None);
                    assert(res@ == Expr::ForAll { variable: variable@, body: Box::new(Expr::Implies(Box::new(abstract_all(l@)), Box::new(abstract_all(nr@)))) });
                    assert(res@ == abstract_all(e@));
                    res
                },
                _ => ProofExpr::ForAll { variable: copy_string(variable), body: Box::new(abstract_all_events(body)) },
            },
            _ => ProofExpr::ForAll { variable: copy_string(variable), body: Box::new(abstract_all_events(body)) },
        },
        ProofExpr::Exists { variable, body } =>
            ProofExpr::Exists { variable: copy_string(variable), body: Box::new(abstract_all_events(body)) },
        _ => copy_expr(e),
    }
}

/// Normalize a goal: abstract events and nothing more.
pub fn abstract_events_only(e: &ProofExpr) -> (r: ProofExpr)
    ensures
        r@ == abstract_only(e@),
    decreases e,
{
    if let Some(a) = abstract_event_to_predicate(e) {
        return a;
    }
    match e {
        ProofExpr::And(l, r) => ProofExpr::And(Box::new(abstract_events_only(l)), Box::new(abstract_events_only(r))),
        ProofExpr::Or(l, r) => ProofExpr::Or(Box::new(abstract_events_only(l)), Box::new(abstract_events_only(r))),
        ProofExpr::Implies(l, r) => ProofExpr::Implies(Box::new(abstract_events_only(l)), Box::new(abstract_events_only(r))),
        ProofExpr::Iff(l, r) => ProofExpr::Iff(Box::new(abstract_events_only(l)), Box::new(abstract_events_only(r))),
        ProofExpr::Not(x) => ProofExpr::Not(Box::new(abstract_events_only(x))),
        ProofExpr::ForAll { variable, body } =>
            ProofExpr::ForAll { variable: copy_string(variable), body: Box::new(abstract_events_only(body)) },
        ProofExpr::Exists { variable, body } =>
            ProofExpr::Exists { variable: copy_string(variable), body: Box::new(abstract_events_only(body)) },
        _ => copy_expr(e),
    }
}

/// Whether `e` is a one-place predicate applied to its own name.
fn is_tautological_identity(e: &ProofExpr) -> (r: bool)
    ensures
        r == tautological_identity(e@),
{
    match e {
        ProofExpr::Predicate { name, args, .. } => {
            if args.len() != 1 {
                return false;
            }
            assert(e@->Predicate_args =~= crate::expr::terms_view(args@));
            match &args[0] {
                ProofTerm::Constant(c) => same_string(c, name),
                ProofTerm::BoundVarRef(c) => same_string(c, name),
                ProofTerm::Variable(c) => same_string(c, name),
                _ => false,
            }
        },
        _ => false,
    }
}

/// Drop tautological self-identities from conjunctions, throughout.
pub fn simplify_definite_description_conjunction(e: &ProofExpr) -> (r: ProofExpr)
    ensures
        r@ == simplify(e@),
    decreases e,
{
    match e {
        ProofExpr::And(l, r) => {
            let ls = simplify_definite_description_conjunction(l);
            let rs = simplify_definite_description_conjunction(r);
            if is_tautological_identity(&ls) {
                rs
            } else if is_tautological_identity(&rs) {
                ls
            } else {
                ProofExpr::And(Box::new(ls), Box::new(rs))
            }
        },
        ProofExpr::Or(l, r) => ProofExpr::Or(
            Box::new(simplify_definite_description_conjunction(l)),
            Box::new(simplify_definite_description_conjunction(r)),
        ),
        ProofExpr::Implies(l, r) => ProofExpr::Implies(
            Box::new(simplify_definite_description_conjunction(l)),
            Box::new(simplify_definite_description_conjunction(r)),
        ),
        ProofExpr::Iff(l, r) => ProofExpr::Iff(
            Box::new(simplify_definite_description_conjunction(l)),
            Box::new(simplify_definite_description_conjunction(r)),
        ),
        ProofExpr::Not(x) => ProofExpr::Not(Box::new(simplify_definite_description_conjunction(x))),
        ProofExpr::ForAll { variable, body } => ProofExpr::ForAll {
            variable: copy_string(variable),
            body: Box::new(simplify_definite_description_conjunction(body)),
        },
        ProofExpr::Exists { variable, body } => ProofExpr::Exists {
            variable: copy_string(variable),
            body: Box::new(simplify_definite_description_conjunction(body)),
        },
        _ => copy_expr(e),
    }
}

} // verus!
