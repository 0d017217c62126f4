//! First-order proof terms, proof expressions and derivation trees, with their
//! mathematical models (names viewed as character sequences).

use vstd::prelude::*;

verus! {

/// A first-order term.
#[derive(Debug)]
pub enum ProofTerm {
    Constant(String),
    Variable(String),
    BoundVarRef(String),
    Function(String, Vec<ProofTerm>),
    Group(Vec<ProofTerm>),
}

/// A first-order proof expression.
#[derive(Debug)]
pub enum ProofExpr {
    Atom(String),
    Predicate { name: String, args: Vec<ProofTerm>, world: Option<String> },
    Identity(ProofTerm, ProofTerm),
    Not(Box<ProofExpr>),
    And(Box<ProofExpr>, Box<ProofExpr>),
    Or(Box<ProofExpr>, Box<ProofExpr>),
    Implies(Box<ProofExpr>, Box<ProofExpr>),
    Iff(Box<ProofExpr>, Box<ProofExpr>),
    ForAll { variable: String, body: Box<ProofExpr> },
    Exists { variable: String, body: Box<ProofExpr> },
}

/// The model of a term: names are character sequences.
pub enum Term {
    Constant(Seq<char>),
    Variable(Seq<char>),
    BoundVarRef(Seq<char>),
    Function(Seq<char>, Seq<Term>),
    Group(Seq<Term>),
}

/// The model of an expression.
pub enum Expr {
    Atom(Seq<char>),
    Predicate { name: Seq<char>, args: Seq<Term>, world: Option<Seq<char>> },
    Identity(Term, Term),
    Not(Box<Expr>),
    And(Box<Expr>, Box<Expr>),
    Or(Box<Expr>, Box<Expr>),
    Implies(Box<Expr>, Box<Expr>),
    Iff(Box<Expr>, Box<Expr>),
    ForAll { variable: Seq<char>, body: Box<Expr> },
    Exists { variable: Seq<char>, body: Box<Expr> },
}

/// The rules a derivation step may cite.
#[derive(Debug, Clone, PartialEq)]
pub enum InferenceRule {
    PremiseMatch,
    ModusPonens,
    DisjunctionElim,
    ConjunctionIntro,
    ConjunctionElim,
    Contradiction,
    ReductioAdAbsurdum,
    EqualitySymmetry,
    DisjunctionCases,
    /// From a proof of one side, conclude a disjunction.
    DisjunctionIntro,
    /// From a proof of `P`, conclude `¬¬P`.
    DoubleNegation,
    /// From a proof of `Q` under the hypothesis `P`, conclude `P → Q`.
    ImpliesIntro,
    /// From proofs of `P → Q` and `Q → P`, conclude `P ↔ Q`.
    BicondIntro,
    /// From `P → Q` and `¬Q`, conclude `¬P`.
    ModusTollens,
    /// `t = t`.
    Reflexivity,
    /// Leibniz's law: from `from = to` and a proof of `P`, conclude `P` with an occurrence of
    /// `from` replaced by `to`.
    Rewrite { from: ProofTerm, to: ProofTerm },
}

/// A derivation: a conclusion, the rule that yields it, and the sub-derivations it cites.
#[derive(Debug)]
pub struct DerivationTree {
    pub conclusion: ProofExpr,
    pub rule: InferenceRule,
    pub premises: Vec<DerivationTree>,
    pub depth: usize,
}

/// The model of a derivation.
pub struct Derivation {
    pub conclusion: Expr,
    pub rule: InferenceRule,
    pub premises: Seq<Derivation>,
}

pub open spec fn term_view(t: ProofTerm) -> Term
    decreases t,
{
    match t {
        ProofTerm::Constant(s) => Term::Constant(s@),
        ProofTerm::Variable(s) => Term::Variable(s@),
        ProofTerm::BoundVarRef(s) => Term::BoundVarRef(s@),
        ProofTerm::Function(n, args) => Term::Function(
            n@,
            Seq::new(args@.len(), |i: int| if 0 <= i < args@.len() { term_view(args@[i]) } else { Term::Group(Seq::empty()) }),
        ),
        ProofTerm::Group(ts) => Term::Group(
            Seq::new(ts@.len(), |i: int| if 0 <= i < ts@.len() { term_view(ts@[i]) } else { Term::Group(Seq::empty()) }),
        ),
    }
}

pub open spec fn terms_view(ts: Seq<ProofTerm>) -> Seq<Term> {
    Seq::new(ts.len(), |i: int| term_view(ts[i]))
}

impl View for ProofTerm {
    type V = Term;

    open spec fn view(&self) -> Term {
        term_view(*self)
    }
}

pub open spec fn expr_view(e: ProofExpr) -> Expr
    decreases e,
{
    match e {
        ProofExpr::Atom(s) => Expr::Atom(s@),
        ProofExpr::Predicate { name, args, world } => Expr::Predicate {
            name: name@,
            args: terms_view(args@),
            world: match world {
                Some(w) => Some(w@),
                None => None,
            },
        },
        ProofExpr::Identity(a, b) => Expr::Identity(a@, b@),
        ProofExpr::Not(x) => Expr::Not(Box::new(expr_view(*x))),
        ProofExpr::And(l, r) => Expr::And(Box::new(expr_view(*l)), Box::new(expr_view(*r))),
        ProofExpr::Or(l, r) => Expr::Or(Box::new(expr_view(*l)), Box::new(expr_view(*r))),
        ProofExpr::Implies(l, r) => Expr::Implies(Box::new(expr_view(*l)), Box::new(expr_view(*r))),
        ProofExpr::Iff(l, r) => Expr::Iff(Box::new(expr_view(*l)), Box::new(expr_view(*r))),
        ProofExpr::ForAll { variable, body } => Expr::ForAll { variable: variable@, body: Box::new(expr_view(*body)) },
        ProofExpr::Exists { variable, body } => Expr::Exists { variable: variable@, body: Box::new(expr_view(*body)) },
    }
}

impl View for ProofExpr {
    type V = Expr;

    open spec fn view(&self) -> Expr {
        expr_view(*self)
    }
}

/// Copy a name.
pub fn copy_string(s: &String) -> (r: String)
    ensures
        r@ == s@,
{
    s.clone()
}

/// Whether two names are equal.
pub fn same_string(a: &String, b: &String) -> (r: bool)
    ensures
        r == (a@ == b@),
{
    a.eq(b)
}

/// Copy a sequence of terms.
pub fn copy_terms(ts: &Vec<ProofTerm>) -> (r: Vec<ProofTerm>)
    ensures
        terms_view(r@) == terms_view(ts@),
    decreases ts@, 0nat,
{
    let mut out: Vec<ProofTerm> = Vec::new();
    let mut i: usize = 0;
    while i < ts.len()
        invariant
            i <= ts.len(),
            out@.len() == i,
            forall|j: int| 0 <= j < i ==> #[trigger] out@[j]@ == ts@[j]@,
        decreases ts.len() - i,
    {
        proof { assert(decreases_to!(ts@ => ts@[i as int])); }
        out.push(copy_term(&ts[i]));
        i += 1;
    }
    assert forall|j: int| 0 <= j < out@.len() implies terms_view(out@)[j] == terms_view(ts@)[j] by {
        assert(out@[j]@ == ts@[j]@);
    }
    assert(terms_view(out@) =~= terms_view(ts@));
    out
}

/// Copy a term.
pub fn copy_term(t: &ProofTerm) -> (r: ProofTerm)
    ensures
        r@ == t@,
    decreases t, 1nat,
{
    match t {
        ProofTerm::Constant(s) => ProofTerm::Constant(copy_string(s)),
        ProofTerm::Variable(s) => ProofTerm::Variable(copy_string(s)),
        ProofTerm::BoundVarRef(s) => ProofTerm::BoundVarRef(copy_string(s)),
        ProofTerm::Function(n, args) => {
            let a = copy_terms(args);
            proof {
                assert(terms_view(args@) =~= t@->Function_1);
            }
            let r = ProofTerm::Function(copy_string(n), a);
            assert(r@->Function_1 =~= terms_view(a@));
            r
        }
        ProofTerm::Group(ts) => {
            let a = copy_terms(ts);
            assert(terms_view(ts@) =~= t@->Group_0);
            let r = ProofTerm::Group(a);
            assert(r@->Group_0 =~= terms_view(a@));
            r
        }
    }
}

/// Whether two term sequences are equal.
pub fn terms_eq(a: &Vec<ProofTerm>, b: &Vec<ProofTerm>) -> (r: bool)
    ensures
        r == (terms_view(a@) == terms_view(b@)),
    decreases a@, 0nat,
{
    if a.len() != b.len() {
        proof {
            assert(terms_view(a@).len() != terms_view(b@).len());
        }
        return false;
    }
    let mut i: usize = 0;
    while i < a.len()
        invariant
            i <= a.len(),
            a.len() == b.len(),
            forall|j: int| 0 <= j < i ==> #[trigger] a@[j]@ == b@[j]@,
        decreases a.len() - i,
    {
        proof { assert(decreases_to!(a@ => a@[i as int])); }
        if !term_eq(&a[i], &b[i]) {
            proof {
                assert(terms_view(a@)[i as int] != terms_view(b@)[i as int]);
            }
            return false;
        }
        i += 1;
    }
    assert forall|j: int| 0 <= j < a@.len() implies terms_view(a@)[j] == terms_view(b@)[j] by {
        assert(a@[j]@ == b@[j]@);
    }
    assert(terms_view(a@) =~= terms_view(b@));
    true
}

/// Whether two terms are equal.
pub fn term_eq(a: &ProofTerm, b: &ProofTerm) -> (r: bool)
    ensures
        r == (a@ == b@),
    decreases a, 1nat,
{
    match (a, b) {
        (ProofTerm::Constant(x), ProofTerm::Constant(y)) => same_string(x, y),
        (ProofTerm::Variable(x), ProofTerm::Variable(y)) => same_string(x, y),
        (ProofTerm::BoundVarRef(x), ProofTerm::BoundVarRef(y)) => same_string(x, y),
        (ProofTerm::Function(n, xs), ProofTerm::Function(m, ys)) => {
            proof {
                assert(terms_view(xs@) =~= a@->Function_1);
                assert(terms_view(ys@) =~= b@->Function_1);
            }
            same_string(n, m) && terms_eq(xs, ys)
        }
        (ProofTerm::Group(xs), ProofTerm::Group(ys)) => {
            proof {
                assert(terms_view(xs@) =~= a@->Group_0);
                assert(terms_view(ys@) =~= b@->Group_0);
            }
            terms_eq(xs, ys)
        }
        _ => false,
    }
}

/// Whether two optional names are equal.
pub fn same_opt_string(a: &Option<String>, b: &Option<String>) -> (r: bool)
    ensures
        r == (match (a, b) {
            (Some(x), Some(y)) => x@ == y@,
            (None, None) => true,
            _ => false,
        }),
{
    match (a, b) {
        (Some(x), Some(y)) => same_string(x, y),
        (None, None) => true,
        _ => false,
    }
}

/// Whether two expressions are equal.
pub fn expr_eq(a: &ProofExpr, b: &ProofExpr) -> (r: bool)
    ensures
        r == (a@ == b@),
    decreases a,
{
    match (a, b) {
        (ProofExpr::Atom(x), ProofExpr::Atom(y)) => same_string(x, y),
        (
            ProofExpr::Predicate { name: n1, args: a1, world: w1 },
            ProofExpr::Predicate { name: n2, args: a2, world: w2 },
        ) => same_string(n1, n2) && terms_eq(a1, a2) && same_opt_string(w1, w2),
        (ProofExpr::Identity(x1, y1), ProofExpr::Identity(x2, y2)) => term_eq(x1, x2) && term_eq(y1, y2),
        (ProofExpr::Not(x), ProofExpr::Not(y)) => expr_eq(x, y),
        (ProofExpr::And(l1, r1), ProofExpr::And(l2, r2)) => expr_eq(l1, l2) && expr_eq(r1, r2),
        (ProofExpr::Or(l1, r1), ProofExpr::Or(l2, r2)) => expr_eq(l1, l2) && expr_eq(r1, r2),
        (ProofExpr::Implies(l1, r1), ProofExpr::Implies(l2, r2)) => expr_eq(l1, l2) && expr_eq(r1, r2),
        (ProofExpr::Iff(l1, r1), ProofExpr::Iff(l2, r2)) => expr_eq(l1, l2) && expr_eq(r1, r2),
        (ProofExpr::ForAll { variable: v1, body: b1 }, ProofExpr::ForAll { variable: v2, body: b2 }) =>
            same_string(v1, v2) && expr_eq(b1, b2),
        (ProofExpr::Exists { variable: v1, body: b1 }, ProofExpr::Exists { variable: v2, body: b2 }) =>
            same_string(v1, v2) && expr_eq(b1, b2),
        _ => false,
    }
}

/// Copy an expression.
pub fn copy_expr(e: &ProofExpr) -> (r: ProofExpr)
    ensures
        r@ == e@,
    decreases e,
{
    match e {
        ProofExpr::Atom(s) => ProofExpr::Atom(copy_string(s)),
        ProofExpr::Predicate { name, args, world } => {
            let w = match world {
                Some(x) => Some(copy_string(x)),
                None => None,
            };
            ProofExpr::Predicate { name: copy_string(name), args: copy_terms(args), world: w }
        }
        ProofExpr::Identity(a, b) => ProofExpr::Identity(copy_term(a), copy_term(b)),
        ProofExpr::Not(x) => ProofExpr::Not(Box::new(copy_expr(x))),
        ProofExpr::And(l, r) => ProofExpr::And(Box::new(copy_expr(l)), Box::new(copy_expr(r))),
        ProofExpr::Or(l, r) => ProofExpr::Or(Box::new(copy_expr(l)), Box::new(copy_expr(r))),
        ProofExpr::Implies(l, r) => ProofExpr::Implies(Box::new(copy_expr(l)), Box::new(copy_expr(r))),
        ProofExpr::Iff(l, r) => ProofExpr::Iff(Box::new(copy_expr(l)), Box::new(copy_expr(r))),
        ProofExpr::ForAll { variable, body } =>
            ProofExpr::ForAll { variable: copy_string(variable), body: Box::new(copy_expr(body)) },
        ProofExpr::Exists { variable, body } =>
            ProofExpr::Exists { variable: copy_string(variable), body: Box::new(copy_expr(body)) },
    }
}

impl Clone for ProofTerm {
    fn clone(&self) -> (r: Self)
        ensures
            r@ == self@,
    {
        copy_term(self)
    }
}

impl Clone for ProofExpr {
    fn clone(&self) -> (r: Self)
        ensures
            r@ == self@,
    {
        copy_expr(self)
    }
}

impl PartialEq for ProofTerm {
    fn eq(&self, other: &Self) -> (r: bool) {
        term_eq(self, other)
    }
}

impl vstd::std_specs::cmp::PartialEqSpecImpl for ProofTerm {
    open spec fn obeys_eq_spec() -> bool {
        true
    }

    open spec fn eq_spec(&self, other: &Self) -> bool {
        self@ == other@
    }
}

impl PartialEq for ProofExpr {
    fn eq(&self, other: &Self) -> (r: bool) {
        expr_eq(self, other)
    }
}

impl vstd::std_specs::cmp::PartialEqSpecImpl for ProofExpr {
    open spec fn obeys_eq_spec() -> bool {
        true
    }

    open spec fn eq_spec(&self, other: &Self) -> bool {
        self@ == other@
    }
}

/// The model of a derivation tree.
pub open spec fn deriv_view(t: DerivationTree) -> Derivation
    decreases t,
{
    Derivation {
        conclusion: t.conclusion@,
        rule: t.rule,
        premises: Seq::new(t.premises@.len(), |i: int| if 0 <= i < t.premises@.len() { deriv_view(t.premises@[i]) } else {
            Derivation { conclusion: Expr::Atom(Seq::empty()), rule: InferenceRule::PremiseMatch, premises: Seq::empty() }
        }),
    }
}

impl View for DerivationTree {
    type V = Derivation;

    open spec fn view(&self) -> Derivation {
        deriv_view(*self)
    }
}

/// The models of a list of derivations.
pub open spec fn derivs_view(ts: Seq<DerivationTree>) -> Seq<Derivation> {
    Seq::new(ts.len(), |i: int| ts[i]@)
}

/// The greatest depth among the derivations `ts` (0 for none).
pub open spec fn max_depth(ts: Seq<DerivationTree>) -> nat
    decreases ts.len(),
{
    if ts.len() == 0 {
        0
    } else {
        let d = max_depth(ts.drop_last());
        if ts.last().depth > d {
            ts.last().depth as nat
        } else {
            d
        }
    }
}

impl DerivationTree {
    /// A derivation with no premises: the conclusion is cited as it stands.
    pub fn leaf(conclusion: ProofExpr, rule: InferenceRule) -> (t: DerivationTree)
        ensures
            t@ == (Derivation { conclusion: conclusion@, rule, premises: Seq::empty() }),
            t.depth == 0,
    {
        let t = DerivationTree { conclusion, rule, premises: Vec::new(), depth: 0 };
        proof {
            assert(t@.premises =~= Seq::<Derivation>::empty());
        }
        t
    }

    /// A derivation step from sub-derivations; its depth is one more than the deepest premise.
    pub fn new(conclusion: ProofExpr, rule: InferenceRule, premises: Vec<DerivationTree>) -> (t: DerivationTree)
        ensures
            t@ == (Derivation { conclusion: conclusion@, rule, premises: derivs_view(premises@) }),
            t.depth == if max_depth(premises@) < usize::MAX { max_depth(premises@) + 1 } else { usize::MAX as nat },
    {
        let mut depth: usize = 0;
        let mut i: usize = 0;
        while i < premises.len()
            invariant
                i <= premises@.len(),
                depth == max_depth(premises@.take(i as int)),
            decreases premises@.len() - i,
        {
            proof {
                assert(premises@.take(i + 1).drop_last() =~= premises@.take(i as int));
                assert(premises@.take(i + 1).last() == premises@[i as int]);
            }
            if premises[i].depth > depth {
                depth = premises[i].depth;
            }
            i += 1;
        }
        proof {
            assert(premises@.take(i as int) =~= premises@);
        }
        let depth = if depth < usize::MAX { depth + 1 } else { depth };
        let t = DerivationTree { conclusion, rule, premises, depth };
        proof {
            assert(t@.premises =~= derivs_view(t.premises@));
        }
        t
    }
}

} // verus!
