//! The backward-chaining proof engine: it works backwards from a goal, matching it
//! against facts, refuting `⊥` from a stated contradiction, decomposing the goal by
//! introduction rules, chaining through implications (forwards by modus ponens,
//! backwards by modus tollens) and eliminating disjunctions. Facts and goals are first
//! brought to the normal form of [`crate::normalize`]. Every derivation tree it returns
//! is proved to conclude the goal and to be a [`valid_derivation`].

use vstd::prelude::*;
use crate::error::ProofError;
use crate::expr::{copy_expr, deriv_view, expr_eq, same_string, term_eq, Derivation, DerivationTree, Expr, InferenceRule, ProofExpr};
use crate::grid_solver::{and_leaves, exprs_view, flatten_and};
use crate::formula::push_char;
use crate::normalize::{abstract_all_events, abstract_events_only, normalize_fact, normalize_goal, normalize_goals, simplify_definite_description_conjunction};

verus! {

/// The bound on search depth a new engine starts with.
pub const DEFAULT_MAX_DEPTH: usize = 100;

/// The number of search nodes a new engine may spend on one top-level proof.
pub const DEFAULT_STEP_BUDGET: usize = 100_000;

/// A goal: the proposition to prove and the local hypotheses it may use.
pub struct ProofGoal {
    pub target: ProofExpr,
    pub context: Vec<ProofExpr>,
}

impl ProofGoal {
    /// A goal with no local hypotheses.
    pub fn new(target: ProofExpr) -> (g: ProofGoal)
        ensures
            g.target@ == target@,
            g.context@.len() == 0,
    {
        ProofGoal { target, context: Vec::new() }
    }

    /// A goal with the given local hypotheses.
    pub fn with_context(target: ProofExpr, context: Vec<ProofExpr>) -> (g: ProofGoal)
        ensures
            g.target@ == target@,
            exprs_view(g.context@) == exprs_view(context@),
    {
        ProofGoal { target, context }
    }
}

/// The absurd proposition `⊥`.
pub open spec fn falsum() -> Expr {
    Expr::Atom(seq!['⊥'])
}

/// Whether an expression names the absurd proposition (`⊥`, `False` or `false`).
pub open spec fn is_falsum_model(e: Expr) -> bool {
    ||| e == falsum()
    ||| e == Expr::Atom(seq!['F', 'a', 'l', 's', 'e'])
    ||| e == Expr::Atom(seq!['f', 'a', 'l', 's', 'e'])
}

/// Whether `t` is a derivation from the facts `kb` and the local hypotheses `hyps`:
/// every node is an instance of its rule, and every cited premise is a fact or a
/// hypothesis.
pub open spec fn valid_derivation(kb: Seq<Expr>, hyps: Seq<Expr>, t: Derivation) -> bool
    decreases t,
{
    let ps = t.premises;
    match t.rule {
        InferenceRule::PremiseMatch => ps.len() == 0 && (kb.contains(t.conclusion) || hyps.contains(t.conclusion)),
        InferenceRule::Reflexivity => ps.len() == 0 && (t.conclusion matches Expr::Identity(a, b) && a == b),
        InferenceRule::ModusPonens => {
            &&& ps.len() == 2
            &&& ps[0].conclusion == Expr::Implies(Box::new(ps[1].conclusion), Box::new(t.conclusion))
            &&& valid_derivation(kb, hyps, ps[0])
            &&& valid_derivation(kb, hyps, ps[1])
        },
        InferenceRule::ConjunctionIntro => {
            &&& ps.len() == 2
            &&& t.conclusion == Expr::And(Box::new(ps[0].conclusion), Box::new(ps[1].conclusion))
            &&& valid_derivation(kb, hyps, ps[0])
            &&& valid_derivation(kb, hyps, ps[1])
        },
        InferenceRule::ConjunctionElim => {
            &&& ps.len() == 1
            &&& (ps[0].conclusion matches Expr::And(l, r) && (*l == t.conclusion || *r == t.conclusion))
            &&& valid_derivation(kb, hyps, ps[0])
        },
        InferenceRule::DisjunctionIntro => {
            &&& ps.len() == 1
            &&& (t.conclusion matches Expr::Or(l, r) && (*l == ps[0].conclusion || *r == ps[0].conclusion))
            &&& valid_derivation(kb, hyps, ps[0])
        },
        InferenceRule::DisjunctionElim => {
            &&& ps.len() == 2
            &&& (ps[0].conclusion matches Expr::Or(l, r) && (
                (ps[1].conclusion == Expr::Not(l) && t.conclusion == *r)
                || (ps[1].conclusion == Expr::Not(r) && t.conclusion == *l)))
            &&& valid_derivation(kb, hyps, ps[0])
            &&& valid_derivation(kb, hyps, ps[1])
        },
        InferenceRule::DoubleNegation => {
            &&& ps.len() == 1
            &&& t.conclusion == Expr::Not(Box::new(Expr::Not(Box::new(ps[0].conclusion))))
            &&& valid_derivation(kb, hyps, ps[0])
        },
        InferenceRule::ImpliesIntro => {
            &&& ps.len() == 1
            &&& (t.conclusion matches Expr::Implies(a, c) && *c == ps[0].conclusion && valid_derivation(kb, hyps.push(*a), ps[0]))
        },
        InferenceRule::BicondIntro => {
            &&& ps.len() == 2
            &&& (t.conclusion matches Expr::Iff(p, q) && ps[0].conclusion == Expr::Implies(p, q)
                && ps[1].conclusion == Expr::Implies(q, p))
            &&& valid_derivation(kb, hyps, ps[0])
            &&& valid_derivation(kb, hyps, ps[1])
        },
        InferenceRule::ModusTollens => {
            &&& ps.len() == 2
            &&& (ps[0].conclusion matches Expr::Implies(p, q) && ps[1].conclusion == Expr::Not(q)
                && t.conclusion == Expr::Not(p))
            &&& valid_derivation(kb, hyps, ps[0])
            &&& valid_derivation(kb, hyps, ps[1])
        },
        InferenceRule::Contradiction => {
            &&& ps.len() == 2
            &&& is_falsum_model(t.conclusion)
            &&& ps[1].conclusion == Expr::Not(Box::new(ps[0].conclusion))
            &&& valid_derivation(kb, hyps, ps[0])
            &&& valid_derivation(kb, hyps, ps[1])
        },
        _ => false,
    }
}


/// Adding a fact keeps every derivation valid: a proof found before `add_axiom`
/// remains a proof afterwards.
pub proof fn lemma_valid_after_new_fact(kb: Seq<Expr>, hyps: Seq<Expr>, t: Derivation, e: Expr)
    requires
        valid_derivation(kb, hyps, t),
    ensures
        valid_derivation(kb.push(e), hyps, t),
    decreases t,
{
    if t.rule == InferenceRule::PremiseMatch {
        if kb.contains(t.conclusion) {
            let i = choose|i: int| 0 <= i < kb.len() && kb[i] == t.conclusion;
            assert(kb.push(e)[i] == t.conclusion);
        }
    }
    let ps = t.premises;
    if ps.len() >= 1 {
        assert(decreases_to!(t => ps[0]));
        if valid_derivation(kb, hyps, ps[0]) {
            lemma_valid_after_new_fact(kb, hyps, ps[0], e);
        }
        if t.rule == InferenceRule::ImpliesIntro && t.conclusion is Implies {
            let a = *t.conclusion->Implies_0;
            if valid_derivation(kb, hyps.push(a), ps[0]) {
                lemma_valid_after_new_fact(kb, hyps.push(a), ps[0], e);
            }
        }
    }
    if ps.len() >= 2 {
        assert(decreases_to!(t => ps[1]));
        if valid_derivation(kb, hyps, ps[1]) {
            lemma_valid_after_new_fact(kb, hyps, ps[1], e);
        }
    }
}

/// Whether `t` proves `goal` from the facts `kb` and the hypotheses `hyps`.
pub open spec fn proves(kb: Seq<Expr>, hyps: Seq<Expr>, goal: Expr, t: Derivation) -> bool {
    t.conclusion == goal && valid_derivation(kb, hyps, t)
}

/// The errors a search may end with: no proof, or a resource bound reached.
pub open spec fn search_error(e: ProofError) -> bool {
    e is NoProofFound || e is DepthExceeded
}

/// Whether `e` names the absurd proposition.
fn is_falsum(e: &ProofExpr) -> (r: bool)
    ensures
        r == is_falsum_model(e@),
{
    match e {
        ProofExpr::Atom(s) => {
            let a = make_falsum_name();
            let b = String::from_str("False");
            let c = String::from_str("false");
            proof {
                reveal_strlit("False");
                reveal_strlit("false");
                assert("False"@ =~= seq!['F', 'a', 'l', 's', 'e']);
                assert("false"@ =~= seq!['f', 'a', 'l', 's', 'e']);
            }
            same_string(s, &a) || same_string(s, &b) || same_string(s, &c)
        },
        _ => false,
    }
}

/// The name `⊥`.
fn make_falsum_name() -> (s: String)
    ensures
        s@ == seq!['⊥'],
{
    let mut s = String::new();
    push_char(&mut s, '⊥');
    assert(s@ =~= seq!['⊥']);
    s
}

/// The first position in `list` of an expression equal to `e`.
fn position_of(list: &Vec<ProofExpr>, e: &ProofExpr) -> (r: Option<usize>)
    ensures
        r matches Some(i) ==> i < list@.len() && list@[i as int]@ == e@,
        r is None ==> !exprs_view(list@).contains(e@),
{
    let mut i: usize = 0;
    while i < list.len()
        invariant
            i <= list@.len(),
            forall|j: int| 0 <= j < i ==> #[trigger] list@[j]@ != e@,
        decreases list.len() - i,
    {
        if expr_eq(&list[i], e) {
            return Some(i);
        }
        i += 1;
    }
    proof {
        if exprs_view(list@).contains(e@) {
            let j = choose|j: int| 0 <= j < exprs_view(list@).len() && exprs_view(list@)[j] == e@;
            assert(list@[j]@ == e@);
        }
    }
    None
}

/// A copy of a list of expressions.
fn copy_exprs(list: &Vec<ProofExpr>) -> (r: Vec<ProofExpr>)
    ensures
        exprs_view(r@) == exprs_view(list@),
{
    let mut out: Vec<ProofExpr> = Vec::new();
    let mut i: usize = 0;
    while i < list.len()
        invariant
            i <= list@.len(),
            out@.len() == i,
            forall|j: int| 0 <= j < i ==> #[trigger] out@[j]@ == list@[j]@,
        decreases list.len() - i,
    {
        out.push(copy_expr(&list[i]));
        i += 1;
    }
    assert(exprs_view(out@) =~= exprs_view(list@));
    out
}

/// The two sides of a conjunction.
fn conjunction_sides(e: &ProofExpr) -> (r: Option<(ProofExpr, ProofExpr)>)
    ensures
        r matches Some(p) ==> e@ == Expr::And(Box::new(p.0@), Box::new(p.1@)),
        r is None ==> !(e@ is And),
{
    match e {
        ProofExpr::And(l, r) => Some((copy_expr(l), copy_expr(r))),
        _ => None,
    }
}

/// Project `target` out of the conjunction proved by `conj`, descending left side first
/// through nested conjunctions by `ConjunctionElim` steps. On failure the given
/// derivation is handed back.
fn extract_conjunct(Ghost(kb): Ghost<Seq<Expr>>, Ghost(hyps): Ghost<Seq<Expr>>, conj: DerivationTree, target: &ProofExpr) -> (r: Result<DerivationTree, DerivationTree>)
    requires
        valid_derivation(kb, hyps, conj@),
    ensures
        r matches Ok(t) ==> proves(kb, hyps, target@, t@),
        r matches Err(b) ==> b@ == conj@,
    decreases conj@.conclusion,
{
    match conjunction_sides(&conj.conclusion) {
        Some((l, r)) => {
            let ghost c = conj@;
            let left = DerivationTree::new(l, InferenceRule::ConjunctionElim, vec![conj]);
            proof {
                assert(left@.premises =~= seq![c]);
                assert(c.conclusion->And_0 == left@.conclusion);
                assert(decreases_to!(c.conclusion => c.conclusion->And_0));
            }
            match extract_conjunct(Ghost(kb), Ghost(hyps), left, target) {
                Ok(t) => Ok(t),
                Err(mut back) => {
                    let ghost b = back@;
                    assert(b.premises[0] == deriv_view(back.premises@[0]));
                    let c0 = back.premises.pop().unwrap();
                    let right = DerivationTree::new(r, InferenceRule::ConjunctionElim, vec![c0]);
                    proof {
                        assert(right@.premises =~= seq![c]);
                        assert(c.conclusion->And_1 == right@.conclusion);
                        assert(decreases_to!(c.conclusion => c.conclusion->And_1));
                    }
                    match extract_conjunct(Ghost(kb), Ghost(hyps), right, target) {
                        Ok(t) => Ok(t),
                        Err(mut back2) => {
                            assert(back2@.premises[0] == deriv_view(back2.premises@[0]));
                            Err(back2.premises.pop().unwrap())
                        },
                    }
                },
            }
        },
        None => {
            if expr_eq(target, &conj.conclusion) {
                Ok(conj)
            } else {
                Err(conj)
            }
        },
    }
}


/// Whether `e` is an identity whose two sides are the same term.
pub open spec fn is_reflexive(e: Expr) -> bool {
    e matches Expr::Identity(a, b) && a == b
}

/// Whether no goal among `active` has the target `e`.
pub open spec fn not_open(active: Seq<ProofGoal>, e: Expr) -> bool {
    forall|i: int| 0 <= i < active.len() ==> (#[trigger] active[i]).target@ != e
}

/// Whether `e` may be cited as a premise: it is a fact or a hypothesis.
pub open spec fn cited(kb: Seq<Expr>, hyps: Seq<Expr>, e: Expr) -> bool {
    kb.contains(e) || hyps.contains(e)
}

/// A premise citation of `e`.
fn premise_leaf(e: ProofExpr) -> (t: DerivationTree)
    ensures
        t@ == (Derivation { conclusion: e@, rule: InferenceRule::PremiseMatch, premises: Seq::empty() }),
{
    DerivationTree::leaf(e, InferenceRule::PremiseMatch)
}

/// A step with one premise.
fn node1(conclusion: ProofExpr, rule: InferenceRule, a: DerivationTree) -> (t: DerivationTree)
    ensures
        t@ == (Derivation { conclusion: conclusion@, rule, premises: seq![a@] }),
{
    let ghost av = a@;
    let t = DerivationTree::new(conclusion, rule, vec![a]);
    assert(t@.premises =~= seq![av]);
    t
}

/// A step with two premises.
fn node2(conclusion: ProofExpr, rule: InferenceRule, a: DerivationTree, b: DerivationTree) -> (t: DerivationTree)
    ensures
        t@ == (Derivation { conclusion: conclusion@, rule, premises: seq![a@, b@] }),
{
    let ghost av = a@;
    let ghost bv = b@;
    let t = DerivationTree::new(conclusion, rule, vec![a, b]);
    assert(t@.premises =~= seq![av, bv]);
    t
}

/// The `i`-th entry of `first` followed by `second`.
fn entry_of<'a>(first: &'a Vec<ProofExpr>, second: &'a Vec<ProofExpr>, i: usize) -> (r: &'a ProofExpr)
    requires
        i < first@.len() + second@.len(),
    ensures
        r@ == (exprs_view(first@) + exprs_view(second@))[i as int],
        exprs_view(first@).contains(r@) || exprs_view(second@).contains(r@),
{
    if i < first.len() {
        assert(exprs_view(first@)[i as int] == first@[i as int]@);
        &first[i]
    } else {
        assert(exprs_view(second@)[i - first.len()] == second@[i - first.len()]@);
        &second[i - first.len()]
    }
}

/// The length of two lists together (saturating at the machine limit).
fn combined_len(a: usize, b: usize) -> (n: usize)
    ensures
        n <= a + b,
        a + b <= usize::MAX ==> n == a + b,
{
    if a <= usize::MAX - b {
        a + b
    } else {
        usize::MAX
    }
}

/// A premise citation is a valid derivation of a cited expression.
proof fn lemma_leaf_valid(kb: Seq<Expr>, hyps: Seq<Expr>, e: Expr)
    requires
        cited(kb, hyps, e),
    ensures
        valid_derivation(kb, hyps, Derivation { conclusion: e, rule: InferenceRule::PremiseMatch, premises: Seq::empty() }),
{
}

/// The operand of a negation.
fn negated_operand(e: &ProofExpr) -> (r: Option<&ProofExpr>)
    ensures
        r matches Some(x) ==> e@ == Expr::Not(Box::new(x@)),
        r is None ==> !(e@ is Not),
{
    match e {
        ProofExpr::Not(x) => Some(&**x),
        _ => None,
    }
}

/// The two sides of a disjunction.
fn disjunction_sides(e: &ProofExpr) -> (r: Option<(&ProofExpr, &ProofExpr)>)
    ensures
        r matches Some(p) ==> e@ == Expr::Or(Box::new(p.0@), Box::new(p.1@)),
        r is None ==> !(e@ is Or),
{
    match e {
        ProofExpr::Or(l, r) => Some((&**l, &**r)),
        _ => None,
    }
}

/// The backward-chaining proof engine.
pub struct BackwardChainer {
    knowledge_base: Vec<ProofExpr>,
    max_depth: usize,
    active_goals: Vec<ProofGoal>,
    steps: usize,
    step_budget: usize,
}

impl BackwardChainer {
    /// The facts and rules the engine may cite.
    pub closed spec fn kb(&self) -> Seq<Expr> {
        exprs_view(self.knowledge_base@)
    }

    /// The bound on search depth.
    pub closed spec fn max_depth(&self) -> nat {
        self.max_depth as nat
    }

    /// The number of search nodes one top-level proof may spend.
    pub closed spec fn step_budget(&self) -> nat {
        self.step_budget as nat
    }

    /// Whether `next` has the facts and bounds of `prev`.
    spec fn keeps(prev: &BackwardChainer, next: &BackwardChainer) -> bool {
        &&& next.knowledge_base@ == prev.knowledge_base@
        &&& next.max_depth == prev.max_depth
        &&& next.step_budget == prev.step_budget
        &&& next.active_goals@ == prev.active_goals@
    }

    /// Between searches no goal is open.
    pub closed spec fn wf(&self) -> bool {
        self.active_goals@.len() == 0
    }

    /// An engine with no facts, depth bound 100 and a budget of 100 000 nodes.
    pub fn new() -> (bc: Self)
        ensures
            bc.kb() == Seq::<Expr>::empty(),
            bc.max_depth() == 100,
            bc.step_budget() == 100_000,
            bc.wf(),
    {
        let bc = BackwardChainer {
            knowledge_base: Vec::new(),
            max_depth: DEFAULT_MAX_DEPTH,
            active_goals: Vec::new(),
            steps: 0,
            step_budget: DEFAULT_STEP_BUDGET,
        };
        assert(bc.kb() =~= Seq::<Expr>::empty());
        bc
    }

    /// Set the bound on search depth.
    pub fn set_max_depth(&mut self, depth: usize)
        ensures
            final(self).max_depth() == depth,
            final(self).kb() == old(self).kb(),
            final(self).step_budget() == old(self).step_budget(),
            final(self).wf() == old(self).wf(),
    {
        self.max_depth = depth;
    }

    /// Set the number of search nodes one top-level proof may spend.
    pub fn set_step_budget(&mut self, budget: usize)
        ensures
            final(self).step_budget() == budget,
            final(self).kb() == old(self).kb(),
            final(self).max_depth() == old(self).max_depth(),
            final(self).wf() == old(self).wf(),
    {
        self.step_budget = budget;
    }

    /// The facts and rules the engine may cite.
    pub fn knowledge_base(&self) -> (r: &[ProofExpr])
        ensures
            exprs_view(r@) == self.kb(),
    {
        self.knowledge_base.as_slice()
    }

    /// Add a fact or rule, in its normal form.
    pub fn add_axiom(&mut self, expr: ProofExpr)
        ensures
            final(self).kb() == old(self).kb().push(normalize_fact(expr@)),
            final(self).max_depth() == old(self).max_depth(),
            final(self).step_budget() == old(self).step_budget(),
            final(self).wf() == old(self).wf(),
    {
        let abstracted = abstract_all_events(&expr);
        let simplified = simplify_definite_description_conjunction(&abstracted);
        let ghost sv = simplified@;
        self.knowledge_base.push(simplified);
        assert(exprs_view(self.knowledge_base@) =~= exprs_view(old(self).knowledge_base@).push(sv));
    }

    /// Count one search node; fail once the budget is spent.
    fn charge_budget(&mut self) -> (r: Result<(), ProofError>)
        ensures
            Self::keeps(old(self), final(self)),
            final(self).active_goals@ == old(self).active_goals@,
            r matches Err(e) ==> e is DepthExceeded,
            old(self).steps == 0 && old(self).step_budget >= 1 ==> r is Ok,
            old(self).steps < old(self).step_budget ==> r is Ok && final(self).steps == old(self).steps + 1,
    {
        if self.steps < usize::MAX {
            self.steps = self.steps + 1;
        }
        if self.steps > self.step_budget {
            Err(ProofError::DepthExceeded)
        } else {
            Ok(())
        }
    }

    /// Prove `goal` from the facts alone.
    pub fn prove(&mut self, goal: ProofExpr) -> (r: Result<DerivationTree, ProofError>)
        requires
            old(self).wf(),
        ensures
            final(self).wf(),
            final(self).kb() == old(self).kb(),
            final(self).max_depth() == old(self).max_depth(),
            final(self).step_budget() == old(self).step_budget(),
            r matches Ok(t) ==> proves(old(self).kb(), Seq::empty(), normalize_goal(goal@), t@),
            r matches Err(e) ==> search_error(e),
            old(self).step_budget() >= 1 && !is_falsum_model(normalize_goal(goal@))
                && (old(self).kb().contains(normalize_goal(goal@)) || is_reflexive(normalize_goal(goal@)))
                ==> r is Ok,
            (normalize_goal(goal@) matches Expr::Or(l, _) && !is_falsum_model(*l) && old(self).kb().contains(*l)
                && old(self).step_budget() >= 2 && old(self).max_depth() >= 1)
                ==> r is Ok,
    {
        let abstracted = abstract_events_only(&goal);
        let g = ProofGoal::new(simplify_definite_description_conjunction(&abstracted));
        assert(exprs_view(g.context@) =~= Seq::<Expr>::empty());
        self.prove_goal(&g, 0)
    }

    /// Prove the goal's target from the facts and the goal's hypotheses.
    pub fn prove_with_goal(&mut self, goal: ProofGoal) -> (r: Result<DerivationTree, ProofError>)
        requires
            old(self).wf(),
        ensures
            final(self).wf(),
            final(self).kb() == old(self).kb(),
            final(self).max_depth() == old(self).max_depth(),
            final(self).step_budget() == old(self).step_budget(),
            r matches Ok(t) ==> proves(old(self).kb(), normalize_goals(exprs_view(goal.context@)), normalize_goal(goal.target@), t@),
            r matches Err(e) ==> search_error(e),
            old(self).step_budget() >= 1 && !is_falsum_model(normalize_goal(goal.target@))
                && (cited(old(self).kb(), normalize_goals(exprs_view(goal.context@)), normalize_goal(goal.target@))
                    || is_reflexive(normalize_goal(goal.target@)))
                ==> r is Ok,
            (normalize_goal(goal.target@) matches Expr::Or(l, _) && !is_falsum_model(*l)
                && cited(old(self).kb(), normalize_goals(exprs_view(goal.context@)), *l)
                && old(self).step_budget() >= 2 && old(self).max_depth() >= 1)
                ==> r is Ok,
    {
        let target = simplify_definite_description_conjunction(&abstract_events_only(&goal.target));
        let mut context: Vec<ProofExpr> = Vec::new();
        let mut i: usize = 0;
        while i < goal.context.len()
            invariant
                i <= goal.context@.len(),
                context@.len() == i,
                forall|j: int| 0 <= j < i ==> #[trigger] context@[j]@ == normalize_goal(goal.context@[j]@),
            decreases goal.context.len() - i,
        {
            let a = abstract_events_only(&goal.context[i]);
            context.push(simplify_definite_description_conjunction(&a));
            i += 1;
        }
        assert(exprs_view(context@) =~= normalize_goals(exprs_view(goal.context@)));
        let g = ProofGoal::with_context(target, context);
        self.prove_goal(&g, 0)
    }

    /// One search node: count it, bound the depth, refuse to re-enter a goal already
    /// open on this branch, and run the strategies.
    fn prove_goal(&mut self, goal: &ProofGoal, depth: usize) -> (r: Result<DerivationTree, ProofError>)
        requires
            depth <= old(self).max_depth + 1,
        ensures
            Self::keeps(old(self), final(self)),
            r matches Ok(t) ==> proves(old(self).kb(), exprs_view(goal.context@), goal.target@, t@),
            r matches Err(e) ==> search_error(e),
            depth == 0 && old(self).step_budget >= 1 && old(self).active_goals@.len() == 0 && !is_falsum_model(goal.target@)
                && (cited(old(self).kb(), exprs_view(goal.context@), goal.target@) || is_reflexive(goal.target@))
                ==> r is Ok,
            depth > 0 && depth < usize::MAX && depth <= old(self).max_depth && old(self).steps < old(self).step_budget && not_open(old(self).active_goals@, goal.target@)
                && !is_falsum_model(goal.target@)
                && (cited(old(self).kb(), exprs_view(goal.context@), goal.target@) || is_reflexive(goal.target@))
                ==> r is Ok,
            (goal.target@ matches Expr::Or(l, _) && !is_falsum_model(*l) && cited(old(self).kb(), exprs_view(goal.context@), *l)
                && depth < old(self).max_depth && depth + 1 < usize::MAX
                && not_open(old(self).active_goals@, goal.target@) && not_open(old(self).active_goals@, *l)
                && (if depth == 0 { 2 <= old(self).step_budget } else { old(self).steps + 2 <= old(self).step_budget }))
                ==> r is Ok,
        decreases old(self).max_depth + 1 - depth, 2nat,
    {
        if depth == 0 {
            self.steps = 0;
        }
        match self.charge_budget() {
            Err(e) => return Err(e),
            Ok(()) => {},
        }
        if depth > self.max_depth {
            return Err(ProofError::DepthExceeded);
        }
        if self.goal_is_active(goal) {
            return Err(ProofError::NoProofFound);
        }
        let ghost before = self.active_goals@;
        self.active_goals.push(ProofGoal::with_context(copy_expr(&goal.target), copy_exprs(&goal.context)));
        proof {
            if goal.target@ is Or {
                let l = *goal.target@->Or_0;
                let r = *goal.target@->Or_1;
                assert(crate::normalize::expr_size(goal.target@) == 1 + crate::normalize::expr_size(l) + crate::normalize::expr_size(r));
                assert(goal.target@ != l);
                if not_open(before, l) {
                    assert forall|i: int| 0 <= i < self.active_goals@.len() implies (#[trigger] self.active_goals@[i]).target@ != l by {
                        if i < before.len() {
                            assert(self.active_goals@[i] == before[i]);
                        }
                    }
                }
            }
        }
        let result = self.prove_goal_inner(goal, depth);
        self.active_goals.pop();
        assert(self.active_goals@ =~= before);
        result
    }

    /// Run the strategies in turn: refutation for an absurd goal, reflexivity, matching
    /// a fact, modus tollens for a negated goal, introduction rules, chaining through
    /// implications, and disjunction elimination.
    fn prove_goal_inner(&mut self, goal: &ProofGoal, depth: usize) -> (r: Result<DerivationTree, ProofError>)
        requires
            depth <= old(self).max_depth,
        ensures
            Self::keeps(old(self), final(self)),
            r matches Ok(t) ==> proves(old(self).kb(), exprs_view(goal.context@), goal.target@, t@),
            r matches Err(e) ==> search_error(e),
            depth < usize::MAX && !is_falsum_model(goal.target@)
                && (cited(old(self).kb(), exprs_view(goal.context@), goal.target@) || is_reflexive(goal.target@))
                ==> r is Ok,
            (goal.target@ matches Expr::Or(l, _) && !is_falsum_model(*l) && cited(old(self).kb(), exprs_view(goal.context@), *l)
                && depth < old(self).max_depth && depth + 1 < usize::MAX && old(self).steps < old(self).step_budget
                && not_open(old(self).active_goals@, *l))
                ==> r is Ok,
        decreases old(self).max_depth + 1 - depth, 1nat,
    {
        if depth == usize::MAX {
            return Err(ProofError::DepthExceeded);
        }
        if is_falsum(&goal.target) {
            return match self.find_contradiction(goal) {
                Some(t) => Ok(t),
                None => Err(ProofError::NoProofFound),
            };
        }
        if let Some(t) = Self::try_reflexivity(goal) {
            return Ok(t);
        }
        if let Some(t) = self.try_match_fact(goal) {
            return Ok(t);
        }
        if let Some(t) = self.try_modus_tollens(goal, depth) {
            return Ok(t);
        }
        if let Some(t) = self.try_intro_rules(goal, depth) {
            return Ok(t);
        }
        if let Some(t) = self.try_backward_chain(goal, depth) {
            return Ok(t);
        }
        if let Some(t) = self.try_disjunction_elimination(goal, depth) {
            return Ok(t);
        }
        Err(ProofError::NoProofFound)
    }

    /// Whether a goal with this target and these hypotheses is already open on the
    /// current branch.
    fn goal_is_active(&self, goal: &ProofGoal) -> (r: bool)
        ensures
            self.active_goals@.len() == 0 ==> !r,
            not_open(self.active_goals@, goal.target@) ==> !r,
    {
        let mut i: usize = 0;
        while i < self.active_goals.len()
            decreases self.active_goals.len() - i,
        {
            let g = &self.active_goals[i];
            if expr_eq(&g.target, &goal.target) && g.context.len() == goal.context.len() {
                let mut same = true;
                let mut j: usize = 0;
                while j < g.context.len()
                    invariant
                        g.context@.len() == goal.context@.len(),
                    decreases g.context.len() - j,
                {
                    if !expr_eq(&g.context[j], &goal.context[j]) {
                        same = false;
                    }
                    j += 1;
                }
                if same {
                    return true;
                }
            }
            i += 1;
        }
        false
    }

    /// Modus tollens for a negated goal `¬P`: for each implication `P → Q` among the facts
    /// and hypotheses, cite `¬Q` if it is stated, else try to prove it.
    fn try_modus_tollens(&mut self, goal: &ProofGoal, depth: usize) -> (r: Option<DerivationTree>)
        requires
            depth <= old(self).max_depth,
            depth < usize::MAX,
        ensures
            Self::keeps(old(self), final(self)),
            r matches Some(t) ==> proves(old(self).kb(), exprs_view(goal.context@), goal.target@, t@),
            !(goal.target@ is Not) ==> *final(self) == *old(self),
        decreases old(self).max_depth + 1 - depth, 0nat,
    {
        let inner = match negated_operand(&goal.target) {
            Some(x) => x,
            None => {
                return None;
            },
        };
        let ghost kb = old(self).kb();
        let ghost hyps = exprs_view(goal.context@);
        let n = combined_len(self.knowledge_base.len(), goal.context.len());
        let mut i: usize = 0;
        while i < n
            invariant
                Self::keeps(old(self), self),
                kb == old(self).kb(),
                hyps == exprs_view(goal.context@),
                n <= self.knowledge_base@.len() + goal.context@.len(),
                goal.target@ == Expr::Not(Box::new(inner@)),
                depth <= old(self).max_depth,
                depth < usize::MAX,
            decreases n - i,
        {
            let imp = copy_expr(entry_of(&self.knowledge_base, &goal.context, i));
            assert(cited(kb, hyps, imp@));
            if let ProofExpr::Implies(ant, con) = &imp {
                if expr_eq(inner, ant) {
                    let mut j: usize = 0;
                    while j < n
                        invariant
                            Self::keeps(old(self), self),
                            kb == old(self).kb(),
                            hyps == exprs_view(goal.context@),
                            n <= self.knowledge_base@.len() + goal.context@.len(),
                            cited(kb, hyps, imp@),
                            imp@ == Expr::Implies(Box::new(ant@), Box::new(con@)),
                            goal.target@ == Expr::Not(Box::new(inner@)),
                            inner@ == ant@,
                        decreases n - j,
                    {
                        let ne = entry_of(&self.knowledge_base, &goal.context, j);
                        if let Some(negated) = negated_operand(ne) {
                            if expr_eq(negated, con) {
                                let il = premise_leaf(copy_expr(&imp));
                                let nl = premise_leaf(copy_expr(ne));
                                proof {
                                    lemma_leaf_valid(kb, hyps, imp@);
                                    lemma_leaf_valid(kb, hyps, ne@);
                                }
                                return Some(node2(copy_expr(&goal.target), InferenceRule::ModusTollens, il, nl));
                            }
                        }
                        j += 1;
                    }
                    let nq = ProofExpr::Not(Box::new(copy_expr(con)));
                    let ng = ProofGoal::with_context(nq, copy_exprs(&goal.context));
                    match self.prove_goal(&ng, depth + 1) {
                        Ok(q) => {
                            let il = premise_leaf(copy_expr(&imp));
                            proof {
                                lemma_leaf_valid(kb, hyps, imp@);
                            }
                            return Some(node2(copy_expr(&goal.target), InferenceRule::ModusTollens, il, q));
                        },
                        Err(_) => {},
                    }
                }
            }
            i += 1;
        }
        None
    }

    /// Decompose the goal: prove both sides of a conjunction, one side of a disjunction,
    /// both directions of a biconditional, the consequent of an implication under its
    /// antecedent as a hypothesis, or the core of a double negation.
    fn try_intro_rules(&mut self, goal: &ProofGoal, depth: usize) -> (r: Option<DerivationTree>)
        requires
            depth <= old(self).max_depth,
            depth < usize::MAX,
        ensures
            Self::keeps(old(self), final(self)),
            r matches Some(t) ==> proves(old(self).kb(), exprs_view(goal.context@), goal.target@, t@),
            (goal.target@ matches Expr::Or(l, _) && !is_falsum_model(*l) && cited(old(self).kb(), exprs_view(goal.context@), *l)
                && depth < old(self).max_depth && depth + 1 < usize::MAX && old(self).steps < old(self).step_budget
                && not_open(old(self).active_goals@, *l))
                ==> r is Some,
        decreases old(self).max_depth + 1 - depth, 0nat,
    {
        let ghost kb = old(self).kb();
        let ghost hyps = exprs_view(goal.context@);
        match &goal.target {
            ProofExpr::And(l, r) => {
                let lg = ProofGoal::with_context(copy_expr(l), copy_exprs(&goal.context));
                let rg = ProofGoal::with_context(copy_expr(r), copy_exprs(&goal.context));
                let lp = self.prove_goal(&lg, depth + 1);
                let rp = self.prove_goal(&rg, depth + 1);
                match (lp, rp) {
                    (Ok(a), Ok(b)) => {
                        let t = node2(copy_expr(&goal.target), InferenceRule::ConjunctionIntro, a, b);
                        assert(valid_derivation(kb, hyps, t@));
                        Some(t)
                    },
                    _ => None,
                }
            },
            ProofExpr::Or(l, r) => {
                let lg = ProofGoal::with_context(copy_expr(l), copy_exprs(&goal.context));
                match self.prove_goal(&lg, depth + 1) {
                    Ok(a) => {
                        let t = node1(copy_expr(&goal.target), InferenceRule::DisjunctionIntro, a);
                        assert(valid_derivation(kb, hyps, t@));
                        return Some(t);
                    },
                    Err(_) => {},
                }
                let rg = ProofGoal::with_context(copy_expr(r), copy_exprs(&goal.context));
                match self.prove_goal(&rg, depth + 1) {
                    Ok(b) => {
                        let t = node1(copy_expr(&goal.target), InferenceRule::DisjunctionIntro, b);
                        assert(valid_derivation(kb, hyps, t@));
                        Some(t)
                    },
                    Err(_) => None,
                }
            },
            ProofExpr::Iff(l, r) => {
                let pq = ProofExpr::Implies(Box::new(copy_expr(l)), Box::new(copy_expr(r)));
                let qp = ProofExpr::Implies(Box::new(copy_expr(r)), Box::new(copy_expr(l)));
                let pg = ProofGoal::with_context(pq, copy_exprs(&goal.context));
                let qg = ProofGoal::with_context(qp, copy_exprs(&goal.context));
                let pp = self.prove_goal(&pg, depth + 1);
                let qq = self.prove_goal(&qg, depth + 1);
                match (pp, qq) {
                    (Ok(a), Ok(b)) => {
                        let t = node2(copy_expr(&goal.target), InferenceRule::BicondIntro, a, b);
                        assert(valid_derivation(kb, hyps, t@));
                        Some(t)
                    },
                    _ => None,
                }
            },
            ProofExpr::Implies(ant, con) => {
                let mut ext = copy_exprs(&goal.context);
                ext.push(copy_expr(ant));
                assert(exprs_view(ext@) =~= hyps.push(ant@));
                let cg = ProofGoal::with_context(copy_expr(con), ext);
                match self.prove_goal(&cg, depth + 1) {
                    Ok(a) => {
                        let t = node1(copy_expr(&goal.target), InferenceRule::ImpliesIntro, a);
                        assert(valid_derivation(kb, hyps, t@));
                        Some(t)
                    },
                    Err(_) => None,
                }
            },
            ProofExpr::Not(inner) => {
                match &**inner {
                    ProofExpr::Not(core) => {
                        assert(inner@ == Expr::Not(Box::new(core@)));
                        assert(goal.target@ == Expr::Not(Box::new(inner@)));
                        let cg = ProofGoal::with_context(copy_expr(core), copy_exprs(&goal.context));
                        match self.prove_goal(&cg, depth + 1) {
                            Ok(a) => {
                                let t = node1(copy_expr(&goal.target), InferenceRule::DoubleNegation, a);
                                assert(valid_derivation(kb, hyps, t@));
                                Some(t)
                            },
                            Err(_) => None,
                        }
                    },
                    _ => None,
                }
            },
            _ => None,
        }
    }

    /// Whether `g` can be discharged at once: it is an atomic fact or hypothesis, or a
    /// conjunct of a conjunctive one.
    fn subgoal_pinnable(&self, g: &ProofExpr, context: &Vec<ProofExpr>) -> bool {
        let n = combined_len(context.len(), self.knowledge_base.len());
        let mut i: usize = 0;
        while i < n
            invariant
                n <= context@.len() + self.knowledge_base@.len(),
            decreases n - i,
        {
            let fact = entry_of(context, &self.knowledge_base, i);
            match fact {
                ProofExpr::Predicate { .. } | ProofExpr::Identity(..) | ProofExpr::Atom(_) => {
                    if expr_eq(g, fact) {
                        return true;
                    }
                },
                ProofExpr::And(..) => {
                    let mut cs: Vec<ProofExpr> = Vec::new();
                    flatten_and(fact, &mut cs);
                    let mut j: usize = 0;
                    while j < cs.len()
                        decreases cs.len() - j,
                    {
                        if expr_eq(g, &cs[j]) {
                            return true;
                        }
                        j += 1;
                    }
                },
                _ => {},
            }
            i += 1;
        }
        false
    }

    /// How many conjuncts of the antecedent `ant` can be discharged at once.
    fn antecedent_pinnability(&self, ant: &ProofExpr, context: &Vec<ProofExpr>) -> (r: usize)
        ensures
            r <= and_leaves(ant@).len(),
    {
        let mut cs: Vec<ProofExpr> = Vec::new();
        flatten_and(ant, &mut cs);
        assert(exprs_view(cs@) =~= and_leaves(ant@));
        assert(cs@.len() == exprs_view(cs@).len());
        let mut count: usize = 0;
        let mut j: usize = 0;
        while j < cs.len()
            invariant
                count <= j <= cs@.len(),
            decreases cs.len() - j,
        {
            if self.subgoal_pinnable(&cs[j], context) {
                count += 1;
            }
            j += 1;
        }
        count
    }

    /// The facts `P → goal`, by position, most pinnable antecedent first; equal scores
    /// keep their order in the knowledge base.
    fn chain_candidates(&self, goal: &ProofGoal) -> (r: Vec<usize>)
        ensures
            forall|k: int| 0 <= k < r@.len() ==> #[trigger] r@[k] < self.knowledge_base@.len(),
    {
        let mut order: Vec<(usize, usize)> = Vec::new();
        let mut i: usize = 0;
        while i < self.knowledge_base.len()
            invariant
                i <= self.knowledge_base@.len(),
                forall|k: int| 0 <= k < order@.len() ==> #[trigger] order@[k].0 < self.knowledge_base@.len(),
            decreases self.knowledge_base.len() - i,
        {
            if let ProofExpr::Implies(ant, con) = &self.knowledge_base[i] {
                if expr_eq(con, &goal.target) {
                    let score = self.antecedent_pinnability(ant, &goal.context);
                    let mut p: usize = 0;
                    while p < order.len() && order[p].1 >= score
                        invariant
                            p <= order@.len(),
                        decreases order.len() - p,
                    {
                        p += 1;
                    }
                    order.insert(p, (i, score));
                }
            }
            i += 1;
        }
        let mut r: Vec<usize> = Vec::new();
        let mut k: usize = 0;
        while k < order.len()
            invariant
                k <= order@.len(),
                r@.len() == k,
                forall|m: int| 0 <= m < order@.len() ==> #[trigger] order@[m].0 < self.knowledge_base@.len(),
                forall|m: int| 0 <= m < k ==> #[trigger] r@[m] < self.knowledge_base@.len(),
            decreases order.len() - k,
        {
            r.push(order[k].0);
            k += 1;
        }
        r
    }

    /// Chain backwards: for each fact `P → goal`, most pinnable antecedent first, try to
    /// prove `P`.
    fn try_backward_chain(&mut self, goal: &ProofGoal, depth: usize) -> (r: Option<DerivationTree>)
        requires
            depth <= old(self).max_depth,
            depth < usize::MAX,
        ensures
            Self::keeps(old(self), final(self)),
            r matches Some(t) ==> proves(old(self).kb(), exprs_view(goal.context@), goal.target@, t@),
        decreases old(self).max_depth + 1 - depth, 0nat,
    {
        let candidates = self.chain_candidates(goal);
        let n = candidates.len();
        let mut k: usize = 0;
        while k < n
            invariant
                Self::keeps(old(self), self),
                n == candidates@.len(),
                forall|m: int| 0 <= m < candidates@.len() ==> #[trigger] candidates@[m] < self.knowledge_base@.len(),
                depth <= old(self).max_depth,
                depth < usize::MAX,
            decreases n - k,
        {
            let i = candidates[k];
            let fact = copy_expr(&self.knowledge_base[i]);
            assert(old(self).kb()[i as int] == fact@);
            if let ProofExpr::Implies(ant, con) = &fact {
                if expr_eq(con, &goal.target) {
                    let ag = ProofGoal::with_context(copy_expr(ant), copy_exprs(&goal.context));
                    match self.prove_goal(&ag, depth + 1) {
                        Ok(p) => {
                            let ghost fv = fact@;
                            let leaf = premise_leaf(fact);
                            proof {
                                assert(old(self).kb()[i as int] == fv);
                                lemma_leaf_valid(old(self).kb(), exprs_view(goal.context@), fv);
                            }
                            return Some(node2(copy_expr(&goal.target), InferenceRule::ModusPonens, leaf, p));
                        },
                        Err(_) => {},
                    }
                }
            }
            k += 1;
        }
        None
    }

    /// Disjunctive syllogism: from `A ∨ B` and `¬A` conclude `B` (and symmetrically),
    /// first over the stated disjunctions, then over disjunctions that a fact yields.
    fn try_disjunction_elimination(&self, goal: &ProofGoal, depth: usize) -> (r: Option<DerivationTree>)
        ensures
            r matches Some(t) ==> proves(self.kb(), exprs_view(goal.context@), goal.target@, t@),
    {
        let ghost kb = self.kb();
        let ghost hyps = exprs_view(goal.context@);
        let n = combined_len(self.knowledge_base.len(), goal.context.len());
        let mut i: usize = 0;
        while i < n
            invariant
                n <= self.knowledge_base@.len() + goal.context@.len(),
                kb == self.kb(),
                hyps == exprs_view(goal.context@),
            decreases n - i,
        {
            let d = entry_of(&self.knowledge_base, &goal.context, i);
            if let Some((left, right)) = disjunction_sides(d) {
                let mut j: usize = 0;
                while j < n
                    invariant
                        n <= self.knowledge_base@.len() + goal.context@.len(),
                        kb == self.kb(),
                        hyps == exprs_view(goal.context@),
                        cited(kb, hyps, d@),
                        d@ == Expr::Or(Box::new(left@), Box::new(right@)),
                    decreases n - j,
                {
                    let ne = entry_of(&self.knowledge_base, &goal.context, j);
                    if let Some(negated) = negated_operand(ne) {
                        if expr_eq(negated, left) && expr_eq(&goal.target, right) {
                            let dl = premise_leaf(copy_expr(d));
                            let nl = premise_leaf(copy_expr(ne));
                            proof {
                                lemma_leaf_valid(kb, hyps, d@);
                                lemma_leaf_valid(kb, hyps, ne@);
                            }
                            return Some(node2(copy_expr(&goal.target), InferenceRule::DisjunctionElim, dl, nl));
                        }
                        if expr_eq(negated, right) && expr_eq(&goal.target, left) {
                            let dl = premise_leaf(copy_expr(d));
                            let nl = premise_leaf(copy_expr(ne));
                            proof {
                                lemma_leaf_valid(kb, hyps, d@);
                                lemma_leaf_valid(kb, hyps, ne@);
                            }
                            return Some(node2(copy_expr(&goal.target), InferenceRule::DisjunctionElim, dl, nl));
                        }
                    }
                    j += 1;
                }
            }
            i += 1;
        }
        if depth < self.max_depth && disjunction_sides(&goal.target).is_none() {
            let mut j: usize = 0;
            while j < n
                invariant
                    n <= self.knowledge_base@.len() + goal.context@.len(),
                    kb == self.kb(),
                    hyps == exprs_view(goal.context@),
                decreases n - j,
            {
                let ne = entry_of(&self.knowledge_base, &goal.context, j);
                if let Some(negated) = negated_operand(ne) {
                    if !expr_eq(negated, &goal.target) {
                        let mut orient: usize = 0;
                        while orient < 2
                            invariant
                                kb == self.kb(),
                                hyps == exprs_view(goal.context@),
                                cited(kb, hyps, ne@),
                                ne@ == Expr::Not(Box::new(negated@)),
                            decreases 2 - orient,
                        {
                            let disjunction = if orient == 0 {
                                ProofExpr::Or(Box::new(copy_expr(negated)), Box::new(copy_expr(&goal.target)))
                            } else {
                                ProofExpr::Or(Box::new(copy_expr(&goal.target)), Box::new(copy_expr(negated)))
                            };
                            let stated = position_of(&self.knowledge_base, &disjunction).is_some()
                                || position_of(&goal.context, &disjunction).is_some();
                            if !stated {
                                let ghost dv = disjunction@;
                                let dg = ProofGoal::with_context(disjunction, copy_exprs(&goal.context));
                                if let Some(p) = self.try_match_fact(&dg) {
                                    let nl = premise_leaf(copy_expr(ne));
                                    proof {
                                        lemma_leaf_valid(kb, hyps, ne@);
                                    }
                                    return Some(node2(copy_expr(&goal.target), InferenceRule::DisjunctionElim, p, nl));
                                }
                            }
                            orient += 1;
                        }
                    }
                }
                j += 1;
            }
        }
        None
    }

    /// An identity whose sides are the same term holds by reflexivity.
    fn try_reflexivity(goal: &ProofGoal) -> (r: Option<DerivationTree>)
        ensures
            r matches Some(t) ==> forall|kb: Seq<Expr>, hyps: Seq<Expr>| #[trigger] proves(kb, hyps, goal.target@, t@),
            is_reflexive(goal.target@) ==> r is Some,
    {
        match &goal.target {
            ProofExpr::Identity(a, b) => {
                if term_eq(a, b) {
                    Some(DerivationTree::leaf(copy_expr(&goal.target), InferenceRule::Reflexivity))
                } else {
                    None
                }
            },
            _ => None,
        }
    }

    /// Find a direct contradiction `P`, `¬P` among the facts and hypotheses, and
    /// conclude the (absurd) goal from it.
    fn find_contradiction(&self, goal: &ProofGoal) -> (r: Option<DerivationTree>)
        requires
            is_falsum_model(goal.target@),
        ensures
            r matches Some(t) ==> proves(self.kb(), exprs_view(goal.context@), goal.target@, t@),
    {
        let ghost kb = self.kb();
        let ghost hyps = exprs_view(goal.context@);
        let n = combined_len(self.knowledge_base.len(), goal.context.len());
        let mut i: usize = 0;
        while i < n
            invariant
                n <= self.knowledge_base@.len() + goal.context@.len(),
                kb == self.kb(),
                hyps == exprs_view(goal.context@),
                is_falsum_model(goal.target@),
            decreases n - i,
        {
            let e = entry_of(&self.knowledge_base, &goal.context, i);
            if let Some(inner) = negated_operand(e) {
                let mut j: usize = 0;
                while j < n
                    invariant
                        n <= self.knowledge_base@.len() + goal.context@.len(),
                        kb == self.kb(),
                        hyps == exprs_view(goal.context@),
                        cited(kb, hyps, e@),
                        e@ == Expr::Not(Box::new(inner@)),
                        is_falsum_model(goal.target@),
                    decreases n - j,
                {
                    let other = entry_of(&self.knowledge_base, &goal.context, j);
                    if expr_eq(other, inner) {
                        let pos = premise_leaf(copy_expr(inner));
                        let neg = premise_leaf(copy_expr(e));
                        proof {
                            lemma_leaf_valid(kb, hyps, inner@);
                            lemma_leaf_valid(kb, hyps, e@);
                        }
                        return Some(node2(copy_expr(&goal.target), InferenceRule::Contradiction, pos, neg));
                    }
                    j += 1;
                }
            }
            i += 1;
        }
        None
    }

    /// Match the goal against a hypothesis or fact, or project it out of a conjunctive one.
    fn try_match_fact(&self, goal: &ProofGoal) -> (r: Option<DerivationTree>)
        ensures
            r matches Some(t) ==> proves(self.kb(), exprs_view(goal.context@), goal.target@, t@),
            cited(self.kb(), exprs_view(goal.context@), goal.target@) ==> r is Some,
    {
        let ghost kb = self.kb();
        let ghost hyps = exprs_view(goal.context@);
        if let Some(i) = position_of(&goal.context, &goal.target) {
            assert(hyps[i as int] == goal.target@);
            return Some(premise_leaf(copy_expr(&goal.target)));
        }
        if let Some(i) = position_of(&self.knowledge_base, &goal.target) {
            assert(kb[i as int] == goal.target@);
            return Some(premise_leaf(copy_expr(&goal.target)));
        }
        let n = combined_len(goal.context.len(), self.knowledge_base.len());
        let mut i: usize = 0;
        while i < n
            invariant
                n <= self.knowledge_base@.len() + goal.context@.len(),
                kb == self.kb(),
                hyps == exprs_view(goal.context@),
            decreases n - i,
        {
            let fact = entry_of(&goal.context, &self.knowledge_base, i);
            if conjunction_sides(fact).is_some() {
                let leaf = premise_leaf(copy_expr(fact));
                match extract_conjunct(Ghost(kb), Ghost(hyps), leaf, &goal.target) {
                    Ok(t) => return Some(t),
                    Err(_) => {},
                }
            }
            i += 1;
        }
        None
    }
}

} // verus!
