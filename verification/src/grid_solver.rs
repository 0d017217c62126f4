//! A certified finite-domain (logic-grid) solver: trail-based unit propagation and DPLL search
//! over ground premises, emitting a [`DerivationTree`] from the recorded reasons. The trees are
//! meant to be re-checked by a proof checker, so the solver sits outside the trusted base.

use vstd::prelude::*;
use crate::expr::{ProofExpr, ProofTerm, Expr, DerivationTree, Derivation, InferenceRule, copy_expr, copy_term,
    expr_eq, term_eq, terms_eq, same_string, derivs_view};

verus! {

// ---------------------------------------------------------------------------
// Tree constructors: the certified shapes the emitter produces
// ---------------------------------------------------------------------------

/// The contradiction atom `⊥`.
pub open spec fn falsum_expr() -> Expr {
    Expr::Atom("⊥"@)
}

/// A derivation step as a model.
pub open spec fn step(c: Expr, rule: InferenceRule, premises: Seq<Derivation>) -> Derivation {
    Derivation { conclusion: c, rule, premises }
}

pub fn leaf(e: ProofExpr) -> (t: DerivationTree)
    ensures
        t@ == step(e@, InferenceRule::PremiseMatch, Seq::empty()),
{
    DerivationTree::leaf(e, InferenceRule::PremiseMatch)
}

fn two(a: DerivationTree, b: DerivationTree) -> (v: Vec<DerivationTree>)
    ensures
        derivs_view(v@) == seq![a@, b@],
{
    let v = vec![a, b];
    proof {
        assert(derivs_view(v@) =~= seq![a@, b@]);
    }
    v
}

fn falsum() -> (e: ProofExpr)
    ensures
        e@ == falsum_expr(),
{
    ProofExpr::Atom(String::from_str("⊥"))
}

/// `¬e`, peeling a double negation.
pub open spec fn neg_of(e: Expr) -> Expr {
    match e {
        Expr::Not(inner) => *inner,
        _ => Expr::Not(Box::new(e)),
    }
}

fn neg(e: &ProofExpr) -> (r: ProofExpr)
    ensures
        r@ == neg_of(e@),
{
    match e {
        ProofExpr::Not(inner) => copy_expr(inner),
        _ => ProofExpr::Not(Box::new(copy_expr(e))),
    }
}

/// ModusPonens: from `A → C` and `A`, conclude `C`.
pub fn modus_ponens(c: ProofExpr, impl_tree: DerivationTree, ante_tree: DerivationTree) -> (t: DerivationTree)
    ensures
        t@ == step(c@, InferenceRule::ModusPonens, seq![impl_tree@, ante_tree@]),
{
    DerivationTree::new(c, InferenceRule::ModusPonens, two(impl_tree, ante_tree))
}

/// Disjunctive syllogism: from `A ∨ B` and `¬A`, conclude `B`.
pub fn disjunction_elim(survivor: ProofExpr, or_tree: DerivationTree, neg_tree: DerivationTree) -> (t: DerivationTree)
    ensures
        t@ == step(survivor@, InferenceRule::DisjunctionElim, seq![or_tree@, neg_tree@]),
{
    DerivationTree::new(survivor, InferenceRule::DisjunctionElim, two(or_tree, neg_tree))
}

/// Conjunction introduction: from `A` and `B`, conclude `A ∧ B`.
pub fn conj_intro(a: ProofExpr, b: ProofExpr, l: DerivationTree, r: DerivationTree) -> (t: DerivationTree)
    ensures
        t@ == step(Expr::And(Box::new(a@), Box::new(b@)), InferenceRule::ConjunctionIntro, seq![l@, r@]),
{
    DerivationTree::new(ProofExpr::And(Box::new(a), Box::new(b)), InferenceRule::ConjunctionIntro, two(l, r))
}

/// Contradiction: from `P` and `¬P`, conclude `⊥`.
pub fn contradiction(p: DerivationTree, np: DerivationTree) -> (t: DerivationTree)
    ensures
        t@ == step(falsum_expr(), InferenceRule::Contradiction, seq![p@, np@]),
{
    DerivationTree::new(falsum(), InferenceRule::Contradiction, two(p, np))
}

/// Reductio: assume `assumed`, derive `⊥`, conclude `¬assumed`.
pub fn reductio(assumed: ProofExpr, falsum_tree: DerivationTree) -> (t: DerivationTree)
    ensures
        t@ == step(Expr::Not(Box::new(assumed@)), InferenceRule::ReductioAdAbsurdum, seq![step(assumed@,
            InferenceRule::PremiseMatch, Seq::empty()), falsum_tree@]),
{
    let concl = ProofExpr::Not(Box::new(copy_expr(&assumed)));
    DerivationTree::new(concl, InferenceRule::ReductioAdAbsurdum, two(leaf(assumed), falsum_tree))
}

/// Equality symmetry: from `a = b`, conclude `b = a`.
pub fn eq_sym(a: ProofTerm, b: ProofTerm, tree: DerivationTree) -> (t: DerivationTree)
    ensures
        t@ == step(Expr::Identity(b@, a@), InferenceRule::EqualitySymmetry, seq![tree@]),
{
    let v = vec![tree];
    proof {
        assert(derivs_view(v@) =~= seq![tree@]);
    }
    DerivationTree::new(ProofExpr::Identity(b, a), InferenceRule::EqualitySymmetry, v)
}

/// Case analysis to a common conclusion: from `A ∨ B` and the conclusion under each disjunct.
pub fn disjunction_cases(goal: ProofExpr, or_tree: DerivationTree, left: DerivationTree, right: DerivationTree) -> (t: DerivationTree)
    ensures
        t@ == step(goal@, InferenceRule::DisjunctionCases, seq![or_tree@, left@, right@]),
{
    let v = vec![or_tree, left, right];
    proof {
        assert(derivs_view(v@) =~= seq![or_tree@, left@, right@]);
    }
    DerivationTree::new(goal, InferenceRule::DisjunctionCases, v)
}

/// Conjunction elimination: from `A ∧ B`, project `conjunct`.
pub fn conj_elim(conjunct: ProofExpr, and_tree: DerivationTree) -> (t: DerivationTree)
    ensures
        t@ == step(conjunct@, InferenceRule::ConjunctionElim, seq![and_tree@]),
{
    let v = vec![and_tree];
    proof {
        assert(derivs_view(v@) =~= seq![and_tree@]);
    }
    DerivationTree::new(conjunct, InferenceRule::ConjunctionElim, v)
}

/// Whether `c` and `want` are the same identity with its two sides swapped.
pub open spec fn flipped_identity(c: Expr, want: Expr) -> bool {
    &&& c is Identity
    &&& want is Identity
    &&& c->Identity_0 == want->Identity_1
    &&& c->Identity_1 == want->Identity_0
}

/// The conclusion a literal proof gets once re-oriented towards `want`: `want` itself when the
/// two differ only in the order of an identity (or of a negated identity), else unchanged.
pub open spec fn oriented(c: Expr, want: Expr) -> Expr {
    if c == want || flipped_identity(c, want) {
        want
    } else if c is Not && want is Not && flipped_identity(*c->Not_0, *want->Not_0) {
        want
    } else {
        c
    }
}

/// Re-orient a literal proof to conclude exactly `want`, inserting an equality symmetry (or a
/// symmetry under reductio for a negated identity) when only the identity order differs.
fn align_to(tree: DerivationTree, want: &ProofExpr) -> (t: DerivationTree)
    ensures
        t@.conclusion == oriented(tree@.conclusion, want@),
{
    if expr_eq(&tree.conclusion, want) {
        return tree;
    }
    proof {
        reveal_with_fuel(crate::expr::expr_view, 3);
    }
    let flip = match (&tree.conclusion, want) {
        (ProofExpr::Identity(a, b), ProofExpr::Identity(x, y)) => term_eq(a, y) && term_eq(b, x),
        _ => false,
    };
    if flip {
        match want {
            ProofExpr::Identity(x, y) => {
                return eq_sym(copy_term(y), copy_term(x), tree);
            },
            _ => {
                return tree;
            },
        }
    }
    let neg_flip = match (&tree.conclusion, want) {
        (ProofExpr::Not(ti), ProofExpr::Not(wi)) => match (&**ti, &**wi) {
            (ProofExpr::Identity(a, b), ProofExpr::Identity(x, y)) => term_eq(a, y) && term_eq(b, x),
            _ => false,
        },
        _ => false,
    };
    if neg_flip {
        match want {
            ProofExpr::Not(wi) => match &**wi {
                ProofExpr::Identity(x, y) => {
                    let assumed = ProofExpr::Identity(copy_term(x), copy_term(y));
                    let flipped = eq_sym(copy_term(x), copy_term(y), leaf(copy_expr(&assumed)));
                    let bot = contradiction(flipped, tree);
                    return reductio(assumed, bot);
                },
                _ => {
                    return tree;
                },
            },
            _ => {
                return tree;
            },
        }
    }
    tree
}

/// Build `Contradiction` from a positive proof and a negation proof, aligning the positive
/// side's identity orientation to the negation's inner term.
fn contra_align(pos_tree: DerivationTree, neg_tree: DerivationTree) -> (t: DerivationTree)
    ensures
        t@.conclusion == falsum_expr(),
        t@.rule == InferenceRule::Contradiction,
{
    let inner = match &neg_tree.conclusion {
        ProofExpr::Not(i) => copy_expr(i),
        other => copy_expr(other),
    };
    let aligned = align_to(pos_tree, &inner);
    contradiction(aligned, neg_tree)
}

/// `Contradiction` from two proofs of opposite polarity, in either order.
fn make_contradiction(a: DerivationTree, b: DerivationTree) -> (t: DerivationTree)
    ensures
        t@.conclusion == falsum_expr(),
        t@.rule == InferenceRule::Contradiction,
{
    if matches!(a.conclusion, ProofExpr::Not(_)) {
        contra_align(b, a)
    } else {
        contra_align(a, b)
    }
}


// ---------------------------------------------------------------------------
// Atoms and literals
// ---------------------------------------------------------------------------

/// An atomic proposition: a predicate application, an identity, or a named atom.
pub open spec fn is_atomish(e: Expr) -> bool {
    e is Predicate || e is Identity || e is Atom
}

/// An atom or a negated atom.
pub open spec fn is_literal(e: Expr) -> bool {
    match e {
        Expr::Not(inner) => is_atomish(*inner),
        _ => is_atomish(e),
    }
}

/// A clause disjunct the solver can decide on: a literal, or a conjunction/disjunction whose
/// every leaf is a literal.
pub open spec fn is_clause_disjunct(e: Expr) -> bool
    decreases e,
{
    match e {
        Expr::And(l, r) => is_clause_disjunct(*l) && is_clause_disjunct(*r),
        Expr::Or(l, r) => is_clause_disjunct(*l) && is_clause_disjunct(*r),
        _ => is_literal(e),
    }
}

/// Two atoms state the same proposition: predicates by name and arguments (the world is no
/// part of an atom's identity), identities as unordered pairs, named atoms by name.
pub open spec fn same_atom(a: Expr, b: Expr) -> bool {
    match (a, b) {
        (Expr::Predicate { name: n1, args: a1, .. }, Expr::Predicate { name: n2, args: a2, .. }) =>
            n1 == n2 && a1 == a2,
        (Expr::Identity(x1, y1), Expr::Identity(x2, y2)) => (x1 == x2 && y1 == y2) || (x1 == y2 && y1 == x2),
        (Expr::Atom(s1), Expr::Atom(s2)) => s1 == s2,
        _ => false,
    }
}

/// The leaves of a right- or left-nested conjunction, left to right.
pub open spec fn and_leaves(e: Expr) -> Seq<Expr>
    decreases e,
{
    match e {
        Expr::And(l, r) => and_leaves(*l) + and_leaves(*r),
        _ => seq![e],
    }
}

/// The leaves of a nested disjunction, left to right.
pub open spec fn or_leaves(e: Expr) -> Seq<Expr>
    decreases e,
{
    match e {
        Expr::Or(l, r) => or_leaves(*l) + or_leaves(*r),
        _ => seq![e],
    }
}

/// The models of a list of expressions.
pub open spec fn exprs_view(s: Seq<ProofExpr>) -> Seq<Expr> {
    Seq::new(s.len(), |i: int| s[i]@)
}

fn atomish(e: &ProofExpr) -> (r: bool)
    ensures
        r == is_atomish(e@),
{
    match e {
        ProofExpr::Predicate { .. } => true,
        ProofExpr::Identity(..) => true,
        ProofExpr::Atom(_) => true,
        _ => false,
    }
}

fn literal(e: &ProofExpr) -> (r: bool)
    ensures
        r == is_literal(e@),
{
    match e {
        ProofExpr::Not(inner) => atomish(inner),
        _ => atomish(e),
    }
}

fn clause_disjunct(e: &ProofExpr) -> (r: bool)
    ensures
        r == is_clause_disjunct(e@),
    decreases e,
{
    match e {
        ProofExpr::And(l, r) => clause_disjunct(l) && clause_disjunct(r),
        ProofExpr::Or(l, r) => clause_disjunct(l) && clause_disjunct(r),
        _ => literal(e),
    }
}

fn same_atom_exec(a: &ProofExpr, b: &ProofExpr) -> (r: bool)
    ensures
        r == same_atom(a@, b@),
{
    match (a, b) {
        (ProofExpr::Predicate { name: n1, args: a1, .. }, ProofExpr::Predicate { name: n2, args: a2, .. }) =>
            same_string(n1, n2) && terms_eq(a1, a2),
        (ProofExpr::Identity(x1, y1), ProofExpr::Identity(x2, y2)) =>
            (term_eq(x1, x2) && term_eq(y1, y2)) || (term_eq(x1, y2) && term_eq(y1, x2)),
        (ProofExpr::Atom(s1), ProofExpr::Atom(s2)) => same_string(s1, s2),
        _ => false,
    }
}

pub(crate) fn flatten_and(e: &ProofExpr, out: &mut Vec<ProofExpr>)
    ensures
        exprs_view(final(out)@) == exprs_view(old(out)@) + and_leaves(e@),
    decreases e,
{
    match e {
        ProofExpr::And(l, r) => {
            flatten_and(l, out);
            flatten_and(r, out);
            proof {
                assert(and_leaves(e@) == and_leaves(l@) + and_leaves(r@));
                assert(exprs_view(out@) =~= exprs_view(old(out)@) + and_leaves(e@));
            }
        },
        _ => {
            out.push(copy_expr(e));
            proof {
                assert(exprs_view(out@) =~= exprs_view(old(out)@) + and_leaves(e@));
            }
        },
    }
}

fn flatten_or(e: &ProofExpr, out: &mut Vec<ProofExpr>)
    ensures
        exprs_view(final(out)@) == exprs_view(old(out)@) + or_leaves(e@),
    decreases e,
{
    match e {
        ProofExpr::Or(l, r) => {
            flatten_or(l, out);
            flatten_or(r, out);
            proof {
                assert(or_leaves(e@) == or_leaves(l@) + or_leaves(r@));
                assert(exprs_view(out@) =~= exprs_view(old(out)@) + or_leaves(e@));
            }
        },
        _ => {
            out.push(copy_expr(e));
            proof {
                assert(exprs_view(out@) =~= exprs_view(old(out)@) + or_leaves(e@));
            }
        },
    }
}

/// A literal over an interned atom: the atom's index and its polarity.
#[derive(Clone, Copy, PartialEq, Eq, Structural, Debug)]
struct Lit {
    var: usize,
    pos: bool,
}

impl Lit {
    fn negate(self) -> (l: Lit)
        ensures
            l == (Lit { var: self.var, pos: !self.pos }),
    {
        Lit { var: self.var, pos: !self.pos }
    }
}

/// The interned atoms, one per proposition.
struct AtomTable {
    atoms: Vec<ProofExpr>,
}

/// `b` extends `a`: every atom of `a` keeps its index.
pub open spec fn extends(a: Seq<ProofExpr>, b: Seq<ProofExpr>) -> bool {
    &&& a.len() <= b.len()
    &&& forall|i: int| 0 <= i < a.len() ==> #[trigger] b[i]@ == a[i]@
}

/// `a` is one of the atoms of `e`: a leaf under the connectives `∧`, `∨`, `→`, `↔` and `¬`.
pub open spec fn has_atom(e: Expr, a: Expr) -> bool
    decreases e,
{
    match e {
        Expr::And(l, r) => has_atom(*l, a) || has_atom(*r, a),
        Expr::Or(l, r) => has_atom(*l, a) || has_atom(*r, a),
        Expr::Implies(l, r) => has_atom(*l, a) || has_atom(*r, a),
        Expr::Iff(l, r) => has_atom(*l, a) || has_atom(*r, a),
        Expr::Not(x) => has_atom(*x, a),
        _ => e == a,
    }
}

/// Every entry that `b` adds to `a` is an atom of `e`.
spec fn grew_within(a: Seq<ProofExpr>, b: Seq<ProofExpr>, e: Expr) -> bool {
    forall|i: int| a.len() <= i < b.len() ==> has_atom(e, #[trigger] b[i]@)
}

/// `x` is an atom of one of `es`.
spec fn atom_of_some(es: Seq<Expr>, x: Expr) -> bool {
    exists|j: int| 0 <= j < es.len() && has_atom(es[j], x)
}

/// Every entry that `b` adds to `a` is an atom of one of `es`.
spec fn grew_within_any(a: Seq<ProofExpr>, b: Seq<ProofExpr>, es: Seq<Expr>) -> bool {
    forall|i: int| a.len() <= i < b.len() ==> atom_of_some(es, #[trigger] b[i]@)
}

impl AtomTable {
    /// Every entry is an atom and no proposition is interned twice.
    spec fn wf(&self) -> bool {
        &&& forall|i: int| 0 <= i < self.atoms@.len() ==> is_atomish(#[trigger] self.atoms@[i]@)
        &&& forall|i: int, j: int|
            0 <= i < j < self.atoms@.len() ==> !same_atom(#[trigger] self.atoms@[i]@, #[trigger] self.atoms@[j]@)
    }

    /// The index of the entry stating the same proposition as `atom`, if any.
    fn find(&self, atom: &ProofExpr) -> (r: Option<usize>)
        ensures
            match r {
                Some(v) => first_entry(self.atoms@, atom@, v as int),
                None => forall|i: int| 0 <= i < self.atoms@.len() ==> !same_atom(#[trigger] self.atoms@[i]@, atom@),
            },
    {
        let mut i: usize = 0;
        while i < self.atoms.len()
            invariant
                i <= self.atoms@.len(),
                forall|k: int| 0 <= k < i ==> !same_atom(#[trigger] self.atoms@[k]@, atom@),
            decreases self.atoms@.len() - i,
        {
            if same_atom_exec(&self.atoms[i], atom) {
                return Some(i);
            }
            i += 1;
        }
        None
    }

    fn intern(&mut self, atom: &ProofExpr) -> (r: Option<usize>)
        requires
            old(self).wf(),
        ensures
            final(self).wf(),
            extends(old(self).atoms@, final(self).atoms@),
            r is None <==> !is_atomish(atom@),
            r is None ==> final(self).atoms@ == old(self).atoms@,
            match r {
                Some(v) => v < final(self).atoms@.len() && same_atom(final(self).atoms@[v as int]@, atom@),
                None => true,
            },
            forall|i: int| old(self).atoms@.len() <= i < final(self).atoms@.len() ==> #[trigger] final(self).atoms@[i]@
                == atom@,
    {
        if !atomish(atom) {
            return None;
        }
        match self.find(atom) {
            Some(v) => Some(v),
            None => {
                let v = self.atoms.len();
                self.atoms.push(copy_expr(atom));
                proof {
                    assert forall|i: int, j: int|
                        0 <= i < j < self.atoms@.len() implies !same_atom(
                        #[trigger] self.atoms@[i]@,
                        #[trigger] self.atoms@[j]@,
                    ) by {
                        if j == v {
                            assert(old(self).atoms@[i] == self.atoms@[i]);
                        } else {
                            assert(old(self).atoms@[i] == self.atoms@[i]);
                            assert(old(self).atoms@[j] == self.atoms@[j]);
                        }
                    }
                    assert forall|i: int| 0 <= i < self.atoms@.len() implies is_atomish(#[trigger] self.atoms@[i]@) by {
                        if i < v {
                            assert(old(self).atoms@[i] == self.atoms@[i]);
                        }
                    }
                    assert forall|i: int| 0 <= i < old(self).atoms@.len() implies #[trigger] self.atoms@[i]@
                        == old(self).atoms@[i]@ by {
                        assert(old(self).atoms@[i] == self.atoms@[i]);
                    }
                }
                Some(v)
            },
        }
    }

    /// The literal of a (possibly negated) atom, interning the atom.
    fn lit(&mut self, e: &ProofExpr) -> (r: Option<Lit>)
        requires
            old(self).wf(),
        ensures
            final(self).wf(),
            extends(old(self).atoms@, final(self).atoms@),
            is_literal(e@) ==> r is Some,
            match r {
                Some(l) => l.var < final(self).atoms@.len() && (is_literal(e@) ==> denotes(final(self).atoms@, l, e@)),
                None => final(self).atoms@ == old(self).atoms@,
            },
            grew_within(old(self).atoms@, final(self).atoms@, e@),
    {
        let ghost t0 = self.atoms@;
        match e {
            ProofExpr::Not(inner) => {
                let r = self.intern(inner);
                proof {
                    if r is Some {
                        assert(has_atom(inner@, inner@));
                        assert forall|i: int| t0.len() <= i < self.atoms@.len() implies has_atom(e@, #[trigger] self.atoms@[i]@) by {
                            assert(self.atoms@[i]@ == inner@);
                        }
                    }
                }
                match r {
                    Some(v) => Some(Lit { var: v, pos: false }),
                    None => None,
                }
            },
            _ => {
                let r = self.intern(e);
                proof {
                    if r is Some {
                        assert(has_atom(e@, e@));
                        assert forall|i: int| t0.len() <= i < self.atoms@.len() implies has_atom(e@, #[trigger] self.atoms@[i]@) by {
                            assert(self.atoms@[i]@ == e@);
                        }
                    }
                }
                match r {
                    Some(v) => Some(Lit { var: v, pos: true }),
                    None => None,
                }
            },
        }
    }
}

proof fn lemma_extends_trans(a: Seq<ProofExpr>, b: Seq<ProofExpr>, c: Seq<ProofExpr>)
    requires
        extends(a, b),
        extends(b, c),
    ensures
        extends(a, c),
{
    assert forall|i: int| 0 <= i < a.len() implies #[trigger] c[i]@ == a[i]@ by {
        assert(c[i]@ == b[i]@);
    }
}

/// Some entry of `atoms` states the same proposition as `a`.
spec fn interned(atoms: Seq<ProofExpr>, a: Expr) -> bool {
    exists|i: int| 0 <= i < atoms.len() && same_atom(#[trigger] atoms[i]@, a)
}

/// `i` is the first entry of `atoms` that states the same proposition as `a`.
spec fn first_entry(atoms: Seq<ProofExpr>, a: Expr, i: int) -> bool {
    &&& 0 <= i < atoms.len()
    &&& same_atom(atoms[i]@, a)
    &&& forall|k: int| 0 <= k < i ==> !same_atom(#[trigger] atoms[k]@, a)
}

/// The index of the first entry of `atoms` that states the same proposition as `a`.
spec fn entry_of(atoms: Seq<ProofExpr>, a: Expr) -> int {
    choose|i: int| first_entry(atoms, a, i)
}

proof fn lemma_entry_of(atoms: Seq<ProofExpr>, a: Expr, i: int)
    requires
        first_entry(atoms, a, i),
    ensures
        entry_of(atoms, a) == i,
{
    let c = entry_of(atoms, a);
    assert(first_entry(atoms, a, c));
    if c < i {
        assert(!same_atom(atoms[c]@, a));
    } else if i < c {
        assert(!same_atom(atoms[i]@, a));
    }
}

/// An interned atom has a first entry.
proof fn lemma_first_entry(atoms: Seq<ProofExpr>, a: Expr, i: int)
    requires
        0 <= i < atoms.len(),
        same_atom(atoms[i]@, a),
    ensures
        first_entry(atoms, a, entry_of(atoms, a)),
    decreases i,
{
    if exists|k: int| 0 <= k < i && same_atom(#[trigger] atoms[k]@, a) {
        let k = choose|k: int| 0 <= k < i && same_atom(#[trigger] atoms[k]@, a);
        lemma_first_entry(atoms, a, k);
    } else {
        assert(first_entry(atoms, a, i));
    }
}

/// The literal of a literal expression whose atom is interned in `atoms`, at the atom's first
/// entry; `None` for anything else.
spec fn expr_lit(atoms: Seq<ProofExpr>, e: Expr) -> Option<Lit> {
    if is_literal(e) && interned(atoms, atom_part(e)) {
        Some(Lit { var: entry_of(atoms, atom_part(e)) as usize, pos: !(e is Not) })
    } else {
        None
    }
}

/// Every atom occurring in `e` (under the connectives) is interned in `atoms`.
spec fn all_interned(atoms: Seq<ProofExpr>, e: Expr) -> bool
    decreases e,
{
    match e {
        Expr::And(l, r) => all_interned(atoms, *l) && all_interned(atoms, *r),
        Expr::Or(l, r) => all_interned(atoms, *l) && all_interned(atoms, *r),
        Expr::Implies(l, r) => all_interned(atoms, *l) && all_interned(atoms, *r),
        Expr::Iff(l, r) => all_interned(atoms, *l) && all_interned(atoms, *r),
        Expr::Not(x) => all_interned(atoms, *x),
        _ => is_atomish(e) ==> interned(atoms, e),
    }
}

/// Interned atoms stay interned as the table grows.
proof fn lemma_all_interned_extends(a: Seq<ProofExpr>, b: Seq<ProofExpr>, e: Expr)
    requires
        extends(a, b),
        all_interned(a, e),
    ensures
        all_interned(b, e),
    decreases e,
{
    match e {
        Expr::And(l, r) => {
            lemma_all_interned_extends(a, b, *l);
            lemma_all_interned_extends(a, b, *r);
        },
        Expr::Or(l, r) => {
            lemma_all_interned_extends(a, b, *l);
            lemma_all_interned_extends(a, b, *r);
        },
        Expr::Implies(l, r) => {
            lemma_all_interned_extends(a, b, *l);
            lemma_all_interned_extends(a, b, *r);
        },
        Expr::Iff(l, r) => {
            lemma_all_interned_extends(a, b, *l);
            lemma_all_interned_extends(a, b, *r);
        },
        Expr::Not(x) => lemma_all_interned_extends(a, b, *x),
        _ => {
            if is_atomish(e) {
                let i = choose|i: int| 0 <= i < a.len() && same_atom(#[trigger] a[i]@, e);
                assert(b[i]@ == a[i]@);
            }
        },
    }
}

/// Intern every atom occurring in `e`.
fn intern_all(table: &mut AtomTable, e: &ProofExpr)
    requires
        old(table).wf(),
    ensures
        final(table).wf(),
        extends(old(table).atoms@, final(table).atoms@),
        all_interned(final(table).atoms@, e@),
        grew_within(old(table).atoms@, final(table).atoms@, e@),
    decreases e,
{
    match e {
        ProofExpr::And(l, r) | ProofExpr::Or(l, r) | ProofExpr::Implies(l, r) | ProofExpr::Iff(l, r) => {
            let ghost t0 = table.atoms@;
            intern_all(table, l);
            let ghost t1 = table.atoms@;
            intern_all(table, r);
            proof {
                lemma_extends_trans(t0, t1, table.atoms@);
                lemma_all_interned_extends(t1, table.atoms@, l@);
                assert forall|i: int| t0.len() <= i < table.atoms@.len() implies has_atom(e@, #[trigger] table.atoms@[i]@) by {
                    if i < t1.len() {
                        assert(table.atoms@[i]@ == t1[i]@);
                        assert(has_atom(l@, t1[i]@));
                    } else {
                        assert(has_atom(r@, table.atoms@[i]@));
                    }
                }
            }
        },
        ProofExpr::Not(inner) => intern_all(table, inner),
        _ => {
            if atomish(e) {
                let r = table.intern(e);
                proof {
                    let v = r->0 as int;
                    assert(same_atom(table.atoms@[v]@, e@));
                }
            }
        },
    }
}


// ---------------------------------------------------------------------------
// Semantics: truth under an atom valuation
// ---------------------------------------------------------------------------

/// A valuation of atoms that gives atoms stating the same proposition the same value.
pub open spec fn respects(val: spec_fn(Expr) -> bool) -> bool {
    forall|a: Expr, b: Expr| #[trigger] same_atom(a, b) ==> val(a) == val(b)
}

/// The truth of an expression under an atom valuation; the connectives are read classically
/// and every other expression (an atom, a quantified formula) is read by the valuation.
pub open spec fn holds(val: spec_fn(Expr) -> bool, e: Expr) -> bool
    decreases e,
{
    match e {
        Expr::Not(x) => !holds(val, *x),
        Expr::And(l, r) => holds(val, *l) && holds(val, *r),
        Expr::Or(l, r) => holds(val, *l) || holds(val, *r),
        Expr::Implies(l, r) => !holds(val, *l) || holds(val, *r),
        Expr::Iff(l, r) => holds(val, *l) == holds(val, *r),
        _ => val(e),
    }
}

/// Every premise is true under the valuation.
pub open spec fn all_hold(val: spec_fn(Expr) -> bool, premises: Seq<Expr>) -> bool {
    forall|k: int| 0 <= k < premises.len() ==> holds(val, #[trigger] premises[k])
}

/// The premises entail `e`: every respecting valuation that makes all premises true makes `e`
/// true.
pub open spec fn entails(premises: Seq<Expr>, e: Expr) -> bool {
    forall|val: spec_fn(Expr) -> bool| respects(val) && #[trigger] all_hold(val, premises) ==> holds(val, e)
}

/// The atom of a literal.
pub open spec fn atom_part(e: Expr) -> Expr {
    match e {
        Expr::Not(x) => *x,
        _ => e,
    }
}

/// The literal `l` over the table `atoms` states the literal expression `e`.
spec fn denotes(atoms: Seq<ProofExpr>, l: Lit, e: Expr) -> bool {
    &&& l.var < atoms.len()
    &&& is_literal(e)
    &&& l.pos == !(e is Not)
    &&& same_atom(atoms[l.var as int]@, atom_part(e))
}

/// The literal is true under the valuation.
spec fn lit_true(atoms: Seq<ProofExpr>, val: spec_fn(Expr) -> bool, l: Lit) -> bool {
    val(atoms[l.var as int]@) == l.pos
}

proof fn lemma_denotes_extends(a: Seq<ProofExpr>, b: Seq<ProofExpr>, l: Lit, e: Expr)
    requires
        extends(a, b),
        denotes(a, l, e),
    ensures
        denotes(b, l, e),
{
    assert(b[l.var as int]@ == a[l.var as int]@);
}

proof fn lemma_lit_holds(atoms: Seq<ProofExpr>, val: spec_fn(Expr) -> bool, l: Lit, e: Expr)
    requires
        respects(val),
        denotes(atoms, l, e),
    ensures
        holds(val, e) == lit_true(atoms, val, l),
{
    let a = atoms[l.var as int]@;
    assert(same_atom(a, atom_part(e)));
    match e {
        Expr::Not(x) => {
            assert(holds(val, *x) == val(*x));
        },
        _ => {
            assert(holds(val, e) == val(e));
        },
    }
}

proof fn lemma_and_leaves(val: spec_fn(Expr) -> bool, e: Expr)
    ensures
        holds(val, e) == (forall|i: int| 0 <= i < and_leaves(e).len() ==> holds(val, #[trigger] and_leaves(e)[i])),
    decreases e,
{
    match e {
        Expr::And(l, r) => {
            lemma_and_leaves(val, *l);
            lemma_and_leaves(val, *r);
            let ls = and_leaves(*l);
            let rs = and_leaves(*r);
            assert(and_leaves(e) == ls + rs);
            if holds(val, e) {
                assert forall|i: int| 0 <= i < and_leaves(e).len() implies holds(val, #[trigger] and_leaves(e)[i]) by {
                    if i < ls.len() {
                        assert(and_leaves(e)[i] == ls[i]);
                    } else {
                        assert(and_leaves(e)[i] == rs[i - ls.len()]);
                    }
                }
            }
            if forall|i: int| 0 <= i < and_leaves(e).len() ==> holds(val, #[trigger] and_leaves(e)[i]) {
                assert forall|i: int| 0 <= i < ls.len() implies holds(val, #[trigger] ls[i]) by {
                    assert(and_leaves(e)[i] == ls[i]);
                }
                assert forall|i: int| 0 <= i < rs.len() implies holds(val, #[trigger] rs[i]) by {
                    assert(and_leaves(e)[i + ls.len()] == rs[i]);
                }
            }
        },
        _ => {
            assert(and_leaves(e) == seq![e]);
            if holds(val, e) {
                assert forall|i: int| 0 <= i < and_leaves(e).len() implies holds(val, #[trigger] and_leaves(e)[i]) by {
                    assert(i == 0);
                }
            }
            if forall|i: int| 0 <= i < and_leaves(e).len() ==> holds(val, #[trigger] and_leaves(e)[i]) {
                assert(holds(val, and_leaves(e)[0]));
            }
        },
    }
}

proof fn lemma_or_leaves(val: spec_fn(Expr) -> bool, e: Expr)
    ensures
        holds(val, e) == (exists|i: int| 0 <= i < or_leaves(e).len() && holds(val, #[trigger] or_leaves(e)[i])),
    decreases e,
{
    match e {
        Expr::Or(l, r) => {
            lemma_or_leaves(val, *l);
            lemma_or_leaves(val, *r);
            let ls = or_leaves(*l);
            let rs = or_leaves(*r);
            assert(or_leaves(e) == ls + rs);
            if holds(val, *l) {
                let i = choose|i: int| 0 <= i < ls.len() && holds(val, #[trigger] ls[i]);
                assert(or_leaves(e)[i] == ls[i]);
            } else if holds(val, *r) {
                let i = choose|i: int| 0 <= i < rs.len() && holds(val, #[trigger] rs[i]);
                assert(or_leaves(e)[i + ls.len()] == rs[i]);
            }
            if exists|i: int| 0 <= i < or_leaves(e).len() && holds(val, #[trigger] or_leaves(e)[i]) {
                let i = choose|i: int| 0 <= i < or_leaves(e).len() && holds(val, #[trigger] or_leaves(e)[i]);
                if i < ls.len() {
                    assert(or_leaves(e)[i] == ls[i]);
                } else {
                    assert(or_leaves(e)[i] == rs[i - ls.len()]);
                }
            }
        },
        _ => {
            assert(or_leaves(e) == seq![e]);
            if holds(val, e) {
                assert(holds(val, or_leaves(e)[0]));
            }
        },
    }
}

proof fn lemma_oriented(val: spec_fn(Expr) -> bool, c: Expr, w: Expr)
    requires
        respects(val),
    ensures
        holds(val, oriented(c, w)) == holds(val, c),
{
    if c == w {
    } else if flipped_identity(c, w) {
        assert(same_atom(c, w));
        assert(holds(val, c) == val(c));
        assert(holds(val, w) == val(w));
    } else if c is Not && w is Not && flipped_identity(*c->Not_0, *w->Not_0) {
        let ci = *c->Not_0;
        let wi = *w->Not_0;
        assert(same_atom(ci, wi));
        assert(holds(val, ci) == val(ci));
        assert(holds(val, wi) == val(wi));
    }
}

// ---------------------------------------------------------------------------
// Clauses and rules
// ---------------------------------------------------------------------------

/// Where a clause comes from (what the emitter cites for it).
enum ClauseSrc {
    /// A disjunction premise, as it stands.
    Bare(ProofExpr),
    /// The consequent of the disjunctive rule with this index, materialized when it fired.
    FromRule(usize),
    /// A disjunction assumed inside a decision branch (a hypothesis bound by the split).
    Assumed(ProofExpr),
}

/// A disjunction: its exact nesting, its disjuncts, and their literals when every disjunct is
/// a literal (a unit-propagating clause); compound disjuncts make a decision clause.
struct Clause {
    or_expr: ProofExpr,
    disjuncts: Vec<ProofExpr>,
    lits: Option<Vec<Lit>>,
    src: ClauseSrc,
}

/// The consequent of a rule: a literal, or a disjunction of literals.
enum RuleCons {
    Lit(Lit),
    Disj(Vec<Lit>),
}

/// The three-valued status of a disjunct under the trail.
#[derive(Clone, Copy, PartialEq, Eq, Structural, Debug)]
enum Tri {
    True,
    False,
    Live,
}

/// An implication whose antecedent is a conjunction of literals.
struct Rule {
    ante: Vec<Lit>,
    cons: RuleCons,
    /// The implication premise itself (cited by the emitter).
    src: ProofExpr,
}

/// How a variable came to be assigned: enough for the emitter to rebuild its proof.
enum Reason {
    /// A unit premise, as it stands.
    Premise(ProofExpr),
    /// The rule with this index fired (all antecedents true) and yields the literal.
    Rule(usize),
    /// The rule with this index has a violated consequent and all antecedents but this one
    /// true, so this antecedent is false.
    Exclude(usize),
    /// The literal is the last live literal of the clause with this index.
    Clause(usize),
    /// The literal is a conjunct of the only live disjunct of a compound clause.
    CompoundClause { clause: usize, disjunct: usize },
    /// A search decision (a hypothesis bound by the enclosing case split).
    Assumption,
}

/// The solver state: the interned atoms, the clauses and rules, and the trail of assignments.
struct Solver {
    table: AtomTable,
    clauses: Vec<Clause>,
    rules: Vec<Rule>,
    assign: Vec<Option<bool>>,
    reason: Vec<Option<Reason>>,
    trail: Vec<usize>,
    /// The trail position at which each assigned variable was assigned.
    pos: Vec<usize>,
    fired_disj: Vec<bool>,
    /// The clauses currently being split by an enclosing decision.
    deciding: Vec<usize>,
    /// Whether propagation runs at the root (never backtracked): only there are compound
    /// clauses propagated.
    at_root: bool,
    /// The facts the premises were split into (the conjuncts of each premise).
    facts: Ghost<Seq<Expr>>,
}

/// A conflict found by propagation.
enum Conflict {
    /// The rule's antecedents all hold but its consequent is violated.
    Rule(usize),
    /// Every disjunct of the clause is violated.
    Clause(usize),
}

/// Every literal of the list names an interned atom.
spec fn lits_in(ls: Seq<Lit>, n: nat) -> bool {
    forall|i: int| 0 <= i < ls.len() ==> (#[trigger] ls[i]).var < n
}

spec fn rule_ok(r: Rule, n: nat) -> bool {
    &&& lits_in(r.ante@, n)
    &&& r.src@ is Implies
    &&& match r.cons {
        RuleCons::Lit(l) => l.var < n,
        RuleCons::Disj(ls) => lits_in(ls@, n),
    }
}

spec fn clause_ok(c: Clause, n: nat) -> bool {
    match c.lits {
        Some(ls) => lits_in(ls@, n),
        None => true,
    }
}

/// Index `j` is one of the listed indices.
spec fn listed(live: Seq<usize>, j: int) -> bool {
    exists|k: int| 0 <= k < live.len() && live[k] as int == j
}

/// Each literal of `ls` states the expression at the same place in `es`.
spec fn lits_denote(atoms: Seq<ProofExpr>, ls: Seq<Lit>, es: Seq<Expr>) -> bool {
    &&& ls.len() == es.len()
    &&& forall|i: int| 0 <= i < ls.len() ==> denotes(atoms, #[trigger] ls[i], es[i])
}

proof fn lemma_lits_denote_extends(a: Seq<ProofExpr>, b: Seq<ProofExpr>, ls: Seq<Lit>, es: Seq<Expr>)
    requires
        extends(a, b),
        lits_denote(a, ls, es),
    ensures
        lits_denote(b, ls, es),
{
    assert forall|i: int| 0 <= i < ls.len() implies denotes(b, #[trigger] ls[i], es[i]) by {
        lemma_denotes_extends(a, b, ls[i], es[i]);
    }
}

/// A rule is one of the facts, an implication whose antecedent conjuncts and consequent its
/// literals state.
spec fn rule_sem(atoms: Seq<ProofExpr>, facts: Seq<Expr>, r: Rule) -> bool {
    &&& facts.contains(r.src@)
    &&& r.src@ is Implies
    &&& lits_denote(atoms, r.ante@, and_leaves(*r.src@->Implies_0))
    &&& match r.cons {
        RuleCons::Lit(l) => denotes(atoms, l, *r.src@->Implies_1),
        RuleCons::Disj(ls) => lits_denote(atoms, ls@, or_leaves(*r.src@->Implies_1)),
    }
}

proof fn lemma_rule_sem_extends(a: Seq<ProofExpr>, b: Seq<ProofExpr>, facts: Seq<Expr>, r: Rule)
    requires
        extends(a, b),
        rule_sem(a, facts, r),
    ensures
        rule_sem(b, facts, r),
{
    lemma_lits_denote_extends(a, b, r.ante@, and_leaves(*r.src@->Implies_0));
    match r.cons {
        RuleCons::Lit(l) => lemma_denotes_extends(a, b, l, *r.src@->Implies_1),
        RuleCons::Disj(ls) => lemma_lits_denote_extends(a, b, ls@, or_leaves(*r.src@->Implies_1)),
    }
}

/// A clause's disjuncts are the leaves of its disjunction, and its source states it: a fact, a
/// hypothesis, or the consequent of a rule.
spec fn clause_sem(rules: Seq<Rule>, facts: Seq<Expr>, c: Clause) -> bool {
    &&& exprs_view(c.disjuncts@) == or_leaves(c.or_expr@)
    &&& match c.src {
        ClauseSrc::Bare(e) => e@ == c.or_expr@ && facts.contains(c.or_expr@),
        ClauseSrc::Assumed(e) => e@ == c.or_expr@,
        ClauseSrc::FromRule(ri) => ri < rules.len() && rules[ri as int].src@ is Implies && *rules[ri as int].src@->Implies_1
            == c.or_expr@,
    }
}

spec fn is_assumption(r: Option<Reason>) -> bool {
    match r {
        Some(Reason::Assumption) => true,
        _ => false,
    }
}

/// The hypotheses of the current branch hold: the assumed literals and the assumed clauses.
spec fn hyps_hold(s: Solver, val: spec_fn(Expr) -> bool) -> bool {
    &&& forall|v: int|
        0 <= v < s.assign@.len() && is_assumption(#[trigger] s.reason@[v]) && s.assign@[v] is Some ==> val(
            s.table.atoms@[v]@,
        ) == s.assign@[v]->0
    &&& forall|ci: int|
        0 <= ci < s.clauses@.len() && (#[trigger] s.clauses@[ci]).src is Assumed ==> holds(val, s.clauses@[ci].or_expr@)
}

/// The valuations the state describes: they respect atom identity, make every fact true, and
/// make the branch's hypotheses true.
spec fn models(s: Solver, val: spec_fn(Expr) -> bool) -> bool {
    &&& respects(val)
    &&& all_hold(val, s.facts@)
    &&& hyps_hold(s, val)
}

/// The valuation agrees with every assignment on the trail.
spec fn agree(s: Solver, val: spec_fn(Expr) -> bool) -> bool {
    forall|v: int| 0 <= v < s.assign@.len() && (#[trigger] s.assign@[v]) is Some ==> val(s.table.atoms@[v]@) == s.assign@[v]->0
}

spec fn same_models(a: Solver, b: Solver) -> bool {
    forall|val: spec_fn(Expr) -> bool| #[trigger] models(a, val) == #[trigger] models(b, val)
}

/// `a` and `b` have the same assignments, reasons, trail, clauses and fired flags.
spec fn restored(a: Solver, b: Solver) -> bool {
    &&& b.table == a.table
    &&& b.rules@ == a.rules@
    &&& b.facts@ == a.facts@
    &&& b.deciding@ == a.deciding@
    &&& b.at_root == a.at_root
    &&& b.assign@ == a.assign@
    &&& b.reason@ == a.reason@
    &&& b.trail@ == a.trail@
    &&& b.clauses@ == a.clauses@
    &&& b.fired_disj@ == a.fired_disj@
}

/// `b` grew from `a`: the trail extends `a`'s, the assignments and reasons of `a` stay, and the
/// clauses of `a` stay.
spec fn grown(a: Solver, b: Solver) -> bool {
    &&& kept(a, b)
    &&& b.facts@ == a.facts@
    &&& b.assign@.len() == a.assign@.len()
    &&& b.reason@.len() == a.reason@.len()
    &&& a.trail@.len() <= b.trail@.len()
    &&& b.trail@.subrange(0, a.trail@.len() as int) == a.trail@
    &&& forall|v: int| 0 <= v < a.assign@.len() && (#[trigger] a.assign@[v]) is Some ==> b.assign@[v] == a.assign@[v] && b.reason@[v] == a.reason@[v]
}

impl Solver {
    /// The trail lists each assigned variable once; exactly the assigned variables have reasons.
    spec fn trail_ok(&self) -> bool {
        &&& self.trail@.no_duplicates()
        &&& forall|v: int| 0 <= v < self.n() ==> (#[trigger] self.assign@[v] is Some <==> listed(self.trail@, v))
        &&& forall|v: int| 0 <= v < self.n() ==> (#[trigger] self.reason@[v] is Some <==> self.assign@[v] is Some)
    }

    spec fn shape_ok(&self) -> bool {
        &&& forall|i: int| 0 <= i < self.rules@.len() ==> rule_sem(self.table.atoms@, self.facts@, #[trigger] self.rules@[i])
        &&& forall|i: int| 0 <= i < self.clauses@.len() ==> clause_sem(self.rules@, self.facts@, #[trigger] self.clauses@[i])
    }

    /// The state is well formed and sound: every valuation it describes agrees with the trail
    /// and makes every clause true.
    spec fn sound(&self) -> bool {
        &&& self.wf()
        &&& self.trail_ok()
        &&& self.shape_ok()
        &&& forall|val: spec_fn(Expr) -> bool| #[trigger] models(*self, val) ==> agree(*self, val)
        &&& forall|val: spec_fn(Expr) -> bool, ci: int|
            #![trigger models(*self, val), self.clauses@[ci]]
            models(*self, val) && 0 <= ci < self.clauses@.len() ==> holds(val, self.clauses@[ci].or_expr@)
    }
}

/// `b` is `a` with the unassigned variable of `l` assigned by `l`, for reason `r`.
spec fn assigned(a: Solver, b: Solver, l: Lit, r: Reason) -> bool {
    &&& b.table == a.table
    &&& b.rules@ == a.rules@
    &&& b.clauses@ == a.clauses@
    &&& b.facts@ == a.facts@
    &&& b.fired_disj@ == a.fired_disj@
    &&& b.deciding@ == a.deciding@
    &&& b.at_root == a.at_root
    &&& b.assign@ == a.assign@.update(l.var as int, Some(l.pos))
    &&& b.reason@ == a.reason@.update(l.var as int, Some(r))
    &&& b.trail@ == a.trail@.push(l.var)
    &&& b.pos@.len() == a.pos@.len()
}

/// Assigning an unassigned variable keeps the state well formed and grows the trail.
proof fn lemma_assigned_shape(a: Solver, b: Solver, l: Lit, r: Reason)
    requires
        a.sound(),
        l.var < a.n(),
        a.assign@[l.var as int] is None,
        assigned(a, b, l, r),
    ensures
        b.wf(),
        b.trail_ok(),
        b.shape_ok(),
        grown(a, b),
{
    let v = l.var as int;
    assert(!listed(a.trail@, v));
    assert forall|w: int| 0 <= w < b.n() implies (#[trigger] b.assign@[w] is Some <==> listed(b.trail@, w)) by {
        if w != v {
            if listed(a.trail@, w) {
                let k = choose|k: int| 0 <= k < a.trail@.len() && a.trail@[k] as int == w;
                assert(b.trail@[k] == a.trail@[k]);
            }
            if listed(b.trail@, w) {
                let k = choose|k: int| 0 <= k < b.trail@.len() && b.trail@[k] as int == w;
                if k == a.trail@.len() {
                    assert(b.trail@[k] == l.var);
                    assert(false);
                }
                assert(b.trail@[k] == a.trail@[k]);
            }
        } else {
            assert(b.trail@[a.trail@.len() as int] == l.var);
        }
    }
    assert(b.trail@.subrange(0, a.trail@.len() as int) =~= a.trail@);
    assert(b.trail@.no_duplicates()) by {
        assert forall|i: int, j: int| 0 <= i < b.trail@.len() && 0 <= j < b.trail@.len() && i != j implies b.trail@[i]
            != b.trail@[j] by {
            if i < a.trail@.len() && j < a.trail@.len() {
                assert(a.trail@[i] != a.trail@[j]);
            } else if i < a.trail@.len() {
                assert(b.trail@[j] == l.var);
                assert(b.trail@[i] == a.trail@[i]);
                if a.trail@[i] == l.var {
                    assert(listed(a.trail@, v));
                }
            } else if j < a.trail@.len() {
                assert(b.trail@[i] == l.var);
                assert(b.trail@[j] == a.trail@[j]);
                if a.trail@[j] == l.var {
                    assert(listed(a.trail@, v));
                }
            }
        }
    }
    assert forall|i: int| 0 <= i < b.rules@.len() implies rule_sem(b.table.atoms@, b.facts@, #[trigger] b.rules@[i]) by {
        assert(b.rules@[i] == a.rules@[i]);
    }
    assert forall|i: int| 0 <= i < b.clauses@.len() implies clause_sem(b.rules@, b.facts@, #[trigger] b.clauses@[i]) by {
        assert(b.clauses@[i] == a.clauses@[i]);
    }
    assert forall|i: int| 0 <= i < b.rules@.len() implies rule_ok(#[trigger] b.rules@[i], b.n()) by {
        assert(b.rules@[i] == a.rules@[i]);
    }
    assert forall|i: int| 0 <= i < b.clauses@.len() implies clause_ok(#[trigger] b.clauses@[i], b.n()) by {
        assert(b.clauses@[i] == a.clauses@[i]);
    }
    assert forall|k: int| 0 <= k < b.trail@.len() implies #[trigger] b.trail@[k] < b.n() by {
        if k < a.trail@.len() {
            assert(b.trail@[k] == a.trail@[k]);
        }
    }
    assert forall|w: int| 0 <= w < b.n() implies (#[trigger] b.reason@[w] is Some <==> b.assign@[w] is Some) by {
        if w != v {
            assert(b.reason@[w] == a.reason@[w]);
            assert(b.assign@[w] == a.assign@[w]);
        }
    }
    assert forall|w: int| 0 <= w < a.assign@.len() && (#[trigger] a.assign@[w]) is Some implies b.assign@[w] == a.assign@[w]
        && b.reason@[w] == a.reason@[w] by {
        assert(w != v);
    }
}

/// Assigning a literal true in every valuation the state describes, for a reason other than an
/// assumption, keeps the state sound and describes the same valuations.
proof fn lemma_assign_forced(a: Solver, b: Solver, l: Lit, r: Reason)
    requires
        a.sound(),
        l.var < a.n(),
        a.assign@[l.var as int] is None,
        !(r is Assumption),
        assigned(a, b, l, r),
        forall|val: spec_fn(Expr) -> bool| #[trigger] models(a, val) ==> lit_true(a.table.atoms@, val, l),
    ensures
        b.sound(),
        same_models(a, b),
        grown(a, b),
{
    lemma_assigned_shape(a, b, l, r);
    let v = l.var as int;
    assert forall|val: spec_fn(Expr) -> bool| #[trigger] models(a, val) == #[trigger] models(b, val) by {
        if hyps_hold(a, val) {
            assert forall|w: int|
                0 <= w < b.assign@.len() && is_assumption(#[trigger] b.reason@[w]) && b.assign@[w] is Some implies val(
                b.table.atoms@[w]@,
            ) == b.assign@[w]->0 by {
                assert(w != v);
            }
        }
        if hyps_hold(b, val) {
            assert forall|w: int|
                0 <= w < a.assign@.len() && is_assumption(#[trigger] a.reason@[w]) && a.assign@[w] is Some implies val(
                a.table.atoms@[w]@,
            ) == a.assign@[w]->0 by {
                assert(w != v);
                assert(b.reason@[w] == a.reason@[w]);
                assert(b.assign@[w] == a.assign@[w]);
            }
        }
    }
    assert forall|val: spec_fn(Expr) -> bool| #[trigger] models(b, val) implies agree(b, val) by {
        assert(models(a, val));
        assert(agree(a, val));
        assert(lit_true(a.table.atoms@, val, l));
    }
    assert forall|val: spec_fn(Expr) -> bool, ci: int|
        #![trigger models(b, val), b.clauses@[ci]]
        models(b, val) && 0 <= ci < b.clauses@.len() implies holds(val, b.clauses@[ci].or_expr@) by {
        assert(models(a, val));
        assert(a.clauses@[ci] == b.clauses@[ci]);
    }
}

/// Assuming an unassigned literal keeps the state sound; it describes the valuations of `a` that
/// make the literal true.
proof fn lemma_assume(a: Solver, b: Solver, l: Lit)
    requires
        a.sound(),
        l.var < a.n(),
        a.assign@[l.var as int] is None,
        assigned(a, b, l, Reason::Assumption),
    ensures
        b.sound(),
        grown(a, b),
        forall|val: spec_fn(Expr) -> bool| #[trigger] models(b, val) == (models(a, val) && lit_true(a.table.atoms@, val, l)),
{
    lemma_assigned_shape(a, b, l, Reason::Assumption);
    let v = l.var as int;
    assert forall|val: spec_fn(Expr) -> bool| #[trigger] models(b, val) == (models(a, val) && lit_true(a.table.atoms@, val, l)) by {
        if models(a, val) && lit_true(a.table.atoms@, val, l) {
            assert forall|w: int|
                0 <= w < b.assign@.len() && is_assumption(#[trigger] b.reason@[w]) && b.assign@[w] is Some implies val(
                b.table.atoms@[w]@,
            ) == b.assign@[w]->0 by {
                if w != v {
                    assert(b.reason@[w] == a.reason@[w]);
                    assert(b.assign@[w] == a.assign@[w]);
                }
            }
            assert forall|ci: int|
                0 <= ci < b.clauses@.len() && (#[trigger] b.clauses@[ci]).src is Assumed implies holds(val, b.clauses@[ci].or_expr@) by {
                assert(b.clauses@[ci] == a.clauses@[ci]);
            }
        }
        if models(b, val) {
            assert(is_assumption(b.reason@[v]));
            assert forall|w: int|
                0 <= w < a.assign@.len() && is_assumption(#[trigger] a.reason@[w]) && a.assign@[w] is Some implies val(
                a.table.atoms@[w]@,
            ) == a.assign@[w]->0 by {
                assert(w != v);
                assert(b.reason@[w] == a.reason@[w]);
                assert(b.assign@[w] == a.assign@[w]);
            }
            assert forall|ci: int|
                0 <= ci < a.clauses@.len() && (#[trigger] a.clauses@[ci]).src is Assumed implies holds(val, a.clauses@[ci].or_expr@) by {
                assert(b.clauses@[ci] == a.clauses@[ci]);
            }
        }
    }
    assert forall|val: spec_fn(Expr) -> bool| #[trigger] models(b, val) implies agree(b, val) by {
        assert(models(a, val));
        assert(agree(a, val));
    }
    assert forall|val: spec_fn(Expr) -> bool, ci: int|
        #![trigger models(b, val), b.clauses@[ci]]
        models(b, val) && 0 <= ci < b.clauses@.len() implies holds(val, b.clauses@[ci].or_expr@) by {
        assert(models(a, val));
        assert(a.clauses@[ci] == b.clauses@[ci]);
    }
}

/// A state with the same fields (but for the positions and the root flag) as a sound state is
/// sound and describes the same valuations.
proof fn lemma_restored_same(a: Solver, b: Solver)
    requires
        a.sound(),
        restored(a, b),
        b.pos@.len() == a.pos@.len(),
    ensures
        b.sound(),
        same_models(a, b),
        grown(a, b),
{
    assert forall|val: spec_fn(Expr) -> bool| #[trigger] models(a, val) == #[trigger] models(b, val) by {
        assert(hyps_hold(a, val) == hyps_hold(b, val));
    }
    assert forall|val: spec_fn(Expr) -> bool| #[trigger] models(b, val) implies agree(b, val) by {
        assert(models(a, val));
        assert(agree(a, val));
    }
    assert forall|val: spec_fn(Expr) -> bool, ci: int|
        #![trigger models(b, val), b.clauses@[ci]]
        models(b, val) && 0 <= ci < b.clauses@.len() implies holds(val, b.clauses@[ci].or_expr@) by {
        assert(models(a, val));
        assert(a.clauses@[ci] == b.clauses@[ci]);
    }
    lemma_grown_refl(a);
}

impl Solver {
    spec fn n(&self) -> nat {
        self.table.atoms@.len()
    }

    /// The per-variable arrays match the table, and every stored literal names an atom.
    spec fn wf(&self) -> bool {
        &&& self.table.wf()
        &&& self.assign@.len() == self.n()
        &&& self.reason@.len() == self.n()
        &&& self.pos@.len() == self.n()
        &&& self.fired_disj@.len() == self.rules@.len()
        &&& forall|i: int| 0 <= i < self.rules@.len() ==> rule_ok(#[trigger] self.rules@[i], self.n())
        &&& forall|i: int| 0 <= i < self.clauses@.len() ==> clause_ok(#[trigger] self.clauses@[i], self.n())
        &&& forall|k: int| 0 <= k < self.trail@.len() ==> #[trigger] self.trail@[k] < self.n()
    }

    /// `Some(true)` if `l` holds, `Some(false)` if it is violated, `None` if unknown.
    fn value(&self, l: Lit) -> (r: Option<bool>)
        requires
            self.wf(),
            l.var < self.n(),
        ensures
            r == match self.assign@[l.var as int] {
                Some(b) => Some(b == l.pos),
                None => None,
            },
    {
        match self.assign[l.var] {
            Some(b) => Some(b == l.pos),
            None => None,
        }
    }

    fn var_of_atom(&self, atom: &ProofExpr) -> (r: Option<usize>)
        ensures
            match r {
                Some(v) => v < self.n() && same_atom(self.table.atoms@[v as int]@, atom@) && is_atomish(atom@),
                None => !(is_atomish(atom@) && interned(self.table.atoms@, atom@)),
            },
            r == (if is_atomish(atom@) && interned(self.table.atoms@, atom@) {
                Some(entry_of(self.table.atoms@, atom@) as usize)
            } else {
                None
            }),
    {
        if !atomish(atom) {
            return None;
        }
        let r = self.table.find(atom);
        proof {
            if let Some(v) = r {
                lemma_entry_of(self.table.atoms@, atom@, v as int);
            }
        }
        r
    }

    /// The literal of an interned (possibly negated) atom.
    fn lit_of(&self, e: &ProofExpr) -> (r: Option<Lit>)
        ensures
            match r {
                Some(l) => l.var < self.n() && is_literal(e@) && denotes(self.table.atoms@, l, e@),
                None => !(is_literal(e@) && interned(self.table.atoms@, atom_part(e@))),
            },
            r == expr_lit(self.table.atoms@, e@),
    {
        match e {
            ProofExpr::Not(inner) => match self.var_of_atom(inner) {
                Some(v) => Some(Lit { var: v, pos: false }),
                None => None,
            },
            _ => match self.var_of_atom(e) {
                Some(v) => Some(Lit { var: v, pos: true }),
                None => None,
            },
        }
    }

    /// The expression of a literal: its interned atom, negated when the literal is negative.
    fn lit_expr(&self, l: Lit) -> (r: ProofExpr)
        requires
            l.var < self.n(),
        ensures
            r@ == (if l.pos { self.table.atoms@[l.var as int]@ } else {
                Expr::Not(Box::new(self.table.atoms@[l.var as int]@))
            }),
    {
        let atom = copy_expr(&self.table.atoms[l.var]);
        if l.pos {
            atom
        } else {
            ProofExpr::Not(Box::new(atom))
        }
    }

    /// Assign `l` with reason `r`; an error when its variable already has the other value.
    fn set(&mut self, l: Lit, r: Reason) -> (res: Result<(), ()>)
        requires
            old(self).wf(),
            l.var < old(self).n(),
        ensures
            final(self).wf(),
            final(self).table == old(self).table,
            final(self).rules@ == old(self).rules@,
            final(self).clauses@ == old(self).clauses@,
            final(self).fired_disj@ == old(self).fired_disj@,
            final(self).deciding@ == old(self).deciding@,
            final(self).at_root == old(self).at_root,
            res is Ok <==> old(self).assign@[l.var as int] != Some(!l.pos),
            final(self).assign@[l.var as int] == Some(if res is Ok { l.pos } else { !l.pos }),
            old(self).assign@[l.var as int] is Some ==> *final(self) == *old(self),
            old(self).assign@[l.var as int] is None ==> assigned(*old(self), *final(self), l, r),
    {
        match self.assign[l.var] {
            Some(b) => {
                if b == l.pos {
                    Ok(())
                } else {
                    Err(())
                }
            },
            None => {
                self.assign.set(l.var, Some(l.pos));
                self.reason.set(l.var, Some(r));
                let at = self.trail.len();
                self.pos.set(l.var, at);
                self.trail.push(l.var);
                Ok(())
            },
        }
    }
}

fn all_clause_disjuncts(ds: &Vec<ProofExpr>) -> (r: bool)
    ensures
        r == forall|i: int| 0 <= i < ds@.len() ==> is_clause_disjunct(#[trigger] ds@[i]@),
{
    let mut i: usize = 0;
    while i < ds.len()
        invariant
            i <= ds@.len(),
            forall|k: int| 0 <= k < i ==> is_clause_disjunct(#[trigger] ds@[k]@),
        decreases ds@.len() - i,
    {
        if !clause_disjunct(&ds[i]) {
            return false;
        }
        i += 1;
    }
    true
}

fn all_literals(ds: &Vec<ProofExpr>) -> (r: bool)
    ensures
        r == forall|i: int| 0 <= i < ds@.len() ==> is_literal(#[trigger] ds@[i]@),
{
    let mut i: usize = 0;
    while i < ds.len()
        invariant
            i <= ds@.len(),
            forall|k: int| 0 <= k < i ==> is_literal(#[trigger] ds@[k]@),
        decreases ds@.len() - i,
    {
        if !literal(&ds[i]) {
            return false;
        }
        i += 1;
    }
    true
}

/// The literals of a list of literal expressions, interning their atoms.
fn table_lits(table: &mut AtomTable, ds: &Vec<ProofExpr>) -> (r: Vec<Lit>)
    requires
        old(table).wf(),
        forall|i: int| 0 <= i < ds@.len() ==> is_literal(#[trigger] ds@[i]@),
    ensures
        final(table).wf(),
        extends(old(table).atoms@, final(table).atoms@),
        r@.len() == ds@.len(),
        lits_in(r@, final(table).atoms@.len()),
        lits_denote(final(table).atoms@, r@, exprs_view(ds@)),
        grew_within_any(old(table).atoms@, final(table).atoms@, exprs_view(ds@)),
{
    let mut out: Vec<Lit> = Vec::new();
    let mut i: usize = 0;
    while i < ds.len()
        invariant
            i <= ds@.len(),
            table.wf(),
            extends(old(table).atoms@, table.atoms@),
            out@.len() == i,
            lits_in(out@, table.atoms@.len()),
            forall|k: int| 0 <= k < i ==> denotes(table.atoms@, #[trigger] out@[k], ds@[k]@),
            forall|k: int| 0 <= k < ds@.len() ==> is_literal(#[trigger] ds@[k]@),
            grew_within_any(old(table).atoms@, table.atoms@, exprs_view(ds@)),
        decreases ds@.len() - i,
    {
        let ghost t0 = table.atoms@;
        let l = table.lit(&ds[i]);
        proof {
            assert forall|q: int| old(table).atoms@.len() <= q < table.atoms@.len() implies atom_of_some(
                exprs_view(ds@),
                #[trigger] table.atoms@[q]@,
            ) by {
                if q < t0.len() {
                    assert(table.atoms@[q]@ == t0[q]@);
                    assert(atom_of_some(exprs_view(ds@), t0[q]@));
                } else {
                    assert(has_atom(ds@[i as int]@, table.atoms@[q]@));
                    assert(exprs_view(ds@)[i as int] == ds@[i as int]@);
                }
            }
            lemma_extends_trans(old(table).atoms@, t0, table.atoms@);
            assert forall|k: int| 0 <= k < i implies denotes(table.atoms@, #[trigger] out@[k], ds@[k]@) by {
                lemma_denotes_extends(t0, table.atoms@, out@[k], ds@[k]@);
            }
        }
        match l {
            Some(l) => out.push(l),
            None => {
                proof {
                    assert(is_literal(ds@[i as int]@));
                }
            },
        }
        i += 1;
    }
    proof {
        assert(lits_denote(table.atoms@, out@, exprs_view(ds@)));
    }
    out
}

fn falses(n: usize) -> (r: Vec<bool>)
    ensures
        r@.len() == n,
        forall|i: int| 0 <= i < n ==> !#[trigger] r@[i],
{
    let mut v: Vec<bool> = Vec::new();
    while v.len() < n
        invariant
            v@.len() <= n,
            forall|i: int| 0 <= i < v@.len() ==> !#[trigger] v@[i],
        decreases n - v@.len(),
    {
        v.push(false);
    }
    v
}

/// The conjuncts of each premise, in order.
pub open spec fn flat_facts(ps: Seq<Expr>) -> Seq<Expr>
    decreases ps.len(),
{
    if ps.len() == 0 {
        Seq::empty()
    } else {
        flat_facts(ps.drop_last()) + and_leaves(ps.last())
    }
}

proof fn lemma_flat_facts_hold(val: spec_fn(Expr) -> bool, ps: Seq<Expr>)
    requires
        all_hold(val, ps),
    ensures
        all_hold(val, flat_facts(ps)),
    decreases ps.len(),
{
    if ps.len() > 0 {
        let init = ps.drop_last();
        assert(all_hold(val, init)) by {
            assert forall|k: int| 0 <= k < init.len() implies holds(val, #[trigger] init[k]) by {
                assert(init[k] == ps[k]);
            }
        }
        lemma_flat_facts_hold(val, init);
        let a = flat_facts(init);
        let b = and_leaves(ps.last());
        assert(holds(val, ps[ps.len() - 1]));
        lemma_and_leaves(val, ps.last());
        assert forall|k: int| 0 <= k < (a + b).len() implies holds(val, #[trigger] (a + b)[k]) by {
            if k < a.len() {
                assert((a + b)[k] == a[k]);
            } else {
                assert((a + b)[k] == b[k - a.len()]);
            }
        }
    }
}

/// The compilation invariants survive a growth of the atom table.
proof fn lemma_compiled_extends(
    t0: Seq<ProofExpr>,
    t1: Seq<ProofExpr>,
    facts: Seq<Expr>,
    rules: Seq<Rule>,
    clauses: Seq<Clause>,
    units: Seq<(Lit, ProofExpr)>,
)
    requires
        extends(t0, t1),
        forall|j: int| 0 <= j < rules.len() ==> rule_ok(#[trigger] rules[j], t0.len()) && rule_sem(t0, facts, rules[j]),
        forall|j: int| 0 <= j < clauses.len() ==> clause_ok(#[trigger] clauses[j], t0.len()),
        forall|j: int| 0 <= j < units.len() ==> denotes(t0, (#[trigger] units[j]).0, units[j].1@),
    ensures
        forall|j: int| 0 <= j < rules.len() ==> rule_ok(#[trigger] rules[j], t1.len()) && rule_sem(t1, facts, rules[j]),
        forall|j: int| 0 <= j < clauses.len() ==> clause_ok(#[trigger] clauses[j], t1.len()),
        forall|j: int| 0 <= j < units.len() ==> denotes(t1, (#[trigger] units[j]).0, units[j].1@),
{
    assert forall|j: int| 0 <= j < rules.len() implies rule_ok(#[trigger] rules[j], t1.len()) && rule_sem(t1, facts, rules[j]) by {
        lemma_rule_sem_extends(t0, t1, facts, rules[j]);
        assert(rule_ok(rules[j], t0.len()));
        let r = rules[j];
        assert(lits_in(r.ante@, t1.len())) by {
            assert forall|i: int| 0 <= i < r.ante@.len() implies (#[trigger] r.ante@[i]).var < t1.len() by {
                assert(r.ante@[i].var < t0.len());
            }
        }
        match r.cons {
            RuleCons::Disj(ls) => {
                assert(lits_in(ls@, t1.len())) by {
                    assert forall|i: int| 0 <= i < ls@.len() implies (#[trigger] ls@[i]).var < t1.len() by {
                        assert(ls@[i].var < t0.len());
                    }
                }
            },
            _ => {},
        }
    }
    assert forall|j: int| 0 <= j < clauses.len() implies clause_ok(#[trigger] clauses[j], t1.len()) by {
        match clauses[j].lits {
            Some(ls) => {
                assert(clause_ok(clauses[j], t0.len()));
                assert forall|i: int| 0 <= i < ls@.len() implies (#[trigger] ls@[i]).var < t1.len() by {
                    assert(ls@[i].var < t0.len());
                }
            },
            None => {},
        }
    }
    assert forall|j: int| 0 <= j < units.len() implies denotes(t1, (#[trigger] units[j]).0, units[j].1@) by {
        lemma_denotes_extends(t0, t1, units[j].0, units[j].1@);
    }
}

/// An atom of a disjunct is an atom of the disjunction.
proof fn lemma_or_leaf_atom(p: Expr, j: int, x: Expr)
    requires
        0 <= j < or_leaves(p).len(),
        has_atom(or_leaves(p)[j], x),
    ensures
        has_atom(p, x),
    decreases p,
{
    match p {
        Expr::Or(l, r) => {
            let ll = or_leaves(*l);
            if j < ll.len() {
                assert(or_leaves(p)[j] == ll[j]);
                lemma_or_leaf_atom(*l, j, x);
            } else {
                assert(or_leaves(p)[j] == or_leaves(*r)[j - ll.len()]);
                lemma_or_leaf_atom(*r, j - ll.len(), x);
            }
        },
        _ => {
            assert(or_leaves(p)[j] == p);
        },
    }
}

/// An atom of a conjunct is an atom of the conjunction.
proof fn lemma_and_leaf_atom(p: Expr, j: int, x: Expr)
    requires
        0 <= j < and_leaves(p).len(),
        has_atom(and_leaves(p)[j], x),
    ensures
        has_atom(p, x),
    decreases p,
{
    match p {
        Expr::And(l, r) => {
            let ll = and_leaves(*l);
            if j < ll.len() {
                assert(and_leaves(p)[j] == ll[j]);
                lemma_and_leaf_atom(*l, j, x);
            } else {
                assert(and_leaves(p)[j] == and_leaves(*r)[j - ll.len()]);
                lemma_and_leaf_atom(*r, j - ll.len(), x);
            }
        },
        _ => {
            assert(and_leaves(p)[j] == p);
        },
    }
}

/// Every entry of the table is an atom of one of the facts.
spec fn from_facts(atoms: Seq<ProofExpr>, facts: Seq<Expr>) -> bool {
    forall|i: int| 0 <= i < atoms.len() ==> atom_of_some(facts, #[trigger] atoms[i]@)
}

proof fn lemma_from_facts_grow(a: Seq<ProofExpr>, b: Seq<ProofExpr>, facts: Seq<Expr>, k: int)
    requires
        from_facts(a, facts),
        extends(a, b),
        0 <= k < facts.len(),
        forall|q: int| a.len() <= q < b.len() ==> has_atom(facts[k], #[trigger] b[q]@),
    ensures
        from_facts(b, facts),
{
    assert forall|i: int| 0 <= i < b.len() implies atom_of_some(facts, #[trigger] b[i]@) by {
        if i < a.len() {
            assert(b[i]@ == a[i]@);
            assert(atom_of_some(facts, a[i]@));
        } else {
            assert(has_atom(facts[k], b[i]@));
        }
    }
}

/// An atom of a flattened fact is an atom of one of the premises.
proof fn lemma_flat_fact_atom(ps: Seq<Expr>, k: int, x: Expr)
    requires
        0 <= k < flat_facts(ps).len(),
        has_atom(flat_facts(ps)[k], x),
    ensures
        atom_of_some(ps, x),
    decreases ps.len(),
{
    let init = ps.drop_last();
    let front = flat_facts(init);
    if k < front.len() {
        assert(flat_facts(ps)[k] == front[k]);
        lemma_flat_fact_atom(init, k, x);
        let j = choose|j: int| 0 <= j < init.len() && has_atom(init[j], x);
        assert(ps[j] == init[j]);
    } else {
        assert(flat_facts(ps)[k] == and_leaves(ps.last())[k - front.len()]);
        lemma_and_leaf_atom(ps.last(), k - front.len(), x);
        assert(ps[ps.len() - 1] == ps.last());
    }
}

/// Two atoms that state the same proposition as a third state the same proposition.
proof fn lemma_same_atom_link(x: Expr, y: Expr, a: Expr)
    requires
        same_atom(x, a),
        same_atom(y, a),
    ensures
        same_atom(x, y),
{
}

/// Over a well-formed table, the literal a literal expression denotes is its `expr_lit`.
proof fn lemma_denotes_expr_lit(t: AtomTable, l: Lit, e: Expr)
    requires
        t.wf(),
        denotes(t.atoms@, l, e),
    ensures
        expr_lit(t.atoms@, e) == Some(l),
{
    let a = atom_part(e);
    assert forall|k: int| 0 <= k < l.var implies !same_atom(#[trigger] t.atoms@[k]@, a) by {
        if same_atom(t.atoms@[k]@, a) {
            lemma_same_atom_link(t.atoms@[k]@, t.atoms@[l.var as int]@, a);
        }
    }
    assert(first_entry(t.atoms@, a, l.var as int));
    lemma_entry_of(t.atoms@, a, l.var as int);
}

/// A literal among the premises is one of their flattened facts.
proof fn lemma_flat_facts_literal(ps: Seq<Expr>, e: Expr)
    requires
        ps.contains(e),
        is_literal(e),
    ensures
        flat_facts(ps).contains(e),
    decreases ps.len(),
{
    let init = ps.drop_last();
    let leaves = and_leaves(ps.last());
    if ps.last() == e {
        assert(leaves == seq![e]);
        assert(flat_facts(ps)[flat_facts(init).len() as int] == e);
    } else {
        let i = choose|i: int| 0 <= i < ps.len() && ps[i] == e;
        assert(init[i] == e);
        lemma_flat_facts_literal(init, e);
        let j = choose|j: int| 0 <= j < flat_facts(init).len() && flat_facts(init)[j] == e;
        assert(flat_facts(ps)[j] == e);
    }
}

/// Some unit of `units` states the fact `f`.
spec fn unit_for(units: Seq<(Lit, ProofExpr)>, f: Expr) -> bool {
    exists|u: int| 0 <= u < units.len() && (#[trigger] units[u]).1@ == f
}

/// Classify each ground premise into the solver's clause, rule and unit forms. Conjunctions are
/// split into their conjuncts; a fact that fits none of the forms is skipped (the emitted
/// derivations are re-checked against the full premise set, so skipping is safe).
fn compile(premises: &[ProofExpr]) -> (s: Solver)
    ensures
        s.sound(),
        !s.at_root,
        s.deciding@.len() == 0,
        s.facts@ == flat_facts(exprs_view(premises@)),
        forall|val: spec_fn(Expr) -> bool| #[trigger] models(s, val) <==> respects(val) && all_hold(val, s.facts@),
        forall|j: int|
            0 <= j < s.facts@.len() && is_literal(#[trigger] s.facts@[j]) ==> expr_lit(s.table.atoms@, s.facts@[j]) is Some
                && cited(s, expr_lit(s.table.atoms@, s.facts@[j])->0.var as int),
        from_facts(s.table.atoms@, s.facts@),
{
    let mut table = AtomTable { atoms: Vec::new() };
    let mut clauses: Vec<Clause> = Vec::new();
    let mut rules: Vec<Rule> = Vec::new();
    let mut units: Vec<(Lit, ProofExpr)> = Vec::new();
    let mut flat: Vec<ProofExpr> = Vec::new();
    let mut k: usize = 0;
    while k < premises.len()
        invariant
            k <= premises@.len(),
            exprs_view(flat@) == flat_facts(exprs_view(premises@).subrange(0, k as int)),
        decreases premises@.len() - k,
    {
        let ghost before = exprs_view(flat@);
        flatten_and(&premises[k], &mut flat);
        proof {
            let ps = exprs_view(premises@).subrange(0, k as int + 1);
            assert(ps.drop_last() =~= exprs_view(premises@).subrange(0, k as int));
            assert(ps.last() == premises@[k as int]@);
        }
        k += 1;
    }
    proof {
        assert(exprs_view(premises@).subrange(0, premises@.len() as int) =~= exprs_view(premises@));
    }
    let ghost facts = exprs_view(flat@);
    let mut i: usize = 0;
    while i < flat.len()
        invariant
            i <= flat@.len(),
            exprs_view(flat@) == facts,
            table.wf(),
            forall|j: int| 0 <= j < rules@.len() ==> rule_ok(#[trigger] rules@[j], table.atoms@.len()) && rule_sem(
                table.atoms@,
                facts,
                rules@[j],
            ),
            forall|j: int| 0 <= j < clauses@.len() ==> clause_ok(#[trigger] clauses@[j], table.atoms@.len()),
            forall|j: int| 0 <= j < clauses@.len() ==> clause_sem(rules@, facts, #[trigger] clauses@[j]),
            forall|j: int| 0 <= j < clauses@.len() ==> (#[trigger] clauses@[j]).src is Bare,
            forall|j: int| 0 <= j < units@.len() ==> denotes(table.atoms@, (#[trigger] units@[j]).0, units@[j].1@),
            forall|j: int| 0 <= j < units@.len() ==> facts.contains((#[trigger] units@[j]).1@),
            forall|j: int| 0 <= j < i && is_literal(#[trigger] facts[j]) ==> unit_for(units@, facts[j]),
            from_facts(table.atoms@, facts),
        decreases flat@.len() - i,
    {
        let p = &flat[i];
        proof {
            assert(facts.contains(p@)) by {
                assert(facts[i as int] == p@);
            }
        }
        let ghost pk = i as int;
        i += 1;
        let ghost t0 = table.atoms@;
        match p {
            ProofExpr::Or(..) => {
                let mut ds: Vec<ProofExpr> = Vec::new();
                flatten_or(p, &mut ds);
                if !all_clause_disjuncts(&ds) {
                    continue;
                }
                intern_all(&mut table, p);
                let ghost t1 = table.atoms@;
                let lits = if all_literals(&ds) {
                    Some(table_lits(&mut table, &ds))
                } else {
                    None
                };
                proof {
                    lemma_compiled_extends(t0, table.atoms@, facts, rules@, clauses@, units@);
                    assert(exprs_view(ds@) =~= or_leaves(p@));
                    assert forall|q: int| t0.len() <= q < table.atoms@.len() implies has_atom(facts[pk], #[trigger] table.atoms@[q]@) by {
                        if q < t1.len() {
                            assert(table.atoms@[q]@ == t1[q]@);
                        } else {
                            assert(atom_of_some(exprs_view(ds@), table.atoms@[q]@));
                            let j = choose|j: int| 0 <= j < exprs_view(ds@).len() && has_atom(exprs_view(ds@)[j], table.atoms@[q]@);
                            lemma_or_leaf_atom(p@, j, table.atoms@[q]@);
                        }
                    }
                    lemma_from_facts_grow(t0, table.atoms@, facts, pk);
                }
                let c = Clause { or_expr: copy_expr(p), disjuncts: ds, lits, src: ClauseSrc::Bare(copy_expr(p)) };
                proof {
                    assert(exprs_view(ds@) =~= or_leaves(p@));
                    assert(clause_sem(rules@, facts, c));
                }
                let ghost cl0 = clauses@;
                clauses.push(c);
                proof {
                    assert forall|j: int| 0 <= j < clauses@.len() implies clause_sem(rules@, facts, #[trigger] clauses@[j]) by {
                        if j < cl0.len() {
                            assert(clauses@[j] == cl0[j]);
                        }
                    }
                }
            },
            ProofExpr::Implies(ante, cons) => {
                let mut as_: Vec<ProofExpr> = Vec::new();
                flatten_and(ante, &mut as_);
                proof {
                    assert(exprs_view(as_@) =~= and_leaves(ante@));
                }
                if !all_literals(&as_) {
                    continue;
                }
                let cons_form: Option<RuleCons> = if literal(cons) {
                    intern_all(&mut table, p);
                    let ghost t1 = table.atoms@;
                    let cl = table.lit(cons);
                    proof {
                        lemma_extends_trans(t0, t1, table.atoms@);
                        assert forall|q: int| t0.len() <= q < table.atoms@.len() implies has_atom(p@, #[trigger] table.atoms@[q]@) by {
                            if q < t1.len() {
                                assert(table.atoms@[q]@ == t1[q]@);
                            } else {
                                assert(has_atom(cons@, table.atoms@[q]@));
                            }
                        }
                    }
                    match cl {
                        Some(l) => Some(RuleCons::Lit(l)),
                        None => None,
                    }
                } else {
                    match &**cons {
                        ProofExpr::Or(..) => {
                            let mut ds: Vec<ProofExpr> = Vec::new();
                            flatten_or(cons, &mut ds);
                            if all_literals(&ds) {
                                intern_all(&mut table, p);
                                let ghost t1 = table.atoms@;
                                let ls = table_lits(&mut table, &ds);
                                proof {
                                    lemma_extends_trans(t0, t1, table.atoms@);
                                    assert(exprs_view(ds@) =~= or_leaves(cons@));
                                    assert forall|q: int| t0.len() <= q < table.atoms@.len() implies has_atom(p@, #[trigger] table.atoms@[q]@) by {
                                        if q < t1.len() {
                                            assert(table.atoms@[q]@ == t1[q]@);
                                        } else {
                                            assert(atom_of_some(exprs_view(ds@), table.atoms@[q]@));
                            let j = choose|j: int| 0 <= j < exprs_view(ds@).len() && has_atom(exprs_view(ds@)[j], table.atoms@[q]@);
                                            lemma_or_leaf_atom(cons@, j, table.atoms@[q]@);
                                        }
                                    }
                                }
                                Some(RuleCons::Disj(ls))
                            } else {
                                None
                            }
                        },
                        _ => None,
                    }
                };
                proof {
                    lemma_compiled_extends(t0, table.atoms@, facts, rules@, clauses@, units@);
                    assert forall|q: int| t0.len() <= q < table.atoms@.len() implies has_atom(facts[pk], #[trigger] table.atoms@[q]@) by {
                        assert(has_atom(p@, table.atoms@[q]@));
                    }
                    lemma_from_facts_grow(t0, table.atoms@, facts, pk);
                }
                match cons_form {
                    Some(cf) => {
                        let ghost t2 = table.atoms@;
                        let ante_lits = table_lits(&mut table, &as_);
                        proof {
                            assert forall|q: int| t2.len() <= q < table.atoms@.len() implies has_atom(facts[pk], #[trigger] table.atoms@[q]@) by {
                                assert(atom_of_some(exprs_view(as_@), table.atoms@[q]@));
                                let j = choose|j: int| 0 <= j < exprs_view(as_@).len() && has_atom(exprs_view(as_@)[j], table.atoms@[q]@);
                                lemma_and_leaf_atom(ante@, j, table.atoms@[q]@);
                            }
                            lemma_from_facts_grow(t2, table.atoms@, facts, pk);
                            lemma_compiled_extends(t2, table.atoms@, facts, rules@, clauses@, units@);
                            match &cf {
                                RuleCons::Lit(l) => lemma_denotes_extends(t2, table.atoms@, *l, cons@),
                                RuleCons::Disj(ls) => lemma_lits_denote_extends(t2, table.atoms@, ls@, or_leaves(cons@)),
                            }
                        }
                        let r = Rule { ante: ante_lits, cons: cf, src: copy_expr(p) };
                        proof {
                            assert(rule_ok(r, table.atoms@.len()));
                            assert(rule_sem(table.atoms@, facts, r));
                        }
                        let ghost r0 = rules@;
                        rules.push(r);
                        proof {
                            assert forall|j: int| 0 <= j < clauses@.len() implies clause_sem(rules@, facts, #[trigger] clauses@[j]) by {
                                assert(clause_sem(r0, facts, clauses@[j]));
                            }
                            assert forall|j: int| 0 <= j < rules@.len() implies rule_ok(#[trigger] rules@[j], table.atoms@.len())
                                && rule_sem(table.atoms@, facts, rules@[j]) by {
                                if j < r0.len() {
                                    assert(rules@[j] == r0[j]);
                                }
                            }
                        }
                    },
                    None => {
                        continue;
                    },
                }
            },
            _ => {
                if literal(p) {
                    intern_all(&mut table, p);
                    let ghost t1 = table.atoms@;
                    let pl = table.lit(p);
                    proof {
                        lemma_extends_trans(t0, t1, table.atoms@);
                        lemma_compiled_extends(t0, table.atoms@, facts, rules@, clauses@, units@);
                        assert forall|q: int| t0.len() <= q < table.atoms@.len() implies has_atom(facts[pk], #[trigger] table.atoms@[q]@) by {
                            if q < t1.len() {
                                assert(table.atoms@[q]@ == t1[q]@);
                            }
                        }
                        lemma_from_facts_grow(t0, table.atoms@, facts, pk);
                    }
                    match pl {
                        Some(l) => {
                            let ghost u0 = units@;
                            units.push((l, copy_expr(p)));
                            proof {
                                assert forall|j: int| 0 <= j < units@.len() implies denotes(
                                    table.atoms@,
                                    (#[trigger] units@[j]).0,
                                    units@[j].1@,
                                ) by {
                                    if j < u0.len() {
                                        assert(units@[j] == u0[j]);
                                    }
                                }
                                assert forall|j: int| 0 <= j < units@.len() implies facts.contains((#[trigger] units@[j]).1@) by {
                                    if j < u0.len() {
                                        assert(units@[j] == u0[j]);
                                    }
                                }
                                assert forall|j: int| 0 <= j < i && is_literal(#[trigger] facts[j]) implies unit_for(units@, facts[j]) by {
                                    if j < i - 1 {
                                        assert(unit_for(u0, facts[j]));
                                        let w = choose|w: int| 0 <= w < u0.len() && (#[trigger] u0[w]).1@ == facts[j];
                                        assert(units@[w] == u0[w]);
                                    } else {
                                        assert(units@[u0.len() as int].1@ == facts[j]);
                                    }
                                }
                            }
                        },
                        None => {},
                    }
                }
            },
        }
    }
    let n = table.atoms.len();
    let mut assign: Vec<Option<bool>> = Vec::new();
    let mut reason: Vec<Option<Reason>> = Vec::new();
    let mut pos: Vec<usize> = Vec::new();
    let mut v: usize = 0;
    while v < n
        invariant
            v <= n,
            assign@.len() == v,
            reason@.len() == v,
            pos@.len() == v,
            forall|w: int| 0 <= w < v ==> (#[trigger] assign@[w]) is None,
            forall|w: int| 0 <= w < v ==> (#[trigger] reason@[w]) is None,
        decreases n - v,
    {
        assign.push(None);
        reason.push(None);
        pos.push(usize::MAX);
        v += 1;
    }
    let fired_disj = falses(rules.len());
    let mut solver = Solver {
        table,
        clauses,
        rules,
        assign,
        reason,
        trail: Vec::new(),
        pos,
        fired_disj,
        deciding: Vec::new(),
        at_root: false,
        facts: Ghost(facts),
    };
    proof {
        assert(solver.trail@.no_duplicates());
        assert forall|val: spec_fn(Expr) -> bool| #[trigger] models(solver, val) <==> respects(val) && all_hold(val, solver.facts@) by {
            assert forall|ci: int| 0 <= ci < solver.clauses@.len() && (#[trigger] solver.clauses@[ci]).src is Assumed implies holds(
                val,
                solver.clauses@[ci].or_expr@,
            ) by {
                assert(solver.clauses@[ci].src is Bare);
            }
        }
        assert forall|val: spec_fn(Expr) -> bool, ci: int|
            #![trigger models(solver, val), solver.clauses@[ci]]
            models(solver, val) && 0 <= ci < solver.clauses@.len() implies holds(val, solver.clauses@[ci].or_expr@) by {
            let c = solver.clauses@[ci];
            assert(clause_sem(solver.rules@, facts, c));
            let j = choose|j: int| 0 <= j < facts.len() && facts[j] == c.or_expr@;
            assert(holds(val, facts[j]));
        }
    }
    let mut u: usize = 0;
    while u < units.len()
        invariant
            u <= units@.len(),
            solver.sound(),
            !solver.at_root,
            solver.deciding@.len() == 0,
            solver.n() == n,
            solver.facts@ == facts,
            forall|val: spec_fn(Expr) -> bool| #[trigger] models(solver, val) <==> respects(val) && all_hold(val, facts),
            forall|j: int| 0 <= j < units@.len() ==> denotes(solver.table.atoms@, (#[trigger] units@[j]).0, units@[j].1@),
            forall|j: int| 0 <= j < units@.len() ==> facts.contains((#[trigger] units@[j]).1@),
            forall|j: int| 0 <= j < facts.len() && is_literal(#[trigger] facts[j]) ==> unit_for(units@, facts[j]),
            forall|j: int| 0 <= j < u ==> solver.assign@[(#[trigger] units@[j]).0.var as int] is Some,
            from_facts(solver.table.atoms@, facts),
            forall|w: int| 0 <= w < solver.n() && (#[trigger] solver.assign@[w]) is Some ==> cited(solver, w),
        decreases units@.len() - u,
    {
        let l = units[u].0;
        let e = copy_expr(&units[u].1);
        let ghost s0 = solver;
        proof {
            assert(denotes(solver.table.atoms@, units@[u as int].0, units@[u as int].1@));
            assert(facts.contains(units@[u as int].1@));
        }
        let res = solver.set(l, Reason::Premise(e));
        proof {
            if s0.assign@[l.var as int] is None {
                assert forall|val: spec_fn(Expr) -> bool| #[trigger] models(s0, val) implies lit_true(s0.table.atoms@, val, l) by {
                    let j = choose|j: int| 0 <= j < facts.len() && facts[j] == units@[u as int].1@;
                    assert(holds(val, facts[j]));
                    lemma_lit_holds(s0.table.atoms@, val, l, units@[u as int].1@);
                }
                lemma_assign_forced(s0, solver, l, Reason::Premise(e));
            }
            assert forall|val: spec_fn(Expr) -> bool| #[trigger] models(solver, val) <==> respects(val) && all_hold(val, facts) by {
                assert(models(s0, val) == models(solver, val));
            }
            assert(solver.assign@[l.var as int] is Some);
        }
        u += 1;
    }
    proof {
        assert forall|j: int|
            0 <= j < solver.facts@.len() && is_literal(#[trigger] solver.facts@[j]) implies expr_lit(
            solver.table.atoms@,
            solver.facts@[j],
        ) is Some && cited(solver, expr_lit(solver.table.atoms@, solver.facts@[j])->0.var as int) by {
            let w = choose|w: int| 0 <= w < units@.len() && (#[trigger] units@[w]).1@ == facts[j];
            assert(denotes(solver.table.atoms@, units@[w].0, units@[w].1@));
            lemma_denotes_expr_lit(solver.table, units@[w].0, facts[j]);
            assert(solver.assign@[units@[w].0.var as int] is Some);
        }
    }
    solver
}

/// What a search step keeps: the table, the rules, the clauses being split, the root flag, and
/// every clause already present.
spec fn kept(a: Solver, b: Solver) -> bool {
    &&& b.table == a.table
    &&& b.rules@ == a.rules@
    &&& b.deciding@ == a.deciding@
    &&& b.at_root == a.at_root
    &&& a.clauses@.len() <= b.clauses@.len()
    &&& forall|i: int| 0 <= i < a.clauses@.len() ==> #[trigger] b.clauses@[i] == a.clauses@[i]
}

proof fn lemma_kept_trans(a: Solver, b: Solver, c: Solver)
    requires
        kept(a, b),
        kept(b, c),
    ensures
        kept(a, c),
{
    assert forall|i: int| 0 <= i < a.clauses@.len() implies #[trigger] c.clauses@[i] == a.clauses@[i] by {
        assert(c.clauses@[i] == b.clauses@[i]);
    }
}

fn copy_lits(ls: &Vec<Lit>) -> (r: Vec<Lit>)
    ensures
        r@ == ls@,
{
    let mut out: Vec<Lit> = Vec::new();
    let mut i: usize = 0;
    while i < ls.len()
        invariant
            i <= ls@.len(),
            out@ == ls@.subrange(0, i as int),
        decreases ls@.len() - i,
    {
        out.push(ls[i]);
        i += 1;
        proof {
            assert(out@ =~= ls@.subrange(0, i as int));
        }
    }
    proof {
        assert(out@ =~= ls@);
    }
    out
}

/// The antecedent and the consequent of an implication.
fn split_implies(src: &ProofExpr) -> (r: (ProofExpr, ProofExpr))
    requires
        src@ is Implies,
    ensures
        src@ == Expr::Implies(Box::new(r.0@), Box::new(r.1@)),
{
    match src {
        ProofExpr::Implies(a, c) => (copy_expr(a), copy_expr(c)),
        _ => (copy_expr(src), copy_expr(src)),
    }
}

/// `e` is true in every valuation the state describes.
spec fn forced(s: Solver, e: Expr) -> bool {
    forall|val: spec_fn(Expr) -> bool| #[trigger] models(s, val) ==> holds(val, e)
}

/// `e` is false in every valuation the state describes.
spec fn refuted(s: Solver, e: Expr) -> bool {
    forall|val: spec_fn(Expr) -> bool| #[trigger] models(s, val) ==> !holds(val, e)
}

/// The state describes no valuation: its facts and hypotheses are inconsistent.
spec fn no_models(s: Solver) -> bool {
    forall|val: spec_fn(Expr) -> bool| !#[trigger] models(s, val)
}

proof fn lemma_assigned_lit(s: Solver, l: Lit)
    requires
        s.sound(),
        l.var < s.n(),
        s.assign@[l.var as int] is Some,
    ensures
        forall|val: spec_fn(Expr) -> bool| #[trigger] models(s, val) ==> (lit_true(s.table.atoms@, val, l) == (s.assign@[l.var as int]->0
            == l.pos)),
{
    assert forall|val: spec_fn(Expr) -> bool| #[trigger] models(s, val) implies (lit_true(s.table.atoms@, val, l) == (
    s.assign@[l.var as int]->0 == l.pos)) by {
        assert(agree(s, val));
    }
}

proof fn lemma_grown_trans(a: Solver, b: Solver, c: Solver)
    requires
        grown(a, b),
        grown(b, c),
    ensures
        grown(a, c),
{
    lemma_kept_trans(a, b, c);
    assert(c.trail@.subrange(0, a.trail@.len() as int) =~= a.trail@) by {
        assert(c.trail@.subrange(0, a.trail@.len() as int) =~= c.trail@.subrange(0, b.trail@.len() as int).subrange(
            0,
            a.trail@.len() as int,
        ));
    }
    assert forall|v: int| 0 <= v < a.assign@.len() && (#[trigger] a.assign@[v]) is Some implies c.assign@[v] == a.assign@[v]
        && c.reason@[v] == a.reason@[v] by {
        assert(b.assign@[v] == a.assign@[v]);
        assert(b.assign@[v] is Some);
        assert(c.assign@[v] == b.assign@[v]);
    }
}

proof fn lemma_grown_refl(a: Solver)
    ensures
        grown(a, a),
{
    assert(a.trail@.subrange(0, a.trail@.len() as int) =~= a.trail@);
}

proof fn lemma_same_models_trans(a: Solver, b: Solver, c: Solver)
    requires
        same_models(a, b),
        same_models(b, c),
    ensures
        same_models(a, c),
{
    assert forall|val: spec_fn(Expr) -> bool| #[trigger] models(a, val) == #[trigger] models(c, val) by {
        assert(models(a, val) == models(b, val));
    }
}

/// Adding a clause that every described valuation makes true, from a source other than an
/// assumption, keeps the state sound and describes the same valuations.
proof fn lemma_add_clause(a: Solver, b: Solver)
    requires
        a.sound(),
        b.table == a.table,
        b.rules@ == a.rules@,
        b.facts@ == a.facts@,
        b.assign@ == a.assign@,
        b.reason@ == a.reason@,
        b.trail@ == a.trail@,
        b.pos@.len() == a.pos@.len(),
        b.fired_disj@.len() == a.fired_disj@.len(),
        b.clauses@.len() == a.clauses@.len() + 1,
        forall|i: int| 0 <= i < a.clauses@.len() ==> #[trigger] b.clauses@[i] == a.clauses@[i],
        !(b.clauses@.last().src is Assumed),
        clause_ok(b.clauses@.last(), b.n()),
        clause_sem(b.rules@, b.facts@, b.clauses@.last()),
        forced(a, b.clauses@.last().or_expr@),
    ensures
        b.sound(),
        same_models(a, b),
{
    let last = b.clauses@.len() - 1;
    assert forall|val: spec_fn(Expr) -> bool| #[trigger] models(a, val) == #[trigger] models(b, val) by {
        if hyps_hold(a, val) {
            assert forall|ci: int|
                0 <= ci < b.clauses@.len() && (#[trigger] b.clauses@[ci]).src is Assumed implies holds(val, b.clauses@[ci].or_expr@) by {
                assert(ci < a.clauses@.len());
                assert(b.clauses@[ci] == a.clauses@[ci]);
            }
        }
        if hyps_hold(b, val) {
            assert forall|ci: int|
                0 <= ci < a.clauses@.len() && (#[trigger] a.clauses@[ci]).src is Assumed implies holds(val, a.clauses@[ci].or_expr@) by {
                assert(b.clauses@[ci] == a.clauses@[ci]);
            }
        }
    }
    assert forall|val: spec_fn(Expr) -> bool| #[trigger] models(b, val) implies agree(b, val) by {
        assert(models(a, val));
        assert(agree(a, val));
    }
    assert forall|val: spec_fn(Expr) -> bool, ci: int|
        #![trigger models(b, val), b.clauses@[ci]]
        models(b, val) && 0 <= ci < b.clauses@.len() implies holds(val, b.clauses@[ci].or_expr@) by {
        assert(models(a, val));
        if ci < a.clauses@.len() {
            assert(b.clauses@[ci] == a.clauses@[ci]);
        }
    }
    assert forall|i: int| 0 <= i < b.clauses@.len() implies clause_ok(#[trigger] b.clauses@[i], b.n()) by {
        if i < a.clauses@.len() {
            assert(b.clauses@[i] == a.clauses@[i]);
        }
    }
    assert forall|i: int| 0 <= i < b.clauses@.len() implies clause_sem(b.rules@, b.facts@, #[trigger] b.clauses@[i]) by {
        if i < a.clauses@.len() {
            assert(b.clauses@[i] == a.clauses@[i]);
        }
    }
    assert(b.wf());
    assert(b.trail_ok());
    assert(b.shape_ok());
}

/// A literal expression whose literal is assigned: it is true, or false, in every described
/// valuation according to the assignment.
proof fn lemma_denoted_value(s: Solver, l: Lit, e: Expr)
    requires
        s.sound(),
        denotes(s.table.atoms@, l, e),
        s.assign@[l.var as int] is Some,
    ensures
        s.assign@[l.var as int]->0 == l.pos ==> forced(s, e),
        s.assign@[l.var as int]->0 != l.pos ==> refuted(s, e),
{
    lemma_assigned_lit(s, l);
    assert forall|val: spec_fn(Expr) -> bool| #[trigger] models(s, val) implies holds(val, e) == (s.assign@[l.var as int]->0
        == l.pos) by {
        lemma_lit_holds(s.table.atoms@, val, l, e);
    }
}

/// The three-valued status of a disjunct under the assignment: a literal by the value of its
/// variable (live when unassigned or never interned), a conjunction false as soon as a conjunct
/// is and true when both are, a disjunction true as soon as a disjunct is and false when both are.
spec fn tri_of(s: Solver, e: Expr) -> Tri
    decreases e,
{
    match e {
        Expr::And(l, r) => {
            let a = tri_of(s, *l);
            let b = tri_of(s, *r);
            if a == Tri::False || b == Tri::False {
                Tri::False
            } else if a == Tri::True && b == Tri::True {
                Tri::True
            } else {
                Tri::Live
            }
        },
        Expr::Or(l, r) => {
            let a = tri_of(s, *l);
            let b = tri_of(s, *r);
            if a == Tri::True || b == Tri::True {
                Tri::True
            } else if a == Tri::False && b == Tri::False {
                Tri::False
            } else {
                Tri::Live
            }
        },
        _ => match expr_lit(s.table.atoms@, e) {
            Some(l) => match s.assign@[l.var as int] {
                Some(b) => if b == l.pos {
                    Tri::True
                } else {
                    Tri::False
                },
                None => Tri::Live,
            },
            None => Tri::Live,
        },
    }
}

/// The indices below `i` of the live disjuncts of clause `ci`, in increasing order.
spec fn live_upto(s: Solver, ci: int, i: nat) -> Seq<usize>
    decreases i,
{
    if i == 0 {
        Seq::empty()
    } else {
        let prev = live_upto(s, ci, (i - 1) as nat);
        if tri_of(s, s.clauses@[ci].disjuncts@[i - 1]@) == Tri::Live {
            prev.push((i - 1) as usize)
        } else {
            prev
        }
    }
}

/// The indices of the live disjuncts of clause `ci`, in increasing order.
spec fn live_of(s: Solver, ci: int) -> Seq<usize> {
    live_upto(s, ci, s.clauses@[ci].disjuncts@.len())
}

/// Some disjunct of clause `ci` is true under the assignment.
spec fn clause_true(s: Solver, ci: int) -> bool {
    exists|j: int| 0 <= j < s.clauses@[ci].disjuncts@.len() && tri_of(s, #[trigger] s.clauses@[ci].disjuncts@[j]@) == Tri::True
}

/// Clause `ci` may be split on: it is not being split already, no disjunct of it is true, some
/// disjunct is live, and it is not a literal clause down to one live literal.
spec fn splittable(s: Solver, ci: int) -> bool {
    &&& !s.deciding@.contains(ci as usize)
    &&& !clause_true(s, ci)
    &&& live_of(s, ci).len() > 0
    &&& !(s.clauses@[ci].lits is Some && live_of(s, ci).len() < 2)
}

/// The value of literal `l` under the assignment: `Some(true)` when it holds, `Some(false)`
/// when it is violated, `None` when its variable is unassigned.
spec fn lit_val(s: Solver, l: Lit) -> Option<bool> {
    match s.assign@[l.var as int] {
        Some(b) => Some(b == l.pos),
        None => None,
    }
}

/// How many of the literals `ls` are unassigned.
spec fn count_open(s: Solver, ls: Seq<Lit>) -> nat
    decreases ls.len(),
{
    if ls.len() == 0 {
        0
    } else {
        count_open(s, ls.drop_last()) + if lit_val(s, ls.last()) is None {
            1nat
        } else {
            0nat
        }
    }
}

/// Some literal of `ls` is violated.
spec fn some_false(s: Solver, ls: Seq<Lit>) -> bool {
    exists|k: int| 0 <= k < ls.len() && lit_val(s, #[trigger] ls[k]) == Some(false)
}

/// Rule `ri` has nothing left to propagate: an antecedent is violated; or every antecedent
/// holds and the consequent holds (a literal) or has been materialized as a clause (a
/// disjunction); or all antecedents but one unassigned hold and the consequent is no violated
/// literal; or two or more antecedents are unassigned.
spec fn rule_closed(s: Solver, ri: int) -> bool {
    let r = s.rules@[ri];
    ||| some_false(s, r.ante@)
    ||| count_open(s, r.ante@) == 0 && match r.cons {
        RuleCons::Lit(l) => lit_val(s, l) == Some(true),
        RuleCons::Disj(_) => s.fired_disj@[ri],
    }
    ||| count_open(s, r.ante@) == 1 && match r.cons {
        RuleCons::Lit(l) => lit_val(s, l) != Some(false),
        RuleCons::Disj(_) => true,
    }
    ||| count_open(s, r.ante@) >= 2
}

/// Every literal conjunct among `es` that names an interned atom holds.
spec fn conjuncts_hold(s: Solver, es: Seq<Expr>) -> bool {
    forall|k: int|
        0 <= k < es.len() && is_literal(#[trigger] es[k]) ==> match expr_lit(s.table.atoms@, es[k]) {
            Some(l) => lit_val(s, l) == Some(true),
            None => true,
        }
}

/// Clause `ci` has nothing left to propagate: a disjunct holds; or two or more are live; or
/// exactly one is live and it is no interned literal of a literal clause, and (at the root) the
/// literal conjuncts of a compound clause's live disjunct all hold.
spec fn clause_closed(s: Solver, ci: int) -> bool {
    let c = s.clauses@[ci];
    let live = live_of(s, ci);
    ||| clause_true(s, ci)
    ||| live.len() >= 2
    ||| live.len() == 1 && (c.lits is Some ==> expr_lit(s.table.atoms@, c.disjuncts@[live[0] as int]@) is None) && (
    s.at_root && c.lits is None ==> conjuncts_hold(s, and_leaves(c.disjuncts@[live[0] as int]@)))
}

/// Propagation has reached its fixpoint: every rule and every clause is closed.
spec fn closed(s: Solver) -> bool {
    &&& forall|ri: int| 0 <= ri < s.rules@.len() ==> #[trigger] rule_closed(s, ri)
    &&& forall|ci: int| 0 <= ci < s.clauses@.len() ==> #[trigger] clause_closed(s, ci)
}

/// The conflict is a violation in the state: a rule whose antecedents all hold and whose
/// literal consequent is violated, or a clause whose every disjunct is false.
spec fn violated(s: Solver, c: Conflict) -> bool {
    match c {
        Conflict::Rule(ri) => {
            &&& ri < s.rules@.len()
            &&& !some_false(s, s.rules@[ri as int].ante@)
            &&& count_open(s, s.rules@[ri as int].ante@) == 0
            &&& s.rules@[ri as int].cons matches RuleCons::Lit(l) && lit_val(s, l) == Some(false)
        },
        Conflict::Clause(ci) => {
            &&& ci < s.clauses@.len()
            &&& forall|j: int|
                0 <= j < s.clauses@[ci as int].disjuncts@.len() ==> tri_of(s, #[trigger] s.clauses@[ci as int].disjuncts@[j]@)
                    == Tri::False
        },
    }
}

/// How many entries are `None`.
spec fn count_none(a: Seq<Option<bool>>) -> nat
    decreases a.len(),
{
    if a.len() == 0 {
        0
    } else {
        count_none(a.drop_last()) + if a.last() is None {
            1nat
        } else {
            0nat
        }
    }
}

/// How many entries are `false`.
spec fn count_unset(a: Seq<bool>) -> nat
    decreases a.len(),
{
    if a.len() == 0 {
        0
    } else {
        count_unset(a.drop_last()) + if !a.last() {
            1nat
        } else {
            0nat
        }
    }
}

/// What propagation can still do: the unassigned variables and the disjunctive rules not yet
/// materialized.
spec fn pending(s: Solver) -> nat {
    count_none(s.assign@) + count_unset(s.fired_disj@)
}

proof fn lemma_count_step(s: Solver, ls: Seq<Lit>, i: int)
    requires
        0 <= i < ls.len(),
    ensures
        some_false(s, ls.subrange(0, i + 1)) == (some_false(s, ls.subrange(0, i)) || lit_val(s, ls[i]) == Some(false)),
        count_open(s, ls.subrange(0, i + 1)) == count_open(s, ls.subrange(0, i)) + if lit_val(s, ls[i]) is None {
            1nat
        } else {
            0nat
        },
{
    let a = ls.subrange(0, i);
    let b = ls.subrange(0, i + 1);
    assert(b.drop_last() =~= a);
    assert(b.last() == ls[i]);
    if some_false(s, b) {
        let k = choose|k: int| 0 <= k < b.len() && lit_val(s, #[trigger] b[k]) == Some(false);
        if k < i {
            assert(a[k] == b[k]);
        }
    }
    if some_false(s, a) {
        let k = choose|k: int| 0 <= k < a.len() && lit_val(s, #[trigger] a[k]) == Some(false);
        assert(b[k] == a[k]);
    }
    if lit_val(s, ls[i]) == Some(false) {
        assert(b[i] == ls[i]);
    }
}

/// The live list up to `i` holds exactly the live disjuncts below `i`.
proof fn lemma_live_upto(s: Solver, ci: int, i: nat)
    requires
        i <= s.clauses@[ci].disjuncts@.len(),
        s.clauses@[ci].disjuncts@.len() <= usize::MAX,
    ensures
        forall|k: int| 0 <= k < live_upto(s, ci, i).len() ==> #[trigger] live_upto(s, ci, i)[k] < i && tri_of(
            s,
            s.clauses@[ci].disjuncts@[live_upto(s, ci, i)[k] as int]@,
        ) == Tri::Live,
        forall|j: int| 0 <= j < i && tri_of(s, #[trigger] s.clauses@[ci].disjuncts@[j]@) == Tri::Live ==> listed(
            live_upto(s, ci, i),
            j,
        ),
    decreases i,
{
    if i > 0 {
        let prev = live_upto(s, ci, (i - 1) as nat);
        lemma_live_upto(s, ci, (i - 1) as nat);
        let cur = live_upto(s, ci, i);
        assert forall|j: int| 0 <= j < i && tri_of(s, #[trigger] s.clauses@[ci].disjuncts@[j]@) == Tri::Live implies listed(
            cur,
            j,
        ) by {
            if j < i - 1 {
                let k = choose|k: int| 0 <= k < prev.len() && prev[k] as int == j;
                assert(cur[k] == prev[k]);
            } else {
                assert(cur[prev.len() as int] as int == j);
            }
        }
    }
}

/// A three-valued status that is settled stays settled while assignments are only added.
proof fn lemma_tri_stable(a: Solver, b: Solver, e: Expr)
    requires
        b.table == a.table,
        a.table.atoms@.len() <= usize::MAX,
        a.assign@.len() == a.table.atoms@.len(),
        b.assign@.len() == a.assign@.len(),
        forall|v: int| 0 <= v < a.assign@.len() && (#[trigger] a.assign@[v]) is Some ==> b.assign@[v] == a.assign@[v],
        tri_of(a, e) != Tri::Live,
    ensures
        tri_of(b, e) == tri_of(a, e),
    decreases e,
{
    match e {
        Expr::And(l, r) => {
            if tri_of(a, *l) != Tri::Live {
                lemma_tri_stable(a, b, *l);
            }
            if tri_of(a, *r) != Tri::Live {
                lemma_tri_stable(a, b, *r);
            }
        },
        Expr::Or(l, r) => {
            if tri_of(a, *l) != Tri::Live {
                lemma_tri_stable(a, b, *l);
            }
            if tri_of(a, *r) != Tri::Live {
                lemma_tri_stable(a, b, *r);
            }
        },
        _ => {
            lemma_expr_lit_var(a.table.atoms@, e);
            let l = expr_lit(a.table.atoms@, e)->0;
            assert(a.assign@[l.var as int] is Some);
        },
    }
}

/// A conjunction with a false conjunct is false.
proof fn lemma_and_leaf_false(s: Solver, d: Expr, m: int)
    requires
        0 <= m < and_leaves(d).len(),
        tri_of(s, and_leaves(d)[m]) == Tri::False,
    ensures
        tri_of(s, d) == Tri::False,
    decreases d,
{
    match d {
        Expr::And(l, r) => {
            let ll = and_leaves(*l);
            if m < ll.len() {
                assert(and_leaves(d)[m] == ll[m]);
                lemma_and_leaf_false(s, *l, m);
            } else {
                assert(and_leaves(d)[m] == and_leaves(*r)[m - ll.len()]);
                lemma_and_leaf_false(s, *r, m - ll.len());
            }
        },
        _ => {
            assert(and_leaves(d)[m] == d);
        },
    }
}

proof fn lemma_count_none_update(a: Seq<Option<bool>>, i: int, x: bool)
    requires
        0 <= i < a.len(),
        a[i] is None,
    ensures
        count_none(a.update(i, Some(x))) + 1 == count_none(a),
    decreases a.len(),
{
    let b = a.update(i, Some(x));
    if i == a.len() - 1 {
        assert(b.drop_last() =~= a.drop_last());
    } else {
        assert(b.drop_last() =~= a.drop_last().update(i, Some(x)));
        lemma_count_none_update(a.drop_last(), i, x);
    }
}

proof fn lemma_count_unset_update(a: Seq<bool>, i: int)
    requires
        0 <= i < a.len(),
        !a[i],
    ensures
        count_unset(a.update(i, true)) + 1 == count_unset(a),
    decreases a.len(),
{
    let b = a.update(i, true);
    if i == a.len() - 1 {
        assert(b.drop_last() =~= a.drop_last());
    } else {
        assert(b.drop_last() =~= a.drop_last().update(i, true));
        lemma_count_unset_update(a.drop_last(), i);
    }
}

impl Solver {
    /// Three-valued evaluation of a disjunct (a conjunction, disjunction or literal) under the
    /// trail; an atom that was never interned counts as live.
    fn eval_disjunct(&self, e: &ProofExpr) -> (r: Tri)
        requires
            self.sound(),
        ensures
            r == Tri::True ==> forced(*self, e@),
            r == Tri::False ==> refuted(*self, e@),
            r == tri_of(*self, e@),
        decreases e,
    {
        match e {
            ProofExpr::And(l, r) => {
                let a = self.eval_disjunct(l);
                let b = self.eval_disjunct(r);
                if a == Tri::False || b == Tri::False {
                    Tri::False
                } else if a == Tri::True && b == Tri::True {
                    Tri::True
                } else {
                    Tri::Live
                }
            },
            ProofExpr::Or(l, r) => {
                let a = self.eval_disjunct(l);
                let b = self.eval_disjunct(r);
                if a == Tri::True || b == Tri::True {
                    Tri::True
                } else if a == Tri::False && b == Tri::False {
                    Tri::False
                } else {
                    Tri::Live
                }
            },
            _ => match self.lit_of(e) {
                Some(l) => match self.value(l) {
                    Some(true) => {
                        proof {
                            lemma_denoted_value(*self, l, e@);
                        }
                        Tri::True
                    },
                    Some(false) => {
                        proof {
                            lemma_denoted_value(*self, l, e@);
                        }
                        Tri::False
                    },
                    None => Tri::Live,
                },
                None => Tri::Live,
            },
        }
    }

    /// Whether some disjunct of clause `ci` holds, and the indices of its live disjuncts (in
    /// order); every other disjunct is refuted when none holds.
    fn clause_status(&self, ci: usize) -> (r: (bool, Vec<usize>))
        requires
            self.sound(),
            ci < self.clauses@.len(),
        ensures
            forall|k: int| 0 <= k < r.1@.len() ==> #[trigger] r.1@[k] < self.clauses@[ci as int].disjuncts@.len(),
            forall|a: int, b: int| 0 <= a < b < r.1@.len() ==> #[trigger] r.1@[a] < #[trigger] r.1@[b],
            !r.0 ==> forall|j: int|
                0 <= j < self.clauses@[ci as int].disjuncts@.len() && !listed(r.1@, j) ==> refuted(
                    *self,
                    #[trigger] self.clauses@[ci as int].disjuncts@[j]@,
                ),
            r.0 == clause_true(*self, ci as int),
            r.1@ == live_of(*self, ci as int),
    {
        let mut has_true = false;
        let mut live: Vec<usize> = Vec::new();
        let mut i: usize = 0;
        while i < self.clauses[ci].disjuncts.len()
            invariant
                self.sound(),
                ci < self.clauses@.len(),
                i <= self.clauses@[ci as int].disjuncts@.len(),
                forall|k: int| 0 <= k < live@.len() ==> #[trigger] live@[k] < i,
                forall|a: int, b: int| 0 <= a < b < live@.len() ==> #[trigger] live@[a] < #[trigger] live@[b],
                !has_true ==> forall|j: int|
                    0 <= j < i && !listed(live@, j) ==> refuted(*self, #[trigger] self.clauses@[ci as int].disjuncts@[j]@),
                live@ == live_upto(*self, ci as int, i as nat),
                has_true == exists|j: int|
                    0 <= j < i && tri_of(*self, #[trigger] self.clauses@[ci as int].disjuncts@[j]@) == Tri::True,
            decreases self.clauses@[ci as int].disjuncts@.len() - i,
        {
            let ghost live0 = live@;
            let ghost h0 = has_true;
            match self.eval_disjunct(&self.clauses[ci].disjuncts[i]) {
                Tri::True => {
                    has_true = true;
                },
                Tri::Live => {
                    live.push(i);
                    proof {
                        if !has_true {
                            assert forall|j: int| 0 <= j < i + 1 && !listed(live@, j) implies refuted(
                                *self,
                                #[trigger] self.clauses@[ci as int].disjuncts@[j]@,
                            ) by {
                                if j == i {
                                    assert(live@[live@.len() - 1] as int == j);
                                } else {
                                    if listed(live0, j) {
                                        let k = choose|k: int| 0 <= k < live0.len() && live0[k] as int == j;
                                        assert(live@[k] as int == j);
                                    }
                                }
                            }
                        }
                    }
                },
                Tri::False => {
                    proof {
                        if !has_true {
                            assert forall|j: int| 0 <= j < i + 1 && !listed(live@, j) implies refuted(
                                *self,
                                #[trigger] self.clauses@[ci as int].disjuncts@[j]@,
                            ) by {
                                if j < i {
                                }
                            }
                        }
                    }
                },
            }
            proof {
                if !h0 && !has_true {
                    assert forall|j: int| 0 <= j < i + 1 implies tri_of(*self, #[trigger] self.clauses@[ci as int].disjuncts@[j]@)
                        != Tri::True by {
                        if j < i {
                        }
                    }
                }
            }
            i += 1;
        }
        (has_true, live)
    }

    /// One rule's step of propagation: fire it forward, materialize its disjunctive
    /// consequent, or exclude its one open antecedent; a conflict when it is violated.
    fn propagate_rule(&mut self, ri: usize) -> (res: Result<bool, Conflict>)
        requires
            old(self).sound(),
            ri < old(self).rules@.len(),
        ensures
            final(self).sound(),
            grown(*old(self), *final(self)),
            same_models(*old(self), *final(self)),
            res is Err ==> no_models(*old(self)),
            res matches Err(c) ==> c matches Conflict::Rule(x) && x == ri,
            res == Ok::<bool, Conflict>(false) ==> *final(self) == *old(self) && rule_closed(*old(self), ri as int),
            res == Ok::<bool, Conflict>(true) ==> pending(*final(self)) < pending(*old(self)),
            res matches Err(c) ==> violated(*final(self), c),
    {
        let ghost s0 = *self;
        proof {
            lemma_grown_refl(s0);
            assert(rule_ok(self.rules@[ri as int], self.n()));
            assert(rule_sem(self.table.atoms@, self.facts@, self.rules@[ri as int]));
        }
        let ghost rule = self.rules@[ri as int];
        let ghost ante_es = and_leaves(*rule.src@->Implies_0);
        let ghost cons_e = *rule.src@->Implies_1;
        let mut n_nonsat: usize = 0;
        let mut the_nonsat: Option<Lit> = None;
        let ghost mut last_k: int = 0;
        let mut any_false = false;
        let mut i: usize = 0;
        while i < self.rules[ri].ante.len()
            invariant
                *self == s0,
                self.sound(),
                ri < self.rules@.len(),
                rule == self.rules@[ri as int],
                ante_es == and_leaves(*rule.src@->Implies_0),
                cons_e == *rule.src@->Implies_1,
                rule_sem(self.table.atoms@, self.facts@, rule),
                rule_ok(rule, self.n()),
                i <= rule.ante@.len(),
                n_nonsat <= i,
                match the_nonsat {
                    Some(l) => l.var < self.n(),
                    None => true,
                },
                n_nonsat == 0 ==> forall|k: int| 0 <= k < i ==> forced(*self, #[trigger] ante_es[k]),
                n_nonsat == 1 && !any_false ==> 0 <= last_k < i && the_nonsat == Some(rule.ante@[last_k]) && self.assign@[
                    rule.ante@[last_k].var as int] is None && forall|k: int| 0 <= k < i && k != last_k ==> forced(*self, #[trigger] ante_es[k]),
                any_false == some_false(*self, rule.ante@.subrange(0, i as int)),
                !any_false ==> n_nonsat == count_open(*self, rule.ante@.subrange(0, i as int)),
            decreases rule.ante@.len() - i,
        {
            proof {
                lemma_count_step(*self, rule.ante@, i as int);
            }
            let a = self.rules[ri].ante[i];
            proof {
                assert(rule.ante@[i as int] == a);
                assert(lits_denote(self.table.atoms@, rule.ante@, ante_es));
                assert(denotes(self.table.atoms@, rule.ante@[i as int], ante_es[i as int]));
            }
            match self.value(a) {
                Some(true) => {
                    proof {
                        lemma_denoted_value(*self, a, ante_es[i as int]);
                    }
                },
                Some(false) => {
                    any_false = true;
                    n_nonsat += 1;
                    the_nonsat = Some(a);
                    proof {
                        last_k = i as int;
                    }
                },
                None => {
                    n_nonsat += 1;
                    the_nonsat = Some(a);
                    proof {
                        last_k = i as int;
                    }
                },
            }
            i += 1;
        }
        proof {
            assert(rule.ante@.subrange(0, i as int) =~= rule.ante@);
        }
        if any_false {
            return Ok(false);
        }
        let cons_lit: Option<Lit> = match &self.rules[ri].cons {
            RuleCons::Lit(l) => Some(*l),
            RuleCons::Disj(_) => None,
        };
        proof {
            // The antecedent and the rule itself are facts of every described valuation.
            assert forall|val: spec_fn(Expr) -> bool| #[trigger] models(*self, val) implies holds(val, rule.src@) by {
                let j = choose|j: int| 0 <= j < self.facts@.len() && self.facts@[j] == rule.src@;
                assert(holds(val, self.facts@[j]));
            }
        }
        if n_nonsat == 0 {
            proof {
                assert forall|val: spec_fn(Expr) -> bool| #[trigger] models(*self, val) implies holds(val, cons_e) by {
                    assert(holds(val, rule.src@));
                    lemma_and_leaves(val, *rule.src@->Implies_0);
                    assert forall|k: int| 0 <= k < ante_es.len() implies holds(val, #[trigger] ante_es[k]) by {
                        assert(forced(*self, ante_es[k]));
                    }
                }
            }
            match cons_lit {
                Some(l) => {
                    proof {
                        assert(denotes(self.table.atoms@, l, cons_e));
                    }
                    match self.value(l) {
                        Some(true) => Ok(false),
                        Some(false) => {
                            proof {
                                lemma_denoted_value(*self, l, cons_e);
                            }
                            Err(Conflict::Rule(ri))
                        },
                        None => {
                            proof {
                                assert forall|val: spec_fn(Expr) -> bool| #[trigger] models(*self, val) implies lit_true(
                                    self.table.atoms@,
                                    val,
                                    l,
                                ) by {
                                    lemma_lit_holds(self.table.atoms@, val, l, cons_e);
                                }
                            }
                            let _ = self.set(l, Reason::Rule(ri));
                            proof {
                                lemma_assign_forced(s0, *self, l, Reason::Rule(ri));
                                lemma_count_none_update(s0.assign@, l.var as int, l.pos);
                            }
                            Ok(true)
                        },
                    }
                },
                None => {
                    if !self.fired_disj[ri] {
                        let lits = match &self.rules[ri].cons {
                            RuleCons::Disj(ls) => copy_lits(ls),
                            RuleCons::Lit(_) => Vec::new(),
                        };
                        self.fired_disj.set(ri, true);
                        proof {
                            lemma_count_unset_update(s0.fired_disj@, ri as int);
                        }
                        let (_, cons_form) = split_implies(&self.rules[ri].src);
                        let mut ds: Vec<ProofExpr> = Vec::new();
                        flatten_or(&cons_form, &mut ds);
                        let ghost s1 = *self;
                        let c = Clause { or_expr: cons_form, disjuncts: ds, lits: Some(lits), src: ClauseSrc::FromRule(ri) };
                        proof {
                            assert(exprs_view(ds@) =~= or_leaves(cons_form@));
                            assert(clause_sem(self.rules@, self.facts@, c));
                            assert(clause_ok(c, self.n()));
                        }
                        self.clauses.push(c);
                        proof {
                            assert(same_models(s0, s1)) by {
                                assert forall|val: spec_fn(Expr) -> bool| #[trigger] models(s0, val) == #[trigger] models(s1, val) by {
                                    assert(hyps_hold(s0, val) == hyps_hold(s1, val));
                                }
                            }
                            assert(s1.sound()) by {
                                assert forall|val: spec_fn(Expr) -> bool| #[trigger] models(s1, val) implies agree(s1, val) by {
                                    assert(models(s0, val));
                                }
                                assert forall|val: spec_fn(Expr) -> bool, k: int|
                                    #![trigger models(s1, val), s1.clauses@[k]]
                                    models(s1, val) && 0 <= k < s1.clauses@.len() implies holds(val, s1.clauses@[k].or_expr@) by {
                                    assert(models(s0, val));
                                    assert(s1.clauses@[k] == s0.clauses@[k]);
                                }
                            }
                            assert(cons_form@ == cons_e);
                            assert forall|val: spec_fn(Expr) -> bool| #[trigger] models(s1, val) implies holds(val, cons_form@) by {
                                assert(models(s0, val));
                            }
                            assert(self.clauses@.last() == c);
                            lemma_add_clause(s1, *self);
                            lemma_same_models_trans(s0, s1, *self);
                            assert(grown(s0, *self)) by {
                                assert(self.trail@.subrange(0, s0.trail@.len() as int) =~= s0.trail@);
                                assert forall|j: int| 0 <= j < s0.clauses@.len() implies #[trigger] self.clauses@[j] == s0.clauses@[j] by {
                                    assert(self.clauses@[j] == s1.clauses@[j]);
                                }
                            }
                        }
                        Ok(true)
                    } else {
                        Ok(false)
                    }
                },
            }
        } else if n_nonsat == 1 {
            match cons_lit {
                Some(l) => {
                    proof {
                        assert(denotes(self.table.atoms@, l, cons_e));
                    }
                    if self.value(l) == Some(false) {
                        match the_nonsat {
                            Some(open) => {
                                if self.value(open).is_none() {
                                    proof {
                                        lemma_denoted_value(*self, l, cons_e);
                                        assert(denotes(self.table.atoms@, open, ante_es[last_k]));
                                        let neg_open = Lit { var: open.var, pos: !open.pos };
                                        assert forall|val: spec_fn(Expr) -> bool| #[trigger] models(*self, val) implies lit_true(
                                            self.table.atoms@,
                                            val,
                                            neg_open,
                                        ) by {
                                            assert(holds(val, rule.src@));
                                            assert(!holds(val, cons_e));
                                            lemma_and_leaves(val, *rule.src@->Implies_0);
                                            if !lit_true(self.table.atoms@, val, neg_open) {
                                                lemma_lit_holds(self.table.atoms@, val, open, ante_es[last_k]);
                                                assert forall|k: int| 0 <= k < ante_es.len() implies holds(val, #[trigger] ante_es[k]) by {
                                                    if k != last_k {
                                                        assert(forced(*self, ante_es[k]));
                                                    }
                                                }
                                            }
                                        }
                                    }
                                    let neg_open = open.negate();
                                    let _ = self.set(neg_open, Reason::Exclude(ri));
                                    proof {
                                        lemma_assign_forced(s0, *self, neg_open, Reason::Exclude(ri));
                                        lemma_count_none_update(s0.assign@, neg_open.var as int, neg_open.pos);
                                    }
                                    return Ok(true);
                                }
                                Ok(false)
                            },
                            None => Ok(false),
                        }
                    } else {
                        Ok(false)
                    }
                },
                None => Ok(false),
            }
        } else {
            Ok(false)
        }
    }

    /// One clause's step of propagation: unit propagation on a literal clause, and (at the
    /// root) the conjuncts of a compound clause's only live disjunct; a conflict when every
    /// disjunct is violated.
    fn propagate_clause(&mut self, ci: usize) -> (res: Result<bool, Conflict>)
        requires
            old(self).sound(),
            ci < old(self).clauses@.len(),
        ensures
            final(self).sound(),
            grown(*old(self), *final(self)),
            same_models(*old(self), *final(self)),
            final(self).clauses@ == old(self).clauses@,
            res is Err ==> no_models(*old(self)),
            res == Ok::<bool, Conflict>(false) ==> *final(self) == *old(self) && clause_closed(*old(self), ci as int),
            res == Ok::<bool, Conflict>(true) ==> pending(*final(self)) < pending(*old(self)),
            res matches Err(c) ==> violated(*final(self), c),
    {
        let ghost s0 = *self;
        proof {
            lemma_grown_refl(s0);
        }
        let (has_true, live) = self.clause_status(ci);
        proof {
            assert(s0.clauses@[ci as int].disjuncts.len() == s0.clauses@[ci as int].disjuncts@.len());
            lemma_live_upto(s0, ci as int, s0.clauses@[ci as int].disjuncts@.len());
            assert(s0.table.atoms.len() == s0.table.atoms@.len());
        }
        if has_true {
            return Ok(false);
        }
        let ghost c = self.clauses@[ci as int];
        proof {
            assert(clause_sem(self.rules@, self.facts@, c));
        }
        if live.len() == 0 {
            proof {
                assert forall|val: spec_fn(Expr) -> bool| !#[trigger] models(*self, val) by {
                    if models(*self, val) {
                        assert(holds(val, c.or_expr@));
                        lemma_or_leaves(val, c.or_expr@);
                        let j = choose|j: int| 0 <= j < or_leaves(c.or_expr@).len() && holds(val, #[trigger] or_leaves(c.or_expr@)[j]);
                        assert(exprs_view(c.disjuncts@)[j] == c.disjuncts@[j]@);
                        assert(!listed(live@, j));
                        assert(refuted(*self, c.disjuncts@[j]@));
                    }
                }
                assert forall|j: int| 0 <= j < c.disjuncts@.len() implies tri_of(*self, #[trigger] c.disjuncts@[j]@) == Tri::False by {
                    if tri_of(*self, c.disjuncts@[j]@) == Tri::Live {
                        assert(listed(live@, j));
                    }
                    if tri_of(*self, c.disjuncts@[j]@) == Tri::True {
                        assert(clause_true(*self, ci as int));
                    }
                }
            }
            return Err(Conflict::Clause(ci));
        }
        let ghost live_one = live@[0];
        proof {
            if live@.len() == 1 {
                assert forall|val: spec_fn(Expr) -> bool| #[trigger] models(*self, val) implies holds(val, c.disjuncts@[live_one as int]@) by {
                    assert(holds(val, c.or_expr@));
                    lemma_or_leaves(val, c.or_expr@);
                    let j = choose|j: int| 0 <= j < or_leaves(c.or_expr@).len() && holds(val, #[trigger] or_leaves(c.or_expr@)[j]);
                    assert(exprs_view(c.disjuncts@)[j] == c.disjuncts@[j]@);
                    if j != live_one {
                        assert(!listed(live@, j)) by {
                            if listed(live@, j) {
                                let k = choose|k: int| 0 <= k < live@.len() && live@[k] as int == j;
                                assert(k == 0);
                            }
                        }
                        assert(refuted(*self, c.disjuncts@[j]@));
                    }
                }
            }
        }
        let mut changed = false;
        if self.clauses[ci].lits.is_some() && live.len() == 1 {
            match self.lit_of(&self.clauses[ci].disjuncts[live[0]]) {
                Some(l) => {
                    let ghost s1 = *self;
                    proof {
                        assert(tri_of(*self, c.disjuncts@[live_one as int]@) == Tri::Live);
                    }
                    let was_open = self.value(l).is_none();
                    proof {
                        assert(was_open);
                    }
                    proof {
                        if was_open {
                            assert forall|val: spec_fn(Expr) -> bool| #[trigger] models(*self, val) implies lit_true(
                                self.table.atoms@,
                                val,
                                l,
                            ) by {
                                lemma_lit_holds(self.table.atoms@, val, l, c.disjuncts@[live_one as int]@);
                            }
                        }
                    }
                    if self.set(l, Reason::Clause(ci)).is_ok() {
                        changed = true;
                    }
                    proof {
                        if was_open {
                            lemma_assign_forced(s1, *self, l, Reason::Clause(ci));
                            lemma_count_none_update(s1.assign@, l.var as int, l.pos);
                        }
                    }
                },
                None => {},
            }
        }
        if self.at_root && self.clauses[ci].lits.is_none() && live.len() == 1 {
            let di = live[0];
            let mut conjs: Vec<ProofExpr> = Vec::new();
            flatten_and(&self.clauses[ci].disjuncts[di], &mut conjs);
            let ghost d = c.disjuncts@[di as int]@;
            proof {
                assert(exprs_view(conjs@) =~= and_leaves(d));
                assert forall|k: int| 0 <= k < conjs@.len() implies forced(*self, #[trigger] conjs@[k]@) by {
                    assert forall|val: spec_fn(Expr) -> bool| #[trigger] models(*self, val) implies holds(val, conjs@[k]@) by {
                        lemma_and_leaves(val, d);
                        assert(exprs_view(conjs@)[k] == conjs@[k]@);
                    }
                }
            }
            let mut k: usize = 0;
            while k < conjs.len()
                invariant
                    s0 == *old(self),
                    self.sound(),
                    grown(s0, *self),
                    same_models(s0, *self),
                    self.clauses@ == s0.clauses@,
                    k <= conjs@.len(),
                    forall|m: int| 0 <= m < conjs@.len() ==> forced(s0, #[trigger] conjs@[m]@),
                    exprs_view(conjs@) == and_leaves(d),
                    d == c.disjuncts@[live_one as int]@,
                    c == s0.clauses@[ci as int],
                    ci < s0.clauses@.len(),
                    live_one == live@[0],
                    live@.len() == 1,
                    live@ == live_of(s0, ci as int),
                    !has_true,
                    !clause_true(s0, ci as int),
                    s0.table.atoms@.len() <= usize::MAX,
                    forall|j: int|
                        0 <= j < c.disjuncts@.len() && j != live_one ==> tri_of(s0, #[trigger] c.disjuncts@[j]@) == Tri::False,
                    pending(*self) <= pending(s0),
                    changed ==> pending(*self) < pending(s0),
                    !changed ==> *self == s0 && forall|m: int|
                        0 <= m < k && is_literal(#[trigger] conjs@[m]@) ==> match expr_lit(s0.table.atoms@, conjs@[m]@) {
                            Some(l) => lit_val(s0, l) == Some(true),
                            None => true,
                        },
                decreases conjs@.len() - k,
            {
                let conj = &conjs[k];
                proof {
                    assert(forced(s0, conj@));
                    assert forall|val: spec_fn(Expr) -> bool| #[trigger] models(*self, val) implies holds(val, conj@) by {
                        assert(models(s0, val));
                    }
                }
                k += 1;
                if !literal(conj) {
                    continue;
                }
                match self.lit_of(conj) {
                    None => {},
                    Some(l) => match self.value(l) {
                        Some(true) => {},
                        Some(false) => {
                            proof {
                                lemma_denoted_value(*self, l, conj@);
                                assert forall|val: spec_fn(Expr) -> bool| !#[trigger] models(s0, val) by {
                                    if models(s0, val) {
                                        assert(models(*self, val));
                                    }
                                }
                                assert(exprs_view(conjs@)[k - 1] == conj@);
                                assert(tri_of(*self, conj@) == Tri::False);
                                lemma_and_leaf_false(*self, d, k - 1);
                                assert forall|j: int| 0 <= j < c.disjuncts@.len() implies tri_of(*self, #[trigger] c.disjuncts@[j]@)
                                    == Tri::False by {
                                    if j != live_one {
                                        lemma_tri_stable(s0, *self, c.disjuncts@[j]@);
                                    }
                                }
                                assert(self.clauses@[ci as int] == c);
                                assert forall|j: int| 0 <= j < self.clauses@[ci as int].disjuncts@.len() implies tri_of(
                                    *self,
                                    #[trigger] self.clauses@[ci as int].disjuncts@[j]@,
                                ) == Tri::False by {
                                    assert(c.disjuncts@[j] == self.clauses@[ci as int].disjuncts@[j]);
                                }
                                assert(violated(*self, Conflict::Clause(ci)));
                            }
                            return Err(Conflict::Clause(ci));
                        },
                        None => {
                            let ghost s1 = *self;
                            proof {
                                assert forall|val: spec_fn(Expr) -> bool| #[trigger] models(*self, val) implies lit_true(
                                    self.table.atoms@,
                                    val,
                                    l,
                                ) by {
                                    lemma_lit_holds(self.table.atoms@, val, l, conj@);
                                }
                            }
                            let _ = self.set(l, Reason::CompoundClause { clause: ci, disjunct: di });
                            proof {
                                lemma_assign_forced(s1, *self, l, Reason::CompoundClause { clause: ci, disjunct: di });
                                lemma_grown_trans(s0, s1, *self);
                                lemma_same_models_trans(s0, s1, *self);
                                lemma_count_none_update(s1.assign@, l.var as int, l.pos);
                            }
                            changed = true;
                        },
                    },
                }
            }
        }
        Ok(changed)
    }

    /// Trail-based fixpoint propagation: forward modus ponens, backward exclusion, firing of
    /// disjunctive consequents, and unit propagation over clauses (compound clauses only at the
    /// root). Returns the conflict if one is reached. Every assignment it makes is true in
    /// every valuation the state describes, and a conflict means there is no such valuation.
    fn propagate(&mut self) -> (res: Result<(), Conflict>)
        requires
            old(self).sound(),
        ensures
            final(self).sound(),
            grown(*old(self), *final(self)),
            same_models(*old(self), *final(self)),
            res is Err ==> no_models(*old(self)),
            res is Ok ==> closed(*final(self)),
            res matches Err(c) ==> violated(*final(self), c),
    {
        proof {
            lemma_grown_refl(*self);
            assert(same_models(*self, *self));
        }
        loop
            invariant
                self.sound(),
                grown(*old(self), *self),
                same_models(*old(self), *self),
            decreases pending(*self),
        {
            let ghost start = *self;
            let mut changed = false;
            let mut ri: usize = 0;
            while ri < self.rules.len()
                invariant
                    self.sound(),
                    grown(*old(self), *self),
                    same_models(*old(self), *self),
                    ri <= self.rules@.len(),
                    self.rules@ == start.rules@,
                    pending(*self) <= pending(start),
                    changed ==> pending(*self) < pending(start),
                    !changed ==> *self == start && forall|r: int| 0 <= r < ri ==> #[trigger] rule_closed(start, r),
                decreases self.rules@.len() - ri,
            {
                let ghost s1 = *self;
                let step = self.propagate_rule(ri);
                proof {
                    lemma_grown_trans(*old(self), s1, *self);
                    lemma_same_models_trans(*old(self), s1, *self);
                }
                match step {
                    Err(c) => {
                        proof {
                            assert forall|val: spec_fn(Expr) -> bool| !#[trigger] models(*old(self), val) by {
                                assert(models(*old(self), val) == models(s1, val));
                            }
                        }
                        return Err(c);
                    },
                    Ok(true) => {
                        changed = true;
                    },
                    Ok(false) => {},
                }
                ri += 1;
            }
            let mut ci: usize = 0;
            while ci < self.clauses.len()
                invariant
                    self.sound(),
                    grown(*old(self), *self),
                    same_models(*old(self), *self),
                    ci <= self.clauses@.len(),
                    pending(*self) <= pending(start),
                    changed ==> pending(*self) < pending(start),
                    !changed ==> *self == start && (forall|r: int| 0 <= r < start.rules@.len() ==> #[trigger] rule_closed(start, r))
                        && forall|c: int| 0 <= c < ci ==> #[trigger] clause_closed(start, c),
                decreases self.clauses@.len() - ci,
            {
                let ghost s1 = *self;
                let step = self.propagate_clause(ci);
                proof {
                    lemma_grown_trans(*old(self), s1, *self);
                    lemma_same_models_trans(*old(self), s1, *self);
                }
                match step {
                    Err(c) => {
                        proof {
                            assert forall|val: spec_fn(Expr) -> bool| !#[trigger] models(*old(self), val) by {
                                assert(models(*old(self), val) == models(s1, val));
                            }
                        }
                        return Err(c);
                    },
                    Ok(true) => {
                        changed = true;
                    },
                    Ok(false) => {},
                }
                ci += 1;
            }
            if !changed {
                return Ok(());
            }
        }
    }
}

/// The lexicographic order of two refutation keys.
fn key_le(a: (u8, usize), b: (u8, usize)) -> (r: bool)
    ensures
        r == (a.0 < b.0 || (a.0 == b.0 && a.1 <= b.1)),
{
    a.0 < b.0 || (a.0 == b.0 && a.1 <= b.1)
}

// ---------------------------------------------------------------------------
// Emission: turn the trail into a derivation tree
// ---------------------------------------------------------------------------

/// `e` has a literal conjunct (under nested conjunctions) whose literal is `want`.
spec fn has_conjunct(s: Solver, e: Expr, want: Lit) -> bool
    decreases e,
{
    match e {
        Expr::And(l, r) => has_conjunct(s, *l, want) || has_conjunct(s, *r, want),
        _ => expr_lit(s.table.atoms@, e) == Some(want),
    }
}

/// The derivation reached from `t`, a proof of the conjunction `conj`, by eliminating down the
/// left conjunct when it holds a conjunct of literal `want` and the right one otherwise.
spec fn projection(s: Solver, conj: Expr, t: Derivation, want: Lit) -> Derivation
    decreases conj,
{
    match conj {
        Expr::And(l, r) => if has_conjunct(s, *l, want) {
            projection(s, *l, step(*l, InferenceRule::ConjunctionElim, seq![t]), want)
        } else {
            projection(s, *r, step(*r, InferenceRule::ConjunctionElim, seq![t]), want)
        },
        _ => t,
    }
}

/// The trail position by which `e` is false using only assignments at positions below
/// `before`: a literal at the position of its violated variable, a conjunction at the earliest
/// of its false conjuncts, a disjunction at the later of its two sides once both are false.
spec fn false_pos(s: Solver, e: Expr, before: usize) -> Option<usize>
    decreases e,
{
    match e {
        Expr::And(l, r) => match (false_pos(s, *l, before), false_pos(s, *r, before)) {
            (Some(a), Some(b)) => Some(if a <= b { a } else { b }),
            (Some(a), None) => Some(a),
            (None, b) => b,
        },
        Expr::Or(l, r) => match (false_pos(s, *l, before), false_pos(s, *r, before)) {
            (Some(a), Some(b)) => Some(if a >= b { a } else { b }),
            _ => None,
        },
        _ => match expr_lit(s.table.atoms@, e) {
            Some(l) => if s.assign@[l.var as int] == Some(!l.pos) && s.pos@[l.var as int] < before {
                Some(s.pos@[l.var as int])
            } else {
                None
            },
            None => None,
        },
    }
}

/// Variable `v` is assigned and its reason is cited as it stands: a unit premise or a search
/// assumption.
spec fn cited(s: Solver, v: int) -> bool {
    &&& s.assign@[v] is Some
    &&& s.reason@[v] is Some
    &&& (s.reason@[v]->0 is Premise || s.reason@[v]->0 is Assumption)
}

/// The expression that literal `l` states over the table `atoms`.
spec fn lit_expr_of(atoms: Seq<ProofExpr>, l: Lit) -> Expr {
    if l.pos {
        atoms[l.var as int]@
    } else {
        Expr::Not(Box::new(atoms[l.var as int]@))
    }
}

/// The nesting depth of conjunctions and disjunctions in `e`.
spec fn conn_depth(e: Expr) -> nat
    decreases e,
{
    match e {
        Expr::And(l, r) => 1 + if conn_depth(*l) >= conn_depth(*r) {
            conn_depth(*l)
        } else {
            conn_depth(*r)
        },
        Expr::Or(l, r) => 1 + if conn_depth(*l) >= conn_depth(*r) {
            conn_depth(*l)
        } else {
            conn_depth(*r)
        },
        _ => 0,
    }
}

/// Every conjunct of the antecedent `form` is a literal proved by citing it: the literal of
/// variable `forced` as the enclosing hypothesis, any other through its cited variable.
spec fn ante_cited(s: Solver, form: Expr, forced: Option<usize>) -> bool
    decreases form,
{
    match form {
        Expr::And(l, r) => ante_cited(s, *l, forced) && ante_cited(s, *r, forced),
        _ => match expr_lit(s.table.atoms@, form) {
            Some(l) => forced == Some(l.var) || cited(s, l.var as int),
            None => false,
        },
    }
}

/// The antecedent of rule `ri`.
spec fn rule_ante(s: Solver, ri: int) -> Expr {
    *s.rules@[ri].src@->Implies_0
}

/// The consequent of rule `ri`.
spec fn rule_cons(s: Solver, ri: int) -> Expr {
    *s.rules@[ri].src@->Implies_1
}

/// The refutation key of `x`: when it became false before `before` (preferred), else when it
/// became false at all.
spec fn false_key_of(s: Solver, x: Expr, before: usize) -> Option<(u8, usize)> {
    match false_pos(s, x, before) {
        Some(p) => Some((0u8, p)),
        None => match false_pos(s, x, usize::MAX) {
            Some(p) => Some((1u8, p)),
            None => None,
        },
    }
}

/// The refutation of a conjunction `l ∧ r` goes through `l`: its key is the smaller one, or
/// only it has one, or neither has.
spec fn picks_left(s: Solver, l: Expr, r: Expr, before: usize) -> bool {
    match (false_key_of(s, l, before), false_key_of(s, r, before)) {
        (Some(a), Some(b)) => a.0 < b.0 || (a.0 == b.0 && a.1 <= b.1),
        (Some(_), None) => true,
        (None, Some(_)) => false,
        (None, None) => true,
    }
}

/// `⊥` follows from a proof of `e` with every literal proof taken by citing: both sides of a
/// disjunction, the conjunct that the refutation keys pick, a literal through its cited variable.
spec fn falsum_cited(s: Solver, e: Expr, before: usize) -> bool
    decreases e,
{
    match e {
        Expr::Or(l, r) => falsum_cited(s, *l, before) && falsum_cited(s, *r, before),
        Expr::And(l, r) => if picks_left(s, *l, *r, before) {
            falsum_cited(s, *l, before)
        } else {
            falsum_cited(s, *r, before)
        },
        _ => match expr_lit(s.table.atoms@, e) {
            Some(l) => cited(s, l.var as int),
            None => false,
        },
    }
}

/// Every disjunct refuted on the way down the left spine of the disjunction `e` to `target` is
/// refuted with literal proofs taken by citing.
spec fn survivor_cited(s: Solver, e: Expr, target: Expr, before: usize) -> bool
    decreases e,
{
    match e {
        Expr::Or(l, r) => if *r == target {
            falsum_cited(s, *l, before)
        } else {
            falsum_cited(s, *r, before) && survivor_cited(s, *l, target, before)
        },
        _ => true,
    }
}

/// The disjunction a clause source states by itself: a premise or an assumed disjunction.
spec fn cited_src(c: ClauseSrc) -> Option<Expr> {
    match c {
        ClauseSrc::Bare(e) => Some(e@),
        ClauseSrc::Assumed(e) => Some(e@),
        ClauseSrc::FromRule(_) => None,
    }
}

/// `⊥` follows from the conflict with every literal proof taken by citing, within `fuel`.
spec fn conflict_cited(s: Solver, c: Conflict, fuel: int) -> bool {
    match c {
        Conflict::Rule(ri) => {
            &&& ri < s.rules@.len()
            &&& fuel >= conn_depth(rule_ante(s, ri as int)) + 4
            &&& ante_cited(s, rule_ante(s, ri as int), None)
            &&& match expr_lit(s.table.atoms@, rule_cons(s, ri as int)) {
                Some(l) => cited(s, l.var as int),
                None => false,
            }
        },
        Conflict::Clause(ci) => {
            &&& ci < s.clauses@.len()
            &&& cited_src(s.clauses@[ci as int].src) is Some
            &&& fuel >= conn_depth(s.clauses@[ci as int].or_expr@) + 3
            &&& falsum_cited(s, s.clauses@[ci as int].or_expr@, usize::MAX)
        },
    }
}

/// The literal of `e` is violated by the assignment, and its variable is cited.
spec fn violated_cited(s: Solver, e: Expr) -> bool {
    match expr_lit(s.table.atoms@, e) {
        Some(l) => s.assign@[l.var as int] == Some(!l.pos) && cited(s, l.var as int),
        None => false,
    }
}

/// Every disjunct of the (nested) disjunction `e` is a literal violated with a cited variable.
spec fn disj_violated_cited(s: Solver, e: Expr) -> bool
    decreases e,
{
    match e {
        Expr::Or(l, r) => disj_violated_cited(s, *l) && disj_violated_cited(s, *r),
        _ => violated_cited(s, e),
    }
}

/// Each top-level disjunct of `e` (`e` itself when it is no disjunction) is a literal violated
/// with a cited variable.
spec fn split_cited(s: Solver, e: Expr) -> bool {
    match e {
        Expr::Or(l, r) => violated_cited(s, *l) && violated_cited(s, *r),
        _ => violated_cited(s, e),
    }
}

/// Every disjunct met on the way down the left spine of the disjunction `e` to `target` (each
/// right disjunct before it, and the left one beside it) is a disjunction of violated literals
/// with cited variables.
spec fn spine_violated(s: Solver, e: Expr, target: Expr) -> bool
    decreases e,
{
    match e {
        Expr::Or(l, r) => if *r == target {
            disj_violated_cited(s, *l)
        } else {
            disj_violated_cited(s, *r) && spine_violated(s, *l, target)
        },
        _ => true,
    }
}

/// `ls` is a list of at least two literals, `l` among them.
spec fn lits_hold(ls: Option<Vec<Lit>>, l: Lit) -> bool {
    match ls {
        Some(v) => v@.contains(l) && v@.len() >= 2,
        None => false,
    }
}

/// Clause `ci` proves the literal `goal` by closure with literal proofs taken by citing: a
/// literal clause of at least two literals, one of them `goal`'s, stated by itself, whose
/// disjunction is shallow enough for the search's fuel and whose other disjuncts are violated
/// literals with cited variables.
spec fn closable(s: Solver, ci: int, goal: Expr) -> bool {
    &&& expr_lit(s.table.atoms@, goal) is Some
    &&& lits_hold(s.clauses@[ci].lits, expr_lit(s.table.atoms@, goal)->0)
    &&& cited_src(s.clauses@[ci].src) is Some
    &&& conn_depth(s.clauses@[ci].or_expr@) + 4 <= usize::MAX
    &&& spine_violated(s, s.clauses@[ci].or_expr@, goal)
}

/// Some candidate of `cands` is clause `ci`.
spec fn has_candidate(cands: Seq<(usize, usize)>, ci: int) -> bool {
    exists|m: int| 0 <= m < cands.len() && (#[trigger] cands[m]).0 == ci
}

/// The literal of an expression that `expr_lit` gives names a variable of the table.
proof fn lemma_expr_lit_var(atoms: Seq<ProofExpr>, e: Expr)
    requires
        expr_lit(atoms, e) is Some,
        atoms.len() <= usize::MAX,
    ensures
        expr_lit(atoms, e)->0.var < atoms.len(),
        first_entry(atoms, atom_part(e), expr_lit(atoms, e)->0.var as int),
{
    let i = choose|i: int| 0 <= i < atoms.len() && same_atom(#[trigger] atoms[i]@, atom_part(e));
    lemma_first_entry(atoms, atom_part(e), i);
}

/// Whether a literal is violated with a cited variable depends only on the table, the
/// assignments and the reasons.
proof fn lemma_disj_violated_cited_same(a: Solver, b: Solver, e: Expr)
    requires
        b.table == a.table,
        b.assign@ == a.assign@,
        b.reason@ == a.reason@,
    ensures
        violated_cited(a, e) == violated_cited(b, e),
        disj_violated_cited(a, e) == disj_violated_cited(b, e),
    decreases e,
{
    match e {
        Expr::Or(l, r) => {
            lemma_disj_violated_cited_same(a, b, *l);
            lemma_disj_violated_cited_same(a, b, *r);
        },
        _ => {},
    }
}

proof fn lemma_spine_violated_same(a: Solver, b: Solver, e: Expr, target: Expr)
    requires
        b.table == a.table,
        b.assign@ == a.assign@,
        b.reason@ == a.reason@,
    ensures
        spine_violated(a, e, target) == spine_violated(b, e, target),
    decreases e,
{
    match e {
        Expr::Or(l, r) => {
            lemma_disj_violated_cited_same(a, b, *l);
            lemma_disj_violated_cited_same(a, b, *r);
            lemma_spine_violated_same(a, b, *l, target);
        },
        _ => {},
    }
}

impl Solver {
    /// Prove the literal assigned to variable `v`, in its assigned polarity. `fuel` bounds the
    /// recursion through the recorded reasons (which run backward along the trail).
    fn prove_var(&self, v: usize, fuel: usize) -> (r: Option<DerivationTree>)
        requires
            self.wf(),
            v < self.n(),
        ensures
            fuel == 0 || self.assign@[v as int] is None || self.reason@[v as int] is None ==> r is None,
            fuel > 0 && self.assign@[v as int] is Some ==> (self.reason@[v as int] matches Some(Reason::Premise(e))
                ==> (r matches Some(t) && t@ == step(e@, InferenceRule::PremiseMatch, Seq::empty()))),
            fuel > 0 ==> (self.reason@[v as int] matches Some(Reason::Assumption) ==> (self.assign@[v as int] matches Some(b)
                ==> (r matches Some(t) && t@ == step(
                lit_expr_of(self.table.atoms@, Lit { var: v, pos: b }),
                InferenceRule::PremiseMatch,
                Seq::empty(),
            )))),
            fuel > 0 && cited(*self, v as int) ==> r is Some,
        decreases fuel, 0nat,
    {
        if fuel == 0 {
            return None;
        }
        let val = match self.assign[v] {
            Some(b) => b,
            None => {
                return None;
            },
        };
        match &self.reason[v] {
            None => None,
            Some(Reason::Premise(expr)) => Some(leaf(copy_expr(expr))),
            Some(Reason::Assumption) => Some(leaf(self.lit_expr(Lit { var: v, pos: val }))),
            Some(Reason::Rule(ri)) => self.emit_rule_forward(*ri, fuel - 1),
            Some(Reason::Exclude(ri)) => self.emit_rule_exclude(*ri, v, fuel - 1),
            Some(Reason::Clause(ci)) => self.emit_clause_survivor(*ci, Lit { var: v, pos: val }, fuel - 1),
            Some(Reason::CompoundClause { clause, disjunct }) =>
                self.emit_compound_clause(*clause, *disjunct, Lit { var: v, pos: val }, fuel - 1),
        }
    }

    /// A literal forced as a conjunct of a compound clause's only surviving disjunct: peel the
    /// refuted disjuncts, then project the conjunct.
    fn emit_compound_clause(&self, ci: usize, di: usize, want: Lit, fuel: usize) -> (r: Option<DerivationTree>)
        requires
            self.wf(),
            want.var < self.n(),
        ensures
            fuel == 0 || ci >= self.clauses@.len() || di >= self.clauses@[ci as int].disjuncts@.len() ==> r is None,
            ci < self.clauses@.len() && di < self.clauses@[ci as int].disjuncts@.len() && cited_src(
                self.clauses@[ci as int].src,
            ) is Some && fuel >= conn_depth(self.clauses@[ci as int].or_expr@) + 5 && survivor_cited(
                *self,
                self.clauses@[ci as int].or_expr@,
                self.clauses@[ci as int].disjuncts@[di as int]@,
                self.pos@[want.var as int],
            ) ==> r is Some,
        decreases fuel, 0nat,
    {
        if fuel == 0 || ci >= self.clauses.len() || di >= self.clauses[ci].disjuncts.len() {
            return None;
        }
        let or_expr = copy_expr(&self.clauses[ci].or_expr);
        let or_tree = self.materialize_clause(ci, fuel - 1)?;
        let survivor = copy_expr(&self.clauses[ci].disjuncts[di]);
        let before = self.pos[want.var];
        let surv_tree = self.extract_survivor(&or_expr, or_tree, &survivor, before, fuel - 1)?;
        let proj = self.project_conjunct(&survivor, surv_tree, want);
        Some(align_to(proj, &self.lit_expr(want)))
    }

    /// From a proof of a nested conjunction, eliminate down to the conjunct whose literal is `want`.
    fn project_conjunct(&self, conj: &ProofExpr, conj_tree: DerivationTree, want: Lit) -> (r: DerivationTree)
        requires
            self.wf(),
        ensures
            r@ == projection(*self, conj@, conj_tree@, want),
        decreases conj,
    {
        match conj {
            ProofExpr::And(l, r) => {
                if self.conjunct_has(l, want) {
                    let lt = conj_elim(copy_expr(l), conj_tree);
                    self.project_conjunct(l, lt, want)
                } else {
                    let rt = conj_elim(copy_expr(r), conj_tree);
                    self.project_conjunct(r, rt, want)
                }
            },
            _ => conj_tree,
        }
    }

    /// Whether the conjunction `e` has a literal conjunct whose literal is `want`.
    fn conjunct_has(&self, e: &ProofExpr, want: Lit) -> (r: bool)
        requires
            self.wf(),
        ensures
            r == has_conjunct(*self, e@, want),
        decreases e,
    {
        match e {
            ProofExpr::And(l, r) => self.conjunct_has(l, want) || self.conjunct_has(r, want),
            _ => match self.lit_of(e) {
                Some(l) => l == want,
                None => false,
            },
        }
    }

    /// Prove the literal expression `want` itself (aligning an identity's orientation).
    fn prove_lit_expr(&self, want: &ProofExpr, fuel: usize) -> (r: Option<DerivationTree>)
        requires
            self.wf(),
        ensures
            fuel == 0 || expr_lit(self.table.atoms@, want@) is None ==> r is None,
            fuel >= 2 ==> (expr_lit(self.table.atoms@, want@) matches Some(l) ==> (cited(*self, l.var as int) ==> r is Some)),
        decreases fuel, 0nat,
    {
        if fuel == 0 {
            return None;
        }
        let lit = self.lit_of(want)?;
        let base = self.prove_var(lit.var, fuel - 1)?;
        Some(align_to(base, want))
    }

    /// Prove a conjunction of literals; the literal of variable `forced`, if any, is cited as a
    /// hypothesis (it is the assumption of an enclosing reductio).
    fn prove_ante(&self, form: &ProofExpr, forced: Option<usize>, fuel: usize) -> (r: Option<DerivationTree>)
        requires
            self.wf(),
        ensures
            fuel == 0 ==> r is None,
            fuel > 0 && !(form@ is And) ==> (expr_lit(self.table.atoms@, form@) matches Some(l) ==> (forced == Some(l.var)
                ==> (r matches Some(t) && t@ == step(form@, InferenceRule::PremiseMatch, Seq::empty())))),
            fuel >= conn_depth(form@) + 3 && ante_cited(*self, form@, forced) ==> r is Some,
        decreases fuel, 0nat,
    {
        if fuel == 0 {
            return None;
        }
        match form {
            ProofExpr::And(l, r) => {
                let lt = self.prove_ante(l, forced, fuel - 1)?;
                let rt = self.prove_ante(r, forced, fuel - 1)?;
                Some(conj_intro(copy_expr(l), copy_expr(r), lt, rt))
            },
            _ => {
                match forced {
                    Some(fv) => match self.lit_of(form) {
                        Some(lit) => {
                            if lit.var == fv {
                                return Some(leaf(copy_expr(form)));
                            }
                        },
                        None => {},
                    },
                    None => {},
                }
                self.prove_lit_expr(form, fuel - 1)
            },
        }
    }

    /// The consequent of a fired rule, by modus ponens from the rule and its antecedents.
    fn emit_rule_forward(&self, ri: usize, fuel: usize) -> (r: Option<DerivationTree>)
        requires
            self.wf(),
        ensures
            r matches Some(t) ==> ri < self.rules@.len() && t@.conclusion == *self.rules@[ri as int].src@->Implies_1,
            fuel == 0 || ri >= self.rules@.len() ==> r is None,
            ri < self.rules@.len() && fuel >= conn_depth(rule_ante(*self, ri as int)) + 4 && ante_cited(
                *self,
                rule_ante(*self, ri as int),
                None,
            ) ==> r is Some,
        decreases fuel, 0nat,
    {
        if fuel == 0 || ri >= self.rules.len() {
            return None;
        }
        proof {
            assert(rule_ok(self.rules@[ri as int], self.n()));
        }
        let src = copy_expr(&self.rules[ri].src);
        let (ante_form, cons_form) = split_implies(&src);
        let ante_proof = self.prove_ante(&ante_form, None, fuel - 1)?;
        Some(modus_ponens(cons_form, leaf(src), ante_proof))
    }

    /// An antecedent excluded because its rule's consequent is violated: assume the atom, fire
    /// the rule, contradict the consequent, and conclude the atom's negation by reductio.
    fn emit_rule_exclude(&self, ri: usize, forced_v: usize, fuel: usize) -> (r: Option<DerivationTree>)
        requires
            self.wf(),
            forced_v < self.n(),
        ensures
            r matches Some(t) ==> t@.conclusion == Expr::Not(Box::new(self.table.atoms@[forced_v as int]@)),
            fuel == 0 || ri >= self.rules@.len() ==> r is None,
            ri < self.rules@.len() && fuel >= conn_depth(rule_ante(*self, ri as int)) + 4 && ante_cited(
                *self,
                rule_ante(*self, ri as int),
                Some(forced_v),
            ) ==> (expr_lit(self.table.atoms@, rule_cons(*self, ri as int)) matches Some(l) ==> (cited(*self, l.var as int)
                ==> r is Some)),
        decreases fuel, 0nat,
    {
        if fuel == 0 || ri >= self.rules.len() {
            return None;
        }
        proof {
            assert(rule_ok(self.rules@[ri as int], self.n()));
        }
        let src = copy_expr(&self.rules[ri].src);
        let (ante_form, cons_form) = split_implies(&src);
        let assumed = copy_expr(&self.table.atoms[forced_v]);
        let ante_proof = self.prove_ante(&ante_form, Some(forced_v), fuel - 1)?;
        let cons_tree = modus_ponens(copy_expr(&cons_form), leaf(src), ante_proof);
        let cons_lit = self.lit_of(&cons_form)?;
        let neg_cons = self.prove_var(cons_lit.var, fuel - 1)?;
        let bot = make_contradiction(cons_tree, neg_cons);
        Some(reductio(assumed, bot))
    }

    /// A proof of clause `ci`'s disjunction: the premise or hypothesis itself, or the fired
    /// rule's consequent.
    fn materialize_clause(&self, ci: usize, fuel: usize) -> (r: Option<DerivationTree>)
        requires
            self.wf(),
        ensures
            r matches Some(t) ==> ci < self.clauses@.len() && (clause_sem(self.rules@, self.facts@, self.clauses@[ci as int])
                ==> t@.conclusion == self.clauses@[ci as int].or_expr@),
            fuel == 0 || ci >= self.clauses@.len() ==> r is None,
            fuel > 0 && ci < self.clauses@.len() ==> (cited_src(self.clauses@[ci as int].src) matches Some(e) ==> (r matches Some(
                t,
            ) && t@ == step(e, InferenceRule::PremiseMatch, Seq::empty()))),
        decreases fuel, 0nat,
    {
        if fuel == 0 || ci >= self.clauses.len() {
            return None;
        }
        match &self.clauses[ci].src {
            ClauseSrc::Bare(or_expr) => Some(leaf(copy_expr(or_expr))),
            ClauseSrc::Assumed(or_expr) => Some(leaf(copy_expr(or_expr))),
            ClauseSrc::FromRule(ri) => self.emit_rule_forward(*ri, fuel - 1),
        }
    }

    /// The last live literal of clause `ci`, by iterated disjunctive syllogism.
    fn emit_clause_survivor(&self, ci: usize, survivor: Lit, fuel: usize) -> (r: Option<DerivationTree>)
        requires
            self.wf(),
            survivor.var < self.n(),
        ensures
            fuel == 0 || ci >= self.clauses@.len() ==> r is None,
            ci < self.clauses@.len() ==> (cited_src(self.clauses@[ci as int].src) matches Some(e) ==> (fuel >= conn_depth(e) + 5
                && survivor_cited(*self, e, lit_expr_of(self.table.atoms@, survivor), self.pos@[survivor.var as int])
                ==> r is Some)),
        decreases fuel, 0nat,
    {
        if fuel == 0 {
            return None;
        }
        let or_tree = self.materialize_clause(ci, fuel - 1)?;
        let or_expr = copy_expr(&or_tree.conclusion);
        let survivor_expr = self.lit_expr(survivor);
        let before = self.pos[survivor.var];
        self.extract_survivor(&or_expr, or_tree, &survivor_expr, before, fuel - 1)
    }

    /// Extract the disjunct `target` from a left-nested disjunction whose other disjuncts are
    /// violated. `before` caps the trail position of the facts used to refute them.
    fn extract_survivor(
        &self,
        or_expr: &ProofExpr,
        or_tree: DerivationTree,
        target: &ProofExpr,
        before: usize,
        fuel: usize,
    ) -> (r: Option<DerivationTree>)
        requires
            self.wf(),
        ensures
            fuel == 0 ==> r is None,
            fuel > 0 && !(or_expr@ is Or) ==> r == Some(or_tree),
            fuel >= conn_depth(or_expr@) + 4 && survivor_cited(*self, or_expr@, target@, before) ==> r is Some,
        decreases fuel, 0nat,
    {
        if fuel == 0 {
            return None;
        }
        match or_expr {
            ProofExpr::Or(l, r) => {
                if expr_eq(r, target) {
                    let lneg = self.prove_neg_disjunct(l, before, fuel - 1)?;
                    Some(disjunction_elim(copy_expr(target), or_tree, lneg))
                } else {
                    let rneg = self.prove_neg_disjunct(r, before, fuel - 1)?;
                    let l_tree = disjunction_elim(copy_expr(l), or_tree, rneg);
                    self.extract_survivor(l, l_tree, target, before, fuel - 1)
                }
            },
            _ => Some(or_tree),
        }
    }

    /// Prove the negation of a violated disjunct: a literal directly, a compound disjunct by
    /// reductio whose branches close to `⊥`.
    fn prove_neg_disjunct(&self, e: &ProofExpr, before: usize, fuel: usize) -> (r: Option<DerivationTree>)
        requires
            self.wf(),
        ensures
            r matches Some(t) ==> (is_literal(e@) || t@.conclusion == Expr::Not(Box::new(e@))),
            fuel == 0 ==> r is None,
            fuel >= conn_depth(e@) + 3 && falsum_cited(*self, e@, before) ==> r is Some,
        decreases fuel, 0nat,
    {
        if fuel == 0 {
            return None;
        }
        if literal(e) {
            let lit = self.lit_of(e)?;
            let proof_tree = self.prove_var(lit.var, fuel - 1)?;
            Some(align_to(proof_tree, &neg(e)))
        } else {
            let bot = self.falsum_from_disj(e, leaf(copy_expr(e)), before, fuel - 1)?;
            Some(reductio(copy_expr(e), bot))
        }
    }

    /// The refutation key of `x`: when it became false before `before` (preferred), else when
    /// it became false at all.
    fn false_key(&self, x: &ProofExpr, before: usize) -> (r: Option<(u8, usize)>)
        requires
            self.wf(),
        ensures
            r == false_key_of(*self, x@, before),
    {
        match self.false_at(x, before) {
            Some(p) => Some((0u8, p)),
            None => match self.false_at(x, usize::MAX) {
                Some(p) => Some((1u8, p)),
                None => None,
            },
        }
    }

    /// Given a proof of `e` (a violated disjunction, conjunction or literal), derive `⊥`,
    /// refuting a conjunction through the conjunct that became false earliest.
    fn falsum_from_disj(&self, e: &ProofExpr, e_tree: DerivationTree, before: usize, fuel: usize) -> (r: Option<DerivationTree>)
        requires
            self.wf(),
        ensures
            r matches Some(t) ==> t@.conclusion == falsum_expr(),
            fuel == 0 ==> r is None,
            fuel >= conn_depth(e@) + 2 && falsum_cited(*self, e@, before) ==> r is Some,
        decreases fuel, 0nat,
    {
        if fuel == 0 {
            return None;
        }
        match e {
            ProofExpr::Or(l, r) => {
                let lb = self.falsum_from_disj(l, leaf(copy_expr(l)), before, fuel - 1)?;
                let rb = self.falsum_from_disj(r, leaf(copy_expr(r)), before, fuel - 1)?;
                Some(disjunction_cases(falsum(), e_tree, lb, rb))
            },
            ProofExpr::And(l, r) => {
                let pick_left = match (self.false_key(l, before), self.false_key(r, before)) {
                    (Some(a), Some(b)) => key_le(a, b),
                    (Some(_), None) => true,
                    (None, Some(_)) => false,
                    (None, None) => true,
                };
                if pick_left {
                    let proj = conj_elim(copy_expr(l), e_tree);
                    self.falsum_from_disj(l, proj, before, fuel - 1)
                } else {
                    let proj = conj_elim(copy_expr(r), e_tree);
                    self.falsum_from_disj(r, proj, before, fuel - 1)
                }
            },
            _ => {
                let lit = self.lit_of(e)?;
                let neg_tree = self.prove_var(lit.var, fuel - 1)?;
                Some(contra_align(e_tree, neg_tree))
            },
        }
    }

    /// The trail position by which `e` is false using only assignments before `before`: a
    /// conjunction as soon as any conjunct is, a disjunction once all are, a literal at its own
    /// position.
    fn false_at(&self, e: &ProofExpr, before: usize) -> (r: Option<usize>)
        requires
            self.wf(),
        ensures
            r == false_pos(*self, e@, before),
        decreases e,
    {
        match e {
            ProofExpr::And(l, r) => match (self.false_at(l, before), self.false_at(r, before)) {
                (Some(a), Some(b)) => Some(if a <= b { a } else { b }),
                (Some(a), None) => Some(a),
                (None, b) => b,
            },
            ProofExpr::Or(l, r) => match (self.false_at(l, before), self.false_at(r, before)) {
                (Some(a), Some(b)) => Some(if a >= b { a } else { b }),
                _ => None,
            },
            _ => match self.lit_of(e) {
                Some(l) => match self.value(l) {
                    Some(false) => {
                        if self.pos[l.var] < before {
                            Some(self.pos[l.var])
                        } else {
                            None
                        }
                    },
                    _ => None,
                },
                None => None,
            },
        }
    }
}


// ---------------------------------------------------------------------------
// Decision search
// ---------------------------------------------------------------------------

/// How deep decision branches may nest.
const MAX_DEPTH: usize = 64;

/// A conflict met while assuming a disjunct.
enum ConflictInfo {
    /// An assumed literal clashes with the existing assignment of its variable.
    Clash { assumed: ProofExpr },
    Rule(usize),
    Clause(usize),
}

fn contains_index(v: &Vec<usize>, x: usize) -> (r: bool)
    ensures
        r == v@.contains(x),
{
    let mut i: usize = 0;
    while i < v.len()
        invariant
            i <= v@.len(),
            forall|k: int| 0 <= k < i ==> v@[k] != x,
        decreases v@.len() - i,
    {
        if v[i] == x {
            proof {
                assert(v@[i as int] == x);
            }
            return true;
        }
        i += 1;
    }
    false
}

fn copy_flags(v: &Vec<bool>) -> (r: Vec<bool>)
    ensures
        r@ == v@,
{
    let mut out: Vec<bool> = Vec::new();
    let mut i: usize = 0;
    while i < v.len()
        invariant
            i <= v@.len(),
            out@ == v@.subrange(0, i as int),
        decreases v@.len() - i,
    {
        out.push(v[i]);
        i += 1;
        proof {
            assert(out@ =~= v@.subrange(0, i as int));
        }
    }
    proof {
        assert(out@ =~= v@);
    }
    out
}

/// Backtracking to a snapshot taken at `a` undoes what happened since: from a sound state `b`
/// grown from `a`, truncating the trail and the clauses to `a`'s lengths and restoring the fired
/// flags gives back `a`.
proof fn lemma_backtrack_restores(a: Solver, b: Solver, c: Solver)
    requires
        a.sound(),
        b.sound(),
        grown(a, b),
        c.table == b.table,
        c.rules@ == b.rules@,
        c.facts@ == b.facts@,
        c.deciding@ == b.deciding@,
        c.at_root == b.at_root,
        c.pos@.len() == b.pos@.len(),
        c.trail@ == b.trail@.subrange(0, a.trail@.len() as int),
        c.clauses@ == b.clauses@.subrange(0, a.clauses@.len() as int),
        c.fired_disj@ == a.fired_disj@,
        c.assign@.len() == b.assign@.len(),
        c.reason@.len() == b.reason@.len(),
        forall|v: int|
            0 <= v < b.n() && (listed(c.trail@, v) || !listed(b.trail@, v)) ==> #[trigger] c.assign@[v] == b.assign@[v]
                && c.reason@[v] == b.reason@[v],
        forall|v: int|
            0 <= v < b.n() && !listed(c.trail@, v) && listed(b.trail@, v) ==> (#[trigger] c.assign@[v]) is None
                && c.reason@[v] is None,
    ensures
        restored(a, c),
        c.sound(),
        same_models(a, c),
{
    assert(c.trail@ =~= a.trail@);
    assert(c.clauses@ =~= a.clauses@) by {
        assert forall|i: int| 0 <= i < a.clauses@.len() implies c.clauses@[i] == a.clauses@[i] by {
            assert(b.clauses@[i] == a.clauses@[i]);
        }
    }
    assert forall|v: int| 0 <= v < a.n() implies #[trigger] c.assign@[v] == a.assign@[v] && c.reason@[v] == a.reason@[v] by {
        if listed(a.trail@, v) {
            assert(a.assign@[v] is Some);
            assert(b.assign@[v] == a.assign@[v]);
        } else {
            assert(a.assign@[v] is None);
            assert(a.reason@[v] is None);
            if !listed(b.trail@, v) {
                assert(b.assign@[v] is None);
                assert(b.reason@[v] is None);
            }
        }
    }
    assert(c.assign@ =~= a.assign@);
    assert(c.reason@ =~= a.reason@);
    lemma_restored_same(a, c);
}

impl Solver {
    /// The open clause with the fewest live disjuncts (the first such), excluding the clauses
    /// being split and literal clauses already down to one live literal.
    fn pick_split(&self) -> (r: Option<usize>)
        requires
            self.sound(),
        ensures
            r matches Some(ci) ==> ci < self.clauses@.len() && !self.deciding@.contains(ci),
            r is None <==> forall|cj: int| 0 <= cj < self.clauses@.len() ==> !#[trigger] splittable(*self, cj),
            r matches Some(ci) ==> splittable(*self, ci as int) && forall|cj: int|
                0 <= cj < self.clauses@.len() && #[trigger] splittable(*self, cj) ==> live_of(*self, ci as int).len()
                    <= live_of(*self, cj).len() && (cj < ci ==> live_of(*self, ci as int).len() < live_of(*self, cj).len()),
    {
        let mut best: Option<(usize, usize)> = None;
        let mut ci: usize = 0;
        while ci < self.clauses.len()
            invariant
                self.sound(),
                ci <= self.clauses@.len(),
                best matches Some(b) ==> b.0 < self.clauses@.len() && !self.deciding@.contains(b.0),
                best matches Some(b) ==> b.0 < ci && splittable(*self, b.0 as int) && b.1 == live_of(*self, b.0 as int).len()
                    && forall|cj: int|
                    0 <= cj < ci && #[trigger] splittable(*self, cj) ==> b.1 <= live_of(*self, cj).len() && (cj < b.0
                        ==> b.1 < live_of(*self, cj).len()),
                best is None ==> forall|cj: int| 0 <= cj < ci ==> !#[trigger] splittable(*self, cj),
            decreases self.clauses@.len() - ci,
        {
            if !contains_index(&self.deciding, ci) {
                let (has_true, live) = self.clause_status(ci);
                if !has_true && live.len() > 0 && !(self.clauses[ci].lits.is_some() && live.len() < 2) {
                    match best {
                        None => {
                            best = Some((ci, live.len()));
                        },
                        Some((_, k)) => {
                            if live.len() < k {
                                best = Some((ci, live.len()));
                            }
                        },
                    }
                }
            }
            ci += 1;
        }
        match best {
            Some((ci, _)) => Some(ci),
            None => None,
        }
    }

    /// Derive `⊥` from the current assumptions: propagate, and on a stall split an open clause
    /// and refute every branch. `None` when a branch could not be refuted. A derivation comes
    /// back only when the facts and the hypotheses are inconsistent.
    fn derive_falsum(&mut self, depth: usize, fuel: usize) -> (r: Option<DerivationTree>)
        requires
            old(self).sound(),
        ensures
            final(self).sound(),
            grown(*old(self), *final(self)),
            same_models(*old(self), *final(self)),
            r is Some ==> no_models(*old(self)),
            r matches Some(t) ==> t@.conclusion == falsum_expr(),
        decreases fuel,
    {
        proof {
            lemma_grown_refl(*self);
        }
        if fuel == 0 || depth > MAX_DEPTH {
            return None;
        }
        let ghost s0 = *self;
        match self.propagate() {
            Err(c) => {
                return self.emit_conflict(c, usize::MAX);
            },
            Ok(()) => {},
        }
        let ci = match self.pick_split() {
            Some(ci) => ci,
            None => {
                return None;
            },
        };
        let or_expr = copy_expr(&self.clauses[ci].or_expr);
        let or_tree = match self.materialize_clause(ci, usize::MAX) {
            Some(t) => t,
            None => {
                return None;
            },
        };
        let ghost mid = *self;
        self.deciding.push(ci);
        let ghost pushed = *self;
        proof {
            lemma_restored_same_but_deciding(mid, pushed);
        }
        let result = self.split_to_falsum(&or_expr, or_tree, depth, fuel - 1);
        let ghost after = *self;
        self.deciding.pop();
        proof {
            assert(self.deciding@ =~= mid.deciding@);
            lemma_restored_same_but_deciding(after, *self);
            assert(restored(mid, *self)) by {
                assert(self.clauses@ == mid.clauses@);
            }
            lemma_restored_same(mid, *self);
            lemma_grown_trans(s0, mid, *self);
            lemma_same_models_trans(s0, mid, *self);
            if result is Some {
                assert forall|val: spec_fn(Expr) -> bool| !#[trigger] models(s0, val) by {
                    if models(s0, val) {
                        assert(models(mid, val));
                        assert(models(pushed, val));
                        assert(holds(val, mid.clauses@[ci as int].or_expr@));
                        assert(or_expr@ == mid.clauses@[ci as int].or_expr@);
                    }
                }
            }
        }
        result
    }

    /// Split on the disjuncts of `or_expr` (top level) and refute each branch. A derivation
    /// comes back only when `or_expr` is false in every valuation the state describes.
    fn split_to_falsum(&mut self, or_expr: &ProofExpr, or_tree: DerivationTree, depth: usize, fuel: usize) -> (r: Option<
        DerivationTree,
    >)
        requires
            old(self).sound(),
            depth <= MAX_DEPTH,
        ensures
            final(self).sound(),
            restored(*old(self), *final(self)),
            final(self).pos@.len() == old(self).pos@.len(),
            r is Some ==> refuted(*old(self), or_expr@),
            r matches Some(t) ==> t@.conclusion == falsum_expr(),
            fuel == 0 ==> r is None,
            fuel >= 2 && split_cited(*old(self), or_expr@) ==> r is Some,
        decreases fuel,
    {
        if fuel == 0 {
            return None;
        }
        match or_expr {
            ProofExpr::Or(l, r) => {
                let lb = self.branch(l, depth, fuel - 1)?;
                let ghost mid = *self;
                proof {
                    lemma_restored_same(*old(self), mid);
                }
                let rb = match self.branch(r, depth, fuel - 1) {
                    Some(t) => t,
                    None => {
                        return None;
                    },
                };
                proof {
                    lemma_restored_same(mid, *self);
                    assert forall|val: spec_fn(Expr) -> bool| #[trigger] models(*old(self), val) implies !holds(val, or_expr@) by {
                        assert(models(mid, val));
                    }
                }
                Some(disjunction_cases(falsum(), or_tree, lb, rb))
            },
            _ => self.branch(or_expr, depth, fuel - 1),
        }
    }

    /// Assume `disjunct`, refute it to `⊥`, then undo the assumption. A derivation comes back
    /// only when the disjunct is false in every valuation the state describes.
    fn branch(&mut self, disjunct: &ProofExpr, depth: usize, fuel: usize) -> (r: Option<DerivationTree>)
        requires
            old(self).sound(),
            depth <= MAX_DEPTH,
        ensures
            final(self).sound(),
            restored(*old(self), *final(self)),
            final(self).pos@.len() == old(self).pos@.len(),
            r is Some ==> refuted(*old(self), disjunct@),
            r matches Some(t) ==> t@.conclusion == falsum_expr(),
            fuel == 0 ==> r is None,
            fuel > 0 && violated_cited(*old(self), disjunct@) ==> r is Some,
        decreases fuel,
    {
        if fuel == 0 {
            proof {
                lemma_restored_same(*self, *self);
            }
            return None;
        }
        let trail_snap = self.trail.len();
        let clause_snap = self.clauses.len();
        let fired_snap = copy_flags(&self.fired_disj);
        let ghost s0 = *self;
        let result = match self.assume_disjunct(disjunct) {
            Some(info) => {
                proof {
                    if violated_cited(s0, disjunct@) {
                        assert(s0.table.atoms.len() == s0.table.atoms@.len());
                        lemma_expr_lit_var(s0.table.atoms@, disjunct@);
                        let l = expr_lit(s0.table.atoms@, disjunct@)->0;
                        assert(s0.assign@[l.var as int] is Some);
                        assert(self.assign@[l.var as int] == s0.assign@[l.var as int]);
                    }
                }
                self.emit_conflict_info(info, usize::MAX)
            },
            None => {
                let ghost s1 = *self;
                let res = self.derive_falsum(depth + 1, fuel - 1);
                proof {
                    lemma_grown_trans(s0, s1, *self);
                    if res is Some {
                        assert forall|val: spec_fn(Expr) -> bool| #[trigger] models(s0, val) implies !holds(val, disjunct@) by {
                            if holds(val, disjunct@) {
                                assert(models(s1, val));
                            }
                        }
                    }
                }
                res
            },
        };
        let ghost s2 = *self;
        self.backtrack(trail_snap, clause_snap, fired_snap);
        proof {
            lemma_backtrack_restores(s0, s2, *self);
        }
        result
    }

    /// The literals of a list of expressions, when each is an interned literal.
    fn lits_of_all(&self, ds: &Vec<ProofExpr>) -> (r: Option<Vec<Lit>>)
        requires
            self.wf(),
        ensures
            r matches Some(v) ==> lits_in(v@, self.n()),
            r is Some <==> forall|i: int| 0 <= i < ds@.len() ==> expr_lit(self.table.atoms@, #[trigger] ds@[i]@) is Some,
            r matches Some(v) ==> v@.len() == ds@.len() && forall|i: int|
                0 <= i < ds@.len() ==> expr_lit(self.table.atoms@, ds@[i]@) == Some(#[trigger] v@[i]),
    {
        let mut out: Vec<Lit> = Vec::new();
        let mut i: usize = 0;
        while i < ds.len()
            invariant
                self.wf(),
                i <= ds@.len(),
                lits_in(out@, self.n()),
                out@.len() == i,
                forall|k: int| 0 <= k < i ==> expr_lit(self.table.atoms@, ds@[k]@) == Some(#[trigger] out@[k]),
            decreases ds@.len() - i,
        {
            match self.lit_of(&ds[i]) {
                Some(l) => out.push(l),
                None => {
                    proof {
                        assert(expr_lit(self.table.atoms@, ds@[i as int]@) is None);
                    }
                    return None;
                },
            }
            i += 1;
        }
        proof {
            assert forall|k: int| 0 <= k < ds@.len() implies expr_lit(self.table.atoms@, #[trigger] ds@[k]@) is Some by {
                assert(expr_lit(self.table.atoms@, ds@[k]@) == Some(out@[k]));
            }
        }
        Some(out)
    }

    /// Assert a disjunct: its literal conjuncts become assumptions, its disjunction conjuncts
    /// become branch-local clauses. Returns the first clash, if any: then the disjunct is false
    /// in every valuation the state describes; else the new state describes exactly those of
    /// the old state that make the disjunct true.
    fn assume_disjunct(&mut self, d: &ProofExpr) -> (r: Option<ConflictInfo>)
        requires
            old(self).sound(),
        ensures
            final(self).sound(),
            grown(*old(self), *final(self)),
            final(self).fired_disj@ == old(self).fired_disj@,
            r is Some ==> refuted(*old(self), d@),
            r is None ==> forall|val: spec_fn(Expr) -> bool| #[trigger] models(*old(self), val) && holds(val, d@) ==> models(
                *final(self),
                val,
            ),
            !(d@ is And) && !(d@ is Or) ==> (expr_lit(old(self).table.atoms@, d@) matches Some(l) ==> (old(self).assign@[l.var as int]
                == Some(!l.pos) ==> (r matches Some(ConflictInfo::Clash { assumed }) && assumed@ == d@))),
        decreases d,
    {
        proof {
            lemma_grown_refl(*self);
        }
        match d {
            ProofExpr::And(l, r) => {
                let ghost s0 = *self;
                match self.assume_disjunct(l) {
                    Some(c) => Some(c),
                    None => {
                        let ghost s1 = *self;
                        let res = self.assume_disjunct(r);
                        proof {
                            lemma_grown_trans(s0, s1, *self);
                            if res is Some {
                                assert forall|val: spec_fn(Expr) -> bool| #[trigger] models(s0, val) implies !holds(val, d@) by {
                                    if holds(val, d@) {
                                        assert(models(s1, val));
                                    }
                                }
                            }
                        }
                        res
                    },
                }
            },
            ProofExpr::Or(..) => {
                let mut ds: Vec<ProofExpr> = Vec::new();
                flatten_or(d, &mut ds);
                let lits = if all_literals(&ds) {
                    self.lits_of_all(&ds)
                } else {
                    None
                };
                let ghost before = *self;
                let c = Clause { or_expr: copy_expr(d), disjuncts: ds, lits, src: ClauseSrc::Assumed(copy_expr(d)) };
                proof {
                    assert(exprs_view(ds@) =~= or_leaves(d@));
                    assert(clause_sem(self.rules@, self.facts@, c));
                }
                self.clauses.push(c);
                proof {
                    lemma_add_assumed(before, *self);
                }
                None
            },
            _ => match self.lit_of(d) {
                Some(lit) => {
                    let ghost s0 = *self;
                    let res = self.set(lit, Reason::Assumption);
                    proof {
                        if s0.assign@[lit.var as int] is None {
                            lemma_assume(s0, *self, lit);
                            assert forall|val: spec_fn(Expr) -> bool| #[trigger] models(s0, val) && holds(val, d@) implies models(
                                *self,
                                val,
                            ) by {
                                lemma_lit_holds(s0.table.atoms@, val, lit, d@);
                            }
                        } else {
                            lemma_denoted_value(s0, lit, d@);
                        }
                    }
                    if res.is_err() {
                        Some(ConflictInfo::Clash { assumed: copy_expr(d) })
                    } else {
                        None
                    }
                },
                None => None,
            },
        }
    }

    /// Undo every assignment after trail position `trail_snap`, drop the clauses added after
    /// `clause_snap`, and restore the fired flags.
    fn backtrack(&mut self, trail_snap: usize, clause_snap: usize, fired_snap: Vec<bool>)
        requires
            old(self).wf(),
            old(self).trail@.no_duplicates(),
            fired_snap@.len() == old(self).rules@.len(),
            trail_snap <= old(self).trail@.len(),
            clause_snap <= old(self).clauses@.len(),
        ensures
            final(self).wf(),
            final(self).table == old(self).table,
            final(self).rules@ == old(self).rules@,
            final(self).facts@ == old(self).facts@,
            final(self).deciding@ == old(self).deciding@,
            final(self).at_root == old(self).at_root,
            final(self).pos@.len() == old(self).pos@.len(),
            final(self).clauses@ == old(self).clauses@.subrange(0, clause_snap as int),
            final(self).fired_disj@ == fired_snap@,
            final(self).trail@ == old(self).trail@.subrange(0, trail_snap as int),
            final(self).assign@.len() == old(self).assign@.len(),
            final(self).reason@.len() == old(self).reason@.len(),
            forall|v: int|
                #![trigger final(self).assign@[v]]
                0 <= v < old(self).n() && (listed(final(self).trail@, v) || !listed(old(self).trail@, v))
                    ==> final(self).assign@[v] == old(self).assign@[v] && final(self).reason@[v] == old(self).reason@[v],
            forall|v: int|
                #![trigger final(self).assign@[v]]
                0 <= v < old(self).n() && !listed(final(self).trail@, v) && listed(old(self).trail@, v)
                    ==> final(self).assign@[v] is None && final(self).reason@[v] is None,
    {
        let ghost t0 = self.trail@;
        while self.trail.len() > trail_snap
            invariant
                self.wf(),
                self.table == old(self).table,
                self.rules@ == old(self).rules@,
                self.facts@ == old(self).facts@,
                self.deciding@ == old(self).deciding@,
                self.at_root == old(self).at_root,
                self.pos@.len() == old(self).pos@.len(),
                self.clauses@ == old(self).clauses@,
                self.fired_disj@ == old(self).fired_disj@,
                t0 == old(self).trail@,
                t0.no_duplicates(),
                trail_snap <= self.trail@.len() <= t0.len(),
                self.trail@ == t0.subrange(0, self.trail@.len() as int),
                self.assign@.len() == old(self).assign@.len(),
                self.reason@.len() == old(self).reason@.len(),
                forall|v: int|
                    0 <= v < old(self).n() && (listed(self.trail@, v) || !listed(t0, v)) ==> #[trigger] self.assign@[v]
                        == old(self).assign@[v] && self.reason@[v] == old(self).reason@[v],
                forall|v: int|
                    0 <= v < old(self).n() && !listed(self.trail@, v) && listed(t0, v) ==> (#[trigger] self.assign@[v]) is None
                        && self.reason@[v] is None,
            decreases self.trail@.len(),
        {
            let ghost tb = self.trail@;
            let ghost pa = self.assign@;
            let ghost pr = self.reason@;
            let v = self.trail.pop().unwrap();
            proof {
                assert(self.trail@ =~= t0.subrange(0, self.trail@.len() as int));
                assert(v == t0[self.trail@.len() as int]);
            }
            self.assign.set(v, None);
            self.reason.set(v, None);
            proof {
                assert forall|w: int|
                    0 <= w < old(self).n() && (listed(self.trail@, w) || !listed(t0, w)) implies #[trigger] self.assign@[w]
                    == old(self).assign@[w] && self.reason@[w] == old(self).reason@[w] by {
                    if w == v as int {
                        assert(listed(t0, w));
                        if listed(self.trail@, w) {
                            let k = choose|k: int| 0 <= k < self.trail@.len() && self.trail@[k] as int == w;
                            assert(t0[k] == t0[self.trail@.len() as int]);
                        }
                    } else {
                        assert(self.assign@[w] == pa[w]);
                        assert(self.reason@[w] == pr[w]);
                        if listed(self.trail@, w) {
                            let k = choose|k: int| 0 <= k < self.trail@.len() && self.trail@[k] as int == w;
                            assert(tb[k] == self.trail@[k]);
                            assert(listed(tb, w));
                        }
                    }
                }
                assert forall|w: int|
                    0 <= w < old(self).n() && !listed(self.trail@, w) && listed(t0, w) implies (#[trigger] self.assign@[w]) is None
                    && self.reason@[w] is None by {
                    if w != v as int {
                        assert(self.assign@[w] == pa[w]);
                        assert(self.reason@[w] == pr[w]);
                        if listed(tb, w) {
                            let k = choose|k: int| 0 <= k < tb.len() && tb[k] as int == w;
                            if k < self.trail@.len() {
                                assert(self.trail@[k] == tb[k]);
                            }
                        }
                    }
                }
                assert forall|k: int| 0 <= k < self.trail@.len() implies #[trigger] self.trail@[k] < self.n() by {
                    assert(self.trail@[k] == tb[k]);
                }
            }
        }
        self.clauses.truncate(clause_snap);
        self.fired_disj = fired_snap;
        proof {
            assert(self.trail@ =~= t0.subrange(0, trail_snap as int));
            assert forall|i: int| 0 <= i < self.clauses@.len() implies clause_ok(#[trigger] self.clauses@[i], self.n()) by {
                assert(self.clauses@[i] == old(self).clauses@[i]);
            }
        }
    }

    /// The derivation of `⊥` from a propagation conflict.
    fn emit_conflict(&self, c: Conflict, fuel: usize) -> (r: Option<DerivationTree>)
        requires
            self.wf(),
        ensures
            r matches Some(t) ==> t@.conclusion == falsum_expr(),
            fuel == 0 ==> r is None,
            c matches Conflict::Rule(ri) && ri >= self.rules@.len() ==> r is None,
            c matches Conflict::Clause(ci) && ci >= self.clauses@.len() ==> r is None,
            conflict_cited(*self, c, fuel as int) ==> r is Some,
        decreases fuel,
    {
        if fuel == 0 {
            return None;
        }
        match c {
            Conflict::Rule(ri) => {
                if ri >= self.rules.len() {
                    return None;
                }
                proof {
                    assert(rule_ok(self.rules@[ri as int], self.n()));
                }
                let src = copy_expr(&self.rules[ri].src);
                let (ante_form, cons_form) = split_implies(&src);
                let ante_proof = self.prove_ante(&ante_form, None, fuel - 1)?;
                let cons_tree = modus_ponens(copy_expr(&cons_form), leaf(src), ante_proof);
                let cons_lit = self.lit_of(&cons_form)?;
                let opp = self.prove_var(cons_lit.var, fuel - 1)?;
                Some(make_contradiction(cons_tree, opp))
            },
            Conflict::Clause(ci) => {
                if ci >= self.clauses.len() {
                    return None;
                }
                let or_expr = copy_expr(&self.clauses[ci].or_expr);
                let or_tree = self.materialize_clause(ci, fuel - 1)?;
                self.falsum_from_disj(&or_expr, or_tree, usize::MAX, fuel - 1)
            },
        }
    }

    /// The derivation of `⊥` from a conflict met while assuming a disjunct.
    fn emit_conflict_info(&self, info: ConflictInfo, fuel: usize) -> (r: Option<DerivationTree>)
        requires
            self.wf(),
        ensures
            r matches Some(t) ==> t@.conclusion == falsum_expr(),
            fuel == 0 ==> r is None,
            fuel >= 2 ==> (info matches ConflictInfo::Clash { assumed } ==> (expr_lit(self.table.atoms@, assumed@) matches Some(
                l,
            ) ==> (cited(*self, l.var as int) ==> r is Some))),
            info matches ConflictInfo::Rule(ri) && conflict_cited(*self, Conflict::Rule(ri), fuel - 1) ==> r is Some,
            info matches ConflictInfo::Clause(ci) && conflict_cited(*self, Conflict::Clause(ci), fuel - 1) ==> r is Some,
        decreases fuel,
    {
        if fuel == 0 {
            return None;
        }
        match info {
            ConflictInfo::Clash { assumed } => {
                let lit = self.lit_of(&assumed)?;
                let existing = self.prove_var(lit.var, fuel - 1)?;
                Some(make_contradiction(leaf(assumed), existing))
            },
            ConflictInfo::Rule(ri) => self.emit_conflict(Conflict::Rule(ri), fuel - 1),
            ConflictInfo::Clause(ci) => self.emit_conflict(Conflict::Clause(ci), fuel - 1),
        }
    }
}

/// A state differing from a sound state only in the clauses being split is sound and describes
/// the same valuations.
proof fn lemma_restored_same_but_deciding(a: Solver, b: Solver)
    requires
        a.sound(),
        b.table == a.table,
        b.rules@ == a.rules@,
        b.facts@ == a.facts@,
        b.at_root == a.at_root,
        b.assign@ == a.assign@,
        b.reason@ == a.reason@,
        b.trail@ == a.trail@,
        b.clauses@ == a.clauses@,
        b.fired_disj@ == a.fired_disj@,
        b.pos@.len() == a.pos@.len(),
    ensures
        b.sound(),
        same_models(a, b),
{
    assert forall|val: spec_fn(Expr) -> bool| #[trigger] models(a, val) == #[trigger] models(b, val) by {
        assert(hyps_hold(a, val) == hyps_hold(b, val));
    }
    assert forall|val: spec_fn(Expr) -> bool| #[trigger] models(b, val) implies agree(b, val) by {
        assert(models(a, val));
        assert(agree(a, val));
    }
    assert forall|val: spec_fn(Expr) -> bool, ci: int|
        #![trigger models(b, val), b.clauses@[ci]]
        models(b, val) && 0 <= ci < b.clauses@.len() implies holds(val, b.clauses@[ci].or_expr@) by {
        assert(models(a, val));
        assert(a.clauses@[ci] == b.clauses@[ci]);
    }
}

/// Adding an assumed clause keeps the state sound; it describes the valuations of `a` that make
/// the clause true.
proof fn lemma_add_assumed(a: Solver, b: Solver)
    requires
        a.sound(),
        b.table == a.table,
        b.rules@ == a.rules@,
        b.facts@ == a.facts@,
        b.assign@ == a.assign@,
        b.reason@ == a.reason@,
        b.trail@ == a.trail@,
        b.pos@ == a.pos@,
        b.fired_disj@ == a.fired_disj@,
        b.deciding@ == a.deciding@,
        b.at_root == a.at_root,
        b.clauses@.len() == a.clauses@.len() + 1,
        forall|i: int| 0 <= i < a.clauses@.len() ==> #[trigger] b.clauses@[i] == a.clauses@[i],
        b.clauses@.last().src is Assumed,
        clause_ok(b.clauses@.last(), b.n()),
        clause_sem(b.rules@, b.facts@, b.clauses@.last()),
    ensures
        b.sound(),
        grown(a, b),
        forall|val: spec_fn(Expr) -> bool| #[trigger] models(b, val) == (models(a, val) && holds(val, b.clauses@.last().or_expr@)),
{
    let last = b.clauses@.len() - 1;
    assert forall|val: spec_fn(Expr) -> bool| #[trigger] models(b, val) == (models(a, val) && holds(
        val,
        b.clauses@.last().or_expr@,
    )) by {
        if models(a, val) && holds(val, b.clauses@.last().or_expr@) {
            assert forall|ci: int|
                0 <= ci < b.clauses@.len() && (#[trigger] b.clauses@[ci]).src is Assumed implies holds(val, b.clauses@[ci].or_expr@) by {
                if ci < a.clauses@.len() {
                    assert(b.clauses@[ci] == a.clauses@[ci]);
                }
            }
        }
        if models(b, val) {
            assert(b.clauses@[last].src is Assumed);
            assert forall|ci: int|
                0 <= ci < a.clauses@.len() && (#[trigger] a.clauses@[ci]).src is Assumed implies holds(val, a.clauses@[ci].or_expr@) by {
                assert(b.clauses@[ci] == a.clauses@[ci]);
            }
        }
    }
    assert forall|val: spec_fn(Expr) -> bool| #[trigger] models(b, val) implies agree(b, val) by {
        assert(models(a, val));
        assert(agree(a, val));
    }
    assert forall|val: spec_fn(Expr) -> bool, ci: int|
        #![trigger models(b, val), b.clauses@[ci]]
        models(b, val) && 0 <= ci < b.clauses@.len() implies holds(val, b.clauses@[ci].or_expr@) by {
        assert(models(a, val));
        if ci < a.clauses@.len() {
            assert(b.clauses@[ci] == a.clauses@[ci]);
        }
    }
    assert forall|i: int| 0 <= i < b.clauses@.len() implies clause_ok(#[trigger] b.clauses@[i], b.n()) by {
        if i < a.clauses@.len() {
            assert(b.clauses@[i] == a.clauses@[i]);
        }
    }
    assert forall|i: int| 0 <= i < b.clauses@.len() implies clause_sem(b.rules@, b.facts@, #[trigger] b.clauses@[i]) by {
        if i < a.clauses@.len() {
            assert(b.clauses@[i] == a.clauses@[i]);
        }
    }
    assert(b.wf());
    assert(b.trail_ok());
    assert(b.shape_ok());
    assert(b.trail@.subrange(0, a.trail@.len() as int) =~= a.trail@);
}

// ---------------------------------------------------------------------------
// Positive cells by closure elimination, negative cells by refutation
// ---------------------------------------------------------------------------

fn contains_lit(ls: &Vec<Lit>, l: Lit) -> (r: bool)
    ensures
        r == ls@.contains(l),
{
    let mut i: usize = 0;
    while i < ls.len()
        invariant
            i <= ls@.len(),
            forall|k: int| 0 <= k < i ==> ls@[k] != l,
        decreases ls@.len() - i,
    {
        if ls[i] == l {
            proof {
                assert(ls@[i as int] == l);
            }
            return true;
        }
        i += 1;
    }
    false
}

/// Stable sort of clause indices by their keys (insertion sort, equal keys keep their order).
fn sort_by_keys(items: &mut Vec<(usize, usize)>)
    ensures
        final(items)@.len() == old(items)@.len(),
        final(items)@.to_multiset() == old(items)@.to_multiset(),
        forall|k: int| 0 <= k < final(items)@.len() ==> old(items)@.contains(#[trigger] final(items)@[k]),
        forall|a: int, b: int| 0 <= a < b < final(items)@.len() ==> (#[trigger] final(items)@[a]).1 <= (#[trigger] final(items)@[b]).1,
{
    let mut i: usize = 1;
    let ghost orig = items@;
    if items.len() == 0 {
        return;
    }
    while i < items.len()
        invariant
            1 <= i <= items@.len(),
            items@.len() == orig.len(),
            items@.to_multiset() == orig.to_multiset(),
            forall|k: int| 0 <= k < items@.len() ==> orig.contains(#[trigger] items@[k]),
            forall|a: int, b: int| 0 <= a < b < i ==> (#[trigger] items@[a]).1 <= (#[trigger] items@[b]).1,
        decreases items@.len() - i,
    {
        let mut j: usize = i;
        while j > 0 && items[j - 1].1 > items[j].1
            invariant
                0 <= j <= i < items@.len(),
                items@.len() == orig.len(),
                items@.to_multiset() == orig.to_multiset(),
                forall|k: int| 0 <= k < items@.len() ==> orig.contains(#[trigger] items@[k]),
                forall|a: int, b: int| 0 <= a < b <= i && a != j && b != j ==> (#[trigger] items@[a]).1 <= (#[trigger] items@[b]).1,
                forall|a: int| j < a <= i ==> items@[j as int].1 < (#[trigger] items@[a]).1,
                forall|a: int| 0 <= a < j ==> (j < i ==> (#[trigger] items@[a]).1 <= items@[j as int + 1].1),
            decreases j,
        {
            let x = items[j - 1];
            let y = items[j];
            let ghost s0 = items@;
            items.set(j - 1, y);
            let ghost s1 = items@;
            items.set(j, x);
            proof {
                broadcast use {vstd::seq_lib::to_multiset_update, vstd::multiset::group_multiset_axioms};

                assert(s1.to_multiset() == s0.to_multiset().insert(y).remove(x));
                assert(items@.to_multiset() == s1.to_multiset().insert(x).remove(y));
                assert(s0.to_multiset().count(x) > 0) by {
                    broadcast use vstd::seq_lib::to_multiset_contains;

                    assert(s0[j - 1] == x);
                }
                assert(items@.to_multiset() =~= s0.to_multiset());
            }
            j -= 1;
        }
        i += 1;
    }
}

impl Solver {
    /// Prove a positive cell that propagation does not force: in each literal clause holding it
    /// (fewest live disjuncts first), refute every other disjunct by search; the cell survives.
    /// The conclusion that comes back is true in every valuation the state describes.
    fn prove_positive_by_closure(&mut self, goal: &ProofExpr) -> (r: Option<DerivationTree>)
        requires
            old(self).sound(),
        ensures
            final(self).sound(),
            restored(*old(self), *final(self)),
            final(self).pos@.len() == old(self).pos@.len(),
            r matches Some(t) ==> forced(*old(self), t@.conclusion),
            (exists|ci: int| 0 <= ci < old(self).clauses@.len() && #[trigger] closable(*old(self), ci, goal@)) ==> r is Some,
    {
        proof {
            lemma_restored_same(*self, *self);
        }
        let goal_lit = match self.lit_of(goal) {
            Some(l) => l,
            None => {
                return None;
            },
        };
        let mut candidates: Vec<(usize, usize)> = Vec::new();
        let mut ci: usize = 0;
        while ci < self.clauses.len()
            invariant
                self.sound(),
                ci <= self.clauses@.len(),
                forall|k: int| 0 <= k < candidates@.len() ==> (#[trigger] candidates@[k]).0 < self.clauses@.len(),
                Some(goal_lit) == expr_lit(self.table.atoms@, goal@),
                forall|cj: int| 0 <= cj < ci && #[trigger] closable(*self, cj, goal@) ==> has_candidate(candidates@, cj),
            decreases self.clauses@.len() - ci,
        {
            let ghost c0 = candidates@;
            let fits = match &self.clauses[ci].lits {
                Some(ls) => contains_lit(ls, goal_lit) && ls.len() >= 2,
                None => false,
            };
            if fits {
                let (_, live) = self.clause_status(ci);
                candidates.push((ci, live.len()));
            }
            proof {
                assert forall|cj: int| 0 <= cj < ci + 1 && #[trigger] closable(*self, cj, goal@) implies has_candidate(
                    candidates@,
                    cj,
                ) by {
                    if cj < ci {
                        let m = choose|m: int| 0 <= m < c0.len() && (#[trigger] c0[m]).0 == cj;
                        assert(candidates@[m] == c0[m]);
                    } else {
                        assert(candidates@[c0.len() as int].0 == cj);
                    }
                }
            }
            ci += 1;
        }
        let ghost unsorted = candidates@;
        sort_by_keys(&mut candidates);
        proof {
            assert forall|k: int| 0 <= k < candidates@.len() implies (#[trigger] candidates@[k]).0 < self.clauses@.len() by {
                assert(unsorted.contains(candidates@[k]));
                let j = choose|j: int| 0 <= j < unsorted.len() && unsorted[j] == candidates@[k];
            }
            assert forall|cj: int| 0 <= cj < self.clauses@.len() && #[trigger] closable(*self, cj, goal@) implies has_candidate(
                candidates@,
                cj,
            ) by {
                broadcast use vstd::seq_lib::to_multiset_contains;

                let m = choose|m: int| 0 <= m < unsorted.len() && (#[trigger] unsorted[m]).0 == cj;
                assert(unsorted.contains(unsorted[m]));
                assert(candidates@.to_multiset().count(unsorted[m]) > 0);
                assert(candidates@.contains(unsorted[m]));
                let m2 = choose|m2: int| 0 <= m2 < candidates@.len() && candidates@[m2] == unsorted[m];
                assert(candidates@[m2].0 == cj);
            }
        }
        let ghost s0 = *self;
        let mut k: usize = 0;
        while k < candidates.len()
            invariant
                self.sound(),
                s0.sound(),
                s0 == *old(self),
                restored(s0, *self),
                self.pos@.len() == s0.pos@.len(),
                k <= candidates@.len(),
                forall|m: int| 0 <= m < candidates@.len() ==> (#[trigger] candidates@[m]).0 < s0.clauses@.len(),
                forall|cj: int| 0 <= cj < s0.clauses@.len() && #[trigger] closable(s0, cj, goal@) ==> has_candidate(candidates@, cj),
                forall|m: int| 0 <= m < k ==> !closable(s0, (#[trigger] candidates@[m]).0 as int, goal@),
            decreases candidates@.len() - k,
        {
            let ci = candidates[k].0;
            let ghost k0 = k;
            proof {
                assert(candidates@[k as int].0 < s0.clauses@.len());
                lemma_spine_violated_same(s0, *self, s0.clauses@[ci as int].or_expr@, goal@);
            }
            k += 1;
            let or_expr = copy_expr(&self.clauses[ci].or_expr);
            let or_tree = match self.materialize_clause(ci, usize::MAX) {
                Some(t) => t,
                None => {
                    continue;
                },
            };
            let ghost s1 = *self;
            proof {
                lemma_restored_same(s0, s1);
                assert(clause_sem(self.rules@, self.facts@, self.clauses@[ci as int]));
                assert(or_tree@.conclusion == or_expr@);
            }
            let found = self.extract_by_search(&or_expr, or_tree, goal, usize::MAX);
            proof {
                lemma_restored_same(s1, *self);
                assert(restored(s0, *self));
                if found is Some {
                    let t = found->0;
                    assert forall|val: spec_fn(Expr) -> bool| #[trigger] models(s0, val) implies holds(val, t@.conclusion) by {
                        assert(models(s1, val));
                        assert(holds(val, s1.clauses@[ci as int].or_expr@));
                    }
                }
            }
            if found.is_some() {
                return found;
            }
        }
        proof {
            if exists|cj: int| 0 <= cj < s0.clauses@.len() && #[trigger] closable(s0, cj, goal@) {
                let cj = choose|cj: int| 0 <= cj < s0.clauses@.len() && #[trigger] closable(s0, cj, goal@);
                let m = choose|m: int| 0 <= m < candidates@.len() && (#[trigger] candidates@[m]).0 == cj;
                assert(!closable(s0, candidates@[m].0 as int, goal@));
            }
        }
        None
    }

    /// Like `extract_survivor`, but the other disjuncts are refuted by search. The conclusion
    /// that comes back is true in every described valuation that makes `or_expr` true.
    fn extract_by_search(&mut self, or_expr: &ProofExpr, or_tree: DerivationTree, target: &ProofExpr, fuel: usize) -> (r: Option<
        DerivationTree,
    >)
        requires
            old(self).sound(),
            or_tree@.conclusion == or_expr@,
        ensures
            final(self).sound(),
            restored(*old(self), *final(self)),
            final(self).pos@.len() == old(self).pos@.len(),
            r matches Some(t) ==> forall|val: spec_fn(Expr) -> bool|
                #[trigger] models(*old(self), val) && holds(val, or_expr@) ==> holds(val, t@.conclusion),
            fuel == 0 ==> r is None,
            fuel > 0 && !(or_expr@ is Or) ==> r == Some(or_tree),
            fuel >= conn_depth(or_expr@) + 4 && spine_violated(*old(self), or_expr@, target@) ==> r is Some,
        decreases fuel,
    {
        proof {
            lemma_restored_same(*self, *self);
        }
        if fuel == 0 {
            return None;
        }
        match or_expr {
            ProofExpr::Or(l, r) => {
                if expr_eq(r, target) {
                    let lneg = self.prove_neg_by_search(l, fuel - 1)?;
                    Some(disjunction_elim(copy_expr(target), or_tree, lneg))
                } else {
                    let rneg = self.prove_neg_by_search(r, fuel - 1)?;
                    let l_tree = disjunction_elim(copy_expr(l), or_tree, rneg);
                    let ghost s1 = *self;
                    proof {
                        lemma_restored_same(*old(self), s1);
                        lemma_spine_violated_same(*old(self), s1, l@, target@);
                    }
                    let res = self.extract_by_search(l, l_tree, target, fuel - 1);
                    proof {
                        lemma_restored_same(s1, *self);
                        if res is Some {
                            let t = res->0;
                            assert forall|val: spec_fn(Expr) -> bool|
                                #[trigger] models(*old(self), val) && holds(val, or_expr@) implies holds(val, t@.conclusion) by {
                                assert(models(s1, val));
                                assert(!holds(val, r@));
                            }
                        }
                    }
                    res
                }
            },
            _ => Some(or_tree),
        }
    }

    /// Prove `¬e` for a literal or a disjunction: from the trail if the literal is already false,
    /// else by assuming it, refuting it by search, and concluding by reductio. A derivation comes
    /// back only when `e` is false in every valuation the state describes.
    fn prove_neg_by_search(&mut self, e: &ProofExpr, fuel: usize) -> (r: Option<DerivationTree>)
        requires
            old(self).sound(),
        ensures
            final(self).sound(),
            restored(*old(self), *final(self)),
            final(self).pos@.len() == old(self).pos@.len(),
            r is Some ==> refuted(*old(self), e@),
            fuel == 0 ==> r is None,
            !(e@ is Or) && expr_lit(old(self).table.atoms@, e@) is None ==> r is None,
            !(e@ is Or) ==> (expr_lit(old(self).table.atoms@, e@) matches Some(l) ==> (old(self).assign@[l.var as int] == Some(
                l.pos,
            ) ==> r is None)),
            fuel > 0 && !(e@ is Or) && violated_cited(*old(self), e@) ==> r is Some,
            fuel >= conn_depth(e@) + 3 && disj_violated_cited(*old(self), e@) ==> r is Some,
        decreases fuel,
    {
        proof {
            lemma_restored_same(*self, *self);
        }
        if fuel == 0 {
            return None;
        }
        match e {
            ProofExpr::Or(..) => {
                let bot = self.disj_to_falsum(e, fuel - 1)?;
                return Some(reductio(copy_expr(e), bot));
            },
            _ => {},
        }
        let lit = match self.lit_of(e) {
            Some(l) => l,
            None => {
                return None;
            },
        };
        match self.value(lit) {
            Some(false) => {
                proof {
                    lemma_denoted_value(*self, lit, e@);
                }
                let t = self.prove_var(lit.var, usize::MAX)?;
                Some(align_to(t, &neg(e)))
            },
            Some(true) => None,
            None => {
                let trail_snap = self.trail.len();
                let clause_snap = self.clauses.len();
                let fired_snap = copy_flags(&self.fired_disj);
                let ghost s0 = *self;
                let _ = self.set(lit, Reason::Assumption);
                let ghost s1 = *self;
                proof {
                    lemma_assume(s0, s1, lit);
                }
                let bot = self.derive_falsum(0, fuel - 1);
                proof {
                    lemma_grown_trans(s0, s1, *self);
                    if bot is Some {
                        assert forall|val: spec_fn(Expr) -> bool| #[trigger] models(s0, val) implies !holds(val, e@) by {
                            lemma_lit_holds(s0.table.atoms@, val, lit, e@);
                            if holds(val, e@) {
                                assert(models(s1, val));
                            }
                        }
                    }
                }
                let result = match bot {
                    Some(b) => Some(reductio(copy_expr(e), b)),
                    None => None,
                };
                let ghost s2 = *self;
                self.backtrack(trail_snap, clause_snap, fired_snap);
                proof {
                    lemma_backtrack_restores(s0, s2, *self);
                }
                result
            },
        }
    }

    /// Derive `⊥` from `e` assumed true: a disjunction splits, a literal meets its searched
    /// negation. A derivation comes back only when `e` is false in every described valuation.
    fn disj_to_falsum(&mut self, e: &ProofExpr, fuel: usize) -> (r: Option<DerivationTree>)
        requires
            old(self).sound(),
        ensures
            final(self).sound(),
            restored(*old(self), *final(self)),
            final(self).pos@.len() == old(self).pos@.len(),
            r is Some ==> refuted(*old(self), e@),
            r matches Some(t) ==> t@.conclusion == falsum_expr(),
            fuel == 0 ==> r is None,
            fuel >= conn_depth(e@) + 2 && disj_violated_cited(*old(self), e@) ==> r is Some,
        decreases fuel,
    {
        proof {
            lemma_restored_same(*self, *self);
        }
        if fuel == 0 {
            return None;
        }
        match e {
            ProofExpr::Or(l, r) => {
                let lb = self.disj_to_falsum(l, fuel - 1)?;
                let ghost s1 = *self;
                proof {
                    lemma_restored_same(*old(self), s1);
                    lemma_disj_violated_cited_same(*old(self), s1, r@);
                }
                let rb = match self.disj_to_falsum(r, fuel - 1) {
                    Some(t) => t,
                    None => {
                        proof {
                            lemma_restored_same(s1, *self);
                        }
                        return None;
                    },
                };
                proof {
                    lemma_restored_same(s1, *self);
                    assert forall|val: spec_fn(Expr) -> bool| #[trigger] models(*old(self), val) implies !holds(val, e@) by {
                        assert(models(s1, val));
                    }
                }
                return Some(disjunction_cases(falsum(), leaf(copy_expr(e)), lb, rb));
            },
            _ => {},
        }
        let neg_t = self.prove_neg_by_search(e, fuel - 1)?;
        Some(make_contradiction(leaf(copy_expr(e)), neg_t))
    }
}

/// A state that differs from a sound state only in the root flag is sound and describes the
/// same valuations.
proof fn lemma_flag_only(a: Solver, b: Solver)
    requires
        a.sound(),
        b.table == a.table,
        b.rules@ == a.rules@,
        b.facts@ == a.facts@,
        b.deciding@ == a.deciding@,
        b.assign@ == a.assign@,
        b.reason@ == a.reason@,
        b.trail@ == a.trail@,
        b.clauses@ == a.clauses@,
        b.fired_disj@ == a.fired_disj@,
        b.pos@ == a.pos@,
    ensures
        b.sound(),
        same_models(a, b),
{
    assert forall|val: spec_fn(Expr) -> bool| #[trigger] models(a, val) == #[trigger] models(b, val) by {
        assert(hyps_hold(a, val) == hyps_hold(b, val));
    }
    assert forall|val: spec_fn(Expr) -> bool| #[trigger] models(b, val) implies agree(b, val) by {
        assert(models(a, val));
        assert(agree(a, val));
    }
    assert forall|val: spec_fn(Expr) -> bool, ci: int|
        #![trigger models(b, val), b.clauses@[ci]]
        models(b, val) && 0 <= ci < b.clauses@.len() implies holds(val, b.clauses@[ci].or_expr@) by {
        assert(models(a, val));
        assert(a.clauses@[ci] == b.clauses@[ci]);
    }
}

/// Solve one grid cell and emit its derivation. The premises must be ground. A cell forced by
/// propagation at the root is proved from the trail; an unforced positive cell by closure
/// elimination (refuting the other values of a clause holding it by search); a negative cell by
/// assuming its atom and refuting it by search. `None` when the root propagation meets a
/// conflict, when the goal is no literal, or when no proof is found.
///
/// Whatever comes back is sound: the premises entail the goal (forced cells, negative cells),
/// or they entail the derivation's conclusion (closure elimination, which concludes the
/// surviving disjunct of the clause holding the cell, re-oriented towards the goal). Of
/// premises that some valuation satisfies, a literal premise is always proved, and the
/// negation of a literal premise never is. A goal whose atom occurs in no premise is never
/// proved.
pub fn grid_prove(premises: &[ProofExpr], goal: &ProofExpr) -> (r: Option<DerivationTree>)
    ensures
        r is Some ==> is_literal(goal@) || (goal@ is Not && is_literal(*goal@->Not_0)),
        r matches Some(t) ==> entails(exprs_view(premises@), goal@) || entails(exprs_view(premises@), t@.conclusion),
        is_literal(goal@) && exprs_view(premises@).contains(goal@) && (exists|val: spec_fn(Expr) -> bool|
            respects(val) && #[trigger] all_hold(val, exprs_view(premises@))) ==> r is Some,
        goal@ is Not && is_literal(*goal@->Not_0) && exprs_view(premises@).contains(*goal@->Not_0) && (exists|
            val: spec_fn(Expr) -> bool|
            respects(val) && #[trigger] all_hold(val, exprs_view(premises@))) ==> r is None,
        (forall|j: int, x: Expr|
            0 <= j < premises@.len() && #[trigger] has_atom(premises@[j]@, x) ==> !same_atom(x, atom_part(atom_part(goal@))))
            ==> r is None,
{
    let mut solver = compile(premises);
    let ghost s0 = solver;
    proof {
        let g = atom_part(atom_part(goal@));
        if forall|j: int, x: Expr|
            0 <= j < premises@.len() && #[trigger] has_atom(premises@[j]@, x) ==> !same_atom(x, g) {
            assert(!interned(s0.table.atoms@, g)) by {
                if interned(s0.table.atoms@, g) {
                    let i = choose|i: int| 0 <= i < s0.table.atoms@.len() && same_atom(#[trigger] s0.table.atoms@[i]@, g);
                    let x = s0.table.atoms@[i]@;
                    assert(atom_of_some(s0.facts@, x));
                    let k = choose|k: int| 0 <= k < s0.facts@.len() && has_atom(s0.facts@[k], x);
                    lemma_flat_fact_atom(exprs_view(premises@), k, x);
                    let j = choose|j: int| 0 <= j < exprs_view(premises@).len() && has_atom(exprs_view(premises@)[j], x);
                    assert(exprs_view(premises@)[j] == premises@[j]@);
                    assert(has_atom(premises@[j]@, x));
                }
            }
        }
    }
    proof {
        assert forall|val: spec_fn(Expr) -> bool| respects(val) && #[trigger] all_hold(val, exprs_view(premises@)) implies models(
            s0,
            val,
        ) by {
            lemma_flat_facts_hold(val, exprs_view(premises@));
        }
    }
    solver.at_root = true;
    proof {
        lemma_flag_only(s0, solver);
    }
    let ghost s1 = solver;
    let root = solver.propagate();
    let ghost s2 = solver;
    solver.at_root = false;
    proof {
        lemma_flag_only(s2, solver);
        lemma_same_models_trans(s0, s1, s2);
        lemma_same_models_trans(s0, s2, solver);
    }
    proof {
        if is_literal(goal@) && exprs_view(premises@).contains(goal@) && (exists|val: spec_fn(Expr) -> bool|
            respects(val) && #[trigger] all_hold(val, exprs_view(premises@))) {
            let val = choose|val: spec_fn(Expr) -> bool| respects(val) && #[trigger] all_hold(val, exprs_view(premises@));
            assert(models(s0, val));
            assert(models(s1, val));
            assert(root is Ok);
            assert(models(solver, val));
            lemma_flat_facts_literal(exprs_view(premises@), goal@);
            let j = choose|j: int| 0 <= j < s0.facts@.len() && s0.facts@[j] == goal@;
            assert(is_literal(s0.facts@[j]));
            let l = expr_lit(s0.table.atoms@, goal@)->0;
            assert(cited(s0, l.var as int));
            assert(s0.table.atoms.len() == s0.table.atoms@.len());
            lemma_expr_lit_var(s0.table.atoms@, goal@);
            assert(s1.assign@[l.var as int] == s0.assign@[l.var as int]);
            assert(solver.assign@[l.var as int] == s0.assign@[l.var as int]);
            assert(solver.reason@[l.var as int] == s0.reason@[l.var as int]);
            assert(agree(solver, val));
            assert(holds(val, goal@)) by {
                assert(all_hold(val, s0.facts@));
                assert(holds(val, s0.facts@[j]));
            }
            lemma_lit_holds(s0.table.atoms@, val, l, goal@);
            assert(solver.assign@[l.var as int] == Some(l.pos));
        }
        if goal@ is Not && is_literal(*goal@->Not_0) && exprs_view(premises@).contains(*goal@->Not_0) && (exists|
            val: spec_fn(Expr) -> bool|
            respects(val) && #[trigger] all_hold(val, exprs_view(premises@))) {
            let inner = *goal@->Not_0;
            let val = choose|val: spec_fn(Expr) -> bool| respects(val) && #[trigger] all_hold(val, exprs_view(premises@));
            assert(models(s0, val));
            assert(models(s1, val));
            assert(root is Ok);
            assert(models(solver, val));
            lemma_flat_facts_literal(exprs_view(premises@), inner);
            let j = choose|j: int| 0 <= j < s0.facts@.len() && s0.facts@[j] == inner;
            assert(is_literal(s0.facts@[j]));
            let l = expr_lit(s0.table.atoms@, inner)->0;
            assert(cited(s0, l.var as int));
            assert(s0.table.atoms.len() == s0.table.atoms@.len());
            lemma_expr_lit_var(s0.table.atoms@, inner);
            assert(solver.assign@[l.var as int] == s0.assign@[l.var as int]);
            assert(agree(solver, val));
            assert(holds(val, inner)) by {
                assert(all_hold(val, s0.facts@));
                assert(holds(val, s0.facts@[j]));
            }
            lemma_lit_holds(s0.table.atoms@, val, l, inner);
            assert(solver.assign@[l.var as int] == Some(l.pos));
            if is_literal(goal@) {
                assert(atom_part(goal@) == inner);
                assert(expr_lit(s0.table.atoms@, goal@) == Some(Lit { var: l.var, pos: false }));
            }
        }
    }
    if root.is_err() {
        return None;
    }
    let ghost s3 = solver;
    match solver.lit_of(goal) {
        Some(lit) => {
            if solver.value(lit) == Some(true) {
                proof {
                    lemma_denoted_value(s3, lit, goal@);
                    assert forall|val: spec_fn(Expr) -> bool| respects(val) && #[trigger] all_hold(val, exprs_view(premises@)) implies holds(
                        val,
                        goal@,
                    ) by {
                        assert(models(s0, val));
                        assert(models(s3, val));
                    }
                }
                let t = solver.prove_var(lit.var, usize::MAX)?;
                return Some(align_to(t, goal));
            }
        },
        None => {},
    }
    let negative = match goal {
        ProofExpr::Not(_) => true,
        _ => false,
    };
    if !negative && solver.lit_of(goal).is_some() {
        match solver.prove_positive_by_closure(goal) {
            Some(tree) => {
                let r = align_to(tree, goal);
                proof {
                    assert forall|val: spec_fn(Expr) -> bool| respects(val) && #[trigger] all_hold(val, exprs_view(premises@)) implies holds(
                        val,
                        r@.conclusion,
                    ) by {
                        assert(models(s0, val));
                        assert(models(s3, val));
                        lemma_oriented(val, tree@.conclusion, goal@);
                    }
                }
                return Some(r);
            },
            None => {},
        }
    }
    let ghost s4 = solver;
    proof {
        assert(same_models(s3, s4));
    }
    match goal {
        ProofExpr::Not(inner) => {
            let x_lit = match solver.lit_of(inner) {
                Some(l) => l,
                None => {
                    return None;
                },
            };
            match solver.value(x_lit) {
                Some(false) => {
                    proof {
                        lemma_denoted_value(s4, x_lit, inner@);
                        assert forall|val: spec_fn(Expr) -> bool| respects(val) && #[trigger] all_hold(val, exprs_view(premises@)) implies holds(
                            val,
                            goal@,
                        ) by {
                            assert(models(s0, val));
                            assert(models(s4, val));
                        }
                    }
                    let t = solver.prove_var(x_lit.var, usize::MAX)?;
                    Some(align_to(t, goal))
                },
                Some(true) => None,
                None => {
                    let _ = solver.set(x_lit, Reason::Assumption);
                    proof {
                        lemma_assume(s4, solver, x_lit);
                    }
                    let ghost s5 = solver;
                    let bot = solver.derive_falsum(0, usize::MAX)?;
                    proof {
                        assert forall|val: spec_fn(Expr) -> bool| respects(val) && #[trigger] all_hold(val, exprs_view(premises@)) implies holds(
                            val,
                            goal@,
                        ) by {
                            assert(models(s0, val));
                            assert(models(s4, val));
                            lemma_lit_holds(s4.table.atoms@, val, x_lit, inner@);
                            if holds(val, inner@) {
                                assert(models(s5, val));
                            }
                        }
                    }
                    Some(reductio(copy_expr(inner), bot))
                },
            }
        },
        _ => None,
    }
}

} // verus!
