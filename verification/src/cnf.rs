//! Propositional literals, CNF formulas and linear equation systems, as the SAT family
//! generators produce them.

use vstd::prelude::*;

verus! {

/// A literal: a variable with a polarity.
#[derive(Clone, Copy, PartialEq, Eq, Hash, Debug, Structural)]
pub struct Lit {
    pub var: u32,
    pub positive: bool,
}

/// The positive literal of `v`.
pub open spec fn pos(v: u32) -> Lit {
    Lit { var: v, positive: true }
}

/// The negative literal of `v`.
pub open spec fn neg(v: u32) -> Lit {
    Lit { var: v, positive: false }
}

/// The opposite literal.
pub open spec fn negate(l: Lit) -> Lit {
    Lit { var: l.var, positive: !l.positive }
}

impl Lit {
    /// The literal of `var` with the given polarity (`true` for positive).
    pub fn new(var: u32, positive: bool) -> (l: Lit)
        ensures
            l == (Lit { var, positive }),
    {
        Lit { var, positive }
    }

    /// The positive literal of `var`.
    pub fn pos(var: u32) -> (l: Lit)
        ensures
            l == pos(var),
    {
        Lit { var, positive: true }
    }

    /// The negative literal of `var`.
    pub fn neg(var: u32) -> (l: Lit)
        ensures
            l == neg(var),
    {
        Lit { var, positive: false }
    }

    /// The opposite literal.
    pub fn negated(self) -> (l: Lit)
        ensures
            l == negate(self),
    {
        Lit { var: self.var, positive: !self.positive }
    }

    /// The literal's variable.
    pub fn var(self) -> (v: u32)
        ensures
            v == self.var,
    {
        self.var
    }

    /// Whether the literal is positive.
    pub fn is_positive(self) -> (b: bool)
        ensures
            b == self.positive,
    {
        self.positive
    }
}

/// A CNF formula over variables `0..num_vars`.
#[derive(Debug)]
pub struct DimacsCnf {
    pub num_vars: usize,
    pub clauses: Vec<Vec<Lit>>,
}

/// The clauses of a CNF formula as sequences.
pub open spec fn clauses_view(cs: Seq<Vec<Lit>>) -> Seq<Seq<Lit>> {
    Seq::new(cs.len(), |i: int| cs[i]@)
}

impl DimacsCnf {
    /// The clause sequence.
    pub open spec fn cls(&self) -> Seq<Seq<Lit>> {
        clauses_view(self.clauses@)
    }
}

/// A GF(2) equation: the XOR of the listed variables equals `rhs`.
#[derive(Debug)]
pub struct XorEquation {
    pub vars: Vec<usize>,
    pub rhs: bool,
}

impl XorEquation {
    /// The equation `⊕ vars = rhs`.
    pub fn new(vars: Vec<usize>, rhs: bool) -> (e: XorEquation)
        ensures
            e.vars == vars,
            e.rhs == rhs,
    {
        XorEquation { vars, rhs }
    }
}

/// A linear equation modulo some `m`: `Σ coeff · x_var ≡ rhs`.
#[derive(Debug)]
pub struct ModpEquation {
    pub coeffs: Vec<(usize, u64)>,
    pub rhs: u64,
}

impl ModpEquation {
    /// The equation `Σ coeffs ≡ rhs`.
    pub fn new(coeffs: Vec<(usize, u64)>, rhs: u64) -> (e: ModpEquation)
        ensures
            e.coeffs == coeffs,
            e.rhs == rhs,
    {
        ModpEquation { coeffs, rhs }
    }
}


// ---------------------------------------------------------------------------
// Truth of CNF formulas
// ---------------------------------------------------------------------------

/// The literal is true under the assignment `a` of truth values to variables.
pub open spec fn lit_holds(a: spec_fn(u32) -> bool, l: Lit) -> bool {
    a(l.var) == l.positive
}

/// Some literal of the clause is true.
pub open spec fn clause_holds(a: spec_fn(u32) -> bool, c: Seq<Lit>) -> bool {
    exists|i: int| 0 <= i < c.len() && lit_holds(a, #[trigger] c[i])
}

/// Every clause is true.
pub open spec fn cnf_holds(a: spec_fn(u32) -> bool, cls: Seq<Seq<Lit>>) -> bool {
    forall|j: int| 0 <= j < cls.len() ==> clause_holds(a, #[trigger] cls[j])
}

/// Some assignment makes every clause true.
pub open spec fn satisfiable(cls: Seq<Seq<Lit>>) -> bool {
    exists|a: spec_fn(u32) -> bool| cnf_holds(a, cls)
}

/// A clause contained in a satisfied formula is satisfied.
pub proof fn lemma_contained_clause_holds(a: spec_fn(u32) -> bool, cls: Seq<Seq<Lit>>, c: Seq<Lit>)
    requires
        cnf_holds(a, cls),
        cls.contains(c),
    ensures
        clause_holds(a, c),
{
    let j = choose|j: int| 0 <= j < cls.len() && cls[j] == c;
    assert(clause_holds(a, cls[j]));
}

/// An element of one block is an element of the flattened blocks.
pub proof fn lemma_flatten_contains<A>(ss: Seq<Seq<A>>, i: int, j: int)
    requires
        0 <= i < ss.len(),
        0 <= j < ss[i].len(),
    ensures
        ss.flatten().contains(ss[i][j]),
    decreases ss.len(),
{
    let init = ss.drop_last();
    assert(ss == init.push(ss.last()));
    init.lemma_flatten_push(ss.last());
    if i == ss.len() - 1 {
        let k = init.flatten().len() + j;
        assert(ss.flatten()[k] == ss.last()[j]);
    } else {
        lemma_flatten_contains(init, i, j);
        let k = choose|k: int| 0 <= k < init.flatten().len() && init.flatten()[k] == init[i][j];
        assert(ss.flatten()[k] == init.flatten()[k]);
    }
}

/// The pigeonhole principle: an injective map from `n` items into `m` slots needs `n <= m`.
pub proof fn lemma_injection_bound(f: spec_fn(int) -> int, n: nat, m: nat)
    requires
        forall|p: int| 0 <= p < n ==> 0 <= #[trigger] f(p) < m,
        forall|p: int, q: int| 0 <= p < q < n ==> #[trigger] f(p) != #[trigger] f(q),
    ensures
        n <= m,
    decreases n,
{
    if n > 0 {
        if m == 0 {
            assert(0 <= f(0) < m);
        } else {
            let last = f(n - 1);
            let g = |p: int| if f(p) == m - 1 { last } else { f(p) };
            assert forall|p: int| 0 <= p < n - 1 implies 0 <= #[trigger] g(p) < m - 1 by {
                if f(p) == m - 1 {
                    assert(f(p) != f(n - 1));
                } else {
                    assert(0 <= f(p) < m);
                }
            }
            assert forall|p: int, q: int| 0 <= p < q < n - 1 implies #[trigger] g(p) != #[trigger] g(q) by {
                assert(f(p) != f(q));
                assert(f(p) != f(n - 1));
                assert(f(q) != f(n - 1));
            }
            lemma_injection_bound(g, (n - 1) as nat, (m - 1) as nat);
        }
    }
}


/// Every element of the flattened blocks is an element of one block.
pub proof fn lemma_flatten_index<A>(ss: Seq<Seq<A>>, k: int)
    requires
        0 <= k < ss.flatten().len(),
    ensures
        exists|i: int, j: int| 0 <= i < ss.len() && 0 <= j < ss[i].len() && ss.flatten()[k] == #[trigger] ss[i][j],
    decreases ss.len(),
{
    if ss.len() == 0 {
        assert(ss.flatten().len() == 0);
    } else {
        let init = ss.drop_last();
        assert(ss == init.push(ss.last()));
        init.lemma_flatten_push(ss.last());
        if k < init.flatten().len() {
            lemma_flatten_index(init, k);
            let (i, j) = choose|i: int, j: int| 0 <= i < init.len() && 0 <= j < init[i].len() && init.flatten()[k] == #[trigger] init[i][j];
            assert(ss[i] == init[i]);
            assert(ss.flatten()[k] == ss[i][j]);
        } else {
            let j = k - init.flatten().len();
            assert(ss.flatten()[k] == ss[ss.len() - 1][j]);
        }
    }
}

} // verus!
