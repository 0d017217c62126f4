# lib — verified building blocks for certified proof search

A Verus library: every executable function in `src/` carries a `requires`/`ensures`
contract that Verus proves.

## Layout

- `src/expr.rs` — first-order proof expressions and derivation trees, with their
  mathematical models (`Expr`, `Derivation`).
- `src/formula.rs` — a parser from formal first-order surface text to proof expressions,
  specified by a grammar over tokens (`parse_spec`). A quantifier's variable list ends at
  `,` or `.`; any other `.` reads as a space.
- `src/gf2.rs` — GF(2) linear algebra: invertibility, `|GL(n,2)|`, and the full solution
  space of a linear system (particular solution plus a kernel basis).
- `src/cnf.rs`, `src/families/` — DIMACS formulas and the SAT benchmark families
  (pigeonhole and its strengthenings, Ramsey, parity, Tseitin-style XOR systems, random
  k-SAT/k-XOR, counting and modular families), with their satisfiability laws.
- `src/grid_solver.rs` — a propagation-and-search solver for ground logic-grid
  problems that emits derivation trees. Propagation is proved to reach a fixpoint
  (`closed`) or to report a violated rule or clause; every search answer is sound.
- `src/engine.rs` — the backward-chaining prover `BackwardChainer`: fact matching,
  conjunct projection, introduction rules (∧, ∨, ↔, →, ¬¬), modus ponens and modus
  tollens, disjunctive syllogism and refutation of `⊥`, under a depth bound, a node
  budget and loop detection. Every tree it returns is proved to conclude the
  (normalized) goal and to be a `valid_derivation` from the facts and the goal's
  hypotheses.
- `src/normalize.rs` — the normal form facts and goals are searched in: event
  descriptions abstracted to predicates, `¬∃` read as `∀¬`, self-identities dropped.
- `src/factor.rs` — the effort budget of the structural factoring attacks.
- `app/` — floating-point estimates and `Display` adapters, outside the verified crate.
- `tests/` — scenario tests run against the compiled library.

## Scope

The prover matches goals against facts by syntactic equality: it has no unification,
no quantifier introduction or instantiation, no arithmetic or oracle strategies, no
certifying contradiction finder and no merging of definite descriptions. The crate holds no integer-factoring or `F_p²` isogeny
arithmetic, which rests on arbitrary-precision integers. The derivation trees that `grid_prove`
emits are meant to be re-checked by such a kernel; the library proves that what it
answers is entailed by the premises, not that each tree passes that check.
