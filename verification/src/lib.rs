//! Certified proof search support: first-order proof expressions, a formal-logic
//! parser, SAT family generators, GF(2) linear algebra and a certified logic-grid solver.

pub mod expr;
pub mod error;
pub mod gf2;
pub mod cnf;
pub mod families;
pub mod formula;
pub mod grid_solver;
pub mod normalize;
pub mod engine;
pub mod factor;
