//! Failure modes of proof search and unification.

use vstd::prelude::*;
use crate::expr::{ProofExpr, ProofTerm};
use crate::formula::{debug_str, push_char, str_debug_text};

verus! {

/// Errors that can occur during proof search.
#[derive(Debug)]
pub enum ProofError {
    /// No proof was found for the given goal.
    NoProofFound,
    /// The proof search exceeded the maximum depth limit.
    DepthExceeded,
    /// Unification failed due to the occurs check.
    OccursCheck { variable: String, term: ProofTerm },
    /// Unification failed because two terms could not be unified.
    UnificationFailed { left: ProofTerm, right: ProofTerm },
    /// Expression-level unification failed.
    ExprUnificationFailed { left: ProofExpr, right: ProofExpr },
    /// Symbol mismatch during unification.
    SymbolMismatch { left: String, right: String },
    /// Arity mismatch during unification.
    ArityMismatch { expected: usize, found: usize },
    /// A higher-order pattern has non-distinct arguments.
    PatternNotDistinct(String),
    /// An expression is not a valid Miller pattern.
    NotAPattern(ProofExpr),
    /// A right-hand side uses variables outside the pattern's scope.
    ScopeViolation { var: String, allowed: Vec<String> },
}

/// The decimal digits of `n`.
pub open spec fn decimal(n: nat) -> Seq<char>
    decreases n,
{
    if n < 10 {
        seq![digit(n)]
    } else {
        decimal(n / 10).push(digit(n % 10))
    }
}

/// The character of a decimal digit.
pub open spec fn digit(d: nat) -> char {
    ((48 + d) as u8) as char
}

/// The `Debug` text of a list of names: each quoted, comma-separated, in brackets.
pub open spec fn debug_list(xs: Seq<Seq<char>>) -> Seq<char> {
    "["@ + debug_items(xs) + "]"@
}

/// The quoted names, separated by `, `.
pub open spec fn debug_items(xs: Seq<Seq<char>>) -> Seq<char>
    decreases xs.len(),
{
    if xs.len() == 0 {
        Seq::empty()
    } else if xs.len() == 1 {
        debug_str(xs[0])
    } else {
        debug_items(xs.drop_last()) + ", "@ + debug_str(xs.last())
    }
}

/// The message of an error whose text needs no rendering of terms or expressions.
pub open spec fn error_text(e: ProofError) -> Option<Seq<char>> {
    match e {
        ProofError::NoProofFound => Some("No proof found: the goal could not be derived from the knowledge base"@),
        ProofError::DepthExceeded => Some("Proof search exceeded maximum depth limit"@),
        ProofError::SymbolMismatch { left, right } =>
            Some("Symbol mismatch: '"@ + left@ + "' vs '"@ + right@ + "'"@),
        ProofError::ArityMismatch { expected, found } =>
            Some("Arity mismatch: expected "@ + decimal(expected as nat) + " arguments, found "@ + decimal(found as nat)),
        ProofError::PatternNotDistinct(var) =>
            Some("Pattern has duplicate variable '"@ + var@ + "': Miller patterns require distinct bound variables"@),
        ProofError::ScopeViolation { var, allowed } =>
            Some("Scope violation: variable '"@ + var@ + "' not in pattern scope "@
                + debug_list(Seq::new(allowed@.len(), |i: int| allowed@[i]@))),
        _ => None,
    }
}

/// The decimal text of `n`.
fn decimal_text(n: usize) -> (r: String)
    ensures
        r@ == decimal(n as nat),
    decreases n,
{
    let d = (n % 10) as u8;
    let c = (48u8 + d) as char;
    if n < 10 {
        let mut r = String::new();
        push_char(&mut r, c);
        assert(r@ =~= decimal(n as nat));
        r
    } else {
        let mut r = decimal_text(n / 10);
        push_char(&mut r, c);
        r
    }
}

/// `a` followed by `b`.
fn joined(a: String, b: &str) -> (r: String)
    ensures
        r@ == a@ + b@,
{
    let mut r = a;
    r.append(b);
    r
}

impl ProofError {
    /// The error's message, for the errors whose message names no term or expression
    /// (rendering those belongs to the terms' and expressions' own display).
    pub fn to_text(&self) -> (r: Option<String>)
        ensures
            match r {
                Some(s) => error_text(*self) == Some(s@),
                None => error_text(*self) is None,
            },
    {
        match self {
            ProofError::NoProofFound => Some(String::from_str("No proof found: the goal could not be derived from the knowledge base")),
            ProofError::DepthExceeded => Some(String::from_str("Proof search exceeded maximum depth limit")),
            ProofError::SymbolMismatch { left, right } => {
                let r = joined(String::from_str("Symbol mismatch: '"), left.as_str());
                let r = joined(r, "' vs '");
                let r = joined(r, right.as_str());
                Some(joined(r, "'"))
            },
            ProofError::ArityMismatch { expected, found } => {
                let e = decimal_text(*expected);
                let f = decimal_text(*found);
                let r = joined(String::from_str("Arity mismatch: expected "), e.as_str());
                let r = joined(r, " arguments, found ");
                Some(joined(r, f.as_str()))
            },
            ProofError::PatternNotDistinct(var) => {
                let r = joined(String::from_str("Pattern has duplicate variable '"), var.as_str());
                Some(joined(r, "': Miller patterns require distinct bound variables"))
            },
            ProofError::ScopeViolation { var, allowed } => {
                let r = joined(String::from_str("Scope violation: variable '"), var.as_str());
                let r = joined(r, "' not in pattern scope ");
                let mut list = String::from_str("[");
                let ghost names = Seq::new(allowed@.len(), |i: int| allowed@[i]@);
                let mut i: usize = 0;
                while i < allowed.len()
                    invariant
                        i <= allowed@.len(),
                        names == Seq::new(allowed@.len(), |i: int| allowed@[i]@),
                        list@ == "["@ + debug_items(names.take(i as int)),
                    decreases allowed.len() - i,
                {
                    proof {
                        assert(names.take(i + 1).drop_last() =~= names.take(i as int));
                    }
                    if i > 0 {
                        list = joined(list, ", ");
                    }
                    let q = str_debug_text(&allowed[i]);
                    list = joined(list, q.as_str());
                    proof {
                        if i == 0 {
                            assert(names.take(1) =~= seq![names[0]]);
                        }
                        assert(list@ =~= "["@ + debug_items(names.take(i + 1)));
                    }
                    i += 1;
                }
                proof {
                    assert(names.take(i as int) =~= names);
                }
                let list = joined(list, "]");
                let r = joined(r, list.as_str());
                Some(r)
            },
            _ => None,
        }
    }
}

} // verus!
