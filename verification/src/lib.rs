//! A verified core for a tiny lambda-calculus proof assistant: untyped
//! lambda terms with capture-avoiding substitution and normal-order beta
//! reduction, simple-type inference by constraint generation, Robinson-style
//! unification with an occurs check, and renderers for terms, types and
//! natural-deduction derivations.

pub mod ast;
pub mod names;
pub mod typing;
