//! A verified evaluator for the untyped lambda calculus.
//!
//! A line of text is tokenized and parsed into a term (variable, application,
//! or abstraction), which is then rewritten to beta-normal form by a
//! normal-order (leftmost-outermost) stepping loop under a wall-clock budget.
//! Every transformation is specified against a mathematical model of terms
//! and proved: capture-avoiding substitution, single-step reduction, the
//! reduction driver, the tokenizer, the parser, and the printer.

pub mod ast;
pub mod eval;
pub mod names;
pub mod parser;
pub mod print;
pub mod reduce;
pub mod roundtrip;
pub mod subst;
