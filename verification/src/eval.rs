//! The whole pipeline on one line of input: tokenize, parse, reduce to
//! beta-normal form under a wall-clock budget, and print the result.

use vstd::prelude::*;
use vstd::string::StringExecFns;
use crate::ast::Stmt;
use crate::parser::{Parser, parse_view};
use crate::reduce::step_n;

verus! {

/// Evaluates one line: a line that does not parse yields `parse error`; a
/// parsed line is reduced for at most `limitsec` seconds of wall-clock
/// time, yielding either the printed form of a beta-normal form reached
/// from its expression or `time limit exceeded`. A term whose first
/// reduction step already reaches a normal form is always printed.
pub fn evaluate(input: &String, limitsec: u64) -> (r: String)
    ensures
        (match parse_view(input@) {
            Some(st) => r@ == "time limit exceeded"@ || exists|n: nat|
                1 <= n && !step_n(st.expr(), n).has_redex() && r@ == step_n(
                    st.expr(),
                    n,
                ).printed(),
            None => r@ == "parse error"@,
        }),
        (match parse_view(input@) {
            Some(st) => !st.expr().step().has_redex() ==> exists|n: nat|
                1 <= n && !step_n(st.expr(), n).has_redex() && r@ == step_n(
                    st.expr(),
                    n,
                ).printed(),
            None => true,
        }),
{
    let mut parser = Parser::new();
    match parser.parse(input) {
        None => String::from_str("parse error"),
        Some(stat) => {
            let expr = stat.get_expr();
            match expr.beta_reduction(limitsec) {
                Some(normal_form) => normal_form.to_string(),
                None => String::from_str("time limit exceeded"),
            }
        },
    }
}

} // verus!
