//! Rendering a term back to text: a variable prints as its name, an
//! application as `f a` with either side parenthesized unless it is a bare
//! variable, an abstraction as `\name.body`.

use vstd::prelude::*;
use vstd::string::StringExecFns;
use crate::ast::{AST, Term};
use crate::names::push_char;

verus! {

impl Term {
    /// The printed form of the term.
    pub open spec fn printed(self) -> Seq<char>
        decreases self,
    {
        match self {
            Term::Var(s) => s,
            Term::App(e1, e2) => {
                let s1 = if (*e1) is Var {
                    (*e1).printed()
                } else {
                    seq!['('] + (*e1).printed() + seq![')']
                };
                let s2 = if (*e2) is Var {
                    (*e2).printed()
                } else {
                    seq!['('] + (*e2).printed() + seq![')']
                };
                s1 + seq![' '] + s2
            },
            Term::Abs(v, e) => seq!['\\'] + v + seq!['.'] + (*e).printed(),
        }
    }
}

impl AST {
    /// Renders the term in the unambiguous convention of `Term::printed`.
    pub fn to_string(&self) -> (r: String)
        ensures
            r@ == self@.printed(),
        decreases self,
    {
        match self {
            AST::Var(s) => s.clone(),
            AST::App(e1, e2) => {
                let mut r = String::new();
                let s1 = e1.to_string();
                match &**e1 {
                    AST::Var(_) => r.append(s1.as_str()),
                    _ => {
                        push_char(&mut r, '(');
                        r.append(s1.as_str());
                        push_char(&mut r, ')');
                    },
                }
                push_char(&mut r, ' ');
                let s2 = e2.to_string();
                match &**e2 {
                    AST::Var(_) => r.append(s2.as_str()),
                    _ => {
                        push_char(&mut r, '(');
                        r.append(s2.as_str());
                        push_char(&mut r, ')');
                    },
                }
                proof {
                    assert(r@ =~= self@.printed());
                }
                r
            },
            AST::Abs(v, e) => {
                let mut r = String::new();
                push_char(&mut r, '\\');
                r.append(v.as_str());
                push_char(&mut r, '.');
                let sb = e.to_string();
                r.append(sb.as_str());
                proof {
                    assert(r@ =~= self@.printed());
                }
                r
            },
        }
    }
}

} // verus!
