//! Capture-avoiding substitution: the mathematical definition, the facts
//! needed for its well-foundedness, and the verified executable form.
//!
//! The specification recurses through the renamed body of an abstraction,
//! which is not a structural subterm, so it is written with an explicit
//! recursion budget (`fuel`); renaming a variable by a variable preserves
//! the size of a term, so any budget of at least `size` computes the same
//! result, and `subst` fixes the budget to `size`.

use vstd::prelude::*;
use crate::ast::{AST, Term};
use crate::names::{var_name, fresh_idx, lemma_fresh_exists};

verus! {

impl Term {
    /// Capture-avoiding substitution of `e` for the free occurrences of `v`,
    /// with an explicit recursion budget.
    pub open spec fn subst_fueled(self, e: Term, v: Seq<char>, fuel: nat) -> Term
        decreases fuel,
    {
        if fuel == 0 {
            self
        } else {
            let f = (fuel - 1) as nat;
            match self {
                Term::Var(v2) => if v2 == v {
                    e
                } else {
                    self
                },
                Term::App(e1, e2) => Term::App(
                    Box::new((*e1).subst_fueled(e, v, f)),
                    Box::new((*e2).subst_fueled(e, v, f)),
                ),
                Term::Abs(v2, body) => if v2 == v {
                    self
                } else if e.free_in(v2) {
                    let fresh = var_name(fresh_idx(e));
                    Term::Abs(
                        fresh,
                        Box::new(
                            (*body).subst_fueled(Term::Var(fresh), v2, f).subst_fueled(e, v, f),
                        ),
                    )
                } else {
                    Term::Abs(v2, Box::new((*body).subst_fueled(e, v, f)))
                },
            }
        }
    }

    /// Capture-avoiding substitution of `e` for the free occurrences of `v`:
    /// a variable hit by the substitution becomes `e`; an application
    /// substitutes in both sides; an abstraction that binds `v` shadows it
    /// and is left alone; an abstraction whose parameter occurs free in `e`
    /// first renames that parameter to the first unused candidate name of
    /// `e`, then substitutes in the renamed body.
    pub open spec fn subst(self, e: Term, v: Seq<char>) -> Term {
        self.subst_fueled(e, v, self.size())
    }
}

/// Substituting a variable for a variable preserves the size of the term.
pub proof fn lemma_subst_var_size(t: Term, x: Seq<char>, v: Seq<char>, fuel: nat)
    requires
        fuel >= t.size(),
    ensures
        t.subst_fueled(Term::Var(x), v, fuel).size() == t.size(),
    decreases fuel,
{
    let f = (fuel - 1) as nat;
    match t {
        Term::Var(_) => {},
        Term::App(e1, e2) => {
            lemma_subst_var_size(*e1, x, v, f);
            lemma_subst_var_size(*e2, x, v, f);
        },
        Term::Abs(v2, body) => {
            if v2 == v {
            } else if Term::Var(x).free_in(v2) {
                let fresh = var_name(fresh_idx(Term::Var(x)));
                lemma_subst_var_size(*body, fresh, v2, f);
                lemma_subst_var_size((*body).subst_fueled(Term::Var(fresh), v2, f), x, v, f);
            } else {
                lemma_subst_var_size(*body, x, v, f);
            }
        },
    }
}

/// Any two recursion budgets of at least the size of the term compute the
/// same substitution.
pub proof fn lemma_subst_fuel(t: Term, e: Term, v: Seq<char>, f1: nat, f2: nat)
    requires
        f1 >= t.size(),
        f2 >= t.size(),
    ensures
        t.subst_fueled(e, v, f1) == t.subst_fueled(e, v, f2),
    decreases t.size(),
{
    let g1 = (f1 - 1) as nat;
    let g2 = (f2 - 1) as nat;
    match t {
        Term::Var(_) => {},
        Term::App(e1, e2) => {
            lemma_subst_fuel(*e1, e, v, g1, g2);
            lemma_subst_fuel(*e2, e, v, g1, g2);
        },
        Term::Abs(v2, body) => {
            if v2 == v {
            } else if e.free_in(v2) {
                let fresh = var_name(fresh_idx(e));
                lemma_subst_fuel(*body, Term::Var(fresh), v2, g1, g2);
                let renamed = (*body).subst_fueled(Term::Var(fresh), v2, g1);
                lemma_subst_var_size(*body, fresh, v2, g1);
                lemma_subst_fuel(renamed, e, v, g1, g2);
            } else {
                lemma_subst_fuel(*body, e, v, g1, g2);
            }
        },
    }
}

impl AST {
    /// Capture-avoiding substitution of `e` for the free occurrences of `v`
    /// in this term; the result is a fresh tree.
    pub fn assign(&self, e: &AST, v: &String) -> (r: AST)
        ensures
            r@ == self@.subst(e@, v@),
        decreases self@.size(),
    {
        match self {
            AST::Var(v2) => if *v2 == *v {
                e.clone()
            } else {
                self.clone()
            },
            AST::App(e1, e2) => {
                proof {
                    lemma_subst_fuel(e1@, e@, v@, (self@.size() - 1) as nat, e1@.size());
                    lemma_subst_fuel(e2@, e@, v@, (self@.size() - 1) as nat, e2@.size());
                }
                AST::App(Box::new(e1.assign(e, v)), Box::new(e2.assign(e, v)))
            },
            AST::Abs(v2, e2) => {
                if *v2 == *v {
                    self.clone()
                } else {
                    if e.free(v2) {
                        let new_v = e.new_variable();
                        let renamed = e2.assign(&AST::Var(new_v.clone()), v2);
                        proof {
                            lemma_subst_fuel(e2@, Term::Var(new_v@), v2@,
                                (self@.size() - 1) as nat, e2@.size());
                            lemma_subst_var_size(e2@, new_v@, v2@, e2@.size());
                            lemma_subst_fuel(renamed@, e@, v@,
                                (self@.size() - 1) as nat, renamed@.size());
                        }
                        AST::Abs(new_v, Box::new(renamed.assign(e, v)))
                    } else {
                        proof {
                            lemma_subst_fuel(e2@, e@, v@, (self@.size() - 1) as nat, e2@.size());
                        }
                        AST::Abs(v2.clone(), Box::new(e2.assign(e, v)))
                    }
                }
            },
        }
    }
}

/// No part of `t` is touched by substituting `e` for `v`: every variable
/// hit by the substitution is shadowed, and no binder in scope of the
/// substitution needs renaming because it occurs free in `e`.
pub open spec fn untouched_by(t: Term, e: Term, v: Seq<char>) -> bool
    decreases t,
{
    match t {
        Term::Var(v2) => v2 != v,
        Term::App(e1, e2) => untouched_by(*e1, e, v) && untouched_by(*e2, e, v),
        Term::Abs(v2, body) => v2 == v || (!e.free_in(v2) && untouched_by(*body, e, v)),
    }
}

/// Substituting a name that does not occur free leaves the term
/// structurally unchanged, provided no binder of the term occurs free in
/// the replacement (such a binder is renamed even when nothing is
/// substituted under it, so the term would change).
pub proof fn lemma_subst_identity(t: Term, e: Term, v: Seq<char>)
    requires
        !t.free_in(v),
        untouched_by(t, e, v),
    ensures
        t.subst(e, v) == t,
    decreases t,
{
    let sz = t.size();
    match t {
        Term::Var(_) => {},
        Term::App(e1, e2) => {
            lemma_subst_fuel(*e1, e, v, (sz - 1) as nat, (*e1).size());
            lemma_subst_fuel(*e2, e, v, (sz - 1) as nat, (*e2).size());
            lemma_subst_identity(*e1, e, v);
            lemma_subst_identity(*e2, e, v);
        },
        Term::Abs(v2, body) => {
            if v2 != v {
                lemma_subst_fuel(*body, e, v, (sz - 1) as nat, (*body).size());
                lemma_subst_identity(*body, e, v);
            }
        },
    }
}

/// Substituting into an abstraction whose parameter occurs free in the
/// replacement never introduces a binding that captures a name free in the
/// replacement: the binder of the result does not occur free in the
/// replacement.
pub proof fn lemma_subst_avoids_capture(v2: Seq<char>, body: Term, e: Term, u: Seq<char>)
    requires
        u != v2,
        e.free_in(v2),
    ensures
        Term::Abs(v2, Box::new(body)).subst(e, u) matches Term::Abs(w, b) && !e.free_in(w),
{
    lemma_fresh_exists(e);
    let t = Term::Abs(v2, Box::new(body));
    assert(t.size() >= 1);
}

} // verus!
