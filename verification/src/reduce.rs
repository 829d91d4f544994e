//! Normal-order reduction: the redex test, the single-step rewriting rule,
//! and the driver loop that steps until a normal form is reached or the
//! wall-clock budget expires.

use vstd::prelude::*;
use std::time::Instant;
use crate::ast::{AST, Term};

verus! {

impl Term {
    /// Does the term contain a redex: an application whose function position
    /// is an abstraction?
    pub open spec fn has_redex(self) -> bool
        decreases self,
    {
        match self {
            Term::Var(_) => false,
            Term::App(e1, e2) => (*e1) is Abs || (*e1).has_redex() || (*e2).has_redex(),
            Term::Abs(_, e) => (*e).has_redex(),
        }
    }

    /// One step of normal-order (leftmost-outermost) reduction: an
    /// application of an abstraction contracts at once; otherwise the
    /// function side is stepped if it still has a redex, else the argument;
    /// an abstraction steps its body. A term without a redex is unchanged.
    pub open spec fn step(self) -> Term
        decreases self,
    {
        match self {
            Term::Var(_) => self,
            Term::App(e1, e2) => match *e1 {
                Term::Abs(v, body) => (*body).subst(*e2, v),
                _ => if (*e1).has_redex() {
                    Term::App(Box::new((*e1).step()), e2)
                } else {
                    Term::App(e1, Box::new((*e2).step()))
                },
            },
            Term::Abs(v, e) => Term::Abs(v, Box::new((*e).step())),
        }
    }
}

/// The term after `n` steps of normal-order reduction from `t`.
pub open spec fn step_n(t: Term, n: nat) -> Term
    decreases n,
{
    if n == 0 {
        t
    } else {
        step_n(t, (n - 1) as nat).step()
    }
}

/// A term without a redex is a fixed point of stepping: reduction changes
/// nothing once a beta-normal form is reached.
pub proof fn lemma_step_of_normal_form(t: Term)
    requires
        !t.has_redex(),
    ensures
        t.step() == t,
    decreases t,
{
    match t {
        Term::Var(_) => {},
        Term::App(e1, e2) => {
            lemma_step_of_normal_form(*e2);
        },
        Term::Abs(_, e) => {
            lemma_step_of_normal_form(*e);
        },
    }
}

/// Stepping is a pure function of the term: equal terms step to equal
/// terms, however often, so reduction is deterministic.
pub proof fn lemma_step_deterministic(t1: Term, t2: Term, n: nat)
    requires
        t1 == t2,
    ensures
        step_n(t1, n) == step_n(t2, n),
{
}

#[verifier::external_type_specification]
#[verifier::external_body]
pub struct ExInstant(Instant);

/// Relies on `std::time::Instant::now`: an opaque reading of a monotonic
/// clock, usable only through `deadline_passed`.
#[verifier::external_body]
fn clock_start() -> Instant {
    Instant::now()
}

/// Relies on `Instant::elapsed` and `Duration::from_secs`: whether at least
/// `limitsec` seconds have passed since `start` was read. The result depends
/// on the wall clock, so nothing is promised of it.
#[verifier::external_body]
fn deadline_passed(start: &Instant, limitsec: u64) -> bool {
    start.elapsed() >= std::time::Duration::from_secs(limitsec)
}

impl AST {
    /// Does the term contain a redex?
    pub fn reductive(&self) -> (r: bool)
        ensures
            r == self@.has_redex(),
        decreases self,
    {
        match self {
            AST::Var(_) => false,
            AST::App(e1, e2) => match &**e1 {
                AST::Abs(_, _) => true,
                _ => e1.reductive() || e2.reductive(),
            },
            AST::Abs(_, e) => e.reductive(),
        }
    }

    /// One step of normal-order reduction; a fresh tree.
    pub fn step(&self) -> (r: AST)
        ensures
            r@ == self@.step(),
        decreases self,
    {
        match self {
            AST::Var(_) => self.clone(),
            AST::App(e1, e2) => match &**e1 {
                AST::Abs(v, body) => {
                    let r = body.assign(e2, v);
                    proof {
                        assert((**e1)@ == Term::Abs(v@, Box::new((**body)@)));
                        assert(self@ == Term::App(Box::new((**e1)@), Box::new((**e2)@)));
                    }
                    r
                },
                _ => if e1.reductive() {
                    AST::App(Box::new(e1.step()), Box::new((**e2).clone()))
                } else {
                    AST::App(Box::new((**e1).clone()), Box::new(e2.step()))
                },
            },
            AST::Abs(v, e) => AST::Abs(v.clone(), Box::new(e.step())),
        }
    }

    /// Steps the term until it has no redex or until `limitsec` seconds of
    /// wall-clock time have passed. A returned term is a beta-normal form
    /// reached from this term by finitely many normal-order steps; `None`
    /// means the budget expired first. The first step is taken before the
    /// clock is consulted, so a term whose first step already reaches a
    /// normal form is always reduced.
    pub fn beta_reduction(&self, limitsec: u64) -> (r: Option<AST>)
        ensures
            match r {
                Some(t) => !t@.has_redex() && exists|n: nat| 1 <= n && t@ == step_n(self@, n),
                None => true,
            },
            !self@.step().has_redex() ==> r is Some,
    {
        proof {
            assert(step_n(self@, 0) == self@);
            assert(step_n(self@, 1) == self@.step());
        }
        let mut e = self.step();
        let ghost mut n: nat = 1;
        let mut fuel: u64 = u64::MAX;
        let start = clock_start();
        loop
            invariant
                n >= 1,
                e@ == step_n(self@, n),
                n > 1 ==> self@.step().has_redex(),
            decreases fuel,
        {
            proof {
                assert(step_n(self@, 0) == self@);
                assert(step_n(self@, 1) == self@.step());
            }
            if !e.reductive() {
                proof {
                    assert(1 <= n && e@ == step_n(self@, n));
                }
                return Some(e);
            }
            if fuel == 0 || deadline_passed(&start, limitsec) {
                proof {
                    if !self@.step().has_redex() {
                        assert(n == 1);
                        assert(e@ == self@.step());
                        assert(false);
                    }
                }
                return None;
            }
            fuel = fuel - 1;
            e = e.step();
            proof {
                n = n + 1;
            }
        }
    }
}

} // verus!
