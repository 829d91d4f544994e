//! Terms of the untyped lambda calculus: the executable tree, its
//! mathematical model, free-variable analysis, and capture-avoiding
//! substitution.

use vstd::prelude::*;
use crate::names::{var_name, fresh_idx, is_fresh_idx, lemma_fresh_exists, lemma_fresh_unique,
    push_char, push_decimal};

verus! {

/// The names of a vector of strings, as character sequences.
pub open spec fn names_view(s: Seq<String>) -> Seq<Seq<char>> {
    s.map_values(|x: String| x@)
}

/// The free occurrences among the first `i` entries of the occurrence list
/// of `t`: those whose name occurs free somewhere in the whole of `t`.
pub open spec fn free_prefix(t: Term, i: int) -> Seq<Seq<char>>
    decreases i,
{
    if i <= 0 {
        Seq::empty()
    } else {
        let rest = free_prefix(t, i - 1);
        if i - 1 < t.occurrences().len() && t.free_in(t.occurrences()[i - 1]) {
            rest.push(t.occurrences()[i - 1])
        } else {
            rest
        }
    }
}

/// Mathematical model of a lambda term. Names are modeled as character
/// sequences; the tree is finite and immutable.
pub enum Term {
    Var(Seq<char>),
    App(Box<Term>, Box<Term>),
    Abs(Seq<char>, Box<Term>),
}

/// Mathematical model of a top-level statement: a `let`-bound expression
/// or a bare expression.
pub enum Stmt {
    Let(Seq<char>, Term),
    Exp(Term),
}

impl Stmt {
    /// The expression carried by a statement (the `let`-bound name, if any,
    /// is discarded by every consumer).
    pub open spec fn expr(self) -> Term {
        match self {
            Stmt::Let(_, e) => e,
            Stmt::Exp(e) => e,
        }
    }
}

/// Executable lambda term: a variable, an application, or an abstraction.
#[derive(Debug, PartialEq)]
pub enum AST {
    Var(String),
    App(Box<AST>, Box<AST>),
    Abs(String, Box<AST>),
}

impl View for AST {
    type V = Term;

    open spec fn view(&self) -> Term
        decreases self,
    {
        match self {
            AST::Var(s) => Term::Var(s@),
            AST::App(e1, e2) => Term::App(Box::new((**e1)@), Box::new((**e2)@)),
            AST::Abs(s, e) => Term::Abs(s@, Box::new((**e)@)),
        }
    }
}

impl Clone for AST {
    fn clone(&self) -> (r: AST)
        ensures
            r@ == self@,
        decreases self,
    {
        match self {
            AST::Var(s) => AST::Var(s.clone()),
            AST::App(e1, e2) => AST::App(Box::new((**e1).clone()), Box::new((**e2).clone())),
            AST::Abs(s, e) => AST::Abs(s.clone(), Box::new((**e).clone())),
        }
    }
}

/// Executable top-level statement produced by one parse call.
#[derive(Debug, PartialEq)]
pub enum Stat {
    Let(String, Box<AST>),
    Exp(Box<AST>),
}

impl View for Stat {
    type V = Stmt;

    open spec fn view(&self) -> Stmt {
        match self {
            Stat::Let(s, e) => Stmt::Let(s@, (**e)@),
            Stat::Exp(e) => Stmt::Exp((**e)@),
        }
    }
}

impl Stat {
    /// Extracts the expression of a statement; a `Let`'s bound name is
    /// dropped.
    pub fn get_expr(&self) -> (r: AST)
        ensures
            r@ == self@.expr(),
    {
        match self {
            Stat::Let(_, e) => (**e).clone(),
            Stat::Exp(e) => (**e).clone(),
        }
    }
}

impl Term {
    /// Number of nodes in the term tree.
    pub open spec fn size(self) -> nat
        decreases self,
    {
        match self {
            Term::Var(_) => 1,
            Term::App(e1, e2) => 1 + (*e1).size() + (*e2).size(),
            Term::Abs(_, e) => 1 + (*e).size(),
        }
    }

    /// Does `v` occur free in the term, i.e. at least once outside every
    /// abstraction that binds `v`?
    pub open spec fn free_in(self, v: Seq<char>) -> bool
        decreases self,
    {
        match self {
            Term::Var(v2) => v2 == v,
            Term::App(e1, e2) => (*e1).free_in(v) || (*e2).free_in(v),
            Term::Abs(v2, e) => v2 != v && (*e).free_in(v),
        }
    }

    /// Every variable occurrence in the term, bound or free, in
    /// left-to-right order.
    pub open spec fn occurrences(self) -> Seq<Seq<char>>
        decreases self,
    {
        match self {
            Term::Var(v) => seq![v],
            Term::App(e1, e2) => (*e1).occurrences() + (*e2).occurrences(),
            Term::Abs(_, e) => (*e).occurrences(),
        }
    }

    /// The free occurrences of the term: every occurrence whose name occurs
    /// free somewhere in the whole term.
    pub open spec fn free_occurrences(self) -> Seq<Seq<char>> {
        free_prefix(self, self.occurrences().len() as int)
    }
}

impl AST {
    /// Appends every variable occurrence of the term to `vars`, in
    /// left-to-right order.
    pub fn variables(&self, vars: &mut Vec<String>)
        ensures
            names_view(final(vars)@) == names_view(old(vars)@) + self@.occurrences(),
        decreases self,
    {
        match self {
            AST::Var(v) => {
                vars.push(v.clone());
                proof {
                    assert(names_view(vars@) =~= names_view(old(vars)@) + self@.occurrences());
                }
            },
            AST::App(e1, e2) => {
                e1.variables(vars);
                e2.variables(vars);
                proof {
                    assert(names_view(vars@) =~= names_view(old(vars)@) + self@.occurrences());
                }
            },
            AST::Abs(_, e) => {
                e.variables(vars);
            },
        }
    }

    /// Appends every free occurrence of the term to `free_vars`: each
    /// occurrence of each name that occurs free in the whole term.
    pub fn free_variables(&self, free_vars: &mut Vec<String>)
        ensures
            names_view(final(free_vars)@) == names_view(old(free_vars)@)
                + self@.free_occurrences(),
    {
        let mut vars: Vec<String> = Vec::new();
        self.variables(&mut vars);
        proof {
            assert(names_view(vars@) =~= self@.occurrences());
        }
        let n = vars.len();
        let mut i: usize = 0;
        while i < n
            invariant
                i <= n,
                n == vars.len(),
                names_view(vars@) == self@.occurrences(),
                names_view(free_vars@) == names_view(old(free_vars)@)
                    + free_prefix(self@, i as int),
            decreases n - i,
        {
            let ghost occ = self@.occurrences();
            let ghost prev = free_vars@;
            let v = &vars[i];
            let is_free = self.free(v);
            if is_free {
                free_vars.push(v.clone());
            }
            proof {
                assert(names_view(vars@).len() == vars@.len());
                assert(occ[i as int] == names_view(vars@)[i as int]);
                assert(vars@[i as int]@ == occ[i as int]);
                assert(free_prefix(self@, i + 1) == if self@.free_in(occ[i as int]) {
                    free_prefix(self@, i as int).push(occ[i as int])
                } else {
                    free_prefix(self@, i as int)
                });
                if is_free {
                    assert(free_vars@ == prev.push(vars@[i as int]));
                    assert(names_view(free_vars@) =~= names_view(prev).push(occ[i as int]));
                } else {
                    assert(free_vars@ == prev);
                }
                assert(names_view(free_vars@) =~= names_view(old(free_vars)@)
                    + free_prefix(self@, i + 1));
            }
            i = i + 1;
        }
    }

    /// The first name in the sequence `v0, v1, v2, ...` that does not occur
    /// free in the term.
    pub(crate) fn new_variable(&self) -> (r: String)
        ensures
            r@ == var_name(fresh_idx(self@)),
            is_fresh_idx(self@, fresh_idx(self@)),
    {
        proof {
            lemma_fresh_exists(self@);
        }
        let ghost f = fresh_idx(self@);
        let mut vars: Vec<String> = Vec::new();
        self.variables(&mut vars);
        proof {
            assert(names_view(vars@) =~= self@.occurrences());
            assert(vars@.len() == self@.occurrences().len());
        }
        let bound = vars.len();
        let mut i: usize = 0;
        loop
            invariant
                f == fresh_idx(self@),
                is_fresh_idx(self@, f),
                i as nat <= f,
                f <= bound as nat,
                forall|j: nat| j < i as nat ==> self@.free_in(var_name(j)),
            decreases f - i as nat,
        {
            let mut name = String::new();
            push_char(&mut name, 'v');
            push_decimal(&mut name, i as u64);
            proof {
                assert(name@ =~= var_name(i as nat));
            }
            if !self.free(&name) {
                proof {
                    assert(is_fresh_idx(self@, i as nat));
                    lemma_fresh_unique(self@, i as nat, f);
                }
                return name;
            }
            proof {
                if i as nat == f {
                    assert(self@.free_in(var_name(f)));
                    assert(false);
                }
            }
            i = i + 1;
        }
    }

    /// Does `v` occur free in this term?
    pub(crate) fn free(&self, v: &String) -> (r: bool)
        ensures
            r == self@.free_in(v@),
        decreases self,
    {
        match self {
            AST::Var(v2) => *v2 == *v,
            AST::App(e1, e2) => e1.free(v) || e2.free(v),
            AST::Abs(v2, e) => if *v2 == *v {
                false
            } else {
                e.free(v)
            },
        }
    }
}

} // verus!
