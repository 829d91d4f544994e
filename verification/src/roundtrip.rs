//! Printing is unambiguous: the token sequence of a printed term parses
//! back to exactly that term. Tokens carry names opaquely, so this holds
//! for every term; the scenarios in the test suite exercise the remaining
//! character-level step (tokenizing a printed term).

use vstd::prelude::*;
use crate::ast::{Stmt, Term};
use crate::parser::{Tok, alphabetic, alphanumeric, app_combine, ident_end, parse_fuel, parse_stmt,
    parse_view, pexpr, pterm, scan, scan_params, spaces_end, lemma_pexpr_fuel, lemma_pterm_fuel};

verus! {

/// The token sequence of the printed form of `t`.
pub open spec fn ptoks(t: Term) -> Seq<Tok>
    decreases t, 0int,
{
    match t {
        Term::Var(v) => seq![Tok::Var(v)],
        Term::App(e1, e2) => wtoks(*e1) + wtoks(*e2),
        Term::Abs(v, e) => seq![Tok::Abs(v)] + ptoks(*e),
    }
}

/// The token sequence of one side of a printed application: a bare variable
/// stands alone, anything else is wrapped in parentheses.
pub open spec fn wtoks(t: Term) -> Seq<Tok>
    decreases t, 1int,
{
    if t is Var {
        ptoks(t)
    } else {
        seq![Tok::Lpar] + ptoks(t) + seq![Tok::Rpar]
    }
}

/// A printed term starts with a variable, an opening parenthesis, or an
/// abstraction parameter; never with a `let` or a closing parenthesis.
proof fn lemma_ptoks_shape(t: Term)
    ensures
        ptoks(t).len() >= 1,
        ptoks(t)[0] is Var || ptoks(t)[0] is Lpar || ptoks(t)[0] is Abs,
    decreases t,
{
    match t {
        Term::Var(_) => {},
        Term::App(e1, e2) => {
            lemma_ptoks_shape(*e1);
            assert(ptoks(t)[0] == wtoks(*e1)[0]);
            if *e1 is Var {
            } else {
                assert(wtoks(*e1)[0] == Tok::Lpar);
            }
        },
        Term::Abs(_, _) => {},
    }
}

/// Parsing one term out of a token sequence that holds a wrapped printed
/// term at position `i` yields exactly that term and stops just past it.
proof fn lemma_pterm_prints(t: Term, toks: Seq<Tok>, i: nat)
    requires
        i + wtoks(t).len() <= toks.len(),
        toks.subrange(i as int, (i + wtoks(t).len()) as int) == wtoks(t),
    ensures
        pterm(toks, i, parse_fuel(toks)) == (Some(t), (i + wtoks(t).len()) as nat),
    decreases t, 1int,
{
    let fuel = parse_fuel(toks);
    let w = wtoks(t);
    if t is Var {
        assert(toks.subrange(i as int, (i + w.len()) as int)[0] == toks[i as int]);
        assert(toks[i as int] == w[0]);
    } else {
        let p = ptoks(t);
        assert(toks.subrange(i as int, (i + w.len()) as int)[0] == toks[i as int]);
        assert(toks[i as int] == w[0]);
        assert(w[0] == Tok::Lpar);
        let j = (i + 1 + p.len()) as nat;
        assert(toks.subrange((i + 1) as int, j as int) =~= p) by {
            assert forall|k: int| 0 <= k < p.len() implies toks.subrange((i + 1) as int, j as int)[k]
                == p[k] by {
                assert(toks[i + 1 + k] == w[1 + k]);
                assert(w[1 + k] == p[k]);
            }
        }
        assert(toks[j as int] == w[w.len() - 1]);
        assert(toks[j as int] is Rpar);
        lemma_pexpr_prints(t, toks, (i + 1) as nat);
        lemma_pexpr_fuel(toks, (i + 1) as nat, None, (fuel - 1) as nat, fuel);
        assert(pterm(toks, i, fuel) == (Some(t), (j + 1) as nat));
    }
}

/// Parsing an expression out of a token sequence that holds a printed term
/// at position `i`, delimited by a closing parenthesis or the end of the
/// tokens, yields exactly that term and stops at the delimiter.
proof fn lemma_pexpr_prints(t: Term, toks: Seq<Tok>, i: nat)
    requires
        i + ptoks(t).len() <= toks.len(),
        toks.subrange(i as int, (i + ptoks(t).len()) as int) == ptoks(t),
        i + ptoks(t).len() == toks.len() || toks[(i + ptoks(t).len()) as int] is Rpar,
    ensures
        pexpr(toks, i, None, parse_fuel(toks)) == (Some(t), (i + ptoks(t).len()) as nat),
    decreases t, 0int,
{
    let fuel = parse_fuel(toks);
    let p = ptoks(t);
    let end = (i + p.len()) as nat;
    lemma_ptoks_shape(t);
    assert(toks.subrange(i as int, end as int)[0] == toks[i as int]);
    assert(toks[i as int] == p[0]);
    match t {
        Term::Var(v) => {
            lemma_pterm_fuel(toks, i, (fuel - 1) as nat, fuel);
            assert(pterm(toks, i, fuel) == (Some(t), (i + 1) as nat));
            lemma_pexpr_fuel(toks, (i + 1) as nat, Some(t), (fuel - 1) as nat, fuel);
            assert(pexpr(toks, (i + 1) as nat, Some(t), fuel) == (Some(t), (i + 1) as nat));
        },
        Term::App(e1, e2) => {
            let w1 = wtoks(*e1);
            let w2 = wtoks(*e2);
            let mid = (i + w1.len()) as nat;
            assert(toks.subrange(i as int, mid as int) =~= w1) by {
                assert forall|k: int| 0 <= k < w1.len() implies toks.subrange(
                    i as int,
                    mid as int,
                )[k] == w1[k] by {
                    assert(toks[i + k] == p[k]);
                    assert(p[k] == w1[k]);
                }
            }
            assert(toks.subrange(mid as int, end as int) =~= w2) by {
                assert forall|k: int| 0 <= k < w2.len() implies toks.subrange(
                    mid as int,
                    end as int,
                )[k] == w2[k] by {
                    assert(toks[mid + k] == p[w1.len() + k]);
                    assert(p[w1.len() + k] == w2[k]);
                }
            }
            lemma_ptoks_shape(*e1);
            lemma_ptoks_shape(*e2);
            assert(toks[i as int] == w1[0]);
            assert(toks[mid as int] == w2[0]);
            if *e1 is Var {
                assert(w1[0] == ptoks(*e1)[0]);
            } else {
                assert(w1[0] == Tok::Lpar);
            }
            if *e2 is Var {
                assert(w2[0] == ptoks(*e2)[0]);
            } else {
                assert(w2[0] == Tok::Lpar);
            }
            lemma_pterm_prints(*e1, toks, i);
            lemma_pterm_fuel(toks, i, (fuel - 1) as nat, fuel);
            lemma_pterm_prints(*e2, toks, mid);
            lemma_pterm_fuel(toks, mid, (fuel - 1) as nat, fuel);
            lemma_pexpr_fuel(toks, mid, Some(*e1), (fuel - 1) as nat, fuel);
            assert(app_combine(Some(*e1), *e2) == t);
            lemma_pexpr_fuel(toks, end, Some(t), (fuel - 1) as nat, fuel);
            assert(pexpr(toks, end, Some(t), fuel) == (Some(t), end));
            assert(pexpr(toks, mid, Some(*e1), fuel) == (Some(t), end));
        },
        Term::Abs(v, e) => {
            let pb = ptoks(*e);
            assert(toks.subrange((i + 1) as int, end as int) =~= pb) by {
                assert forall|k: int| 0 <= k < pb.len() implies toks.subrange(
                    (i + 1) as int,
                    end as int,
                )[k] == pb[k] by {
                    assert(toks[i + 1 + k] == p[1 + k]);
                    assert(p[1 + k] == pb[k]);
                }
            }
            lemma_pexpr_prints(*e, toks, (i + 1) as nat);
            lemma_pexpr_fuel(toks, (i + 1) as nat, None, (fuel - 1) as nat, fuel);
            assert(app_combine(None, Term::Abs(v, Box::new(*e))) == t);
            lemma_pexpr_fuel(toks, end, Some(t), (fuel - 1) as nat, fuel);
            assert(pexpr(toks, end, Some(t), fuel) == (Some(t), end));
        },
    }
}

/// Printing is unambiguous at the token level: the token sequence of any
/// printed term parses back to a bare-expression statement holding exactly
/// that term.
pub proof fn lemma_parse_inverts_printing(t: Term)
    ensures
        parse_stmt(ptoks(t)) == Some(Stmt::Exp(t)),
{
    let toks = ptoks(t);
    lemma_ptoks_shape(t);
    assert(toks.subrange(0, toks.len() as int) =~= toks);
    lemma_pexpr_prints(t, toks, 0);
}


/// What the character classification, left open by `alphabetic` and
/// `alphanumeric`, must say of the five punctuation characters of the
/// surface syntax; the standard library documents all five as neither
/// letters nor digits.
pub open spec fn punctuation_not_alphanumeric() -> bool {
    &&& !alphanumeric('.')
    &&& !alphanumeric(' ')
    &&& !alphanumeric('(')
    &&& !alphanumeric(')')
    &&& !alphabetic('(')
    &&& !alphabetic(')')
    &&& !alphabetic(' ')
    &&& !alphabetic('\\')
}

/// A name that lexes back as one `Var` token: nonempty, a letter first,
/// letters and digits throughout, and not the reserved word `let`.
pub open spec fn valid_var_name(s: Seq<char>) -> bool {
    &&& s.len() >= 1
    &&& alphabetic(s[0])
    &&& (forall|k: int| 0 <= k < s.len() ==> alphanumeric(#[trigger] s[k]))
    &&& s != "let"@
}

/// A parameter name that lexes back as one `Abs` token: nonempty, letters
/// and digits throughout.
pub open spec fn valid_param(s: Seq<char>) -> bool {
    &&& s.len() >= 1
    &&& (forall|k: int| 0 <= k < s.len() ==> alphanumeric(#[trigger] s[k]))
}

/// Every name in the term lexes back as one token.
pub open spec fn names_ok(t: Term) -> bool
    decreases t,
{
    match t {
        Term::Var(v) => valid_var_name(v),
        Term::App(e1, e2) => names_ok(*e1) && names_ok(*e2),
        Term::Abs(v, e) => valid_param(v) && names_ok(*e),
    }
}

/// The printed form of one side of an application: a bare variable stands
/// alone, anything else is wrapped in parentheses.
pub open spec fn wprint(t: Term) -> Seq<char>
    decreases t, 1int,
{
    if t is Var {
        t.printed()
    } else {
        seq!['('] + t.printed() + seq![')']
    }
}

/// A run of alphanumeric characters ends exactly at the first position that
/// is past the end of the input or not alphanumeric.
proof fn lemma_ident_end_exact(cs: Seq<char>, a: nat, b: nat)
    requires
        a <= b <= cs.len(),
        forall|k: int| a <= k < b ==> alphanumeric(#[trigger] cs[k]),
        b == cs.len() || !alphanumeric(cs[b as int]),
    ensures
        ident_end(cs, a) == b,
    decreases b - a,
{
    if a < b {
        lemma_ident_end_exact(cs, a + 1, b);
    }
}


/// Scanning a printed term at `i` produces its tokens and goes on behind
/// it: one step of the whole scan, provided the character just behind the
/// printed term (if any) is not alphanumeric, so that a trailing name does
/// not merge with what follows.
proof fn lemma_scan_printed(t: Term, cs: Seq<char>, i: nat)
    requires
        punctuation_not_alphanumeric(),
        names_ok(t),
        i + t.printed().len() <= cs.len(),
        cs.subrange(i as int, (i + t.printed().len()) as int) == t.printed(),
        i + t.printed().len() == cs.len() || !alphanumeric(cs[(i + t.printed().len()) as int]),
    ensures
        scan(cs, i) == (match scan(cs, (i + t.printed().len()) as nat) {
            Ok(rest) => Ok::<Seq<Tok>, (Seq<char>, nat)>(ptoks(t) + rest),
            Err(e) => Err(e),
        }),
    decreases t, 0int,
{
    let p = t.printed();
    let end = (i + p.len()) as nat;
    assert forall|k: int| 0 <= k < p.len() implies cs[i + k] == p[k] by {
        assert(cs.subrange(i as int, end as int)[k] == cs[i + k]);
    }
    match t {
        Term::Var(v) => {
            assert(p == v);
            assert(cs[i as int] == p[0]) by {
                assert(cs[i as int + 0] == p[0]);
            }
            assert(alphabetic(cs[i as int]));
            assert(cs[i as int] != '\\');
            assert forall|k: int| i + 1 <= k < end implies alphanumeric(#[trigger] cs[k]) by {
                assert(cs[i + (k - i)] == p[k - i]);
            }
            lemma_ident_end_exact(cs, (i + 1) as nat, end);
            assert(ident_end(cs, (i + 1) as nat) == end);
            assert(cs.subrange(i as int, end as int) == v);
        },
        Term::App(e1, e2) => {
            let w1 = wprint(*e1);
            let w2 = wprint(*e2);
            assert(p =~= w1 + seq![' '] + w2);
            let mid = (i + w1.len()) as nat;
            assert(cs.subrange(i as int, mid as int) =~= w1) by {
                assert forall|k: int| 0 <= k < w1.len() implies cs.subrange(
                    i as int,
                    mid as int,
                )[k] == w1[k] by {
                    assert(cs[i + k] == p[k]);
                    assert((w1 + seq![' '] + w2)[k] == w1[k]);
                }
            }
            assert(cs[mid as int] == ' ') by {
                assert(cs[i as int + w1.len() as int] == p[w1.len() as int]);
                assert((w1 + seq![' '] + w2)[w1.len() as int] == ' ');
            }
            assert(cs.subrange((mid + 1) as int, end as int) =~= w2) by {
                assert forall|k: int| 0 <= k < w2.len() implies cs.subrange(
                    (mid + 1) as int,
                    end as int,
                )[k] == w2[k] by {
                    assert(cs[i as int + w1.len() as int + 1 + k] == p[w1.len() as int + 1 + k]);
                    assert((w1 + seq![' '] + w2)[w1.len() as int + 1 + k] == w2[k]);
                }
            }
            lemma_scan_wrapped(*e1, cs, i);
            lemma_scan_wrapped(*e2, cs, (mid + 1) as nat);
            assert(cs[mid as int] != '\\');
            assert(!alphabetic(cs[mid as int]));
            assert(scan(cs, mid) == scan(cs, (mid + 1) as nat));
            if let Ok(rest) = scan(cs, end) {
                assert(wtoks(*e1) + (wtoks(*e2) + rest) =~= ptoks(t) + rest);
            }
        },
        Term::Abs(v, e) => {
            let pb = (*e).printed();
            let q1 = seq!['\\'] + v;
            let q2 = q1 + seq!['.'];
            assert(p =~= q2 + pb);
            let j = (i + 1 + v.len()) as nat;
            assert(cs[i as int] == '\\') by {
                assert(cs[i as int + 0] == p[0]);
                assert((q2 + pb)[0] == q2[0]);
                assert(q2[0] == q1[0]);
            }
            assert(cs[j as int] == '.') by {
                assert(cs[i as int + 1 + v.len() as int] == p[1 + v.len() as int]);
                assert((q2 + pb)[1 + v.len() as int] == q2[1 + v.len() as int]);
            }
            assert forall|k: int| i + 1 <= k < j implies alphanumeric(#[trigger] cs[k]) by {
                assert(cs[i + (k - i)] == p[k - i]);
                assert((q2 + pb)[k - i] == q2[k - i]);
                assert(q2[k - i] == q1[k - i]);
                assert(q1[k - i] == v[k - i - 1]);
            }
            lemma_ident_end_exact(cs, (i + 1) as nat, j);
            assert(cs.subrange((i + 1) as int, j as int) =~= v) by {
                assert forall|k: int| 0 <= k < v.len() implies cs.subrange(
                    (i + 1) as int,
                    j as int,
                )[k] == v[k] by {
                    assert(cs[i as int + 1 + k] == p[1 + k]);
                    assert((q2 + pb)[1 + k] == q2[1 + k]);
                    assert(q2[1 + k] == q1[1 + k]);
                    assert(q1[1 + k] == v[k]);
                }
            }
            assert(spaces_end(cs, j) == j);
            assert(scan_params(cs, (i + 1) as nat) == Ok::<(Seq<Tok>, nat), (Seq<char>, nat)>((
                seq![Tok::Abs(v)],
                (j + 1) as nat,
            )));
            assert(cs.subrange((j + 1) as int, end as int) =~= pb) by {
                assert forall|k: int| 0 <= k < pb.len() implies cs.subrange(
                    (j + 1) as int,
                    end as int,
                )[k] == pb[k] by {
                    assert(cs[i as int + 2 + v.len() as int + k] == p[2 + v.len() as int + k]);
                    assert((q2 + pb)[2 + v.len() as int + k] == pb[k]);
                }
            }
            lemma_scan_printed(*e, cs, (j + 1) as nat);
            if let Ok(rest) = scan(cs, end) {
                assert(seq![Tok::Abs(v)] + (ptoks(*e) + rest) =~= ptoks(t) + rest);
            }
        },
    }
}

/// Scanning one printed side of an application at `i`: a bare variable
/// scans as itself, anything else as its tokens between parentheses.
proof fn lemma_scan_wrapped(t: Term, cs: Seq<char>, i: nat)
    requires
        punctuation_not_alphanumeric(),
        names_ok(t),
        i + wprint(t).len() <= cs.len(),
        cs.subrange(i as int, (i + wprint(t).len()) as int) == wprint(t),
        i + wprint(t).len() == cs.len() || !alphanumeric(cs[(i + wprint(t).len()) as int]),
    ensures
        scan(cs, i) == (match scan(cs, (i + wprint(t).len()) as nat) {
            Ok(rest) => Ok::<Seq<Tok>, (Seq<char>, nat)>(wtoks(t) + rest),
            Err(e) => Err(e),
        }),
    decreases t, 1int,
{
    let w = wprint(t);
    let end = (i + w.len()) as nat;
    if t is Var {
        lemma_scan_printed(t, cs, i);
    } else {
        let p = t.printed();
        let q1 = seq!['('] + p;
        assert(w =~= q1 + seq![')']);
        assert forall|k: int| 0 <= k < w.len() implies cs[i + k] == w[k] by {
            assert(cs.subrange(i as int, end as int)[k] == cs[i + k]);
        }
        let j = (i + 1 + p.len()) as nat;
        assert(cs[i as int] == '(') by {
            assert(cs[i as int + 0] == w[0]);
            assert((q1 + seq![')'])[0] == q1[0]);
        }
        assert(cs[j as int] == ')') by {
            assert(cs[i as int + 1 + p.len() as int] == w[1 + p.len() as int]);
            assert((q1 + seq![')'])[1 + p.len() as int] == ')');
        }
        assert(cs.subrange((i + 1) as int, j as int) =~= p) by {
            assert forall|k: int| 0 <= k < p.len() implies cs.subrange(
                (i + 1) as int,
                j as int,
            )[k] == p[k] by {
                assert(cs[i as int + 1 + k] == w[1 + k]);
                assert((q1 + seq![')'])[1 + k] == q1[1 + k]);
                assert(q1[1 + k] == p[k]);
            }
        }
        assert(cs[i as int] != '\\');
        assert(!alphabetic(cs[i as int]));
        lemma_scan_printed(t, cs, (i + 1) as nat);
        assert(cs[j as int] != '\\');
        assert(!alphabetic(cs[j as int]));
        assert(scan(cs, j) == (match scan(cs, (j + 1) as nat) {
            Ok(rest) => Ok::<Seq<Tok>, (Seq<char>, nat)>(seq![Tok::Rpar] + rest),
            Err(e) => Err(e),
        }));
        if let Ok(rest) = scan(cs, end) {
            assert(seq![Tok::Lpar] + (ptoks(t) + (seq![Tok::Rpar] + rest)) =~= wtoks(t) + rest);
        }
    }
}

/// Printing is unambiguous: the printed form of any term whose names lex
/// back as single tokens parses back to a bare-expression statement holding
/// exactly that term, whenever the character classification behaves as
/// documented on the punctuation of the surface syntax.
pub proof fn lemma_print_parse_round_trip(t: Term)
    requires
        punctuation_not_alphanumeric(),
        names_ok(t),
    ensures
        parse_view(t.printed()) == Some(Stmt::Exp(t)),
{
    let cs = t.printed();
    assert(cs.subrange(0, cs.len() as int) =~= cs);
    lemma_scan_printed(t, cs, 0);
    assert(scan(cs, cs.len()) == Ok::<Seq<Tok>, (Seq<char>, nat)>(Seq::empty()));
    assert(ptoks(t) + Seq::<Tok>::empty() =~= ptoks(t));
    lemma_parse_inverts_printing(t);
}

} // verus!
