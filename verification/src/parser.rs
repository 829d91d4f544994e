//! Tokenizer and recursive-descent parser for lambda-calculus input lines.

use vstd::prelude::*;
use vstd::string::{StrSliceExecFns, StringExecFns};
use crate::names::{decimal, push_char, push_decimal};
use crate::ast::{AST, Stat, Stmt, Term};

verus! {

/// Unicode letter classification of `char::is_alphabetic`; a function of the
/// character alone.
pub uninterp spec fn alphabetic(c: char) -> bool;

/// Unicode letter-or-digit classification of `char::is_alphanumeric`; a
/// function of the character alone.
pub uninterp spec fn alphanumeric(c: char) -> bool;

/// Relies on `char::is_alphabetic`: a pure classification of the character;
/// the standard library documents every alphabetic character as
/// alphanumeric too.
#[verifier::external_body]
fn char_is_alphabetic(c: char) -> (r: bool)
    ensures
        r == alphabetic(c),
        r ==> alphanumeric(c),
{
    c.is_alphabetic()
}

/// Relies on `char::is_alphanumeric`: a pure classification of the
/// character.
#[verifier::external_body]
fn char_is_alphanumeric(c: char) -> (r: bool)
    ensures
        r == alphanumeric(c),
{
    c.is_alphanumeric()
}

/// Mathematical model of a token.
pub enum Tok {
    Var(Seq<char>),
    Abs(Seq<char>),
    Lpar,
    Rpar,
    Let(Seq<char>),
}

/// A token of the surface syntax: a variable, one abstraction parameter,
/// a parenthesis, or the `let` keyword carrying the bound name.
#[derive(Debug, PartialEq)]
pub enum Token {
    Var(String),
    Abs(String),
    Lpar,
    Rpar,
    Let(String),
}

impl View for Token {
    type V = Tok;

    open spec fn view(&self) -> Tok {
        match self {
            Token::Var(s) => Tok::Var(s@),
            Token::Abs(s) => Tok::Abs(s@),
            Token::Lpar => Tok::Lpar,
            Token::Rpar => Tok::Rpar,
            Token::Let(s) => Tok::Let(s@),
        }
    }
}

/// The tokens of a vector, as their models.
pub open spec fn tokens_view(s: Seq<Token>) -> Seq<Tok> {
    s.map_values(|t: Token| t@)
}

/// First position at or after `i` whose character is not alphanumeric (or
/// the end of the input).
pub open spec fn ident_end(cs: Seq<char>, i: nat) -> nat
    decreases cs.len() - i,
{
    if i >= cs.len() {
        i
    } else if alphanumeric(cs[i as int]) {
        ident_end(cs, i + 1)
    } else {
        i
    }
}

/// First position at or after `i` whose character is not a space (or the
/// end of the input).
pub open spec fn spaces_end(cs: Seq<char>, i: nat) -> nat
    decreases cs.len() - i,
{
    if i >= cs.len() {
        i
    } else if cs[i as int] == ' ' {
        spaces_end(cs, i + 1)
    } else {
        i
    }
}

pub proof fn lemma_ident_end_bounds(cs: Seq<char>, i: nat)
    ensures
        i <= ident_end(cs, i),
        i <= cs.len() ==> ident_end(cs, i) <= cs.len(),
    decreases cs.len() - i,
{
    if i < cs.len() && alphanumeric(cs[i as int]) {
        lemma_ident_end_bounds(cs, i + 1);
    }
}

pub proof fn lemma_spaces_end_bounds(cs: Seq<char>, i: nat)
    ensures
        i <= spaces_end(cs, i),
        i <= cs.len() ==> spaces_end(cs, i) <= cs.len(),
    decreases cs.len() - i,
{
    if i < cs.len() && cs[i as int] == ' ' {
        lemma_spaces_end_bounds(cs, i + 1);
    }
}

/// The diagnostic for an abstraction header with an empty parameter name.
pub open spec fn msg_empty_param() -> Seq<char> {
    "variable must be at least 1 character"@
}

/// The diagnostic for an abstraction header that ends before its `.`.
pub open spec fn msg_expected_dot_eof() -> Seq<char> {
    "expected '.',found EOF"@
}

/// The diagnostic for an abstraction header interrupted by `c`.
pub open spec fn msg_expected_dot(c: char) -> Seq<char> {
    "expected '.',found '"@ + seq![c] + seq!['\'']
}

/// The diagnostic for a character outside the surface syntax.
pub open spec fn msg_invalid_char(c: char) -> Seq<char> {
    "invalid char:'"@ + seq![c] + seq!['\'']
}

/// Scans the parameter list of an abstraction header starting at `i` (just
/// past the backslash): one `Abs` token per parameter name, ending at the
/// position just past the closing `.`. An empty name, the end of the input,
/// or a character that neither ends the list nor starts another name is a
/// lexical error, paired with the count of characters not yet consumed.
pub open spec fn scan_params(cs: Seq<char>, i: nat) -> Result<(Seq<Tok>, nat), (Seq<char>, nat)>
    decreases cs.len() - i,
    via scan_params_decreases
{
    let j = ident_end(cs, i);
    if j == i {
        Err((msg_empty_param(), (cs.len() - i) as nat))
    } else {
        let k = spaces_end(cs, j);
        let tok = Tok::Abs(cs.subrange(i as int, j as int));
        if k >= cs.len() {
            Err((msg_expected_dot_eof(), (cs.len() - k) as nat))
        } else if cs[k as int] == '.' {
            Ok((seq![tok], k + 1))
        } else if alphabetic(cs[k as int]) {
            match scan_params(cs, k) {
                Ok((toks, m)) => Ok((seq![tok] + toks, m)),
                Err(e) => Err(e),
            }
        } else {
            Err((msg_expected_dot(cs[k as int]), (cs.len() - k) as nat))
        }
    }
}

#[via_fn]
proof fn scan_params_decreases(cs: Seq<char>, i: nat) {
    lemma_ident_end_bounds(cs, i);
    lemma_spaces_end_bounds(cs, ident_end(cs, i));
}

pub proof fn lemma_scan_params_bounds(cs: Seq<char>, i: nat)
    ensures
        scan_params(cs, i) matches Ok(p) ==> i < p.1 && p.1 <= cs.len(),
    decreases cs.len() - i,
{
    lemma_ident_end_bounds(cs, i);
    let j = ident_end(cs, i);
    lemma_spaces_end_bounds(cs, j);
    let k = spaces_end(cs, j);
    if j != i && k < cs.len() && cs[k as int] != '.' && alphabetic(cs[k as int]) {
        lemma_scan_params_bounds(cs, k);
    }
}

/// Scans the whole input from position `i` into tokens: spaces are skipped,
/// parentheses lex as themselves, a backslash starts an abstraction header,
/// a letter starts an identifier (the reserved identifier `let` consumes the
/// following spaces and identifier into one `Let` token), and anything else
/// is a lexical error, paired with the count of characters not yet consumed.
pub open spec fn scan(cs: Seq<char>, i: nat) -> Result<Seq<Tok>, (Seq<char>, nat)>
    decreases cs.len() - i,
    via scan_decreases
{
    if i >= cs.len() {
        Ok(Seq::empty())
    } else {
        let c = cs[i as int];
        if c == '\\' {
            match scan_params(cs, i + 1) {
                Ok((toks, j)) => match scan(cs, j) {
                    Ok(rest) => Ok(toks + rest),
                    Err(e) => Err(e),
                },
                Err(e) => Err(e),
            }
        } else if alphabetic(c) {
            let j = ident_end(cs, i + 1);
            let name = cs.subrange(i as int, j as int);
            if name == "let"@ {
                let k = spaces_end(cs, j);
                let m = ident_end(cs, k);
                let bound = cs.subrange(k as int, m as int);
                match scan(cs, m) {
                    Ok(rest) => Ok(seq![Tok::Let(bound)] + rest),
                    Err(e) => Err(e),
                }
            } else {
                match scan(cs, j) {
                    Ok(rest) => Ok(seq![Tok::Var(name)] + rest),
                    Err(e) => Err(e),
                }
            }
        } else if c == '(' {
            match scan(cs, i + 1) {
                Ok(rest) => Ok(seq![Tok::Lpar] + rest),
                Err(e) => Err(e),
            }
        } else if c == ')' {
            match scan(cs, i + 1) {
                Ok(rest) => Ok(seq![Tok::Rpar] + rest),
                Err(e) => Err(e),
            }
        } else if c == ' ' {
            scan(cs, i + 1)
        } else {
            Err((msg_invalid_char(c), (cs.len() - i) as nat))
        }
    }
}

#[via_fn]
proof fn scan_decreases(cs: Seq<char>, i: nat) {
    if i < cs.len() {
        lemma_scan_params_bounds(cs, i + 1);
        lemma_ident_end_bounds(cs, i + 1);
        let j = ident_end(cs, i + 1);
        lemma_spaces_end_bounds(cs, j);
        let k = spaces_end(cs, j);
        lemma_ident_end_bounds(cs, k);
    }
}

/// The rendered diagnostic: the failure position, the input line, and a
/// caret pointing at the position, followed by the message. `rem` counts the
/// characters that were not yet consumed when lexing failed.
pub open spec fn error_message_view(cs: Seq<char>, msg: Seq<char>, rem: nat) -> Seq<char> {
    let pos = (cs.len() - rem) as nat;
    "error:"@ + decimal(pos) + seq!['\n'] + cs + seq!['\n'] + Seq::new(pos, |i: int| '_')
        + seq!['^', ' '] + msg
}

/// The characters of a string, in order.
fn str_chars(s: &str) -> (v: Vec<char>)
    ensures
        v@ == s@,
{
    let n = s.unicode_len();
    let mut v: Vec<char> = Vec::new();
    let mut i: usize = 0;
    while i < n
        invariant
            i <= n,
            n == s@.len(),
            v@ == s@.subrange(0, i as int),
        decreases n - i,
    {
        let c = s.get_char(i);
        v.push(c);
        proof {
            assert(v@ =~= s@.subrange(0, i + 1));
        }
        i = i + 1;
    }
    proof {
        assert(s@.subrange(0, n as int) =~= s@);
    }
    v
}

/// First position at or after `start` whose character is not alphanumeric.
fn scan_ident_end(cs: &Vec<char>, start: usize) -> (j: usize)
    requires
        start <= cs@.len(),
    ensures
        j as nat == ident_end(cs@, start as nat),
        start <= j <= cs@.len(),
{
    let mut j = start;
    while j < cs.len()
        invariant
            start <= j <= cs@.len(),
            ident_end(cs@, start as nat) == ident_end(cs@, j as nat),
        decreases cs@.len() - j,
    {
        if !char_is_alphanumeric(cs[j]) {
            return j;
        }
        j = j + 1;
    }
    j
}

/// First position at or after `start` whose character is not a space.
fn scan_spaces_end(cs: &Vec<char>, start: usize) -> (j: usize)
    requires
        start <= cs@.len(),
    ensures
        j as nat == spaces_end(cs@, start as nat),
        start <= j <= cs@.len(),
{
    let mut j = start;
    while j < cs.len()
        invariant
            start <= j <= cs@.len(),
            spaces_end(cs@, start as nat) == spaces_end(cs@, j as nat),
        decreases cs@.len() - j,
    {
        if cs[j] != ' ' {
            return j;
        }
        j = j + 1;
    }
    j
}

/// The characters of `cs` between `start` and `end`, as a string.
fn chars_to_string(cs: &Vec<char>, start: usize, end: usize) -> (r: String)
    requires
        start <= end <= cs@.len(),
    ensures
        r@ == cs@.subrange(start as int, end as int),
{
    let mut r = String::new();
    let mut k = start;
    while k < end
        invariant
            start <= k <= end <= cs@.len(),
            r@ == cs@.subrange(start as int, k as int),
        decreases end - k,
    {
        push_char(&mut r, cs[k]);
        proof {
            assert(r@ =~= cs@.subrange(start as int, k + 1));
        }
        k = k + 1;
    }
    r
}

/// A lexical error: the message and the count of characters that were not
/// yet consumed when lexing failed.
pub type TokenErr = (String, usize);

/// Renders a lexical error as the failure position, the input line, and a
/// line of fillers with a caret pointing at the position, followed by the
/// message.
pub fn error_message(input: &String, err: TokenErr) -> (r: String)
    requires
        err.1 <= input@.len(),
    ensures
        r@ == error_message_view(input@, err.0@, err.1 as nat),
{
    let n = input.as_str().unicode_len();
    let pos = n - err.1;
    let mut r = String::from_str("error:");
    push_decimal(&mut r, pos as u64);
    push_char(&mut r, '\n');
    r.append(input.as_str());
    push_char(&mut r, '\n');
    let ghost head = r@;
    let mut k: usize = 0;
    while k < pos
        invariant
            k <= pos,
            r@ == head + Seq::new(k as nat, |i: int| '_'),
        decreases pos - k,
    {
        push_char(&mut r, '_');
        proof {
            assert(r@ =~= head + Seq::new((k + 1) as nat, |i: int| '_'));
        }
        k = k + 1;
    }
    push_char(&mut r, '^');
    push_char(&mut r, ' ');
    r.append(err.0.as_str());
    proof {
        assert(r@ =~= error_message_view(input@, err.0@, err.1 as nat));
    }
    r
}

proof fn lemma_tokens_view_push(pre: Seq<Token>, post: Seq<Token>)
    requires
        post.len() == pre.len() + 1,
        post.drop_last() == pre,
    ensures
        tokens_view(post) == tokens_view(pre).push(post.last()@),
{
    assert(tokens_view(post) =~= tokens_view(pre).push(post.last()@));
}

/// Lexes the parameter list of an abstraction header starting at `start`,
/// pushing one `Abs` token per parameter; on success the result is the
/// position just past the closing `.`.
fn lex_params(cs: &Vec<char>, start: usize, tokens: &mut Vec<Token>) -> (r: Result<
    usize,
    TokenErr,
>)
    requires
        start <= cs@.len(),
    ensures
        match r {
            Ok(j) => scan_params(cs@, start as nat) matches Ok(p) && p.1 == j as nat
                && tokens_view(final(tokens)@) == tokens_view(old(tokens)@) + p.0
                && start < j <= cs@.len(),
            Err(e) => scan_params(cs@, start as nat) matches Err(q) && q.0 == e.0@
                && q.1 == e.1 as nat && e.1 <= cs@.len(),
        },
{
    let mut cur = start;
    let ghost mut seen: Seq<Tok> = Seq::empty();
    proof {
        if let Ok(p) = scan_params(cs@, start as nat) {
            assert(seen + p.0 =~= p.0);
        }
    }
    loop
        invariant
            start <= cur <= cs@.len(),
            tokens_view(tokens@) == tokens_view(old(tokens)@) + seen,
            (match scan_params(cs@, cur as nat) {
                Ok(p) => scan_params(cs@, start as nat) matches Ok(q) && q.0 == seen + p.0
                    && q.1 == p.1,
                Err(e) => scan_params(cs@, start as nat) == Err::<
                    (Seq<Tok>, nat),
                    (Seq<char>, nat),
                >(e),
            }),
        decreases cs@.len() - cur,
    {
        let j = scan_ident_end(cs, cur);
        if j == cur {
            return Err((
                String::from_str("variable must be at least 1 character"),
                cs.len() - cur,
            ));
        }
        let k = scan_spaces_end(cs, j);
        let name = chars_to_string(cs, cur, j);
        let ghost pretoks = tokens@;
        let token = Token::Abs(name);
        let ghost tok = token@;
        tokens.push(token);
        proof {
            seen = seen.push(tok);
            assert(tokens@.drop_last() =~= pretoks);
            lemma_tokens_view_push(pretoks, tokens@);
            assert(tokens@.last()@ == tok);
            assert(tokens_view(tokens@) =~= tokens_view(old(tokens)@) + seen);
        }
        if k >= cs.len() {
            return Err((String::from_str("expected '.',found EOF"), cs.len() - k));
        }
        let c = cs[k];
        if c == '.' {
            proof {
                assert(scan_params(cs@, cur as nat) == Ok::<_, (Seq<char>, nat)>((
                    seq![tok],
                    (k + 1) as nat,
                )));
                assert(seen.drop_last() + seq![tok] =~= seen);
            }
            return Ok(k + 1);
        }
        if !char_is_alphabetic(c) {
            let mut m = String::from_str("expected '.',found '");
            push_char(&mut m, c);
            push_char(&mut m, '\'');
            proof {
                assert(m@ =~= msg_expected_dot(c));
            }
            return Err((m, cs.len() - k));
        }
        proof {
            let prev = seen.drop_last();
            assert(prev + seq![tok] =~= seen);
            match scan_params(cs@, k as nat) {
                Ok(p) => {
                    assert(scan_params(cs@, cur as nat) matches Ok(q2) && q2.0 == seq![tok] + p.0
                        && q2.1 == p.1);
                    assert(prev + (seq![tok] + p.0) =~= seen + p.0);
                },
                Err(_) => {},
            }
        }
        cur = k;
    }
}

/// Appends one token.
fn push_token(tokens: &mut Vec<Token>, t: Token)
    ensures
        tokens_view(final(tokens)@) == tokens_view(old(tokens)@).push(t@),
{
    let ghost pre = tokens@;
    let ghost tv = t@;
    tokens.push(t);
    proof {
        assert(tokens@.drop_last() =~= pre);
        lemma_tokens_view_push(pre, tokens@);
        assert(tokens@.last()@ == tv);
    }
}

/// Converts a line of text into tokens by a single left-to-right scan, or
/// reports the first lexical error as a rendered diagnostic.
pub fn tokenize(input: &String) -> (r: Result<Vec<Token>, String>)
    ensures
        match r {
            Ok(toks) => scan(input@, 0) == Ok::<Seq<Tok>, (Seq<char>, nat)>(
                tokens_view(toks@),
            ),
            Err(m) => scan(input@, 0) matches Err(e) && m@ == error_message_view(
                input@,
                e.0,
                e.1,
            ),
        },
{
    let cs = str_chars(input.as_str());
    let mut tokens: Vec<Token> = Vec::new();
    let mut i: usize = 0;
    proof {
        if let Ok(rest) = scan(cs@, 0) {
            assert(tokens_view(tokens@) + rest =~= rest);
        }
    }
    while i < cs.len()
        invariant
            i <= cs@.len(),
            cs@ == input@,
            (match scan(cs@, i as nat) {
                Ok(rest) => scan(cs@, 0) == Ok::<Seq<Tok>, (Seq<char>, nat)>(
                    tokens_view(tokens@) + rest,
                ),
                Err(e) => scan(cs@, 0) == Err::<Seq<Tok>, (Seq<char>, nat)>(e),
            }),
        decreases cs@.len() - i,
    {
        let c = cs[i];
        let ghost prev_tv = tokens_view(tokens@);
        if c == '\\' {
            match lex_params(&cs, i + 1, &mut tokens) {
                Ok(j) => {
                    proof {
                        if let Ok(p) = scan_params(cs@, (i + 1) as nat) {
                            if let Ok(rest) = scan(cs@, p.1) {
                                assert(prev_tv + (p.0 + rest) =~= (prev_tv + p.0) + rest);
                            }
                        }
                    }
                    i = j;
                },
                Err(e) => {
                    return Err(error_message(input, e));
                },
            }
        } else if char_is_alphabetic(c) {
            proof {
                assert(ident_end(cs@, i as nat) == ident_end(cs@, (i + 1) as nat));
                lemma_ident_end_bounds(cs@, (i + 1) as nat);
            }
            let j = scan_ident_end(&cs, i);
            let name = chars_to_string(&cs, i, j);
            let kw = String::from_str("let");
            if name == kw {
                let k = scan_spaces_end(&cs, j);
                let m = scan_ident_end(&cs, k);
                let bound = chars_to_string(&cs, k, m);
                let ghost tok = Tok::Let(bound@);
                push_token(&mut tokens, Token::Let(bound));
                proof {
                    if let Ok(rest) = scan(cs@, m as nat) {
                        assert(prev_tv + (seq![tok] + rest) =~= prev_tv.push(tok) + rest);
                    }
                }
                i = m;
            } else {
                let ghost tok = Tok::Var(name@);
                push_token(&mut tokens, Token::Var(name));
                proof {
                    if let Ok(rest) = scan(cs@, j as nat) {
                        assert(prev_tv + (seq![tok] + rest) =~= prev_tv.push(tok) + rest);
                    }
                }
                i = j;
            }
        } else if c == '(' {
            push_token(&mut tokens, Token::Lpar);
            proof {
                if let Ok(rest) = scan(cs@, (i + 1) as nat) {
                    assert(prev_tv + (seq![Tok::Lpar] + rest) =~= prev_tv.push(Tok::Lpar) + rest);
                }
            }
            i = i + 1;
        } else if c == ')' {
            push_token(&mut tokens, Token::Rpar);
            proof {
                if let Ok(rest) = scan(cs@, (i + 1) as nat) {
                    assert(prev_tv + (seq![Tok::Rpar] + rest) =~= prev_tv.push(Tok::Rpar) + rest);
                }
            }
            i = i + 1;
        } else if c == ' ' {
            i = i + 1;
        } else {
            let mut msg = String::from_str("invalid char:'");
            push_char(&mut msg, c);
            push_char(&mut msg, '\'');
            proof {
                assert(msg@ =~= msg_invalid_char(c));
            }
            return Err(error_message(input, (msg, cs.len() - i)));
        }
    }
    proof {
        assert(tokens_view(tokens@) + Seq::<Tok>::empty() =~= tokens_view(tokens@));
    }
    Ok(tokens)
}


/// Left-associative application: the next parsed item either starts the
/// expression or is applied to what was accumulated so far.
pub open spec fn app_combine(acc: Option<Term>, next: Term) -> Term {
    match acc {
        None => next,
        Some(a) => Term::App(Box::new(a), Box::new(next)),
    }
}

/// The model of an optional term.
pub open spec fn opt_term(o: Option<AST>) -> Option<Term> {
    match o {
        None => None,
        Some(t) => Some(t@),
    }
}

/// Parses an expression from position `i`: a run of terms and abstraction
/// headers, combined left-associatively, ending at the end of the tokens or
/// at a closing parenthesis. An abstraction parameter takes the whole rest
/// of the enclosing expression as its body. Recursion is bounded by an
/// explicit budget; `parse_fuel` is always enough. The result carries the
/// position where parsing stopped.
pub open spec fn pexpr(toks: Seq<Tok>, i: nat, acc: Option<Term>, fuel: nat) -> (Option<
    Term,
>, nat)
    decreases fuel,
{
    if fuel == 0 {
        (None, i)
    } else if i >= toks.len() || toks[i as int] is Rpar {
        (acc, i)
    } else {
        match toks[i as int] {
            Tok::Abs(v) => {
                let (body, j) = pexpr(toks, i + 1, None, (fuel - 1) as nat);
                match body {
                    None => (None, j),
                    Some(b) => pexpr(
                        toks,
                        j,
                        Some(app_combine(acc, Term::Abs(v, Box::new(b)))),
                        (fuel - 1) as nat,
                    ),
                }
            },
            _ => {
                let (tm, j) = pterm(toks, i, (fuel - 1) as nat);
                match tm {
                    None => (None, j),
                    Some(t) => pexpr(toks, j, Some(app_combine(acc, t)), (fuel - 1) as nat),
                }
            },
        }
    }
}

/// Parses one term at position `i`: a parenthesized expression or a bare
/// variable. A closing parenthesis, a `let` keyword, a missing closing
/// parenthesis, or the end of the tokens yields no term.
pub open spec fn pterm(toks: Seq<Tok>, i: nat, fuel: nat) -> (Option<Term>, nat)
    decreases fuel,
{
    if fuel == 0 || i >= toks.len() {
        (None, i)
    } else {
        match toks[i as int] {
            Tok::Lpar => {
                let (inner, j) = pexpr(toks, i + 1, None, (fuel - 1) as nat);
                match inner {
                    None => (None, j),
                    Some(t) => if j >= toks.len() || !(toks[j as int] is Rpar) {
                        (None, j)
                    } else {
                        (Some(t), j + 1)
                    },
                }
            },
            Tok::Var(v) => (Some(Term::Var(v)), i + 1),
            _ => (None, i),
        }
    }
}

/// A recursion budget that always suffices to parse from any position.
pub open spec fn parse_fuel(toks: Seq<Tok>) -> nat {
    2 * toks.len() + 2
}

/// The position where parsing stopped never moves backwards.
pub proof fn lemma_pexpr_pos(toks: Seq<Tok>, i: nat, acc: Option<Term>, fuel: nat)
    ensures
        pexpr(toks, i, acc, fuel).1 >= i,
    decreases fuel,
{
    if fuel > 0 && i < toks.len() && !(toks[i as int] is Rpar) {
        match toks[i as int] {
            Tok::Abs(v) => {
                lemma_pexpr_pos(toks, i + 1, None, (fuel - 1) as nat);
                let (body, j) = pexpr(toks, i + 1, None, (fuel - 1) as nat);
                if body is Some {
                    lemma_pexpr_pos(
                        toks,
                        j,
                        Some(app_combine(acc, Term::Abs(v, Box::new(body->Some_0)))),
                        (fuel - 1) as nat,
                    );
                }
            },
            _ => {
                lemma_pterm_pos(toks, i, (fuel - 1) as nat);
                let (tm, j) = pterm(toks, i, (fuel - 1) as nat);
                if tm is Some {
                    lemma_pexpr_pos(toks, j, Some(app_combine(acc, tm->Some_0)), (fuel - 1) as nat);
                }
            },
        }
    }
}

pub proof fn lemma_pterm_pos(toks: Seq<Tok>, i: nat, fuel: nat)
    ensures
        pterm(toks, i, fuel).1 >= i,
        pterm(toks, i, fuel).0 is Some ==> pterm(toks, i, fuel).1 >= i + 1,
    decreases fuel,
{
    if fuel > 0 && i < toks.len() {
        if toks[i as int] is Lpar {
            lemma_pexpr_pos(toks, i + 1, None, (fuel - 1) as nat);
        }
    }
}

/// Any two budgets of at least `2 * (toks.len() - i) + 2` parse an
/// expression at `i` identically.
pub proof fn lemma_pexpr_fuel(toks: Seq<Tok>, i: nat, acc: Option<Term>, f1: nat, f2: nat)
    requires
        f1 >= 1,
        f2 >= 1,
        f1 >= 2 * (toks.len() - i) + 2,
        f2 >= 2 * (toks.len() - i) + 2,
    ensures
        pexpr(toks, i, acc, f1) == pexpr(toks, i, acc, f2),
    decreases f1,
{
    let g1 = (f1 - 1) as nat;
    let g2 = (f2 - 1) as nat;
    if i < toks.len() && !(toks[i as int] is Rpar) {
        match toks[i as int] {
            Tok::Abs(v) => {
                lemma_pexpr_fuel(toks, i + 1, None, g1, g2);
                let (body, j) = pexpr(toks, i + 1, None, g1);
                lemma_pexpr_pos(toks, i + 1, None, g1);
                if body is Some {
                    let acc2 = Some(app_combine(acc, Term::Abs(v, Box::new(body->Some_0))));
                    lemma_pexpr_fuel(toks, j, acc2, g1, g2);
                }
            },
            _ => {
                lemma_pterm_fuel(toks, i, g1, g2);
                let (tm, j) = pterm(toks, i, g1);
                lemma_pterm_pos(toks, i, g1);
                if tm is Some {
                    let acc2 = Some(app_combine(acc, tm->Some_0));
                    lemma_pexpr_fuel(toks, j, acc2, g1, g2);
                }
            },
        }
    }
}

pub proof fn lemma_pterm_fuel(toks: Seq<Tok>, i: nat, f1: nat, f2: nat)
    requires
        f1 >= 1,
        f2 >= 1,
        f1 >= 2 * (toks.len() - i) + 1,
        f2 >= 2 * (toks.len() - i) + 1,
    ensures
        pterm(toks, i, f1) == pterm(toks, i, f2),
    decreases f1,
{
    if i < toks.len() && toks[i as int] is Lpar {
        lemma_pexpr_fuel(toks, i + 1, None, (f1 - 1) as nat, (f2 - 1) as nat);
    }
}

/// Parses a token sequence as a statement: a leading `let` token binds a
/// name to the following expression; otherwise the whole sequence is one
/// bare expression. An empty sequence, or an expression that fails to
/// parse, is no statement.
pub open spec fn parse_stmt(toks: Seq<Tok>) -> Option<Stmt> {
    if toks.len() == 0 {
        None
    } else {
        match toks[0] {
            Tok::Let(v) => match pexpr(toks, 1, None, parse_fuel(toks)).0 {
                None => None,
                Some(e) => Some(Stmt::Let(v, e)),
            },
            _ => match pexpr(toks, 0, None, parse_fuel(toks)).0 {
                None => None,
                Some(e) => Some(Stmt::Exp(e)),
            },
        }
    }
}

/// Parses a line of text: tokenize, then parse the tokens as a statement.
pub open spec fn parse_view(cs: Seq<char>) -> Option<Stmt> {
    match scan(cs, 0) {
        Err(_) => None,
        Ok(toks) => parse_stmt(toks),
    }
}


/// Left-associative application, executable form.
fn app_combine_exec(acc: Option<AST>, next: AST) -> (r: AST)
    ensures
        r@ == app_combine(opt_term(acc), next@),
{
    match acc {
        None => next,
        Some(a) => AST::App(Box::new(a), Box::new(next)),
    }
}

/// Cursor state of one parse call: a position into the token sequence.
pub struct Parser {
    cur: usize,
    len: usize,
    tokens: Vec<Token>,
}

impl Parser {
    /// The cursor is inside the tokens, whose count is cached in `len`.
    pub closed spec fn wf(self) -> bool {
        self.len == self.tokens@.len() && self.cur <= self.len
    }

    /// A parser with no tokens; `parse` resets the state anyway.
    pub fn new() -> (r: Parser)
        ensures
            r.wf(),
    {
        Parser { cur: 0, len: 0, tokens: Vec::new() }
    }

    /// Parses one term: a parenthesized expression or a bare variable.
    fn read_term(&mut self) -> (r: Option<AST>)
        requires
            old(self).wf(),
            old(self).cur < old(self).len,
        ensures
            final(self).wf(),
            final(self).tokens@ == old(self).tokens@,
            final(self).len == old(self).len,
            final(self).cur >= old(self).cur,
            r is Some ==> final(self).cur > old(self).cur,
            ({
                let p = pterm(
                    tokens_view(old(self).tokens@),
                    old(self).cur as nat,
                    parse_fuel(tokens_view(old(self).tokens@)),
                );
                p.0 == opt_term(r) && p.1 == final(self).cur as nat
            }),
        decreases old(self).len - old(self).cur, 0int,
    {
        let ghost toks = tokens_view(self.tokens@);
        let ghost fuel = parse_fuel(toks);
        proof {
            assert(toks[self.cur as int] == self.tokens@[self.cur as int]@);
        }
        match &self.tokens[self.cur] {
            Token::Lpar => {
                self.cur = self.cur + 1;
                proof {
                    lemma_pexpr_fuel(toks, self.cur as nat, None, (fuel - 1) as nat, fuel);
                }
                let exp = self.read_expression(None);
                match exp {
                    None => None,
                    Some(t) => {
                        if self.cur >= self.len {
                            return None;
                        }
                        proof {
                            assert(toks[self.cur as int] == self.tokens@[self.cur as int]@);
                        }
                        match &self.tokens[self.cur] {
                            Token::Rpar => {
                                self.cur = self.cur + 1;
                                Some(t)
                            },
                            _ => None,
                        }
                    },
                }
            },
            Token::Rpar => None,
            Token::Var(v) => {
                let r = AST::Var(v.clone());
                self.cur = self.cur + 1;
                Some(r)
            },
            _ => None,
        }
    }

    /// Parses the rest of the enclosing expression, combining each parsed
    /// term or abstraction into `expleft` by left-associative application,
    /// until the tokens end or a closing parenthesis is reached.
    fn read_expression(&mut self, expleft: Option<AST>) -> (r: Option<AST>)
        requires
            old(self).wf(),
        ensures
            final(self).wf(),
            final(self).tokens@ == old(self).tokens@,
            final(self).len == old(self).len,
            final(self).cur >= old(self).cur,
            ({
                let p = pexpr(
                    tokens_view(old(self).tokens@),
                    old(self).cur as nat,
                    opt_term(expleft),
                    parse_fuel(tokens_view(old(self).tokens@)),
                );
                p.0 == opt_term(r) && p.1 == final(self).cur as nat
            }),
        decreases old(self).len - old(self).cur, 1int,
    {
        let ghost toks = tokens_view(self.tokens@);
        let ghost fuel = parse_fuel(toks);
        if self.cur >= self.len {
            return expleft;
        }
        proof {
            assert(toks[self.cur as int] == self.tokens@[self.cur as int]@);
        }
        let is_abs: Option<String> = match &self.tokens[self.cur] {
            Token::Rpar => {
                return expleft;
            },
            Token::Abs(v) => Some(v.clone()),
            _ => None,
        };
        match is_abs {
            Some(v) => {
                let ghost cur0 = self.cur as nat;
                self.cur = self.cur + 1;
                proof {
                    lemma_pexpr_fuel(toks, self.cur as nat, None, (fuel - 1) as nat, fuel);
                }
                let body = self.read_expression(None);
                match body {
                    None => None,
                    Some(b) => {
                        let next = AST::Abs(v, Box::new(b));
                        let combined = app_combine_exec(expleft, next);
                        proof {
                            lemma_pexpr_fuel(
                                toks,
                                self.cur as nat,
                                opt_term(Some(combined)),
                                (fuel - 1) as nat,
                                fuel,
                            );
                        }
                        self.read_expression(Some(combined))
                    },
                }
            },
            None => {
                proof {
                    lemma_pterm_fuel(toks, self.cur as nat, (fuel - 1) as nat, fuel);
                }
                let t = self.read_term();
                match t {
                    None => None,
                    Some(t) => {
                        let combined = app_combine_exec(expleft, t);
                        proof {
                            lemma_pexpr_fuel(
                                toks,
                                self.cur as nat,
                                opt_term(Some(combined)),
                                (fuel - 1) as nat,
                                fuel,
                            );
                        }
                        self.read_expression(Some(combined))
                    },
                }
            },
        }
    }

    /// Parses the token sequence as a statement: a leading `let` token binds
    /// a name; otherwise the whole sequence is one bare expression.
    fn read_statement(&mut self) -> (r: Option<Stat>)
        requires
            old(self).wf(),
            old(self).cur == 0,
            old(self).tokens@.len() >= 1,
        ensures
            match r {
                Some(st) => parse_stmt(tokens_view(old(self).tokens@)) == Some(st@),
                None => parse_stmt(tokens_view(old(self).tokens@)) is None,
            },
    {
        let ghost toks = tokens_view(self.tokens@);
        proof {
            assert(toks[0] == self.tokens@[0]@);
        }
        let bound: Option<String> = match &self.tokens[0] {
            Token::Let(v) => Some(v.clone()),
            _ => None,
        };
        match bound {
            Some(v) => {
                self.cur = 1;
                match self.read_expression(None) {
                    Some(exp) => Some(Stat::Let(v, Box::new(exp))),
                    None => None,
                }
            },
            None => {
                match self.read_expression(None) {
                    Some(exp) => Some(Stat::Exp(Box::new(exp))),
                    None => None,
                }
            },
        }
    }

    /// Parses a line of text: tokenizes it and reads one statement. A
    /// lexical error, an empty line, or a malformed expression yields no
    /// statement.
    pub fn parse(&mut self, input: &String) -> (r: Option<Stat>)
        ensures
            match r {
                Some(st) => parse_view(input@) == Some(st@),
                None => parse_view(input@) is None,
            },
    {
        self.tokens = match tokenize(input) {
            Ok(tokens) => tokens,
            Err(_) => {
                return None;
            },
        };
        self.cur = 0;
        self.len = self.tokens.len();
        if self.len == 0 {
            return None;
        }
        self.read_statement()
    }
}

} // verus!
