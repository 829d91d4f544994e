//! Fresh variable names: the sequence `v0, v1, v2, ...`, decimal rendering
//! of the index, injectivity of that rendering, and the proof that every
//! finite term leaves some name in the sequence unused.

use vstd::prelude::*;
use vstd::arithmetic::div_mod::lemma_fundamental_div_mod;
use crate::ast::Term;

verus! {

/// The character for one decimal digit.
pub open spec fn digit(d: nat) -> char {
    if d == 0 {
        '0'
    } else if d == 1 {
        '1'
    } else if d == 2 {
        '2'
    } else if d == 3 {
        '3'
    } else if d == 4 {
        '4'
    } else if d == 5 {
        '5'
    } else if d == 6 {
        '6'
    } else if d == 7 {
        '7'
    } else if d == 8 {
        '8'
    } else {
        '9'
    }
}

/// Decimal rendering of a natural number, most significant digit first.
pub open spec fn decimal(n: nat) -> Seq<char>
    decreases n,
{
    if n < 10 {
        seq![digit(n)]
    } else {
        decimal(n / 10).push(digit(n % 10))
    }
}

/// The `i`-th candidate name: `v` followed by the decimal rendering of `i`.
pub open spec fn var_name(i: nat) -> Seq<char> {
    seq!['v'] + decimal(i)
}

/// `i` is the first index whose candidate name does not occur free in `t`.
pub open spec fn is_fresh_idx(t: Term, i: nat) -> bool {
    &&& !t.free_in(var_name(i))
    &&& forall|j: nat| j < i ==> t.free_in(var_name(j))
}

/// The first index whose candidate name does not occur free in `t`
/// (well defined by `lemma_fresh_exists` and `lemma_fresh_unique`).
pub open spec fn fresh_idx(t: Term) -> nat {
    choose|i: nat| is_fresh_idx(t, i)
}

/// Inverse of `digit`, used to show that distinct digits render as
/// distinct characters.
pub open spec fn digit_val(c: char) -> nat {
    if c == '0' {
        0
    } else if c == '1' {
        1
    } else if c == '2' {
        2
    } else if c == '3' {
        3
    } else if c == '4' {
        4
    } else if c == '5' {
        5
    } else if c == '6' {
        6
    } else if c == '7' {
        7
    } else if c == '8' {
        8
    } else if c == '9' {
        9
    } else {
        10
    }
}

pub proof fn lemma_digit_injective(a: nat, b: nat)
    requires
        a < 10,
        b < 10,
        digit(a) == digit(b),
    ensures
        a == b,
{
    assert(digit_val(digit(a)) == a);
    assert(digit_val(digit(b)) == b);
}

pub proof fn lemma_decimal_len(n: nat)
    ensures
        decimal(n).len() >= 1,
    decreases n,
{
    if n >= 10 {
        lemma_decimal_len(n / 10);
    }
}

pub proof fn lemma_decimal_injective(a: nat, b: nat)
    requires
        decimal(a) == decimal(b),
    ensures
        a == b,
    decreases a,
{
    if a < 10 && b < 10 {
        assert(seq![digit(a)][0] == digit(a));
        assert(seq![digit(b)][0] == digit(b));
        assert(decimal(a)[0] == decimal(b)[0]);
        lemma_digit_injective(a, b);
    } else if a < 10 && b >= 10 {
        lemma_decimal_len(b / 10);
        assert(decimal(a).len() == 1);
        assert(decimal(b).len() >= 2);
        assert(false);
    } else if a >= 10 && b < 10 {
        lemma_decimal_len(a / 10);
        assert(decimal(b).len() == 1);
        assert(decimal(a).len() >= 2);
        assert(false);
    } else {
        let la = decimal(a / 10);
        let lb = decimal(b / 10);
        assert(decimal(a) == la.push(digit(a % 10)));
        assert(decimal(b) == lb.push(digit(b % 10)));
        assert(la.push(digit(a % 10)).last() == digit(a % 10));
        assert(lb.push(digit(b % 10)).last() == digit(b % 10));
        assert(digit(a % 10) == digit(b % 10));
        lemma_digit_injective(a % 10, b % 10);
        assert(la.push(digit(a % 10)).drop_last() =~= la);
        assert(lb.push(digit(b % 10)).drop_last() =~= lb);
        assert(la == lb);
        lemma_decimal_injective(a / 10, b / 10);
        lemma_fundamental_div_mod(a as int, 10);
        lemma_fundamental_div_mod(b as int, 10);
        assert(a == 10 * (a / 10) + a % 10);
        assert(b == 10 * (b / 10) + b % 10);
        assert(a == b);
    }
}

pub proof fn lemma_var_name_injective(a: nat, b: nat)
    requires
        var_name(a) == var_name(b),
    ensures
        a == b,
{
    assert(var_name(a).skip(1) =~= decimal(a));
    assert(var_name(b).skip(1) =~= decimal(b));
    lemma_decimal_injective(a, b);
}

/// A sequence that contains the first `n` candidate names has at least `n`
/// elements: the names are pairwise distinct.
proof fn lemma_names_need_room(s: Seq<Seq<char>>, n: nat)
    requires
        forall|i: nat| i < n ==> s.contains(#[trigger] var_name(i)),
    ensures
        s.len() >= n,
    decreases n,
{
    if n > 0 {
        let last: nat = (n - 1) as nat;
        let k = choose|k: int| 0 <= k < s.len() && s[k] == var_name(last);
        let s2 = s.remove(k);
        s.remove_ensures(k);
        assert forall|i: nat| i < last implies s2.contains(#[trigger] var_name(i)) by {
            let j = choose|j: int| 0 <= j < s.len() && s[j] == var_name(i);
            if var_name(i) == var_name(last) {
                lemma_var_name_injective(i, last);
            }
            if j < k {
                assert(s2[j] == var_name(i));
            } else {
                assert(s2[j - 1] == var_name(i));
            }
        }
        lemma_names_need_room(s2, last);
    }
}

/// Every name that occurs free in a term occurs in the term at all.
pub proof fn lemma_free_occurs(t: Term, v: Seq<char>)
    requires
        t.free_in(v),
    ensures
        t.occurrences().contains(v),
    decreases t,
{
    match t {
        Term::Var(_) => {
            assert(t.occurrences()[0] == v);
        },
        Term::App(e1, e2) => {
            if (*e1).free_in(v) {
                lemma_free_occurs(*e1, v);
                let j = choose|j: int| 0 <= j < (*e1).occurrences().len() && (*e1).occurrences()[j] == v;
                assert(t.occurrences()[j] == v);
            } else {
                lemma_free_occurs(*e2, v);
                let j = choose|j: int| 0 <= j < (*e2).occurrences().len() && (*e2).occurrences()[j] == v;
                assert(t.occurrences()[(*e1).occurrences().len() + j] == v);
            }
        },
        Term::Abs(_, e) => {
            lemma_free_occurs(*e, v);
        },
    }
}

/// Some candidate name with index at most the number of variable occurrences
/// of `t` does not occur free in `t`.
proof fn lemma_some_name_unused(t: Term)
    ensures
        exists|i: nat| i <= t.occurrences().len() && !t.free_in(var_name(i)),
{
    let l = t.occurrences().len();
    if forall|i: nat| i <= l ==> t.free_in(#[trigger] var_name(i)) {
        assert forall|i: nat| i < l + 1 implies t.occurrences().contains(#[trigger] var_name(i)) by {
            lemma_free_occurs(t, var_name(i));
        }
        lemma_names_need_room(t.occurrences(), l + 1);
    }
}

proof fn lemma_first_unused(t: Term, i: nat)
    requires
        !t.free_in(var_name(i)),
    ensures
        exists|j: nat| is_fresh_idx(t, j),
    decreases i,
{
    if forall|k: nat| k < i ==> t.free_in(#[trigger] var_name(k)) {
        assert(is_fresh_idx(t, i));
    } else {
        let k = choose|k: nat| k < i && !t.free_in(#[trigger] var_name(k));
        lemma_first_unused(t, k);
    }
}

/// Every term has a first unused candidate name, and its index is at most
/// the number of variable occurrences of the term.
pub proof fn lemma_fresh_exists(t: Term)
    ensures
        is_fresh_idx(t, fresh_idx(t)),
        fresh_idx(t) <= t.occurrences().len(),
{
    lemma_some_name_unused(t);
    let i = choose|i: nat| i <= t.occurrences().len() && !t.free_in(var_name(i));
    lemma_first_unused(t, i);
    let f = fresh_idx(t);
    assert(is_fresh_idx(t, f));
    if f > i {
        assert(t.free_in(var_name(i)));
    }
}

/// There is only one first unused candidate name.
pub proof fn lemma_fresh_unique(t: Term, i: nat, j: nat)
    requires
        is_fresh_idx(t, i),
        is_fresh_idx(t, j),
    ensures
        i == j,
{
    if i < j {
        assert(t.free_in(var_name(i)));
    }
    if j < i {
        assert(t.free_in(var_name(j)));
    }
}

/// Relies on `String::push`: appends exactly the given character at the end.
#[verifier::external_body]
pub(crate) fn push_char(s: &mut String, c: char)
    ensures
        final(s)@ == old(s)@.push(c),
{
    s.push(c)
}

/// The character for one decimal digit, executable form.
pub(crate) fn digit_char(d: u64) -> (c: char)
    requires
        d < 10,
    ensures
        c == digit(d as nat),
{
    if d == 0 {
        '0'
    } else if d == 1 {
        '1'
    } else if d == 2 {
        '2'
    } else if d == 3 {
        '3'
    } else if d == 4 {
        '4'
    } else if d == 5 {
        '5'
    } else if d == 6 {
        '6'
    } else if d == 7 {
        '7'
    } else if d == 8 {
        '8'
    } else {
        '9'
    }
}

/// Appends the decimal rendering of `n` to `s`.
pub(crate) fn push_decimal(s: &mut String, n: u64)
    ensures
        final(s)@ == old(s)@ + decimal(n as nat),
    decreases n,
{
    if n < 10 {
        push_char(s, digit_char(n));
        assert(s@ =~= old(s)@ + decimal(n as nat));
    } else {
        push_decimal(s, n / 10);
        push_char(s, digit_char(n % 10));
        assert(s@ =~= old(s)@ + decimal(n as nat));
    }
}

} // verus!
