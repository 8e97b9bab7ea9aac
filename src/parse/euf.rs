//! Parse EUF formulae.
//!
//! The input is a block of EUF literals, one per line, then a line `--`,
//! then a DIMACS formula.  A literal is `==` or `/=` followed by two
//! terms; a term is a number, optionally followed by a parenthesised list
//! of terms.  Spaces may separate the tokens.

use crate::cnf::Formula;
use crate::dimacs;
use crate::dimacs::{lines, outcome, ranges_text, result_is, slice_chars, spells, split_lines};
use crate::parse::combinators::{chars_of, digit_run, digits_value, eat_whitespace, lemma_digit_run, parse_usize, skip_spaces};
use crate::theory::euf::{EUFLiteral, EUFTerm, EUF};
use crate::theory::Theory;
use vstd::prelude::*;
use vstd::string::StringExecFns;

verus! {

/// Where reading the term `t` written in `s` from position `p` ends, if
/// `t` is written there.  Spaces before the term and after an atom are
/// read with it.
pub open spec fn term_end(s: Seq<char>, p: int, t: EUFTerm) -> Option<int>
    decreases t,
{
    let p1 = skip_spaces(s, p);
    let e = p1 + digit_run(s, p1);
    let p2 = skip_spaces(s, e);
    if !(0 <= p <= s.len()) || digit_run(s, p1) == 0 {
        None
    } else {
        match t {
            EUFTerm::Atom(a) => if a == digits_value(s.subrange(p1, e)) && !(p2 < s.len() && s[p2] == '(') {
                Some(p2)
            } else {
                None
            },
            EUFTerm::Application { function_atom, parameters } => if function_atom == digits_value(
                s.subrange(p1, e),
            ) && p2 < s.len() && s[p2] == '(' {
                match params_end(s, p2 + 1, parameters@) {
                    Some(c) => if c < s.len() && s[c] == ')' {
                        Some(c + 1)
                    } else {
                        None
                    },
                    None => None,
                }
            } else {
                None
            },
        }
    }
}

/// Where reading the terms `ps` one after the other from position `p`
/// ends, with the spaces after each.
pub open spec fn params_end(s: Seq<char>, p: int, ps: Seq<EUFTerm>) -> Option<int>
    decreases ps,
{
    if ps.len() == 0 {
        Some(p)
    } else {
        match term_end(s, p, ps[0]) {
            Some(e) => params_end(s, skip_spaces(s, e), ps.drop_first()),
            None => None,
        }
    }
}

/// What reading a term at position `p` gives: where it ends, or the error.
/// A missing or oversized atom is `CannotParseAtom`; running out of input
/// inside an argument list is `UnexpectedEndOfApTerm`.
pub open spec fn term_read(s: Seq<char>, p: int) -> Result<int, ParseError>
    decreases s.len() - p, 0nat,
{
    let p1 = skip_spaces(s, p);
    let e = p1 + digit_run(s, p1);
    let p2 = skip_spaces(s, e);
    if !(0 <= p <= s.len()) || digit_run(s, p1) == 0 || digits_value(s.subrange(p1, e)) > usize::MAX {
        Err(ParseError::CannotParseAtom)
    } else if p <= p2 < s.len() && s[p2] == '(' {
        args_read(s, p2 + 1)
    } else {
        Ok(p2)
    }
}

/// What reading the rest of an argument list from position `p` gives:
/// where it ends (after its `)`), or the error.
pub open spec fn args_read(s: Seq<char>, p: int) -> Result<int, ParseError>
    decreases s.len() - p, 1nat,
{
    if p < 0 || p >= s.len() {
        Err(ParseError::UnexpectedEndOfApTerm)
    } else if s[p] == ')' {
        Ok(p + 1)
    } else {
        match term_read(s, p) {
            Err(e) => Err(e),
            Ok(q) => if p < skip_spaces(s, q) <= s.len() {
                args_read(s, skip_spaces(s, q))
            } else {
                Err(ParseError::UnexpectedEndOfApTerm)
            },
        }
    }
}

/// The error reading a literal line gives, if any: a line that does not
/// start with `==` or `/=` gives `CannotParseEqualitySymbol` with its
/// first two characters; otherwise the error of reading either term.
pub open spec fn lit_read_error(l: Seq<char>) -> Option<ParseError> {
    if l.len() < 2 {
        Some(
            ParseError::CannotParseEqualitySymbol {
                c1: if l.len() > 0 {
                    Some(l[0])
                } else {
                    None
                },
                c2: None,
            },
        )
    } else if !((l[0] == '=' || l[0] == '/') && l[1] == '=') {
        Some(ParseError::CannotParseEqualitySymbol { c1: Some(l[0]), c2: Some(l[1]) })
    } else {
        match term_read(l, 2) {
            Err(e) => Some(e),
            Ok(p) => match term_read(l, p) {
                Err(e) => Some(e),
                Ok(_) => None,
            },
        }
    }
}

/// The term `t` is written in `s` from position `p`, and reading it ends
/// at position `q`.
pub open spec fn spans(s: Seq<char>, p: int, t: EUFTerm, q: int) -> bool {
    term_end(s, p, t) == Some(q)
}

proof fn lemma_params_push(s: Seq<char>, p: int, ps: Seq<EUFTerm>, x: EUFTerm, c: int, e: int)
    requires
        params_end(s, p, ps) == Some(c),
        term_end(s, c, x) == Some(e),
    ensures
        params_end(s, p, ps.push(x)) == Some(skip_spaces(s, e)),
    decreases ps.len(),
{
    if ps.len() == 0 {
        assert(ps.push(x).drop_first() =~= seq![]);
        assert(ps.push(x)[0] == x);
        assert(params_end(s, skip_spaces(s, e), ps.push(x).drop_first()) == Some(skip_spaces(s, e)));
    } else {
        let e0 = term_end(s, p, ps[0])->0;
        assert(ps.push(x).drop_first() =~= ps.drop_first().push(x));
        assert(ps.push(x)[0] == ps[0]);
        lemma_params_push(s, skip_spaces(s, e0), ps.drop_first(), x, c, e);
    }
}

proof fn lemma_skip_spaces_grows(s: Seq<char>, x: int)
    ensures
        skip_spaces(s, x) >= x,
    decreases s.len() - x,
{
    if 0 <= x < s.len() && s[x] == ' ' {
        lemma_skip_spaces_grows(s, x + 1);
    }
}

/// Where a term written at a position ends is the same for any term
/// written there.
pub proof fn lemma_term_end_unique(s: Seq<char>, p: int, t1: EUFTerm, t2: EUFTerm)
    requires
        term_end(s, p, t1) is Some,
        term_end(s, p, t2) is Some,
    ensures
        term_end(s, p, t1) == term_end(s, p, t2),
    decreases t1,
{
    let p1 = skip_spaces(s, p);
    let e = p1 + digit_run(s, p1);
    let p2 = skip_spaces(s, e);
    lemma_skip_spaces_grows(s, p);
    lemma_skip_spaces_grows(s, e);
    match t1 {
        EUFTerm::Application { function_atom, parameters } => {
            match t2 {
                EUFTerm::Application { function_atom: f2, parameters: ps2 } => {
                    assert(params_end(s, p2 + 1, parameters@) is Some);
                    assert(params_end(s, p2 + 1, ps2@) is Some);
                    let c1 = params_end(s, p2 + 1, parameters@)->0;
                    let c2 = params_end(s, p2 + 1, ps2@)->0;
                    assert(c1 < s.len() && s[c1] == ')');
                    assert(c2 < s.len() && s[c2] == ')');
                    lemma_params_end_unique(s, p2 + 1, parameters@, ps2@);
                },
                _ => {},
            }
        },
        _ => {},
    }
}

/// Where a list of terms closed by `)` ends is the same for any list
/// written there.
pub proof fn lemma_params_end_unique(s: Seq<char>, p: int, ps1: Seq<EUFTerm>, ps2: Seq<EUFTerm>)
    requires
        params_end(s, p, ps1) matches Some(c) && c < s.len() && s[c] == ')',
        params_end(s, p, ps2) matches Some(c) && c < s.len() && s[c] == ')',
    ensures
        params_end(s, p, ps1) == params_end(s, p, ps2),
    decreases ps1,
{
    if ps1.len() == 0 && ps2.len() > 0 {
        lemma_no_term_at_close(s, p, ps2[0]);
    } else if ps1.len() > 0 && ps2.len() == 0 {
        lemma_no_term_at_close(s, p, ps1[0]);
    } else if ps1.len() > 0 {
        lemma_term_end_unique(s, p, ps1[0], ps2[0]);
        let e = term_end(s, p, ps1[0])->0;
        lemma_params_end_unique(s, skip_spaces(s, e), ps1.drop_first(), ps2.drop_first());
    }
}

/// No term is written at a closing parenthesis or at the end.
pub proof fn lemma_no_term_at_close(s: Seq<char>, p: int, t: EUFTerm)
    requires
        p <= s.len(),
        p < 0 || p == s.len() || s[p] == ')',
    ensures
        term_end(s, p, t) is None,
{
    if p >= 0 {
        assert(skip_spaces(s, p) == p);
        assert(digit_run(s, p) == 0);
    }
}

/// A line that states the literal `lit`.
pub open spec fn states(l: Seq<char>, lit: EUFLiteral) -> bool {
    &&& l.len() >= 2
    &&& l[1] == '='
    &&& (lit.is_equality <==> l[0] == '=')
    &&& (!lit.is_equality <==> l[0] == '/')
    &&& exists|p: int, q: int| spans(l, 2, lit.left, p) && spans(l, p, lit.right, q)
}

/// The line states no literal.
pub open spec fn states_nothing(l: Seq<char>) -> bool {
    forall|lit: EUFLiteral| !#[trigger] states(l, lit)
}

/// The position of the first line `--`, or the number of lines.
pub open spec fn separator(ls: Seq<Seq<char>>, i: int) -> int
    decreases ls.len() - i,
{
    if i < 0 || i >= ls.len() {
        ls.len() as int
    } else if ls[i] == seq!['-', '-'] {
        i
    } else {
        separator(ls, i + 1)
    }
}

proof fn lemma_separator_ge(ls: Seq<Seq<char>>, i: int)
    requires
        0 <= i <= ls.len(),
    ensures
        separator(ls, i) >= i,
    decreases ls.len() - i,
{
    if i < ls.len() && ls[i] != seq!['-', '-'] {
        lemma_separator_ge(ls, i + 1);
    }
}

proof fn lemma_separator_after(ls: Seq<Seq<char>>, i: int)
    requires
        0 <= i < ls.len(),
        ls[i] != seq!['-', '-'],
    ensures
        separator(ls, i) > i,
{
    lemma_separator_ge(ls, i + 1);
}

/// A parser error.
#[derive(Clone, Debug, PartialEq, Eq, PartialOrd, Ord)]
pub enum ParseError {
    CannotParseEqualitySymbol { c1: Option<char>, c2: Option<char> },
    UnexpectedEndOfApTerm,
    CannotParseAtom,
    DIMACSError(dimacs::ParseError),
}

/// Parse an EUF theory and formula represented as a string.  The
/// representation is as follows:
///
///    euf_lit
///    euf_lit
///    [...]
///    --
///    <dimacs>
///
/// Where an euf_lit is one of:
///   - == euf_term euf_term
///   - /= euf_term euf_term
///
/// Where an euf_term is one of:
///   - integer
///   - integer(euf_term...)
pub fn from_string(input: String) -> (r: Result<(EUF, Formula), ParseError>)
    ensures
        ({
            let ls = lines(input@);
            let k = separator(ls, 0);
            match r {
                Ok((t, f)) => {
                    &&& t.wf()
                    &&& t.fresh()
                    &&& t.literals().len() == k
                    &&& forall|i: int| 0 <= i < k ==> states(ls[i], #[trigger] t.literals()[i])
                    &&& forall|a: int| #[trigger] t.knows_atom(a) == (1 <= a <= k)
                    &&& result_is(Ok(f), outcome(ls, k + 1))
                },
                Err(ParseError::DIMACSError(e)) => result_is(Err(e), outcome(ls, k + 1)),
                Err(_) => exists|i: int| 0 <= i < k && #[trigger] states_nothing(ls[i]),
            }
        }),
        ({
            let ls = lines(input@);
            let k = separator(ls, 0);
            (forall|i: int| 0 <= i < k ==> !#[trigger] states_nothing(ls[i]))
                && outcome(ls, k + 1) is Parsed ==> r is Ok
        }),
        ({
            let ls = lines(input@);
            let k = separator(ls, 0);
            r matches Err(e) ==> (e is DIMACSError || exists|i: int|
                0 <= i < k && #[trigger] lit_read_error(ls[i]) == Some(e) && forall|j: int|
                    0 <= j < i ==> lit_read_error(#[trigger] ls[j]) is None)
        }),
{
    let text = input.as_str();
    let chars = chars_of(text);
    let ls = split_lines(&chars);
    let ghost l = ranges_text(chars@, ls@);
    let dashes: Vec<char> = vec!['-', '-'];
    let mut lits: Vec<EUFLiteral> = Vec::new();
    let mut i: usize = 0;
    let mut found = false;
    while i < ls.len() && !found
        invariant
            found ==> i < ls@.len() && l[i as int] == seq!['-', '-'],
            chars@ == text@,
            text@ == input@,
            l == ranges_text(chars@, ls@),
            l == lines(input@),
            dimacs::ranges_in(ls@, 0, chars@.len() as int),
            dashes@ == seq!['-', '-'],
            i <= ls@.len(),
            separator(l, 0) == separator(l, i as int),
            lits@.len() == i,
            forall|j: int| 0 <= j < i ==> states(l[j], #[trigger] lits@[j]),
            forall|j: int| 0 <= j < i ==> lit_read_error(#[trigger] l[j]) is None,
        decreases ls@.len() - i + if found {
            0int
        } else {
            1int
        },
    {
        let (lo, hi) = ls[i];
        assert(ls@[i as int].0 <= ls@[i as int].1 <= chars@.len());
        assert(l[i as int] == chars@.subrange(lo as int, hi as int));
        if spells(&chars, lo, hi, &dashes) {
            found = true;
        } else {
            let line = slice_chars(&chars, lo, hi);
            match parse_lit(&line) {
                Ok(lit) => {
                    lits.push(lit);
                },
                Err(e) => {
                    proof {
                        lemma_separator_after(l, i as int);
                        assert(states_nothing(l[i as int]));
                        assert(lit_read_error(l[i as int]) == Some(e));
                    }
                    return Err(e);
                },
            }
            i = i + 1;
        }
    }
    assert(separator(l, 0) == i);
    let first = if found {
        i + 1
    } else {
        i
    };
    let formula = dimacs::from_lines(text, &chars, &ls, first);
    proof {
        if i >= ls@.len() {
            assert(dimacs::prelude(l, first as int) == dimacs::prelude(l, first + 1));
        }
    }
    match formula {
        Ok(f) => {
            let t = EUF::new(lits);
            Ok((t, f))
        },
        Err(e) => Err(ParseError::DIMACSError(e)),
    }
}

/// Parse a lit, one of:
///   - == euf_term euf_term
///   - /= euf_term euf_term
fn parse_lit(chars: &Vec<char>) -> (r: Result<EUFLiteral, ParseError>)
    ensures
        r matches Ok(lit) ==> states(chars@, lit),
        r matches Err(e) ==> !(e is DIMACSError),
        r is Err ==> forall|lit: EUFLiteral| !#[trigger] states(chars@, lit),
        match lit_read_error(chars@) {
            Some(e) => r matches Err(e2) && e2 == e,
            None => r is Ok,
        },
{
    if chars.len() < 2 {
        let c1 = if chars.len() > 0 {
            Some(chars[0])
        } else {
            None
        };
        return Err(ParseError::CannotParseEqualitySymbol { c1, c2: None });
    }
    let c1 = chars[0];
    let c2 = chars[1];
    let is_equality = if c1 == '=' && c2 == '=' {
        true
    } else if c1 == '/' && c2 == '=' {
        false
    } else {
        return Err(ParseError::CannotParseEqualitySymbol { c1: Some(c1), c2: Some(c2) });
    };
    let (left, p) = match parse_term(chars, 2) {
        Ok(x) => x,
        Err(e) => {
            assert forall|lit: EUFLiteral| !#[trigger] states(chars@, lit) by {
                if states(chars@, lit) {
                    let (p0, q0) = choose|p0: int, q0: int| spans(chars@, 2, lit.left, p0) && spans(chars@, p0, lit.right, q0);
                    assert(!spans(chars@, 2, lit.left, p0));
                }
            }
            return Err(e);
        },
    };
    let (right, q) = match parse_term(chars, p) {
        Ok(x) => x,
        Err(e) => {
            assert forall|lit: EUFLiteral| !#[trigger] states(chars@, lit) by {
                if states(chars@, lit) {
                    let (p0, q0) = choose|p0: int, q0: int| spans(chars@, 2, lit.left, p0) && spans(chars@, p0, lit.right, q0);
                    lemma_term_end_unique(chars@, 2, lit.left, left);
                    assert(!spans(chars@, p as int, lit.right, q0));
                }
            }
            return Err(e);
        },
    };
    let lit = EUFLiteral::new(left, right);
    let lit = if is_equality {
        lit
    } else {
        lit.negate()
    };
    Ok(lit)
}

/// Parse a term, is one of:
///   - integer
///   - integer(euf_term...)
fn parse_term(chars: &Vec<char>, pos: usize) -> (r: Result<(EUFTerm, usize), ParseError>)
    requires
        pos <= chars@.len(),
    ensures
        r matches Ok((t, q)) ==> pos < q <= chars@.len() && spans(chars@, pos as int, t, q as int),
        r matches Err(e) ==> !(e is DIMACSError),
        r is Err ==> forall|t: EUFTerm, q: int| !#[trigger] spans(chars@, pos as int, t, q),
        match term_read(chars@, pos as int) {
            Ok(q) => r matches Ok((_, q2)) && q2 == q,
            Err(e) => r matches Err(e2) && e2 == e,
        },
    decreases chars@.len() - pos,
{
    let p1 = eat_whitespace(chars, pos);
    let (atom, e) = match parse_atom(chars, p1) {
        Ok(x) => x,
        Err(err) => {
            assert forall|t: EUFTerm, q: int| !#[trigger] spans(chars@, pos as int, t, q) by {}
            return Err(err);
        },
    };
    proof {
        lemma_digit_run(chars@, p1 as int);
        lemma_skip_spaces_grows(chars@, pos as int);
    }
    let p2 = eat_whitespace(chars, e);
    proof {
        lemma_skip_spaces_grows(chars@, e as int);
    }
    if p2 < chars.len() && chars[p2] == '(' {
        let mut parameters: Vec<EUFTerm> = Vec::new();
        let mut p = p2 + 1;
        assert(params_end(chars@, p2 + 1, parameters@) == Some(p as int));
        assert forall|ps: Seq<EUFTerm>| #[trigger] params_end(chars@, p2 + 1, ps) matches Some(c) && c < chars@.len()
            && chars@[c] == ')' implies ps.len() >= parameters@.len() && params_end(chars@, p as int, ps.skip(parameters@.len() as int))
            == params_end(chars@, p2 + 1, ps) by {
            assert(ps.skip(0) =~= ps);
        }
        loop
            invariant
                pos < p <= chars@.len(),
                p2 < p,
                pos <= chars@.len(),
                p1 == skip_spaces(chars@, pos as int),
                e == p1 + digit_run(chars@, p1 as int),
                p2 == skip_spaces(chars@, e as int),
                digit_run(chars@, p1 as int) > 0,
                atom == digits_value(chars@.subrange(p1 as int, e as int)),
                p2 < chars@.len(),
                chars@[p2 as int] == '(',
                params_end(chars@, p2 + 1, parameters@) == Some(p as int),
                term_read(chars@, pos as int) == args_read(chars@, p as int),
                forall|ps: Seq<EUFTerm>| #[trigger] params_end(chars@, p2 + 1, ps) matches Some(c) && c < chars@.len()
                    && chars@[c] == ')' ==> ps.len() >= parameters@.len() && params_end(
                    chars@,
                    p as int,
                    ps.skip(parameters@.len() as int),
                ) == params_end(chars@, p2 + 1, ps),
            decreases chars@.len() - p,
        {
            let ghost k = parameters@.len() as int;
            if p < chars.len() && chars[p] == ')' {
                let t = EUFTerm::ap(atom, parameters);
                return Ok((t, p + 1));
            }
            if p >= chars.len() {
                proof {
                    lemma_no_app(chars@, pos as int, p2 as int, p as int, k);
                }
                return Err(ParseError::UnexpectedEndOfApTerm);
            }
            let (term, q) = match parse_term(chars, p) {
                Ok(x) => x,
                Err(err) => {
                    proof {
                        lemma_no_app(chars@, pos as int, p2 as int, p as int, k);
                    }
                    return Err(err);
                },
            };
            let np = eat_whitespace(chars, q);
            proof {
                lemma_skip_spaces_grows(chars@, q as int);
                assert(args_read(chars@, p as int) == args_read(chars@, np as int));
                lemma_params_push(chars@, p2 + 1, parameters@, term, p as int, q as int);
                assert forall|ps: Seq<EUFTerm>| #[trigger] params_end(chars@, p2 + 1, ps) matches Some(c) && c < chars@.len()
                    && chars@[c] == ')' implies ps.len() >= k + 1 && params_end(chars@, np as int, ps.skip(k + 1))
                    == params_end(chars@, p2 + 1, ps) by {
                    let tail = ps.skip(k);
                    if tail.len() == 0 {
                        assert(params_end(chars@, p as int, tail) == Some(p as int));
                    }
                    assert(tail[0] == ps[k]);
                    assert(tail.drop_first() =~= ps.skip(k + 1));
                    lemma_term_end_unique(chars@, p as int, ps[k], term);
                }
            }
            parameters.push(term);
            p = np;
        }
    } else {
        Ok((EUFTerm::atom(atom), p2))
    }
}

/// With the loop's knowledge that any argument list from `p2 + 1` runs
/// through `p` and that no term starts at `p`, no application is written
/// at `pos`; nor is an atom, since `(` follows the function atom.
proof fn lemma_no_app(s: Seq<char>, pos: int, p2: int, p: int, k: int)
    requires
        0 <= pos <= s.len(),
        p2 == skip_spaces(s, skip_spaces(s, pos) + digit_run(s, skip_spaces(s, pos))),
        p2 < s.len(),
        s[p2] == '(',
        0 <= k,
        p <= s.len(),
        p < s.len() ==> s[p] != ')',
        forall|t: EUFTerm, q: int| !#[trigger] spans(s, p, t, q),
        forall|ps: Seq<EUFTerm>| #[trigger] params_end(s, p2 + 1, ps) matches Some(c) && c < s.len() && s[c] == ')'
            ==> ps.len() >= k && params_end(s, p, ps.skip(k)) == params_end(s, p2 + 1, ps),
    ensures
        forall|t: EUFTerm, q: int| !#[trigger] spans(s, pos, t, q),
{
    assert forall|t: EUFTerm, q: int| !#[trigger] spans(s, pos, t, q) by {
        if spans(s, pos, t, q) {
            match t {
                EUFTerm::Application { function_atom, parameters } => {
                    let ps = parameters@;
                    assert(params_end(s, p2 + 1, ps) is Some);
                    let c = params_end(s, p2 + 1, ps)->0;
                    assert(c < s.len() && s[c] == ')');
                    assert(ps.len() >= k);
                    let tail = ps.skip(k);
                    if tail.len() == 0 {
                        assert(params_end(s, p, tail) == Some(p));
                    } else {
                        assert(term_end(s, p, tail[0]) is Some);
                        let e = term_end(s, p, tail[0])->0;
                        assert(spans(s, p, tail[0], e));
                    }
                },
                _ => {},
            }
        }
    }
}

/// Parse an atom: a nonempty run of digits at `pos`.
fn parse_atom(chars: &Vec<char>, pos: usize) -> (r: Result<(usize, usize), ParseError>)
    requires
        pos <= chars@.len(),
    ensures
        r matches Ok((a, e)) ==> digit_run(chars@, pos as int) > 0 && e == pos + digit_run(chars@, pos as int)
            && a == digits_value(chars@.subrange(pos as int, e as int)),
        r matches Err(err) ==> err == ParseError::CannotParseAtom,
        r is Err <==> (digit_run(chars@, pos as int) == 0 || digits_value(
            chars@.subrange(pos as int, pos + digit_run(chars@, pos as int)),
        ) > usize::MAX),
{
    match parse_usize(chars, pos) {
        Some((a, e)) => Ok((a, e)),
        None => Err(ParseError::CannotParseAtom),
    }
}

/// Relies on `String::push`: it appends the character to the string.
#[verifier::external_body]
fn push_char(s: &mut String, c: char)
    ensures
        final(s)@ == old(s)@.push(c),
{
    s.push(c);
}

/// The message for a parse error.
pub open spec fn error_text(e: ParseError) -> Seq<char> {
    match e {
        ParseError::CannotParseEqualitySymbol { c1, c2 } => match (c1, c2) {
            (Some(a), Some(b)) => "cannot parse equality symbol, expected '==' or '/=' but got '"@ + seq![a, b] + "'"@,
            (Some(a), None) => "cannot parse equality symbol, expected '==' or '/=' but got '"@ + seq![a] + "'"@,
            _ => "unexpected empty line"@,
        },
        ParseError::UnexpectedEndOfApTerm => "unexpected end of application term"@,
        ParseError::CannotParseAtom => "cannot parse atom"@,
        ParseError::DIMACSError(d) => "cannot parse DIMACS: "@ + dimacs::error_text(d),
    }
}

impl ParseError {
    /// The message for the error.
    pub fn to_string(&self) -> (r: String)
        ensures
            r@ == error_text(*self),
    {
        match self {
            ParseError::CannotParseEqualitySymbol { c1, c2 } => match (c1, c2) {
                (Some(a), Some(b)) => {
                    let mut out = String::from_str("cannot parse equality symbol, expected '==' or '/=' but got '");
                    push_char(&mut out, *a);
                    push_char(&mut out, *b);
                    out.append("'");
                    assert(out@ =~= error_text(*self));
                    out
                },
                (Some(a), None) => {
                    let mut out = String::from_str("cannot parse equality symbol, expected '==' or '/=' but got '");
                    push_char(&mut out, *a);
                    out.append("'");
                    assert(out@ =~= error_text(*self));
                    out
                },
                _ => String::from_str("unexpected empty line"),
            },
            ParseError::UnexpectedEndOfApTerm => String::from_str("unexpected end of application term"),
            ParseError::CannotParseAtom => String::from_str("cannot parse atom"),
            ParseError::DIMACSError(d) => {
                let mut out = String::from_str("cannot parse DIMACS: ");
                let text = d.to_string();
                out.append(text.as_str());
                out
            },
        }
    }
}

} // verus!
