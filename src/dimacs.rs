//! Parser for DIMACS CNF format.
//!
//! The text is split into lines, and lines into words.  The prelude is a
//! run of comment lines (first word `c`) ended by the header
//! `p cnf <variables> <clauses>`.  After it come signed literals, each
//! clause ended by `0`, across line boundaries; literals after the last
//! `0` are not a clause.  No atom may exceed the declared number of
//! variables, and the number of clauses must equal the declared count.

use crate::cnf::{Clause, Formula, Literal};
use crate::parse::combinators::{chars_of, digit_run, digits_value, is_digit, lemma_digit_run, parse_digits};
use vstd::prelude::*;
use vstd::string::{StrSliceExecFns, StringExecFns};

verus! {

// ---------------------------------------------------------------------
// The format
// ---------------------------------------------------------------------

/// Drop one carriage return that ends a line.
pub open spec fn strip_cr(l: Seq<char>) -> Seq<char> {
    if l.len() > 0 && l.last() == '\r' {
        l.drop_last()
    } else {
        l
    }
}

/// The lines of `s` from position `i` on, where the current line started
/// at `start`: a line ends at each newline, and a last line without one
/// counts when it is not empty.
pub open spec fn lines_from(s: Seq<char>, start: int, i: int) -> Seq<Seq<char>>
    decreases s.len() - i,
{
    if i >= s.len() {
        if start < s.len() {
            seq![s.subrange(start, s.len() as int)]
        } else {
            seq![]
        }
    } else if s[i] == '\n' {
        seq![strip_cr(s.subrange(start, i))] + lines_from(s, i + 1, i + 1)
    } else {
        lines_from(s, start, i + 1)
    }
}

/// The lines of a text.
pub open spec fn lines(s: Seq<char>) -> Seq<Seq<char>> {
    lines_from(s, 0, 0)
}

/// ASCII white space: space, tab, line feed, form feed, carriage return.
pub open spec fn is_space(c: char) -> bool {
    c == ' ' || c == '\t' || c == '\n' || c == '\x0C' || c == '\r'
}

/// The words of `l` from position `i` on, where the current word started
/// at `start` (`start == i` when there is none).
pub open spec fn words_from(l: Seq<char>, start: int, i: int) -> Seq<Seq<char>>
    decreases l.len() - i,
{
    if i >= l.len() {
        if start < i {
            seq![l.subrange(start, i)]
        } else {
            seq![]
        }
    } else if is_space(l[i]) {
        (if start < i {
            seq![l.subrange(start, i)]
        } else {
            seq![]
        }) + words_from(l, i + 1, i + 1)
    } else {
        words_from(l, start, i + 1)
    }
}

/// The maximal runs of non-space characters of a line.
pub open spec fn words(l: Seq<char>) -> Seq<Seq<char>> {
    words_from(l, 0, 0)
}

/// One or more decimal digits.
pub open spec fn all_digits(w: Seq<char>) -> bool {
    w.len() > 0 && forall|i: int| 0 <= i < w.len() ==> is_digit(#[trigger] w[i])
}

/// A decimal number with an optional sign.
pub open spec fn int_value(w: Seq<char>) -> Option<int> {
    if w.len() > 0 && w[0] == '-' && all_digits(w.drop_first()) {
        Some(-(digits_value(w.drop_first()) as int))
    } else if w.len() > 0 && w[0] == '+' && all_digits(w.drop_first()) {
        Some(digits_value(w.drop_first()) as int)
    } else if all_digits(w) {
        Some(digits_value(w) as int)
    } else {
        None
    }
}

/// A literal word: a number whose negation fits an isize.
pub open spec fn literal_value(w: Seq<char>) -> Option<int> {
    match int_value(w) {
        Some(v) => if -isize::MAX <= v <= isize::MAX {
            Some(v)
        } else {
            None
        },
        None => None,
    }
}

/// A count in the header: a number without minus sign that fits a usize.
pub open spec fn count_value(w: Seq<char>) -> Option<nat> {
    if w.len() > 0 && w[0] == '-' {
        None
    } else {
        match int_value(w) {
            Some(v) => if 0 <= v <= usize::MAX {
                Some(v as nat)
            } else {
                None
            },
            None => None,
        }
    }
}

/// How the prelude ends.
pub enum Prelude {
    /// The header, on the given line, with the declared counts.
    Header(int, nat, nat),
    /// The lines ran out before a header.
    Missing,
    /// A line that is neither a comment nor a header.
    BadLine(int),
    /// A header for a format other than `cnf`.
    BadFormat(Seq<char>),
}

/// Read the prelude from line `i` on.
pub open spec fn prelude(ls: Seq<Seq<char>>, i: int) -> Prelude
    decreases ls.len() - i,
{
    if i < 0 || i >= ls.len() {
        Prelude::Missing
    } else {
        let w = words(ls[i]);
        if w.len() > 0 && w[0] == seq!['c'] {
            prelude(ls, i + 1)
        } else if w.len() > 0 && w[0] == seq!['p'] {
            if w.len() > 1 && w[1] == seq!['c', 'n', 'f'] {
                if w.len() > 3 && count_value(w[2]) is Some && count_value(w[3]) is Some {
                    Prelude::Header(i, count_value(w[2])->0, count_value(w[3])->0)
                } else {
                    Prelude::BadLine(i)
                }
            } else if w.len() > 1 {
                Prelude::BadFormat(w[1])
            } else {
                Prelude::BadLine(i)
            }
        } else {
            Prelude::BadLine(i)
        }
    }
}

/// How the clause section ends.
pub enum Scan {
    /// The clauses read, and the largest atom among them.
    Done(Seq<Seq<isize>>, nat),
    /// A word on this line is not a literal.
    BadLine(int),
}

/// Read clauses from word `j` of line `i` on, with the clause `cur` in
/// progress, the clauses `done` complete, and the largest atom so far
/// `maxv`.
pub open spec fn scan(
    ls: Seq<Seq<char>>,
    i: int,
    j: int,
    cur: Seq<isize>,
    done: Seq<Seq<isize>>,
    maxv: nat,
) -> Scan
    decreases ls.len() - i, (if 0 <= i < ls.len() {
        words(ls[i]).len() - j
    } else {
        0
    }),
{
    if i < 0 || i >= ls.len() {
        Scan::Done(done, maxv)
    } else if j < 0 || j >= words(ls[i]).len() {
        scan(ls, i + 1, 0, cur, done, maxv)
    } else {
        match literal_value(words(ls[i])[j]) {
            None => Scan::BadLine(i),
            Some(v) => if v == 0 {
                scan(ls, i, j + 1, seq![], done.push(cur), maxv)
            } else {
                let a = if v < 0 { -v } else { v };
                scan(ls, i, j + 1, cur.push(v as isize), done, if a > maxv { a as nat } else { maxv })
            },
        }
    }
}

/// What reading a DIMACS text from line `first` on gives.
pub enum Outcome {
    Parsed(Seq<Seq<isize>>),
    PreludeLine(Seq<char>),
    Format(Seq<char>),
    ClauseLine(Seq<char>),
    Variables(nat, nat),
    Clauses(nat, nat),
}

/// Read a DIMACS text from line `first` on.
pub open spec fn outcome(ls: Seq<Seq<char>>, first: int) -> Outcome {
    match prelude(ls, first) {
        Prelude::BadLine(i) => Outcome::PreludeLine(ls[i]),
        Prelude::BadFormat(w) => Outcome::Format(w),
        Prelude::Missing => Outcome::Parsed(seq![]),
        Prelude::Header(h, v, c) => match scan(ls, h + 1, 0, seq![], seq![], 0) {
            Scan::BadLine(i) => Outcome::ClauseLine(ls[i]),
            Scan::Done(cls, m) => if m > v {
                Outcome::Variables(v, m)
            } else if cls.len() != c {
                Outcome::Clauses(c, cls.len())
            } else {
                Outcome::Parsed(cls)
            },
        },
    }
}

/// The formula holds exactly these clauses of numbers.
pub open spec fn formula_is(f: Formula, cls: Seq<Seq<isize>>) -> bool {
    &&& f.0@.len() == cls.len()
    &&& forall|k: int| 0 <= k < cls.len() ==> clause_is(#[trigger] f.0@[k], cls[k])
}

/// The clause holds exactly these numbers.
pub open spec fn clause_is(c: Clause, ns: Seq<isize>) -> bool {
    &&& c.0@.len() == ns.len()
    &&& forall|m: int| 0 <= m < ns.len() ==> #[trigger] c.0@[m] == Literal(ns[m])
}

/// The result agrees with the outcome.
pub open spec fn result_is(r: Result<Formula, ParseError>, o: Outcome) -> bool {
    match o {
        Outcome::Parsed(cls) => r matches Ok(f) && formula_is(f, cls) && f.wf(),
        Outcome::PreludeLine(l) => r matches Err(ParseError::CannotParsePreludeLine(s)) && s@ == l,
        Outcome::Format(w) => r matches Err(ParseError::UnexpectedFormat(s)) && s@ == w,
        Outcome::ClauseLine(l) => r matches Err(ParseError::CannotParseClauseLine(s)) && s@ == l,
        Outcome::Variables(e, a) => r matches Err(ParseError::WrongNumberOfVariables { expected, actual })
            && expected == e && actual == a,
        Outcome::Clauses(e, a) => r matches Err(ParseError::WrongNumberOfClauses { expected, actual })
            && expected == e && actual == a,
    }
}

/// A parser error.
#[derive(Clone, Debug, PartialEq, Eq, PartialOrd, Ord)]
pub enum ParseError {
    CannotParsePreludeLine(String),
    CannotParseClauseLine(String),
    UnexpectedFormat(String),
    WrongNumberOfVariables { expected: usize, actual: usize },
    WrongNumberOfClauses { expected: usize, actual: usize },
}

// ---------------------------------------------------------------------
// Reading
// ---------------------------------------------------------------------

/// The texts of ranges of positions.
pub open spec fn ranges_text(s: Seq<char>, rs: Seq<(usize, usize)>) -> Seq<Seq<char>> {
    rs.map_values(|r: (usize, usize)| s.subrange(r.0 as int, r.1 as int))
}

/// Ranges that lie inside a text of length `n`.
pub open spec fn ranges_in(rs: Seq<(usize, usize)>, lo: int, hi: int) -> bool {
    forall|k: int| 0 <= k < rs.len() ==> lo <= (#[trigger] rs[k]).0 <= rs[k].1 <= hi
}

/// Split a text into the ranges of its lines.
pub(crate) fn split_lines(chars: &Vec<char>) -> (r: Vec<(usize, usize)>)
    ensures
        ranges_text(chars@, r@) == lines(chars@),
        ranges_in(r@, 0, chars@.len() as int),
{
    let n = chars.len();
    let mut out: Vec<(usize, usize)> = Vec::new();
    let mut start: usize = 0;
    let mut i: usize = 0;
    while i < n
        invariant
            n == chars@.len(),
            start <= i <= n,
            ranges_text(chars@, out@) + lines_from(chars@, start as int, i as int) == lines(chars@),
            ranges_in(out@, 0, n as int),
        decreases n - i,
    {
        if chars[i] == '\n' {
            let e = if i > start && chars[i - 1] == '\r' {
                i - 1
            } else {
                i
            };
            let ghost before = out@;
            out.push((start, e));
            assert(chars@.subrange(start as int, e as int) =~= strip_cr(chars@.subrange(start as int, i as int)));
            assert(ranges_text(chars@, out@) =~= ranges_text(chars@, before).push(chars@.subrange(start as int, e as int)));
            assert(ranges_text(chars@, out@) + lines_from(chars@, i + 1, i + 1) =~= ranges_text(chars@, before) + lines_from(chars@, start as int, i as int));
            start = i + 1;
        }
        i = i + 1;
    }
    if start < n {
        let ghost before = out@;
        out.push((start, n));
        assert(ranges_text(chars@, out@) =~= ranges_text(chars@, before).push(chars@.subrange(start as int, n as int)));
        assert(ranges_text(chars@, out@) =~= ranges_text(chars@, before) + lines_from(chars@, start as int, n as int));
    } else {
        assert(ranges_text(chars@, out@) =~= ranges_text(chars@, out@) + lines_from(chars@, start as int, n as int));
    }
    out
}

fn is_space_char(c: char) -> (r: bool)
    ensures
        r == is_space(c),
{
    c == ' ' || c == '\t' || c == '\n' || c == '\x0C' || c == '\r'
}

/// Split the line at positions `[lo, hi)` into the ranges of its words.
pub(crate) fn split_words(chars: &Vec<char>, lo: usize, hi: usize) -> (r: Vec<(usize, usize)>)
    requires
        lo <= hi <= chars@.len(),
    ensures
        ranges_text(chars@, r@) == words(chars@.subrange(lo as int, hi as int)),
        ranges_in(r@, lo as int, hi as int),
{
    let ghost l = chars@.subrange(lo as int, hi as int);
    let mut out: Vec<(usize, usize)> = Vec::new();
    let mut ws: usize = lo;
    let mut i: usize = lo;
    while i < hi
        invariant
            lo <= ws <= i <= hi <= chars@.len(),
            l == chars@.subrange(lo as int, hi as int),
            ranges_text(chars@, out@) + words_from(l, ws - lo, i - lo) == words(l),
            ranges_in(out@, lo as int, hi as int),
        decreases hi - i,
    {
        assert(l[i - lo] == chars@[i as int]);
        if is_space_char(chars[i]) {
            let ghost before = out@;
            if ws < i {
                out.push((ws, i));
                assert(chars@.subrange(ws as int, i as int) =~= l.subrange(ws - lo, i - lo));
                assert(ranges_text(chars@, out@) =~= ranges_text(chars@, before).push(chars@.subrange(ws as int, i as int)));
                assert(ranges_text(chars@, out@) + words_from(l, i + 1 - lo, i + 1 - lo) =~= ranges_text(chars@, before) + words_from(l, ws - lo, i - lo));
            } else {
                assert(ranges_text(chars@, out@) + words_from(l, i + 1 - lo, i + 1 - lo) =~= ranges_text(chars@, before) + words_from(l, ws - lo, i - lo));
            }
            ws = i + 1;
        }
        i = i + 1;
    }
    let ghost before = out@;
    if ws < hi {
        out.push((ws, hi));
        assert(chars@.subrange(ws as int, hi as int) =~= l.subrange(ws - lo, hi - lo));
        assert(ranges_text(chars@, out@) =~= ranges_text(chars@, before).push(chars@.subrange(ws as int, hi as int)));
        assert(ranges_text(chars@, out@) =~= ranges_text(chars@, before) + words_from(l, ws - lo, hi - lo));
    } else {
        assert(ranges_text(chars@, out@) =~= ranges_text(chars@, before) + words_from(l, ws - lo, hi - lo));
    }
    out
}

/// The characters at positions `[lo, hi)`.
pub(crate) fn slice_chars(chars: &Vec<char>, lo: usize, hi: usize) -> (r: Vec<char>)
    requires
        lo <= hi <= chars@.len(),
    ensures
        r@ == chars@.subrange(lo as int, hi as int),
{
    let mut out: Vec<char> = Vec::new();
    let mut i = lo;
    while i < hi
        invariant
            lo <= i <= hi <= chars@.len(),
            out@ =~= chars@.subrange(lo as int, i as int),
        decreases hi - i,
    {
        out.push(chars[i]);
        i = i + 1;
    }
    out
}

/// The text at positions `[lo, hi)` of `text`, whose characters are `chars`.
fn text_of(text: &str, chars: &Vec<char>, lo: usize, hi: usize) -> (r: String)
    requires
        chars@ == text@,
        lo <= hi <= chars@.len(),
    ensures
        r@ == chars@.subrange(lo as int, hi as int),
{
    String::from_str(text.substring_char(lo, hi))
}

proof fn lemma_all_digits_from(w: Seq<char>, pos: int)
    requires
        0 <= pos <= w.len(),
    ensures
        all_digits(w.subrange(pos, w.len() as int)) == (digit_run(w, pos) > 0 && pos + digit_run(w, pos) == w.len()),
{
    lemma_digit_run(w, pos);
    let t = w.subrange(pos, w.len() as int);
    if pos + digit_run(w, pos) < w.len() {
        assert(t[digit_run(w, pos) as int] == w[pos + digit_run(w, pos)]);
    }
    if digit_run(w, pos) > 0 && pos + digit_run(w, pos) == w.len() {
        assert forall|i: int| 0 <= i < t.len() implies is_digit(#[trigger] t[i]) by {
            assert(t[i] == w[pos + i]);
        }
    }
}

/// Read a number with an optional sign and at most `limit` in magnitude;
/// `None` when the word is no such number.
fn parse_signed(w: &Vec<char>, limit: u64) -> (r: Option<(bool, u64)>)
    ensures
        match r {
            Some((neg, v)) => int_value(w@) == Some(if neg { -(v as int) } else { v as int }) && v <= limit
                && (neg <==> (w@.len() > 0 && w@[0] == '-')),
            None => match int_value(w@) {
                Some(x) => x > limit || x < -limit,
                None => true,
            },
        },
{
    if w.len() == 0 {
        return None;
    }
    let neg = w[0] == '-';
    let pos: usize = if w[0] == '-' || w[0] == '+' {
        1
    } else {
        0
    };
    proof {
        lemma_all_digits_from(w@, pos as int);
        assert(w@.subrange(1, w@.len() as int) =~= w@.drop_first());
        assert(w@.subrange(0, w@.len() as int) =~= w@);
        if pos == 0 {
            assert(!is_digit(w@[0]) ==> !all_digits(w@));
        }
    }
    match parse_digits(w, pos, limit) {
        Some((v, e)) => {
            if e == w.len() {
                Some((neg, v))
            } else {
                None
            }
        },
        None => None,
    }
}

/// Read a clause literal: a number whose negation fits an isize.
fn parse_literal(w: &Vec<char>) -> (r: Option<isize>)
    ensures
        match r {
            Some(v) => literal_value(w@) == Some(v as int),
            None => literal_value(w@) is None,
        },
{
    match parse_signed(w, isize::MAX as u64) {
        Some((neg, v)) => {
            if neg {
                Some(-(v as isize))
            } else {
                Some(v as isize)
            }
        },
        None => None,
    }
}

/// Read a count of the header: a number without minus sign that fits a
/// usize.
fn parse_count(w: &Vec<char>) -> (r: Option<usize>)
    ensures
        match r {
            Some(v) => count_value(w@) == Some(v as nat),
            None => count_value(w@) is None,
        },
{
    if w.len() > 0 && w[0] == '-' {
        return None;
    }
    match parse_signed(w, usize::MAX as u64) {
        Some((_, v)) => Some(v as usize),
        None => None,
    }
}

/// Whether the characters at positions `[lo, hi)` spell `t`.
pub(crate) fn spells(chars: &Vec<char>, lo: usize, hi: usize, t: &Vec<char>) -> (r: bool)
    requires
        lo <= hi <= chars@.len(),
    ensures
        r == (chars@.subrange(lo as int, hi as int) == t@),
{
    if hi - lo != t.len() {
        return false;
    }
    let mut i: usize = 0;
    while i < t.len()
        invariant
            hi - lo == t@.len(),
            lo <= hi <= chars@.len(),
            i <= t@.len(),
            forall|k: int| 0 <= k < i ==> chars@[lo + k] == t@[k],
        decreases t@.len() - i,
    {
        if chars[lo + i] != t[i] {
            assert(chars@.subrange(lo as int, hi as int)[i as int] != t@[i as int]);
            return false;
        }
        i = i + 1;
    }
    assert(chars@.subrange(lo as int, hi as int) =~= t@);
    true
}

/// Read the prelude from line `first` on: the header line with the
/// declared counts, `None` when there is no header, or the error.
fn read_prelude(text: &str, chars: &Vec<char>, ls: &Vec<(usize, usize)>, first: usize) -> (r: Result<
    Option<(usize, usize, usize)>,
    ParseError,
>)
    requires
        chars@ == text@,
        ranges_in(ls@, 0, chars@.len() as int),
    ensures
        ({
            let l = ranges_text(chars@, ls@);
            match prelude(l, first as int) {
                Prelude::Header(h, v, c) => r matches Ok(Some((h2, v2, c2))) && h2 == h && v2 == v && c2 == c,
                Prelude::Missing => r matches Ok(None),
                Prelude::BadLine(i) => r matches Err(ParseError::CannotParsePreludeLine(s)) && s@ == l[i],
                Prelude::BadFormat(w) => r matches Err(ParseError::UnexpectedFormat(s)) && s@ == w,
            }
        }),
{
    let ghost l = ranges_text(chars@, ls@);
    let word_c: Vec<char> = vec!['c'];
    let word_p: Vec<char> = vec!['p'];
    let word_cnf: Vec<char> = vec!['c', 'n', 'f'];
    let mut i = first;
    while i < ls.len()
        invariant
            chars@ == text@,
            ranges_in(ls@, 0, chars@.len() as int),
            l == ranges_text(chars@, ls@),
            first <= i,
            prelude(l, first as int) == prelude(l, i as int),
            word_c@ == seq!['c'],
            word_p@ == seq!['p'],
            word_cnf@ == seq!['c', 'n', 'f'],
        decreases ls@.len() - i,
    {
        let (lo, hi) = ls[i];
        assert(ls@[i as int].0 <= ls@[i as int].1 <= chars@.len());
        let ws = split_words(chars, lo, hi);
        let ghost w = words(l[i as int]);
        assert(l[i as int] == chars@.subrange(lo as int, hi as int));
        assert(ranges_text(chars@, ws@) == w);
        assert(ranges_in(ws@, lo as int, hi as int));
        assert forall|k: int| 0 <= k < ws@.len() implies #[trigger] w[k] == chars@.subrange(ws@[k].0 as int, ws@[k].1 as int) by {}
        let n = ws.len();
        if n > 0 && spells(chars, ws[0].0, ws[0].1, &word_c) {
            i = i + 1;
        } else if n > 0 && spells(chars, ws[0].0, ws[0].1, &word_p) {
            if n > 1 && spells(chars, ws[1].0, ws[1].1, &word_cnf) {
                if n > 3 {
                    let v = parse_count(&slice_chars(chars, ws[2].0, ws[2].1));
                    let c = parse_count(&slice_chars(chars, ws[3].0, ws[3].1));
                    match (v, c) {
                        (Some(v), Some(c)) => {
                            return Ok(Some((i, v, c)));
                        },
                        _ => {},
                    }
                }
                return Err(ParseError::CannotParsePreludeLine(text_of(text, chars, lo, hi)));
            } else if n > 1 {
                return Err(ParseError::UnexpectedFormat(text_of(text, chars, ws[1].0, ws[1].1)));
            } else {
                return Err(ParseError::CannotParsePreludeLine(text_of(text, chars, lo, hi)));
            }
        } else {
            return Err(ParseError::CannotParsePreludeLine(text_of(text, chars, lo, hi)));
        }
    }
    Ok(None)
}

/// The clauses of a list of vectors.
pub open spec fn nested(v: Seq<Vec<isize>>) -> Seq<Seq<isize>> {
    v.map_values(|c: Vec<isize>| c@)
}

/// Read clauses from the line after the header to the end: the clauses and
/// the largest atom.
fn read_clauses(text: &str, chars: &Vec<char>, ls: &Vec<(usize, usize)>, h: usize) -> (r: Result<
    (Vec<Vec<isize>>, usize),
    ParseError,
>)
    requires
        chars@ == text@,
        ranges_in(ls@, 0, chars@.len() as int),
        h < ls@.len(),
    ensures
        ({
            let l = ranges_text(chars@, ls@);
            match scan(l, h + 1, 0, seq![], seq![], 0) {
                Scan::Done(cls, m) => r matches Ok((v, m2)) && nested(v@) == cls && m2 == m,
                Scan::BadLine(i) => r matches Err(ParseError::CannotParseClauseLine(s)) && s@ == l[i],
            }
        }),
        r matches Ok((v, _)) ==> forall|k: int, m: int|
            0 <= k < v@.len() && 0 <= m < v@[k]@.len() ==> #[trigger] v@[k]@[m] != 0 && v@[k]@[m] != isize::MIN,
{
    let ghost l = ranges_text(chars@, ls@);
    let ghost goal = scan(l, h + 1, 0, seq![], seq![], 0);
    let mut cur: Vec<isize> = Vec::new();
    let mut done: Vec<Vec<isize>> = Vec::new();
    let mut maxv: usize = 0;
    let n = ls.len();
    let mut i = h + 1;
    assert(nested(done@) =~= seq![]);
    while i < ls.len()
        invariant
            chars@ == text@,
            ranges_in(ls@, 0, chars@.len() as int),
            l == ranges_text(chars@, ls@),
            h < i,
            goal == scan(l, h + 1, 0, seq![], seq![], 0),
            goal == scan(l, i as int, 0, cur@, nested(done@), maxv as nat),
            forall|m: int| 0 <= m < cur@.len() ==> #[trigger] cur@[m] != 0 && cur@[m] != isize::MIN,
            forall|k: int, m: int|
                0 <= k < done@.len() && 0 <= m < done@[k]@.len() ==> #[trigger] done@[k]@[m] != 0 && done@[k]@[m] != isize::MIN,
        decreases ls@.len() - i,
    {
        let (lo, hi) = ls[i];
        assert(ls@[i as int].0 <= ls@[i as int].1 <= chars@.len());
        let ws = split_words(chars, lo, hi);
        let ghost w = words(l[i as int]);
        assert(l[i as int] == chars@.subrange(lo as int, hi as int));
        assert(ranges_text(chars@, ws@) == w);
        let mut j: usize = 0;
        while j < ws.len()
            invariant
                chars@ == text@,
                ranges_in(ls@, 0, chars@.len() as int),
                l == ranges_text(chars@, ls@),
                h < i < ls@.len(),
                w == words(l[i as int]),
                ranges_text(chars@, ws@) == w,
                ranges_in(ws@, lo as int, hi as int),
                hi <= chars@.len(),
                j <= ws@.len(),
                goal == scan(l, h + 1, 0, seq![], seq![], 0),
                lo <= hi,
                l[i as int] == chars@.subrange(lo as int, hi as int),
                goal == scan(l, i as int, j as int, cur@, nested(done@), maxv as nat),
                forall|m: int| 0 <= m < cur@.len() ==> #[trigger] cur@[m] != 0 && cur@[m] != isize::MIN,
                forall|k: int, m: int|
                    0 <= k < done@.len() && 0 <= m < done@[k]@.len() ==> #[trigger] done@[k]@[m] != 0 && done@[k]@[m] != isize::MIN,
            decreases ws@.len() - j,
        {
            assert(w[j as int] == chars@.subrange(ws@[j as int].0 as int, ws@[j as int].1 as int));
            let word = slice_chars(chars, ws[j].0, ws[j].1);
            assert(word@ == w[j as int]);
            assert(0 <= i < l.len());
            assert(w.len() == ws@.len());
            match parse_literal(&word) {
                None => {
                    assert(goal == Scan::BadLine(i as int));
                    return Err(ParseError::CannotParseClauseLine(text_of(text, chars, lo, hi)));
                },
                Some(v) => {
                    if v == 0 {
                        let ghost before = done@;
                        let finished = cur;
                        cur = Vec::new();
                        done.push(finished);
                        assert(nested(done@) =~= nested(before).push(finished@));
                        assert(cur@ =~= seq![]);
                    } else {
                        let a: usize = if v < 0 {
                            (-v) as usize
                        } else {
                            v as usize
                        };
                        cur.push(v);
                        if a > maxv {
                            maxv = a;
                        }
                    }
                },
            }
            j = j + 1;
        }
        i = i + 1;
    }
    Ok((done, maxv))
}

/// Build the formula of a list of clauses of numbers.
fn build_formula(cls: Vec<Vec<isize>>) -> (r: Formula)
    requires
        forall|k: int, m: int|
            0 <= k < cls@.len() && 0 <= m < cls@[k]@.len() ==> #[trigger] cls@[k]@[m] != 0 && cls@[k]@[m] != isize::MIN,
    ensures
        formula_is(r, nested(cls@)),
        r.wf(),
{
    let mut out: Vec<Clause> = Vec::new();
    let mut k: usize = 0;
    while k < cls.len()
        invariant
            k <= cls@.len(),
            out@.len() == k,
            forall|k: int, m: int|
                0 <= k < cls@.len() && 0 <= m < cls@[k]@.len() ==> #[trigger] cls@[k]@[m] != 0 && cls@[k]@[m] != isize::MIN,
            forall|q: int| 0 <= q < k ==> clause_is(#[trigger] out@[q], cls@[q]@) && out@[q].wf(),
        decreases cls@.len() - k,
    {
        let c = cls[k].clone();
        assert(c@ =~= cls@[k as int]@);
        assert forall|m: int| 0 <= m < c@.len() implies #[trigger] c@[m] != 0 && c@[m] != isize::MIN by {
            assert(cls@[k as int]@[m] != 0);
        }
        out.push(Clause::new(c));
        k = k + 1;
    }
    let r = Formula::new(out);
    assert forall|q: int| 0 <= q < nested(cls@).len() implies clause_is(#[trigger] r.0@[q], nested(cls@)[q]) by {
        assert(clause_is(out@[q], cls@[q]@));
    }
    r
}

/// Read a DIMACS text from line `first` on.
pub(crate) fn from_lines(text: &str, chars: &Vec<char>, ls: &Vec<(usize, usize)>, first: usize) -> (r: Result<Formula, ParseError>)
    requires
        chars@ == text@,
        ranges_in(ls@, 0, chars@.len() as int),
    ensures
        result_is(r, outcome(ranges_text(chars@, ls@), first as int)),
{
    match read_prelude(text, chars, ls, first) {
        Err(e) => Err(e),
        Ok(None) => {
            let r = Formula::new(Vec::new());
            assert(formula_is(r, seq![]));
            Ok(r)
        },
        Ok(Some((h, v, c))) => {
            proof {
                assert(h < ls@.len()) by {
                    lemma_prelude_header(ranges_text(chars@, ls@), first as int);
                }
            }
            match read_clauses(text, chars, ls, h) {
                Err(e) => Err(e),
                Ok((cls, m)) => {
                    if m > v {
                        Err(ParseError::WrongNumberOfVariables { expected: v, actual: m })
                    } else if cls.len() != c {
                        Err(ParseError::WrongNumberOfClauses { expected: c, actual: cls.len() })
                    } else {
                        Ok(build_formula(cls))
                    }
                },
            }
        },
    }
}

proof fn lemma_prelude_header(l: Seq<Seq<char>>, i: int)
    ensures
        prelude(l, i) matches Prelude::Header(h, _, _) ==> 0 <= h < l.len(),
        prelude(l, i) matches Prelude::BadLine(h) ==> 0 <= h < l.len(),
    decreases l.len() - i,
{
    if 0 <= i < l.len() {
        lemma_prelude_header(l, i + 1);
    }
}

/// Parse a string in DIMACS CNF format.
pub fn from_string(dimacs: String) -> (r: Result<Formula, ParseError>)
    ensures
        result_is(r, outcome(lines(dimacs@), 0)),
{
    let text = dimacs.as_str();
    let chars = chars_of(text);
    let ls = split_lines(&chars);
    from_lines(text, &chars, &ls, 0)
}

// ---------------------------------------------------------------------
// Writing, and reading back what was written
// ---------------------------------------------------------------------

/// The character of a decimal digit.
pub open spec fn digit_char(d: nat) -> char {
    if d == 0 {
        '0'
    } else if d == 1 {
        '1'
    } else if d == 2 {
        '2'
    } else if d == 3 {
        '3'
    } else if d == 4 {
        '4'
    } else if d == 5 {
        '5'
    } else if d == 6 {
        '6'
    } else if d == 7 {
        '7'
    } else if d == 8 {
        '8'
    } else {
        '9'
    }
}

/// The decimal digits of a number, most significant first.
pub open spec fn digits_of(n: nat) -> Seq<char>
    decreases n,
{
    if n < 10 {
        seq![digit_char(n)]
    } else {
        digits_of(n / 10).push(digit_char(n % 10))
    }
}

/// A number in decimal, with a minus sign when negative.
pub open spec fn render_int(v: int) -> Seq<char> {
    if v < 0 {
        seq!['-'] + digits_of((-v) as nat)
    } else {
        digits_of(v as nat)
    }
}

/// A clause as a line: its literals, then 0, separated by spaces.
pub open spec fn render_clause(c: Seq<isize>) -> Seq<char>
    decreases c.len(),
{
    if c.len() == 0 {
        seq!['0']
    } else {
        render_int(c[0] as int) + seq![' '] + render_clause(c.drop_first())
    }
}

/// Clauses, one per line, each line ended by a newline.
pub open spec fn render_clauses(cls: Seq<Seq<isize>>) -> Seq<char>
    decreases cls.len(),
{
    if cls.len() == 0 {
        seq![]
    } else {
        render_clause(cls[0]) + seq!['\n'] + render_clauses(cls.drop_first())
    }
}

/// The header line `p cnf <v> <c>`.
pub open spec fn render_header(v: nat, c: nat) -> Seq<char> {
    seq!['p', ' ', 'c', 'n', 'f', ' '] + digits_of(v) + seq![' '] + digits_of(c)
}

/// A DIMACS text for the clauses, declaring `v` variables.
pub open spec fn render(v: nat, cls: Seq<Seq<isize>>) -> Seq<char> {
    render_header(v, cls.len()) + seq!['\n'] + render_clauses(cls)
}

/// The largest atom of a clause.
pub open spec fn max_atom(c: Seq<isize>) -> nat
    decreases c.len(),
{
    if c.len() == 0 {
        0
    } else {
        let a = if c[0] < 0 { -c[0] } else { c[0] as int };
        let rest = max_atom(c.drop_first());
        if a > rest { a as nat } else { rest }
    }
}

/// The largest atom of a list of clauses.
pub open spec fn max_atom_all(cls: Seq<Seq<isize>>) -> nat
    decreases cls.len(),
{
    if cls.len() == 0 {
        0
    } else {
        let a = max_atom(cls[0]);
        let rest = max_atom_all(cls.drop_first());
        if a > rest { a } else { rest }
    }
}

proof fn lemma_digit_char(d: nat)
    requires
        d < 10,
    ensures
        is_digit(digit_char(d)),
        (digit_char(d) as nat - '0' as nat) as nat == d,
{
}

proof fn lemma_digits_of(n: nat)
    ensures
        all_digits(digits_of(n)),
        digits_value(digits_of(n)) == n,
    decreases n,
{
    if n < 10 {
        lemma_digit_char(n);
        let w = digits_of(n);
        assert(w.drop_last() =~= seq![]);
        assert(digits_value(w.drop_last()) == 0);
        assert(w.last() == digit_char(n));
        assert(digits_value(w) == digits_value(w.drop_last()) * 10 + (w.last() as nat - '0' as nat) as nat);
    } else {
        lemma_digits_of(n / 10);
        lemma_digit_char(n % 10);
        let w = digits_of(n);
        assert(w.drop_last() == digits_of(n / 10));
        assert(w.last() == digit_char(n % 10));
        vstd::arithmetic::div_mod::lemma_fundamental_div_mod(n as int, 10);
        assert(digits_value(w) == digits_value(w.drop_last()) * 10 + (w.last() as nat - '0' as nat) as nat);
        assert((n / 10) * 10 + n % 10 == n) by (nonlinear_arith)
            requires
                n == 10 * (n / 10) + (n % 10),
        {
        }
        assert forall|i: int| 0 <= i < w.len() implies is_digit(#[trigger] w[i]) by {
            if i < w.len() - 1 {
                assert(w[i] == digits_of(n / 10)[i]);
            }
        }
    }
}

/// Words are cut at a space: a word with no space, a space, and more text.
proof fn lemma_words_cut(a: Seq<char>, b: Seq<char>)
    requires
        a.len() > 0,
        forall|i: int| 0 <= i < a.len() ==> !is_space(#[trigger] a[i]),
    ensures
        words(a + seq![' '] + b) == seq![a] + words(b),
{
    let l = a + seq![' '] + b;
    assert forall|i: int| 0 <= i <= a.len() implies #[trigger] words_from(l, 0, i) == words_from(l, 0, a.len() as int) by {
        lemma_words_scan(l, a, i);
    }
    assert(l.subrange(0, a.len() as int) =~= a);
    assert(words_from(l, 0, a.len() as int) == seq![a] + words_from(l, a.len() as int + 1, a.len() as int + 1));
    lemma_words_shift(a + seq![' '], b, 0, 0);
    assert(a + seq![' '] + b == (a + seq![' ']) + b);
}

proof fn lemma_words_scan(l: Seq<char>, a: Seq<char>, i: int)
    requires
        a.len() > 0,
        a.len() < l.len(),
        forall|k: int| 0 <= k < a.len() ==> l[k] == a[k] && !is_space(#[trigger] a[k]),
        0 <= i <= a.len(),
    ensures
        words_from(l, 0, i) == words_from(l, 0, a.len() as int),
    decreases a.len() - i,
{
    if i < a.len() {
        assert(l[i] == a[i] && !is_space(a[i]));
        lemma_words_scan(l, a, i + 1);
    }
}

proof fn lemma_words_shift(p: Seq<char>, b: Seq<char>, s: int, j: int)
    requires
        0 <= s <= j <= b.len(),
    ensures
        words_from(p + b, p.len() as int + s, p.len() as int + j) == words_from(b, s, j),
    decreases b.len() - j,
{
    let l = p + b;
    if j < b.len() {
        assert(l[p.len() + j] == b[j]);
        if is_space(b[j]) {
            lemma_words_shift(p, b, j + 1, j + 1);
            if s < j {
                assert(l.subrange(p.len() + s, p.len() + j) =~= b.subrange(s, j));
            }
        } else {
            lemma_words_shift(p, b, s, j + 1);
        }
    } else if s < j {
        assert(l.subrange(p.len() + s, p.len() + j) =~= b.subrange(s, j));
    }
}

/// A word with no space is one word.
proof fn lemma_words_single(a: Seq<char>)
    requires
        a.len() > 0,
        forall|i: int| 0 <= i < a.len() ==> !is_space(#[trigger] a[i]),
    ensures
        words(a) == seq![a],
{
    assert forall|i: int| 0 <= i <= a.len() implies #[trigger] words_from(a, 0, i) == words_from(a, 0, a.len() as int) by {
        lemma_words_scan_end(a, i);
    }
    assert(a.subrange(0, a.len() as int) =~= a);
}

proof fn lemma_words_scan_end(a: Seq<char>, i: int)
    requires
        forall|k: int| 0 <= k < a.len() ==> !is_space(#[trigger] a[k]),
        0 <= i <= a.len(),
    ensures
        words_from(a, 0, i) == words_from(a, 0, a.len() as int),
    decreases a.len() - i,
{
    if i < a.len() {
        lemma_words_scan_end(a, i + 1);
    }
}

proof fn lemma_lines_shift(p: Seq<char>, b: Seq<char>, s: int, j: int)
    requires
        0 <= s <= j <= b.len(),
    ensures
        lines_from(p + b, p.len() as int + s, p.len() as int + j) == lines_from(b, s, j),
    decreases b.len() - j,
{
    let l = p + b;
    if j < b.len() {
        assert(l[p.len() + j] == b[j]);
        if b[j] == '\n' {
            lemma_lines_shift(p, b, j + 1, j + 1);
            assert(l.subrange(p.len() + s, p.len() + j) =~= b.subrange(s, j));
        } else {
            lemma_lines_shift(p, b, s, j + 1);
        }
    } else if s < j {
        assert(l.subrange(p.len() + s, l.len() as int) =~= b.subrange(s, b.len() as int));
    }
}

proof fn lemma_lines_scan(l: Seq<char>, a: Seq<char>, i: int)
    requires
        a.len() < l.len(),
        forall|k: int| 0 <= k < a.len() ==> l[k] == a[k] && #[trigger] a[k] != '\n',
        0 <= i <= a.len(),
    ensures
        lines_from(l, 0, i) == lines_from(l, 0, a.len() as int),
    decreases a.len() - i,
{
    if i < a.len() {
        assert(l[i] == a[i] && a[i] != '\n');
        lemma_lines_scan(l, a, i + 1);
    }
}

/// Lines are cut at a newline.
proof fn lemma_lines_cut(a: Seq<char>, b: Seq<char>)
    requires
        forall|i: int| 0 <= i < a.len() ==> #[trigger] a[i] != '\n',
        a.len() == 0 || a.last() != '\r',
    ensures
        lines(a + seq!['\n'] + b) == seq![a] + lines(b),
{
    let l = a + seq!['\n'] + b;
    lemma_lines_scan(l, a, 0);
    assert(l.subrange(0, a.len() as int) =~= a);
    assert(l[a.len() as int] == '\n');
    lemma_lines_shift(a + seq!['\n'], b, 0, 0);
    assert(a + seq!['\n'] + b == (a + seq!['\n']) + b);
}

/// The text has no line feed and no carriage return.
pub open spec fn plain_text(w: Seq<char>) -> bool {
    forall|i: int| 0 <= i < w.len() ==> #[trigger] w[i] != '\n' && w[i] != '\r'
}

/// The text has no space.
pub open spec fn no_space(w: Seq<char>) -> bool {
    forall|i: int| 0 <= i < w.len() ==> !is_space(#[trigger] w[i])
}

proof fn lemma_digits_text(n: nat)
    ensures
        digits_of(n).len() > 0,
        no_space(digits_of(n)),
        plain_text(digits_of(n)),
        !(digits_of(n)[0] == '-') && !(digits_of(n)[0] == '+'),
{
    lemma_digits_of(n);
    let w = digits_of(n);
    assert forall|i: int| 0 <= i < w.len() implies !is_space(#[trigger] w[i]) && w[i] != '\n' && w[i] != '\r' by {
        assert(is_digit(w[i]));
    }
    assert(is_digit(w[0]));
}

proof fn lemma_count_round_trip(n: nat)
    requires
        n <= usize::MAX,
    ensures
        count_value(digits_of(n)) == Some(n),
{
    lemma_digits_of(n);
    lemma_digits_text(n);
}

proof fn lemma_render_int(v: int)
    requires
        -isize::MAX <= v <= isize::MAX,
    ensures
        literal_value(render_int(v)) == Some(v),
        render_int(v).len() > 0,
        no_space(render_int(v)),
        plain_text(render_int(v)),
{
    if v < 0 {
        let d = digits_of((-v) as nat);
        lemma_digits_of((-v) as nat);
        lemma_digits_text((-v) as nat);
        let w = seq!['-'] + d;
        assert(w.drop_first() =~= d);
        assert forall|i: int| 0 <= i < w.len() implies !is_space(#[trigger] w[i]) && w[i] != '\n' && w[i] != '\r' by {
            if i > 0 {
                assert(w[i] == d[i - 1]);
            }
        }
    } else {
        lemma_digits_of(v as nat);
        lemma_digits_text(v as nat);
    }
}

/// The words of a clause line: its literals, then `0`.
pub open spec fn clause_words(c: Seq<isize>) -> Seq<Seq<char>> {
    c.map_values(|x: isize| render_int(x as int)).push(seq!['0'])
}

/// The literals are nonzero and their negations fit an isize.
pub open spec fn proper(c: Seq<isize>) -> bool {
    forall|m: int| 0 <= m < c.len() ==> #[trigger] c[m] != 0 && c[m] != isize::MIN
}

proof fn lemma_clause_line(c: Seq<isize>)
    requires
        proper(c),
    ensures
        words(render_clause(c)) == clause_words(c),
        plain_text(render_clause(c)),
        render_clause(c).len() > 0,
    decreases c.len(),
{
    if c.len() == 0 {
        let z = seq!['0'];
        assert(!is_space(z[0]));
        lemma_words_single(z);
        assert(clause_words(c) =~= seq![z]);
    } else {
        let rest = c.drop_first();
        assert(proper(rest)) by {
            assert forall|m: int| 0 <= m < rest.len() implies #[trigger] rest[m] != 0 && rest[m] != isize::MIN by {
                assert(rest[m] == c[m + 1]);
            }
        }
        assert(c[0] != 0 && c[0] != isize::MIN);
        lemma_render_int(c[0] as int);
        lemma_clause_line(rest);
        let a = render_int(c[0] as int);
        lemma_words_cut(a, render_clause(rest));
        assert(clause_words(c) =~= seq![a] + clause_words(rest));
        let w = a + seq![' '] + render_clause(rest);
        assert forall|i: int| 0 <= i < w.len() implies #[trigger] w[i] != '\n' && w[i] != '\r' by {
            if i < a.len() {
                assert(w[i] == a[i]);
            } else if i > a.len() {
                assert(w[i] == render_clause(rest)[i - a.len() - 1]);
            }
        }
    }
}

proof fn lemma_clauses_lines(cls: Seq<Seq<isize>>)
    requires
        forall|k: int| 0 <= k < cls.len() ==> proper(#[trigger] cls[k]),
    ensures
        lines(render_clauses(cls)) == cls.map_values(|c: Seq<isize>| render_clause(c)),
    decreases cls.len(),
{
    if cls.len() == 0 {
        assert(lines(render_clauses(cls)) =~= seq![]);
        assert(cls.map_values(|c: Seq<isize>| render_clause(c)) =~= seq![]);
    } else {
        let rest = cls.drop_first();
        assert forall|k: int| 0 <= k < rest.len() implies proper(#[trigger] rest[k]) by {
            assert(rest[k] == cls[k + 1]);
        }
        lemma_clauses_lines(rest);
        assert(proper(cls[0]));
        lemma_clause_line(cls[0]);
        let a = render_clause(cls[0]);
        lemma_lines_cut(a, render_clauses(rest));
        assert(cls.map_values(|c: Seq<isize>| render_clause(c)) =~= seq![a] + rest.map_values(|c: Seq<isize>| render_clause(c)));
    }
}

proof fn lemma_scan_line(
    ls: Seq<Seq<char>>,
    i: int,
    j: int,
    x: Seq<isize>,
    done: Seq<Seq<isize>>,
    m: nat,
)
    requires
        0 <= i < ls.len(),
        ls[i] == render_clause(x),
        proper(x),
        0 <= j <= x.len(),
    ensures
        ({
            let rest_max = max_atom(x.subrange(j, x.len() as int));
            let mx = if rest_max > m { rest_max } else { m };
            scan(ls, i, j, x.subrange(0, j), done, m) == scan(ls, i + 1, 0, seq![], done.push(x), mx)
        }),
    decreases x.len() - j,
{
    lemma_clause_line(x);
    let w = words(ls[i]);
    assert(w == clause_words(x));
    if j == x.len() {
        assert(w[j] == seq!['0']);
        lemma_count_zero();
        assert(x.subrange(0, j) =~= x);
        assert(x.subrange(j, x.len() as int) =~= seq![]);
        assert(scan(ls, i, j + 1, seq![], done.push(x), m) == scan(ls, i + 1, 0, seq![], done.push(x), m));
    } else {
        assert(w[j] == render_int(x[j] as int));
        assert(x[j] != 0 && x[j] != isize::MIN);
        lemma_render_int(x[j] as int);
        let a = if x[j] < 0 { -x[j] } else { x[j] as int };
        let m2: nat = if a > m { a as nat } else { m };
        assert(x.subrange(0, j).push(x[j]) =~= x.subrange(0, j + 1));
        lemma_scan_line(ls, i, j + 1, x, done, m2);
        assert(x.subrange(j, x.len() as int).drop_first() =~= x.subrange(j + 1, x.len() as int));
        assert(x.subrange(j, x.len() as int)[0] == x[j]);
    }
}

proof fn lemma_count_zero()
    ensures
        literal_value(seq!['0']) == Some(0int),
{
    let z = seq!['0'];
    lemma_digits_of(0);
    assert(digits_of(0) =~= z);
}

proof fn lemma_scan_lines(ls: Seq<Seq<char>>, i: int, cls: Seq<Seq<isize>>, done: Seq<Seq<isize>>, m: nat)
    requires
        0 <= i,
        ls.len() == i + cls.len(),
        forall|t: int| 0 <= t < cls.len() ==> ls[i + t] == render_clause(#[trigger] cls[t]) && proper(cls[t]),
    ensures
        ({
            let all = max_atom_all(cls);
            scan(ls, i, 0, seq![], done, m) == Scan::Done(done + cls, if all > m { all } else { m })
        }),
    decreases cls.len(),
{
    if cls.len() == 0 {
        assert(done + cls =~= done);
        return;
    }
    let x = cls[0];
    assert(ls[i + 0] == render_clause(cls[0]) && proper(cls[0]));
    assert(x.subrange(0, 0) =~= seq![]);
    assert(x.subrange(0, x.len() as int) =~= x);
    lemma_scan_line(ls, i, 0, x, done, m);
    let mx = if max_atom(x) > m { max_atom(x) } else { m };
    {
        let rest = cls.drop_first();
        assert forall|t: int| 0 <= t < rest.len() implies ls[i + 1 + t] == render_clause(#[trigger] rest[t]) && proper(rest[t]) by {
            assert(rest[t] == cls[t + 1]);
            assert(ls[i + (t + 1)] == render_clause(cls[t + 1]) && proper(cls[t + 1]));
        }
        lemma_scan_lines(ls, i + 1, rest, done.push(x), mx);
        assert(done.push(x) + rest =~= done + cls);
        let ar = max_atom_all(rest);
        assert(max_atom_all(cls) == if max_atom(x) > ar { max_atom(x) } else { ar });
    }
}

proof fn lemma_max_atom_bound(c: Seq<isize>)
    requires
        proper(c),
    ensures
        max_atom(c) <= isize::MAX,
    decreases c.len(),
{
    if c.len() > 0 {
        let rest = c.drop_first();
        assert(proper(rest)) by {
            assert forall|m: int| 0 <= m < rest.len() implies #[trigger] rest[m] != 0 && rest[m] != isize::MIN by {
                assert(rest[m] == c[m + 1]);
            }
        }
        assert(c[0] != isize::MIN);
        lemma_max_atom_bound(rest);
    }
}

proof fn lemma_max_atom_all_bound(cls: Seq<Seq<isize>>)
    requires
        forall|k: int| 0 <= k < cls.len() ==> proper(#[trigger] cls[k]),
    ensures
        max_atom_all(cls) <= isize::MAX,
    decreases cls.len(),
{
    if cls.len() > 0 {
        let rest = cls.drop_first();
        assert forall|k: int| 0 <= k < rest.len() implies proper(#[trigger] rest[k]) by {
            assert(rest[k] == cls[k + 1]);
        }
        assert(proper(cls[0]));
        lemma_max_atom_bound(cls[0]);
        lemma_max_atom_all_bound(rest);
    }
}

proof fn lemma_header(v: nat, c: nat)
    requires
        v <= usize::MAX,
        c <= usize::MAX,
    ensures
        words(render_header(v, c)) == seq![seq!['p'], seq!['c', 'n', 'f'], digits_of(v), digits_of(c)],
        plain_text(render_header(v, c)),
{
    lemma_digits_text(v);
    lemma_digits_text(c);
    let dv = digits_of(v);
    let dc = digits_of(c);
    let p = seq!['p'];
    let cnf = seq!['c', 'n', 'f'];
    assert(!is_space(p[0]));
    assert(!is_space(cnf[0]) && !is_space(cnf[1]) && !is_space(cnf[2]));
    lemma_words_single(dc);
    lemma_words_cut(dv, dc);
    lemma_words_cut(cnf, dv + seq![' '] + dc);
    lemma_words_cut(p, cnf + seq![' '] + (dv + seq![' '] + dc));
    let h = render_header(v, c);
    assert(h =~= p + seq![' '] + (cnf + seq![' '] + (dv + seq![' '] + dc)));
    assert forall|i: int| 0 <= i < h.len() implies #[trigger] h[i] != '\n' && h[i] != '\r' by {
        if 6 <= i < 6 + dv.len() {
            assert(h[i] == dv[i - 6]);
        } else if i > 6 + dv.len() {
            assert(h[i] == dc[i - 7 - dv.len()]);
        }
    }
}

/// Reading back the DIMACS text of a list of clauses, with the header that
/// declares their largest atom and their number, gives the same clauses,
/// literal by literal.
pub proof fn lemma_round_trip(cls: Seq<Seq<isize>>)
    requires
        forall|k: int| 0 <= k < cls.len() ==> proper(#[trigger] cls[k]),
        cls.len() <= usize::MAX,
    ensures
        outcome(lines(render(max_atom_all(cls), cls)), 0) == Outcome::Parsed(cls),
{
    let v = max_atom_all(cls);
    lemma_max_atom_all_bound(cls);
    lemma_header(v, cls.len());
    let h = render_header(v, cls.len());
    assert(h.len() > 0 && h.last() != '\r');
    lemma_lines_cut(h, render_clauses(cls));
    lemma_clauses_lines(cls);
    let ls = lines(render(v, cls));
    assert(ls == seq![h] + cls.map_values(|c: Seq<isize>| render_clause(c)));
    lemma_count_round_trip(v);
    lemma_count_round_trip(cls.len());
    assert(words(ls[0]) == seq![seq!['p'], seq!['c', 'n', 'f'], digits_of(v), digits_of(cls.len())]);
    assert(seq!['p'] != seq!['c']) by {
        assert(seq!['p'][0] != seq!['c'][0]);
    }
    assert(prelude(ls, 0) == Prelude::Header(0, v, cls.len()));
    assert forall|t: int| 0 <= t < cls.len() implies ls[1 + t] == render_clause(#[trigger] cls[t]) && proper(cls[t]) by {}
    lemma_scan_lines(ls, 1, cls, seq![], 0);
    assert(seq![] + cls =~= cls);
}

/// The text of one decimal digit.
fn digit_text(d: u64) -> (r: &'static str)
    requires
        d < 10,
    ensures
        r@ == seq![digit_char(d as nat)],
{
    proof {
        reveal_strlit("0");
        reveal_strlit("1");
        reveal_strlit("2");
        reveal_strlit("3");
        reveal_strlit("4");
        reveal_strlit("5");
        reveal_strlit("6");
        reveal_strlit("7");
        reveal_strlit("8");
        reveal_strlit("9");
    }
    if d == 0 {
        "0"
    } else if d == 1 {
        "1"
    } else if d == 2 {
        "2"
    } else if d == 3 {
        "3"
    } else if d == 4 {
        "4"
    } else if d == 5 {
        "5"
    } else if d == 6 {
        "6"
    } else if d == 7 {
        "7"
    } else if d == 8 {
        "8"
    } else {
        "9"
    }
}

/// Append the decimal digits of a number.
pub(crate) fn push_digits(out: &mut String, n: u64)
    ensures
        final(out)@ == old(out)@ + digits_of(n as nat),
    decreases n,
{
    if n < 10 {
        out.append(digit_text(n));
    } else {
        push_digits(out, n / 10);
        out.append(digit_text(n % 10));
        assert(digits_of(n as nat) == digits_of((n / 10) as nat).push(digit_char((n % 10) as nat)));
    }
}

/// Append a number in decimal, with a minus sign when negative.
pub(crate) fn push_int(out: &mut String, v: isize)
    requires
        v != isize::MIN,
    ensures
        final(out)@ == old(out)@ + render_int(v as int),
{
    proof {
        reveal_strlit("-");
    }
    if v < 0 {
        out.append("-");
        push_digits(out, (-v) as u64);
    } else {
        push_digits(out, v as u64);
    }
}

/// The numbers of a formula's clauses.
pub open spec fn numbers(f: Formula) -> Seq<Seq<isize>> {
    f.0@.map_values(|c: Clause| c.0@.map_values(|l: Literal| l.0))
}

impl Formula {
    /// Write the formula in DIMACS CNF format: the header declares the
    /// largest atom and the number of clauses, then each clause is a line
    /// of its literals ended by 0.
    pub fn to_dimacs(&self) -> (r: String)
        requires
            self.wf(),
        ensures
            r@ == render(max_atom_all(numbers(*self)), numbers(*self)),
    {
        proof {
            reveal_strlit("");
        }
        let ghost ns = numbers(*self);
        let clauses = &self.0;
        let mut body = String::from_str("");
        let mut maxv: usize = 0;
        let mut k: usize = 0;
        assert(ns.subrange(0, 0) =~= seq![]);
        while k < clauses.len()
            invariant
                self.wf(),
                clauses@ == self.0@,
                ns == numbers(*self),
                k <= clauses@.len(),
                ns.len() == clauses@.len(),
                body@ == render_clauses(ns.subrange(0, k as int)),
                maxv as nat == max_atom_all_rev(ns.subrange(0, k as int)),
            decreases clauses@.len() - k,
        {
            proof {
                reveal_strlit("");
            }
            let lits = &clauses[k].0;
            let ghost c = ns[k as int];
            assert(c.subrange(0, c.len() as int) =~= c);
            assert(c.subrange(0, 0) =~= seq![]);
            assert(c == lits@.map_values(|l: Literal| l.0));
            assert(clauses@[k as int].wf());
            let mut line = String::from_str("");
            let mut j: usize = 0;
            let mut m: usize = 0;
            while j < lits.len()
                invariant
                    clauses@[k as int].wf(),
                    lits@ == clauses@[k as int].0@,
                    c == lits@.map_values(|l: Literal| l.0),
                    j <= lits@.len(),
                    line@ + render_clause(c.subrange(j as int, c.len() as int)) == render_clause(c),
                    m as nat == max_atom_rev(c.subrange(0, j as int)),
                decreases lits@.len() - j,
            {
                let v = lits[j].0;
                assert(lits@[j as int].wf());
                assert(c[j as int] == v);
                let ghost before = line@;
                proof {
                    reveal_strlit(" ");
                }
                push_int(&mut line, v);
                line.append(" ");
                let ghost tail = c.subrange(j as int, c.len() as int);
                assert(tail[0] == v);
                assert(tail.drop_first() =~= c.subrange(j + 1, c.len() as int));
                assert(line@ + render_clause(c.subrange(j + 1, c.len() as int)) =~= before + render_clause(tail));
                let a: usize = if v < 0 {
                    (-v) as usize
                } else {
                    v as usize
                };
                assert(c.subrange(0, j + 1).drop_last() =~= c.subrange(0, j as int));
                if a > m {
                    m = a;
                }
                j = j + 1;
            }
            proof {
                reveal_strlit("0");
                reveal_strlit("\n");
            }
            line.append("0");
            assert(c.subrange(lits@.len() as int, c.len() as int) =~= seq![]);
            assert(c.subrange(0, lits@.len() as int) =~= c);
            let ghost before = body@;
            body.append(line.as_str());
            body.append("\n");
            proof {
                lemma_render_clauses_push(ns.subrange(0, k as int), c);
                assert(ns.subrange(0, k + 1) =~= ns.subrange(0, k as int).push(c));
                lemma_max_atom_rev(c);
            }
            let ghost prev = ns.subrange(0, k as int);
            let ghost next = ns.subrange(0, k + 1);
            assert(next.last() == c);
            assert(next.drop_last() =~= prev);
            assert(m as nat == max_atom(c));
            if m > maxv {
                maxv = m;
            }
            assert(maxv as nat == max_atom_all_rev(next));
            k = k + 1;
        }
        assert(ns.subrange(0, ns.len() as int) =~= ns);
        proof {
            lemma_max_atom_all_rev(ns);
        }
        proof {
            reveal_strlit("p cnf ");
            reveal_strlit(" ");
            reveal_strlit("\n");
        }
        let mut out = String::from_str("p cnf ");
        push_digits(&mut out, maxv as u64);
        out.append(" ");
        push_digits(&mut out, clauses.len() as u64);
        out.append("\n");
        out.append(body.as_str());
        assert(out@ =~= render(max_atom_all(ns), ns));
        out
    }
}

/// The largest atom of a clause, taken from the back.
pub open spec fn max_atom_rev(c: Seq<isize>) -> nat
    decreases c.len(),
{
    if c.len() == 0 {
        0
    } else {
        let a = if c.last() < 0 { -c.last() } else { c.last() as int };
        let rest = max_atom_rev(c.drop_last());
        if a > rest { a as nat } else { rest }
    }
}

/// The largest atom of a list of clauses, taken from the back.
pub open spec fn max_atom_all_rev(cls: Seq<Seq<isize>>) -> nat
    decreases cls.len(),
{
    if cls.len() == 0 {
        0
    } else {
        let a = max_atom(cls.last());
        let rest = max_atom_all_rev(cls.drop_last());
        if a > rest { a } else { rest }
    }
}

proof fn lemma_max_atom_rev(c: Seq<isize>)
    ensures
        max_atom_rev(c) == max_atom(c),
    decreases c.len(),
{
    if c.len() > 0 {
        lemma_max_atom_rev(c.drop_last());
        if c.len() > 1 {
            lemma_max_atom_rev(c.drop_first());
            assert(c.drop_first().drop_last() =~= c.drop_last().drop_first());
            lemma_max_atom_rev(c.drop_last().drop_first());
            lemma_max_atom_rev(c.drop_first().drop_last());
        } else {
            assert(c.drop_first() =~= seq![]);
            assert(c.drop_last() =~= seq![]);
        }
    }
}

proof fn lemma_max_atom_all_rev(cls: Seq<Seq<isize>>)
    ensures
        max_atom_all_rev(cls) == max_atom_all(cls),
    decreases cls.len(),
{
    if cls.len() > 0 {
        lemma_max_atom_all_rev(cls.drop_last());
        if cls.len() > 1 {
            lemma_max_atom_all_rev(cls.drop_first());
            assert(cls.drop_first().drop_last() =~= cls.drop_last().drop_first());
            lemma_max_atom_all_rev(cls.drop_last().drop_first());
        } else {
            assert(cls.drop_first() =~= seq![]);
            assert(cls.drop_last() =~= seq![]);
        }
    }
}

proof fn lemma_render_clauses_push(cls: Seq<Seq<isize>>, c: Seq<isize>)
    ensures
        render_clauses(cls.push(c)) == render_clauses(cls) + render_clause(c) + seq!['\n'],
    decreases cls.len(),
{
    if cls.len() == 0 {
        assert(cls.push(c).drop_first() =~= seq![]);
        assert(cls.push(c)[0] == c);
        assert(render_clauses(cls.push(c).drop_first()) == Seq::<char>::empty());
        assert(render_clauses(cls) == Seq::<char>::empty());
        assert(render_clauses(cls.push(c)) =~= render_clause(c) + seq!['\n']);
    } else {
        assert(cls.push(c).drop_first() =~= cls.drop_first().push(c));
        lemma_render_clauses_push(cls.drop_first(), c);
        assert(render_clauses(cls.push(c)) =~= render_clauses(cls) + render_clause(c) + seq!['\n']);
    }
}

/// Reading back what `to_dimacs` writes for a well-formed formula gives
/// its clauses, literal by literal.
pub proof fn lemma_print_parse(f: Formula)
    requires
        f.wf(),
    ensures
        outcome(lines(render(max_atom_all(numbers(f)), numbers(f))), 0) == Outcome::Parsed(numbers(f)),
{
    let ns = numbers(f);
    vstd::std_specs::vec::axiom_spec_len(&f.0);
    assert forall|k: int| 0 <= k < ns.len() implies proper(#[trigger] ns[k]) by {
        assert(f.0@[k].wf());
        assert forall|m: int| 0 <= m < ns[k].len() implies #[trigger] ns[k][m] != 0 && ns[k][m] != isize::MIN by {
            assert(f.0@[k].0@[m].wf());
        }
    }
    lemma_round_trip(ns);
}

/// The message for a parse error.
pub open spec fn error_text(e: ParseError) -> Seq<char> {
    match e {
        ParseError::CannotParsePreludeLine(l) => "cannot parse prelude line '"@ + l@ + "'"@,
        ParseError::CannotParseClauseLine(l) => "cannot parse clause line '"@ + l@ + "'"@,
        ParseError::UnexpectedFormat(w) => "unexpected format '"@ + w@ + "'"@,
        ParseError::WrongNumberOfVariables { expected, actual } => "wrong number of variables, expected "@
            + digits_of(expected as nat) + " but got "@ + digits_of(actual as nat),
        ParseError::WrongNumberOfClauses { expected, actual } => "wrong number of clauses, expected "@
            + digits_of(expected as nat) + " but got "@ + digits_of(actual as nat),
    }
}

impl ParseError {
    /// The message for the error.
    pub fn to_string(&self) -> (r: String)
        ensures
            r@ == error_text(*self),
    {
        match self {
            ParseError::CannotParsePreludeLine(l) => {
                let mut out = String::from_str("cannot parse prelude line '");
                out.append(l.as_str());
                out.append("'");
                out
            },
            ParseError::CannotParseClauseLine(l) => {
                let mut out = String::from_str("cannot parse clause line '");
                out.append(l.as_str());
                out.append("'");
                out
            },
            ParseError::UnexpectedFormat(w) => {
                let mut out = String::from_str("unexpected format '");
                out.append(w.as_str());
                out.append("'");
                out
            },
            ParseError::WrongNumberOfVariables { expected, actual } => {
                let mut out = String::from_str("wrong number of variables, expected ");
                push_digits(&mut out, *expected as u64);
                out.append(" but got ");
                push_digits(&mut out, *actual as u64);
                out
            },
            ParseError::WrongNumberOfClauses { expected, actual } => {
                let mut out = String::from_str("wrong number of clauses, expected ");
                push_digits(&mut out, *expected as u64);
                out.append(" but got ");
                push_digits(&mut out, *actual as u64);
                out
            },
        }
    }
}

} // verus!
