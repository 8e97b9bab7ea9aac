//! Small parsing helpers over the characters of the input.

use vstd::prelude::*;
use vstd::std_specs::iter::IteratorSpec;

verus! {

broadcast use vstd::string::axiom_spec_iter, vstd::string::next_postcondition;

/// The characters of a string, in order.
pub fn chars_of(s: &str) -> (r: Vec<char>)
    ensures
        r@ == s@,
{
    let mut it = s.chars();
    let mut out: Vec<char> = Vec::new();
    loop
        invariant
            it.obeys_prophetic_iter_laws(),
            out@ + it.remaining() == s@,
            it.decrease() is Some,
        decreases it.decrease()->0,
    {
        match it.next() {
            Some(c) => {
                out.push(c);
            },
            None => {
                assert(out@ + it.remaining() == out@);
                return out;
            },
        }
    }
}

/// A decimal digit.
pub open spec fn is_digit(c: char) -> bool {
    '0' <= c <= '9'
}

/// The value of a run of decimal digits.
pub open spec fn digits_value(w: Seq<char>) -> nat
    decreases w.len(),
{
    if w.len() == 0 {
        0
    } else {
        digits_value(w.drop_last()) * 10 + (w.last() as nat - '0' as nat) as nat
    }
}

/// The number of digits from position `pos` on.
pub open spec fn digit_run(s: Seq<char>, pos: int) -> nat
    decreases s.len() - pos,
{
    if 0 <= pos < s.len() && is_digit(s[pos]) {
        1 + digit_run(s, pos + 1)
    } else {
        0
    }
}

/// The position of the first character from `pos` on that is not a space.
pub open spec fn skip_spaces(s: Seq<char>, pos: int) -> int
    decreases s.len() - pos,
{
    if 0 <= pos < s.len() && s[pos] == ' ' {
        skip_spaces(s, pos + 1)
    } else {
        pos
    }
}

/// Remove all following spaces: returns the position of the first
/// character from `pos` on that is not a space.
pub fn eat_whitespace(chars: &Vec<char>, pos: usize) -> (r: usize)
    requires
        pos <= chars@.len(),
    ensures
        r == skip_spaces(chars@, pos as int),
        pos <= r <= chars@.len(),
{
    let mut i = pos;
    while i < chars.len() && chars[i] == ' '
        invariant
            pos <= i <= chars@.len(),
            skip_spaces(chars@, pos as int) == skip_spaces(chars@, i as int),
        decreases chars@.len() - i,
    {
        i = i + 1;
    }
    i
}

proof fn lemma_digits_value_grows(w: Seq<char>, k: int)
    requires
        0 <= k <= w.len(),
        forall|i: int| 0 <= i < w.len() ==> is_digit(#[trigger] w[i]),
    ensures
        digits_value(w.subrange(0, k)) <= digits_value(w),
    decreases w.len() - k,
{
    if k < w.len() {
        lemma_digits_value_grows(w, k + 1);
        let p = w.subrange(0, k + 1);
        assert(p.drop_last() =~= w.subrange(0, k));
    } else {
        assert(w.subrange(0, k) =~= w);
    }
}

/// Parse a nonempty run of digits at `pos` whose value is at most `limit`.
/// Returns the value and the position after the run; `None` when there is
/// no digit there or the value is larger than `limit`.
pub fn parse_digits(chars: &Vec<char>, pos: usize, limit: u64) -> (r: Option<(u64, usize)>)
    requires
        pos <= chars@.len(),
    ensures
        ({
            let end = pos + digit_run(chars@, pos as int);
            let v = digits_value(chars@.subrange(pos as int, end));
            match r {
                Some((n, e)) => digit_run(chars@, pos as int) > 0 && v <= limit && n == v && e == end,
                None => digit_run(chars@, pos as int) == 0 || v > limit,
            }
        }),
{
    let ghost end = pos + digit_run(chars@, pos as int);
    let mut out: u64 = 0;
    let mut i = pos;
    proof {
        lemma_digit_run(chars@, pos as int);
    }
    while i < chars.len() && '0' <= chars[i] && chars[i] <= '9'
        invariant
            pos <= i <= end,
            end <= chars@.len(),
            end == pos + digit_run(chars@, pos as int),
            forall|j: int| pos <= j < end ==> is_digit(#[trigger] chars@[j]),
            end < chars@.len() ==> !is_digit(chars@[end]),
            out == digits_value(chars@.subrange(pos as int, i as int)),
            out <= limit,
        decreases chars@.len() - i,
    {
        let d = (chars[i] as u32 - '0' as u32) as u64;
        let ghost w = chars@.subrange(pos as int, i + 1);
        assert(w.drop_last() =~= chars@.subrange(pos as int, i as int));
        if d > limit || out > (limit - d) / 10 {
            proof {
                assert(digits_value(w) == out * 10 + d);
                assert(out * 10 + d > limit) by (nonlinear_arith)
                    requires
                        d > limit || out > (limit - d) / 10,
                        d <= 9,
                {
                }
                let full = chars@.subrange(pos as int, end);
                assert(full.subrange(0, i + 1 - pos) =~= w);
                lemma_digits_value_grows(full, i + 1 - pos);
            }
            return None;
        }
        proof {
            assert(out * 10 + d <= limit) by (nonlinear_arith)
                requires
                    d <= limit,
                    out <= (limit - d) / 10,
            {
            }
        }
        out = out * 10 + d;
        i = i + 1;
    }
    if i == pos {
        return None;
    }
    Some((out, i))
}

pub proof fn lemma_digit_run(s: Seq<char>, pos: int)
    requires
        0 <= pos <= s.len(),
    ensures
        pos + digit_run(s, pos) <= s.len(),
        forall|j: int| pos <= j < pos + digit_run(s, pos) ==> is_digit(#[trigger] s[j]),
        pos + digit_run(s, pos) < s.len() ==> !is_digit(s[pos + digit_run(s, pos)]),
    decreases s.len() - pos,
{
    if pos < s.len() && is_digit(s[pos]) {
        lemma_digit_run(s, pos + 1);
    }
}

/// Parse a nonempty usize at `pos`: the value of the digits there and the
/// position after them.  `None` when no digit is there, or when the value
/// does not fit.
pub fn parse_usize(chars: &Vec<char>, pos: usize) -> (r: Option<(usize, usize)>)
    requires
        pos <= chars@.len(),
    ensures
        ({
            let end = pos + digit_run(chars@, pos as int);
            let v = digits_value(chars@.subrange(pos as int, end));
            match r {
                Some((n, e)) => digit_run(chars@, pos as int) > 0 && n == v && e == end,
                None => digit_run(chars@, pos as int) == 0 || v > usize::MAX,
            }
        }),
{
    match parse_digits(chars, pos, usize::MAX as u64) {
        Some((n, e)) => Some((n as usize, e)),
        None => None,
    }
}

} // verus!
