//! Validation of what the user types into numeric text fields.
//!
//! The fields revert to their last valid text whenever an edit makes them
//! invalid; these predicates decide validity.
use vstd::prelude::*;

use crate::text::{
    all_digits, char_digit_value, char_is_digit, chars_of, count_char, decimal_value, is_digit,
    lemma_count_char_push, lemma_decimal_value_prefix, lemma_decimal_value_push,
};

verus! {

/// The text with one leading minus sign removed, if it has one.
pub open spec fn strip_minus(s: Seq<char>) -> Seq<char> {
    if s.len() > 0 && s[0] == '-' {
        s.drop_first()
    } else {
        s
    }
}

/// A partial floating-point number as it may appear while being typed:
/// an optional leading minus, then either nothing, or digits with at most one
/// decimal point that does not come first.
pub open spec fn valid_float_text(s: Seq<char>) -> bool {
    let d = strip_minus(s);
    d.len() == 0 || {
        &&& d[0] != '.'
        &&& count_char(d, '.') <= 1
        &&& forall|i: int| 0 <= i < d.len() && d[i] != '.' ==> is_digit(#[trigger] d[i])
    }
}

/// Digits only (the empty text included).
pub open spec fn valid_uint_text(s: Seq<char>) -> bool {
    all_digits(s)
}

/// The digits of an unsigned number: the text with one leading plus sign removed.
pub open spec fn unsigned_digits(s: Seq<char>) -> Seq<char> {
    if s.len() > 0 && s[0] == '+' {
        s.drop_first()
    } else {
        s
    }
}

/// The text is a decimal number in the syntax the `from_str` of Rust's
/// unsigned integers accepts (an optional `+`, then at least one digit) with
/// a value of at most `max`.
pub open spec fn parses_unsigned(s: Seq<char>, max: nat) -> bool {
    let d = unsigned_digits(s);
    &&& d.len() > 0
    &&& all_digits(d)
    &&& decimal_value(d) <= max
}

/// The text is a decimal `usize` in the syntax `usize::from_str` accepts:
/// an optional `+`, then at least one digit, with a value that fits.
pub open spec fn parses_as_usize(s: Seq<char>) -> bool {
    parses_unsigned(s, usize::MAX as nat)
}

/// The number a field holds: its value when it parses, else zero.
pub open spec fn usize_or_zero(s: Seq<char>) -> nat {
    if parses_as_usize(s) {
        decimal_value(unsigned_digits(s))
    } else {
        0
    }
}

fn float_chars_valid(v: &Vec<char>) -> (b: bool)
    ensures
        b == valid_float_text(v@),
{
    let n = v.len();
    let start: usize = if n > 0 && v[0] == '-' { 1 } else { 0 };
    let ghost d = strip_minus(v@);
    assert(d =~= v@.subrange(start as int, n as int));
    if start == n {
        return true;
    }
    if v[start] == '.' {
        return false;
    }
    let mut dots: usize = 0;
    let mut i = start;
    while i < n
        invariant
            start <= i <= n,
            n == v.len(),
            d =~= v@.subrange(start as int, n as int),
            d == strip_minus(v@),
            dots == count_char(d.take(i - start), '.'),
            dots <= 1,
            forall|j: int| 0 <= j < i - start && d[j] != '.' ==> is_digit(#[trigger] d[j]),
        decreases n - i,
    {
        let c = v[i];
        proof {
            assert(d.take(i - start + 1) =~= d.take(i - start).push(c));
            lemma_count_char_push(d.take(i - start), c, '.');
        }
        if c == '.' {
            if dots == 1 {
                proof {
                    assert(count_char(d.take(i - start + 1), '.') == 2);
                    lemma_count_prefix_le(d, i - start + 1, '.');
                }
                return false;
            }
            dots = dots + 1;
        } else if !char_is_digit(c) {
            assert(d[i - start] == c);
            return false;
        }
        i = i + 1;
    }
    assert(d.take(n - start) =~= d);
    true
}

/// Counting over a prefix never gives more than over the whole sequence.
proof fn lemma_count_prefix_le(s: Seq<char>, i: int, c: char)
    requires
        0 <= i <= s.len(),
    ensures
        count_char(s.take(i), c) <= count_char(s, c),
    decreases s.len(),
{
    if i < s.len() {
        assert(s.drop_last().take(i) =~= s.take(i));
        lemma_count_prefix_le(s.drop_last(), i, c);
    } else {
        assert(s.take(i) =~= s);
    }
}

/// Whether the text of a float field is acceptable while typing
/// (`""`, `"-"`, `"12"`, `"-1."`, `"0.5"`; not `".5"`, `"1.2.3"`, `"abc"`).
pub fn is_valid_float_input(text: &str) -> (b: bool)
    ensures
        b == valid_float_text(text@),
{
    let v = chars_of(text);
    float_chars_valid(&v)
}

/// The same test as `is_valid_float_input`, used by the keyboard debugger's
/// float fields.
pub fn is_valid_float(text: &str) -> (b: bool)
    ensures
        b == valid_float_text(text@),
{
    let v = chars_of(text);
    float_chars_valid(&v)
}

/// Whether the text of an unsigned-integer field is acceptable: digits only.
pub fn is_valid_uint_input(text: &str) -> (b: bool)
    ensures
        b == valid_uint_text(text@),
{
    let v = chars_of(text);
    let mut i: usize = 0;
    while i < v.len()
        invariant
            i <= v.len(),
            v@ == text@,
            forall|j: int| 0 <= j < i ==> is_digit(#[trigger] v@[j]),
        decreases v.len() - i,
    {
        if !char_is_digit(v[i]) {
            return false;
        }
        i = i + 1;
    }
    true
}

/// Reads the unsigned number `v[from..to]` as the `from_str` of Rust's
/// unsigned integers does, with `max` the largest value of the type.
pub fn parse_unsigned_range(v: &Vec<char>, from: usize, to: usize, max: u64) -> (r: Option<u64>)
    requires
        from <= to <= v.len(),
    ensures
        match r {
            Some(n) => parses_unsigned(v@.subrange(from as int, to as int), max as nat)
                && n == decimal_value(unsigned_digits(v@.subrange(from as int, to as int))),
            None => !parses_unsigned(v@.subrange(from as int, to as int), max as nat),
        },
{
    let ghost s = v@.subrange(from as int, to as int);
    let start: usize = if from < to && v[from] == '+' { from + 1 } else { from };
    let ghost d = unsigned_digits(s);
    assert(d =~= v@.subrange(start as int, to as int));
    if start == to {
        return None;
    }
    let mut acc: u64 = 0;
    let mut i = start;
    while i < to
        invariant
            from <= start <= i <= to <= v.len(),
            start < to,
            s == v@.subrange(from as int, to as int),
            d == v@.subrange(start as int, to as int),
            d == unsigned_digits(s),
            acc <= max,
            acc == decimal_value(d.take(i - start)),
            all_digits(d.take(i - start)),
        decreases to - i,
    {
        let c = v[i];
        proof {
            assert(d.take(i - start + 1) =~= d.take(i - start).push(c));
            lemma_decimal_value_push(d.take(i - start), c);
        }
        if !char_is_digit(c) {
            assert(d[i - start] == c);
            assert(!all_digits(d));
            return None;
        }
        let digit = char_digit_value(c) as u64;
        if digit > max || acc > (max - digit) / 10 {
            proof {
                lemma_decimal_value_prefix(d, i - start + 1);
                if digit <= max {
                    assert(acc * 10 + digit > max) by (nonlinear_arith)
                        requires
                            acc > (max - digit) / 10,
                            digit <= max,
                    ;
                }
            }
            return None;
        }
        proof {
            assert(acc * 10 + digit <= max) by (nonlinear_arith)
                requires
                    acc <= (max - digit) / 10,
                    digit <= max,
            ;
        }
        acc = acc * 10 + digit;
        proof {
            assert forall|j: int| 0 <= j < i - start + 1 implies is_digit(
                #[trigger] d.take(i - start + 1)[j],
            ) by {
                if j < i - start {
                    assert(d.take(i - start + 1)[j] == d.take(i - start)[j]);
                }
            }
        }
        i = i + 1;
    }
    assert(d.take(to - start) =~= d);
    Some(acc)
}

/// Reads a `usize` as `usize::from_str` does: `None` unless the text is an
/// optional `+` followed by decimal digits whose value fits.
pub fn parse_usize(s: &str) -> (r: Option<usize>)
    ensures
        match r {
            Some(n) => parses_as_usize(s@) && n == decimal_value(unsigned_digits(s@)),
            None => !parses_as_usize(s@),
        },
{
    let v = chars_of(s);
    assert(v@.subrange(0, v.len() as int) =~= s@);
    match parse_unsigned_range(&v, 0, v.len(), usize::MAX as u64) {
        Some(n) => Some(n as usize),
        None => None,
    }
}

/// The value of a numeric field: zero when the text is empty or is not a
/// `usize`, otherwise the number it spells.
pub fn parse_or_zero_usize(s: &str) -> (n: usize)
    ensures
        n == usize_or_zero(s@),
{
    match parse_usize(s) {
        Some(n) => n,
        None => 0,
    }
}

} // verus!
