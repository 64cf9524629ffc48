//! Integer labels for the frequency axis: decimal digits grouped by thousands.
use vstd::prelude::*;

use crate::text::push_char;

verus! {

/// The ASCII digit for `d < 10`.
pub open spec fn digit_char(d: nat) -> char {
    if d == 0 {
        '0'
    } else if d == 1 {
        '1'
    } else if d == 2 {
        '2'
    } else if d == 3 {
        '3'
    } else if d == 4 {
        '4'
    } else if d == 5 {
        '5'
    } else if d == 6 {
        '6'
    } else if d == 7 {
        '7'
    } else if d == 8 {
        '8'
    } else {
        '9'
    }
}

/// The decimal representation of `v`, without leading zeros (`"0"` for zero).
pub open spec fn decimal_text(v: nat) -> Seq<char>
    decreases v,
{
    if v < 10 {
        seq![digit_char(v)]
    } else {
        decimal_text(v / 10).push(digit_char(v % 10))
    }
}

/// Digits with a comma between every group of three, counted from the right.
pub open spec fn group_thousands(d: Seq<char>) -> Seq<char>
    decreases d.len(),
{
    if d.len() <= 3 {
        d
    } else {
        group_thousands(d.subrange(0, d.len() - 3)) + seq![','] + d.subrange(
            d.len() - 3,
            d.len() as int,
        )
    }
}

/// The label text for `n`: a minus sign for negatives, then the grouped digits
/// of its magnitude (`1234567` gives `"1,234,567"`, `-1000` gives `"-1,000"`).
pub open spec fn commas_text(n: int) -> Seq<char> {
    if n < 0 {
        seq!['-'] + group_thousands(decimal_text((-n) as nat))
    } else {
        group_thousands(decimal_text(n as nat))
    }
}

fn digit_to_char(d: u64) -> (c: char)
    requires
        d < 10,
    ensures
        c == digit_char(d as nat),
{
    match d {
        0 => '0',
        1 => '1',
        2 => '2',
        3 => '3',
        4 => '4',
        5 => '5',
        6 => '6',
        7 => '7',
        8 => '8',
        _ => '9',
    }
}

/// Appends the decimal digits of `v` to `out`.
pub fn push_decimal(v: u64, out: &mut Vec<char>)
    ensures
        final(out)@ == old(out)@ + decimal_text(v as nat),
    decreases v,
{
    if v >= 10 {
        push_decimal(v / 10, out);
    }
    let c = digit_to_char(v % 10);
    out.push(c);
    proof {
        if v >= 10 {
            assert(decimal_text(v as nat) == decimal_text((v / 10) as nat).push(
                digit_char((v % 10) as nat),
            ));
        } else {
            assert(decimal_text(v as nat) == seq![digit_char(v as nat)]);
        }
    }
    assert(final(out)@ =~= old(out)@ + decimal_text(v as nat));
}

fn push_grouped(d: &Vec<char>, end: usize, out: &mut String)
    requires
        end <= d.len(),
    ensures
        final(out)@ == old(out)@ + group_thousands(d@.subrange(0, end as int)),
    decreases end,
{
    let ghost g = d@.subrange(0, end as int);
    if end <= 3 {
        let mut i: usize = 0;
        while i < end
            invariant
                i <= end <= d.len(),
                g == d@.subrange(0, end as int),
                out@ == old(out)@ + g.subrange(0, i as int),
            decreases end - i,
        {
            push_char(out, d[i]);
            assert(g.subrange(0, i + 1) =~= g.subrange(0, i as int).push(g[i as int]));
            i = i + 1;
        }
        assert(g.subrange(0, end as int) =~= g);
    } else {
        push_grouped(d, end - 3, out);
        assert(g.subrange(0, g.len() - 3) =~= d@.subrange(0, end - 3));
        let ghost mid = out@;
        push_char(out, ',');
        let mut i: usize = end - 3;
        while i < end
            invariant
                3 < end,
                end - 3 <= i <= end <= d.len(),
                g == d@.subrange(0, end as int),
                out@ == mid.push(',') + g.subrange(end - 3, i as int),
            decreases end - i,
        {
            push_char(out, d[i]);
            proof {
                let lo: int = end - 3;
                assert(g.subrange(lo, i + 1) =~= g.subrange(lo, i as int).push(g[i as int]));
            }
            i = i + 1;
        }
        assert(out@ =~= old(out)@ + group_thousands(g));
    }
}

/// Formats `n` with thousands separators.
pub fn format_with_commas(n: i64) -> (s: String)
    requires
        n != i64::MIN,
    ensures
        s@ == commas_text(n as int),
{
    let mut digits: Vec<char> = Vec::new();
    let magnitude: u64 = if n < 0 { (-n) as u64 } else { n as u64 };
    push_decimal(magnitude, &mut digits);
    assert(digits@ =~= decimal_text(magnitude as nat));
    let mut s = String::new();
    if n < 0 {
        push_char(&mut s, '-');
    }
    push_grouped(&digits, digits.len(), &mut s);
    assert(digits@.subrange(0, digits.len() as int) =~= digits@);
    assert(s@ =~= commas_text(n as int));
    s
}

} // verus!
