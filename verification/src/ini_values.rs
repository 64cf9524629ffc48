//! How setting values are written to and read from the settings file:
//! unsigned and signed integers in decimal, booleans as `true`/`false`, and
//! colors as `0x` followed by at least six lower-case hexadecimal digits.
use vstd::prelude::*;

use crate::ini::{
    hex_color, hex_digit_value, hex_digits, hex_value, is_hex_digit, is_whitespace,
    strip_prefixes, trim, trim_end, trim_start,
};
use crate::labels::{decimal_text, digit_char, push_decimal};
use crate::text::{
    all_digits, char_digit_value, char_is_digit, chars_of, decimal_value, digit_value, is_digit,
    lemma_decimal_value_prefix, lemma_decimal_value_push, push_char, str_eq,
};
use crate::validation::{parses_as_usize, unsigned_digits};

verus! {

/// Decimal text of a signed number: a minus sign for negatives, then the
/// digits of the magnitude.
pub open spec fn signed_text(n: int) -> Seq<char> {
    if n < 0 {
        seq!['-'] + decimal_text((-n) as nat)
    } else {
        decimal_text(n as nat)
    }
}

/// The value `i32::from_str` reads from `s`: an optional sign (`+` or `-`,
/// with digits after it), then decimal digits; `None` when the text is not
/// of that form or the value does not fit an `i32`.
pub open spec fn i32_text_value(s: Seq<char>) -> Option<int> {
    let neg = s.len() > 1 && s[0] == '-';
    let d = if s.len() > 1 && (s[0] == '+' || s[0] == '-') {
        s.drop_first()
    } else {
        s
    };
    if d.len() > 0 && all_digits(d) {
        let v: int = if neg {
            -(decimal_value(d) as int)
        } else {
            decimal_value(d) as int
        };
        if i32::MIN <= v && v <= i32::MAX {
            Some(v)
        } else {
            None
        }
    } else {
        None
    }
}

/// The lower-case hexadecimal digit for `d < 16`.
pub open spec fn hex_char(d: nat) -> char {
    if d < 10 {
        digit_char(d)
    } else if d == 10 {
        'a'
    } else if d == 11 {
        'b'
    } else if d == 12 {
        'c'
    } else if d == 13 {
        'd'
    } else if d == 14 {
        'e'
    } else {
        'f'
    }
}

/// Lower-case hexadecimal digits of `v`, without leading zeros (`"0"` for 0).
pub open spec fn hex_text(v: nat) -> Seq<char>
    decreases v,
{
    if v < 16 {
        seq![hex_char(v)]
    } else {
        hex_text(v / 16).push(hex_char(v % 16))
    }
}

/// `s` with zeros in front to make it at least `width` long.
pub open spec fn pad_zeros(s: Seq<char>, width: nat) -> Seq<char> {
    if s.len() >= width {
        s
    } else {
        Seq::new((width - s.len()) as nat, |i: int| '0') + s
    }
}

/// How a color is written: `0x` and at least six lower-case hex digits.
pub open spec fn color_text(c: u32) -> Seq<char> {
    seq!['0', 'x'] + pad_zeros(hex_text(c as nat), 6)
}

/// How a boolean is written.
pub open spec fn bool_text(b: bool) -> Seq<char> {
    if b {
        "true"@
    } else {
        "false"@
    }
}

/// Writes a `usize` in decimal.
pub fn format_usize(n: usize) -> (s: String)
    ensures
        s@ == decimal_text(n as nat),
{
    let mut digits: Vec<char> = Vec::new();
    push_decimal(n as u64, &mut digits);
    let mut s = String::new();
    let mut i: usize = 0;
    while i < digits.len()
        invariant
            i <= digits.len(),
            digits@ == decimal_text(n as nat),
            s@ == digits@.take(i as int),
        decreases digits.len() - i,
    {
        push_char(&mut s, digits[i]);
        assert(digits@.take(i + 1) =~= digits@.take(i as int).push(digits@[i as int]));
        i = i + 1;
    }
    assert(digits@.take(digits.len() as int) =~= digits@);
    s
}

/// Writes an `i32` in decimal.
pub fn format_i32(n: i32) -> (s: String)
    ensures
        s@ == signed_text(n as int),
{
    let magnitude: u64 = if n < 0 { (-(n as i64)) as u64 } else { n as u64 };
    let mut digits: Vec<char> = Vec::new();
    if n < 0 {
        digits.push('-');
    }
    push_decimal(magnitude, &mut digits);
    assert(digits@ =~= signed_text(n as int));
    let mut s = String::new();
    let mut i: usize = 0;
    while i < digits.len()
        invariant
            i <= digits.len(),
            digits@ == signed_text(n as int),
            s@ == digits@.take(i as int),
        decreases digits.len() - i,
    {
        push_char(&mut s, digits[i]);
        assert(digits@.take(i + 1) =~= digits@.take(i as int).push(digits@[i as int]));
        i = i + 1;
    }
    assert(digits@.take(digits.len() as int) =~= digits@);
    s
}

/// Reads an `i32` as `i32::from_str` does.
pub fn parse_i32(s: &str) -> (r: Option<i32>)
    ensures
        match r {
            Some(n) => i32_text_value(s@) == Some(n as int),
            None => i32_text_value(s@) is None,
        },
{
    let v = chars_of(s);
    let len = v.len();
    let neg = len > 1 && v[0] == '-';
    let start: usize = if len > 1 && (v[0] == '+' || v[0] == '-') { 1 } else { 0 };
    let ghost d = if s@.len() > 1 && (s@[0] == '+' || s@[0] == '-') {
        s@.drop_first()
    } else {
        s@
    };
    assert(d =~= v@.subrange(start as int, len as int));
    if start == len {
        return None;
    }
    let limit: i64 = if neg { 0x8000_0000 } else { 0x7fff_ffff };
    let mut acc: i64 = 0;
    let mut i = start;
    while i < len
        invariant
            start <= i <= len == v.len(),
            start < len,
            v@ == s@,
            d == v@.subrange(start as int, len as int),
            d == (if s@.len() > 1 && (s@[0] == '+' || s@[0] == '-') {
                s@.drop_first()
            } else {
                s@
            }),
            neg == (s@.len() > 1 && s@[0] == '-'),
            limit == (if neg { 0x8000_0000i64 } else { 0x7fff_ffffi64 }),
            0 <= acc <= limit,
            limit <= 0x8000_0000,
            acc == decimal_value(d.take(i - start)),
            all_digits(d.take(i - start)),
        decreases len - i,
    {
        let c = v[i];
        assert(d[i - start] == c);
        proof {
            assert(d.take(i - start + 1) =~= d.take(i - start).push(c));
            lemma_decimal_value_push(d.take(i - start), c);
        }
        if !char_is_digit(c) {
            assert(!all_digits(d));
            return None;
        }
        let digit = char_digit_value(c) as i64;
        let next = acc * 10 + digit;
        if next > limit {
            proof {
                lemma_decimal_value_prefix(d, i - start + 1);
            }
            return None;
        }
        acc = next;
        proof {
            assert forall|j: int| 0 <= j < i - start + 1 implies is_digit(
                #[trigger] d.take(i - start + 1)[j],
            ) by {
                if j < i - start {
                    assert(d.take(i - start + 1)[j] == d.take(i - start)[j]);
                }
            }
        }
        i = i + 1;
    }
    assert(d.take(len - start) =~= d);
    if neg {
        Some((-acc) as i32)
    } else {
        Some(acc as i32)
    }
}

/// Writes a boolean as `true` or `false`.
pub fn format_bool(b: bool) -> (s: String)
    ensures
        s@ == bool_text(b),
{
    if b {
        "true".to_owned()
    } else {
        "false".to_owned()
    }
}

/// Reads a boolean setting: exactly the text `true` is true.
pub fn text_is_true(s: &str) -> (b: bool)
    ensures
        b == (s@ == "true"@),
{
    str_eq(s, "true")
}

fn hex_to_char(d: u32) -> (c: char)
    requires
        d < 16,
    ensures
        c == hex_char(d as nat),
{
    match d {
        0 => '0',
        1 => '1',
        2 => '2',
        3 => '3',
        4 => '4',
        5 => '5',
        6 => '6',
        7 => '7',
        8 => '8',
        9 => '9',
        10 => 'a',
        11 => 'b',
        12 => 'c',
        13 => 'd',
        14 => 'e',
        _ => 'f',
    }
}

fn push_hex(v: u32, out: &mut Vec<char>)
    ensures
        final(out)@ == old(out)@ + hex_text(v as nat),
    decreases v,
{
    if v >= 16 {
        push_hex(v / 16, out);
    }
    let c = hex_to_char(v % 16);
    out.push(c);
    assert(final(out)@ =~= old(out)@ + hex_text(v as nat));
}

/// Writes a color as `0x` and at least six lower-case hex digits
/// (`0x1e1e2e`).
pub fn format_hex_color(c: u32) -> (s: String)
    ensures
        s@ == color_text(c),
{
    let mut digits: Vec<char> = Vec::new();
    push_hex(c, &mut digits);
    assert(digits@ =~= hex_text(c as nat));
    let mut s = String::new();
    push_char(&mut s, '0');
    push_char(&mut s, 'x');
    let mut z = digits.len();
    while z < 6
        invariant
            digits.len() <= z <= 6 || (z == digits.len() && z >= 6),
            s@ == seq!['0', 'x'] + Seq::new((z - digits.len()) as nat, |i: int| '0'),
        decreases 6 - z,
    {
        push_char(&mut s, '0');
        assert(Seq::new((z + 1 - digits.len()) as nat, |i: int| '0') =~= Seq::new(
            (z - digits.len()) as nat,
            |i: int| '0',
        ).push('0'));
        z = z + 1;
    }
    let ghost prefix = s@;
    let mut i: usize = 0;
    while i < digits.len()
        invariant
            i <= digits.len(),
            s@ == prefix + digits@.take(i as int),
        decreases digits.len() - i,
    {
        push_char(&mut s, digits[i]);
        assert(digits@.take(i + 1) =~= digits@.take(i as int).push(digits@[i as int]));
        i = i + 1;
    }
    assert(digits@.take(digits.len() as int) =~= digits@);
    proof {
        if digits.len() >= 6 {
            assert(Seq::new(0nat, |i: int| '0') =~= Seq::<char>::empty());
        }
    }
    assert(s@ =~= color_text(c));
    s
}

proof fn lemma_digit_char(d: nat)
    requires
        d < 10,
    ensures
        is_digit(digit_char(d)),
        digit_value(digit_char(d)) == d,
{
}

/// Properties of decimal text.
pub proof fn lemma_decimal_text(n: nat)
    ensures
        decimal_text(n).len() >= 1,
        all_digits(decimal_text(n)),
        decimal_value(decimal_text(n)) == n,
    decreases n,
{
    if n < 10 {
        lemma_digit_char(n);
        assert(decimal_text(n).drop_last() =~= Seq::<char>::empty());
        assert(decimal_text(n)[0] == digit_char(n));
        assert(decimal_value(Seq::<char>::empty()) == 0);
    } else {
        lemma_decimal_text(n / 10);
        lemma_digit_char(n % 10);
        let t = decimal_text(n / 10);
        assert(decimal_text(n) == t.push(digit_char(n % 10)));
        assert(decimal_text(n).drop_last() =~= t);
        lemma_decimal_value_push(t, digit_char(n % 10));
        assert(n == (n / 10) * 10 + n % 10);
        assert forall|i: int| 0 <= i < decimal_text(n).len() implies is_digit(
            #[trigger] decimal_text(n)[i],
        ) by {
            if i < t.len() {
                assert(decimal_text(n)[i] == t[i]);
            }
        }
    }
}

/// A `usize` written in decimal reads back as the same number.
pub proof fn lemma_usize_text_roundtrip(n: usize)
    ensures
        parses_as_usize(decimal_text(n as nat)),
        decimal_value(unsigned_digits(decimal_text(n as nat))) == n,
{
    lemma_decimal_text(n as nat);
    let t = decimal_text(n as nat);
    assert(is_digit(t[0]));
    assert(unsigned_digits(t) == t);
}

/// An `i32` written in decimal reads back as the same number.
pub proof fn lemma_i32_text_roundtrip(n: i32)
    ensures
        i32_text_value(signed_text(n as int)) == Some(n as int),
{
    if n < 0 {
        let m = (-n) as nat;
        lemma_decimal_text(m);
        let t = signed_text(n as int);
        assert(t.drop_first() =~= decimal_text(m));
        assert(t.len() > 1);
    } else {
        lemma_decimal_text(n as nat);
        let t = decimal_text(n as nat);
        assert(is_digit(t[0]));
    }
}

/// `true` is written as `true`, which reads back as true; `false` as
/// `false`, which does not.
pub proof fn lemma_bool_text_roundtrip(b: bool)
    ensures
        (bool_text(b) == "true"@) == b,
{
    reveal_strlit("true");
    reveal_strlit("false");
    if !b {
        assert(bool_text(b).len() == 5);
    }
}

proof fn lemma_hex_char(d: nat)
    requires
        d < 16,
    ensures
        is_hex_digit(hex_char(d)),
        hex_digit_value(hex_char(d)) == d,
        hex_char(d) != 'x' && hex_char(d) != 'X' && hex_char(d) != '+',
        !is_whitespace(hex_char(d)),
{
}

proof fn lemma_hex_text(v: nat)
    ensures
        hex_text(v).len() >= 1,
        forall|i: int| 0 <= i < hex_text(v).len() ==> is_hex_digit(#[trigger] hex_text(v)[i]) && hex_text(
            v,
        )[i] != 'x' && hex_text(v)[i] != 'X' && hex_text(v)[i] != '+' && !is_whitespace(
            hex_text(v)[i],
        ),
        hex_value(hex_text(v)) == v,
    decreases v,
{
    if v < 16 {
        lemma_hex_char(v);
        assert(hex_text(v).drop_last() =~= Seq::<char>::empty());
        assert(hex_text(v)[0] == hex_char(v));
        assert(hex_value(Seq::<char>::empty()) == 0);
    } else {
        lemma_hex_text(v / 16);
        lemma_hex_char(v % 16);
        let t = hex_text(v / 16);
        assert(hex_text(v) == t.push(hex_char(v % 16)));
        assert(hex_text(v).drop_last() =~= t);
        assert(v == (v / 16) * 16 + v % 16);
        assert forall|i: int| 0 <= i < hex_text(v).len() implies is_hex_digit(
            #[trigger] hex_text(v)[i],
        ) && hex_text(v)[i] != 'x' && hex_text(v)[i] != 'X' && hex_text(v)[i] != '+'
            && !is_whitespace(hex_text(v)[i]) by {
            if i < t.len() {
                assert(hex_text(v)[i] == t[i]);
            }
        }
    }
}

proof fn lemma_hex_value_zeros(z: nat, s: Seq<char>)
    ensures
        hex_value(Seq::new(z, |i: int| '0') + s) == hex_value(s),
    decreases s.len(), z,
{
    if s.len() == 0 {
        let zs = Seq::new(z, |i: int| '0');
        assert(zs + s =~= zs);
        if z > 0 {
            assert(zs.drop_last() =~= Seq::new((z - 1) as nat, |i: int| '0'));
            lemma_hex_value_zeros((z - 1) as nat, s);
            assert(Seq::new((z - 1) as nat, |i: int| '0') + s =~= Seq::new(
                (z - 1) as nat,
                |i: int| '0',
            ));
        }
    } else {
        let zs = Seq::new(z, |i: int| '0');
        assert((zs + s).drop_last() =~= zs + s.drop_last());
        lemma_hex_value_zeros(z, s.drop_last());
    }
}

/// A color written by `format_hex_color` reads back as the same color.
pub proof fn lemma_color_text_roundtrip(c: u32)
    ensures
        hex_color(color_text(c)) == Some(c),
{
    let h = hex_text(c as nat);
    lemma_hex_text(c as nat);
    let d = pad_zeros(h, 6);
    let zs = Seq::new((6 - h.len()) as nat, |i: int| '0');
    if h.len() < 6 {
        lemma_hex_value_zeros((6 - h.len()) as nat, h);
        assert(d == zs + h);
    }
    assert(hex_value(d) == c);
    assert(d.len() >= 2);
    assert forall|i: int| 0 <= i < d.len() implies is_hex_digit(#[trigger] d[i]) && d[i] != 'x'
        && d[i] != 'X' && d[i] != '+' && !is_whitespace(d[i]) by {
        if h.len() < 6 {
            if i < zs.len() {
                assert(d[i] == '0');
            } else {
                assert(d[i] == h[i - zs.len()]);
            }
        }
    }
    let t = color_text(c);
    assert(t[0] == '0');
    assert(!is_whitespace(t.last()));
    assert(trim_start(t) == t);
    assert(trim_end(t) == t);
    assert(trim(t) == t);
    assert(t.take(2) =~= seq!['0', 'x']);
    assert(t.skip(2) =~= d);
    assert(strip_prefixes(t, seq!['0', 'x']) == strip_prefixes(d, seq!['0', 'x']));
    assert(d.take(2) != seq!['0', 'x']) by {
        assert(d.take(2)[1] == d[1]);
    }
    assert(strip_prefixes(d, seq!['0', 'x']) == d);
    assert(d.take(2) != seq!['0', 'X']) by {
        assert(d.take(2)[1] == d[1]);
    }
    assert(strip_prefixes(d, seq!['0', 'X']) == d);
    assert(hex_digits(t) == d);
}

} // verus!
