//! The settings file format: `key = value` lines (section headers, comments
//! and blank lines ignored) and hexadecimal color values.
use vstd::prelude::*;

use crate::text::{chars_of, string_from_chars};

verus! {

/// Whitespace as `char::is_whitespace` defines it (Unicode `White_Space`).
pub open spec fn is_whitespace(c: char) -> bool {
    ||| c == '\t'
    ||| c == '\n'
    ||| c == '\u{0B}'
    ||| c == '\u{0C}'
    ||| c == '\r'
    ||| c == ' '
    ||| c == '\u{85}'
    ||| c == '\u{A0}'
    ||| c == '\u{1680}'
    ||| ('\u{2000}' <= c && c <= '\u{200A}')
    ||| c == '\u{2028}'
    ||| c == '\u{2029}'
    ||| c == '\u{202F}'
    ||| c == '\u{205F}'
    ||| c == '\u{3000}'
}

fn char_is_whitespace(c: char) -> (b: bool)
    ensures
        b == is_whitespace(c),
{
    c == '\t' || c == '\n' || c == '\u{0B}' || c == '\u{0C}' || c == '\r' || c == ' ' || c
        == '\u{85}' || c == '\u{A0}' || c == '\u{1680}' || ('\u{2000}' <= c && c <= '\u{200A}')
        || c == '\u{2028}' || c == '\u{2029}' || c == '\u{202F}' || c == '\u{205F}' || c
        == '\u{3000}'
}

/// `s` without leading whitespace.
pub open spec fn trim_start(s: Seq<char>) -> Seq<char>
    decreases s.len(),
{
    if s.len() > 0 && is_whitespace(s[0]) {
        trim_start(s.drop_first())
    } else {
        s
    }
}

/// `s` without trailing whitespace.
pub open spec fn trim_end(s: Seq<char>) -> Seq<char>
    decreases s.len(),
{
    if s.len() > 0 && is_whitespace(s.last()) {
        trim_end(s.drop_last())
    } else {
        s
    }
}

/// `s` without leading or trailing whitespace, as `str::trim` gives it.
pub open spec fn trim(s: Seq<char>) -> Seq<char> {
    trim_end(trim_start(s))
}

/// The pieces of `s` between newlines, as `str::split('\n')` gives them
/// (one empty piece for empty text).
pub open spec fn split_lines(s: Seq<char>) -> Seq<Seq<char>>
    decreases s.len(),
{
    if s.len() == 0 {
        seq![Seq::empty()]
    } else {
        let rest = split_lines(s.drop_last());
        if s.last() == '\n' {
            rest.push(Seq::empty())
        } else {
            rest.update(rest.len() - 1, rest.last().push(s.last()))
        }
    }
}

/// `p` is the position of the first `c` in `s`.
pub open spec fn is_first_index(s: Seq<char>, c: char, p: int) -> bool {
    0 <= p < s.len() && s[p] == c && forall|j: int| 0 <= j < p ==> s[j] != c
}

/// The `key = value` pair a settings line holds: after trimming, lines that
/// are empty or start with `#` or `[` hold none, nor do lines without `=`;
/// otherwise key and value are the trimmed text before and after the first
/// `=`.
pub open spec fn line_entry(line: Seq<char>) -> Option<(Seq<char>, Seq<char>)> {
    let t = trim(line);
    if t.len() == 0 || t[0] == '#' || t[0] == '[' {
        None
    } else if exists|p: int| is_first_index(t, '=', p) {
        let p = choose|p: int| is_first_index(t, '=', p);
        Some((trim(t.take(p)), trim(t.skip(p + 1))))
    } else {
        None
    }
}

/// The pairs the lines hold, in order.
pub open spec fn entries_of_lines(lines: Seq<Seq<char>>) -> Seq<(Seq<char>, Seq<char>)>
    decreases lines.len(),
{
    if lines.len() == 0 {
        Seq::empty()
    } else {
        let r = entries_of_lines(lines.drop_last());
        match line_entry(lines.last()) {
            Some(e) => r.push(e),
            None => r,
        }
    }
}

/// The pairs a settings text holds, in order.
pub open spec fn ini_entries(content: Seq<char>) -> Seq<(Seq<char>, Seq<char>)> {
    entries_of_lines(split_lines(content))
}

/// The map the pairs define: each key to its last value.
pub open spec fn entries_map(es: Seq<(Seq<char>, Seq<char>)>) -> Map<Seq<char>, Seq<char>>
    decreases es.len(),
{
    if es.len() == 0 {
        Map::empty()
    } else {
        entries_map(es.drop_last()).insert(es.last().0, es.last().1)
    }
}

/// Views of string pairs.
pub open spec fn pair_views(v: Seq<(String, String)>) -> Seq<(Seq<char>, Seq<char>)> {
    v.map_values(|p: (String, String)| (p.0@, p.1@))
}

/// The settings read from a settings file: a map from key to value.
pub struct IniMap {
    entries: Vec<(String, String)>,
}

impl View for IniMap {
    type V = Map<Seq<char>, Seq<char>>;

    closed spec fn view(&self) -> Map<Seq<char>, Seq<char>> {
        entries_map(pair_views(self.entries@))
    }
}

proof fn lemma_trim_start_step(s: Seq<char>)
    requires
        s.len() > 0,
        is_whitespace(s[0]),
    ensures
        trim_start(s) == trim_start(s.drop_first()),
{
}

proof fn lemma_trim_end_step(s: Seq<char>)
    requires
        s.len() > 0,
        is_whitespace(s.last()),
    ensures
        trim_end(s) == trim_end(s.drop_last()),
{
}

/// Trims `v[a..b]`; returns the bounds of the trimmed part.
pub(crate) fn trim_range(v: &Vec<char>, a: usize, b: usize) -> (r: (usize, usize))
    requires
        a <= b <= v.len(),
    ensures
        a <= r.0 <= r.1 <= b,
        v@.subrange(r.0 as int, r.1 as int) == trim(v@.subrange(a as int, b as int)),
{
    let mut i = a;
    while i < b && char_is_whitespace(v[i])
        invariant
            a <= i <= b <= v.len(),
            trim_start(v@.subrange(a as int, b as int)) == trim_start(v@.subrange(i as int, b as int)),
        decreases b - i,
    {
        proof {
            let s = v@.subrange(i as int, b as int);
            assert(s.drop_first() =~= v@.subrange(i + 1, b as int));
            lemma_trim_start_step(s);
        }
        i = i + 1;
    }
    let ghost left = v@.subrange(i as int, b as int);
    assert(trim_start(left) == left);
    let mut j = b;
    while j > i && char_is_whitespace(v[j - 1])
        invariant
            a <= i <= j <= b <= v.len(),
            trim_end(v@.subrange(i as int, b as int)) == trim_end(v@.subrange(i as int, j as int)),
        decreases j - i,
    {
        proof {
            let s = v@.subrange(i as int, j as int);
            assert(s.drop_last() =~= v@.subrange(i as int, j - 1));
            lemma_trim_end_step(s);
        }
        j = j - 1;
    }
    let ghost right = v@.subrange(i as int, j as int);
    assert(trim_end(right) == right);
    (i, j)
}

pub(crate) proof fn lemma_split_lines_nonempty(s: Seq<char>)
    ensures
        split_lines(s).len() >= 1,
    decreases s.len(),
{
    if s.len() > 0 {
        lemma_split_lines_nonempty(s.drop_last());
    }
}

/// Appending text without newlines extends the last piece.
pub(crate) proof fn lemma_split_lines_append(s: Seq<char>, t: Seq<char>)
    requires
        forall|k: int| 0 <= k < t.len() ==> t[k] != '\n',
    ensures
        split_lines(s).len() >= 1,
        split_lines(s + t) == split_lines(s).update(
            split_lines(s).len() - 1,
            split_lines(s).last() + t,
        ),
    decreases t.len(),
{
    lemma_split_lines_nonempty(s);
    if t.len() == 0 {
        assert(s + t =~= s);
        assert(split_lines(s).last() + t =~= split_lines(s).last());
        assert(split_lines(s).update(split_lines(s).len() - 1, split_lines(s).last())
            =~= split_lines(s));
    } else {
        let t1 = t.drop_last();
        lemma_split_lines_append(s, t1);
        assert((s + t).drop_last() =~= s + t1);
        assert((s + t).last() == t.last());
        let r = split_lines(s + t1);
        lemma_split_lines_nonempty(s + t1);
        let sp = split_lines(s);
        assert(t.last() != '\n');
        assert(split_lines(s + t) == r.update(r.len() - 1, r.last().push(t.last())));
        assert(r.len() == sp.len());
        assert(r.last() == sp.last() + t1);
        assert((sp.last() + t1).push(t.last()) =~= sp.last() + t);
        assert(r.update(r.len() - 1, r.last().push(t.last())) =~= sp.update(
            sp.len() - 1,
            sp.last() + t,
        ));
    }
}

/// Text that starts a new line splits into the finished lines before it
/// and the lines of the text itself.
pub(crate) proof fn lemma_split_lines_concat(s: Seq<char>, t: Seq<char>)
    requires
        s.len() == 0 || s.last() == '\n',
    ensures
        split_lines(s).len() >= 1,
        split_lines(s + t) == split_lines(s).drop_last() + split_lines(t),
    decreases t.len(),
{
    lemma_split_lines_nonempty(s);
    if s.len() > 0 {
        assert(split_lines(s).last() == Seq::<char>::empty());
    } else {
        assert(split_lines(s) =~= seq![Seq::<char>::empty()]);
    }
    if t.len() == 0 {
        assert(s + t =~= s);
        assert(split_lines(t) =~= seq![Seq::<char>::empty()]);
        assert(split_lines(s).drop_last() + split_lines(t) =~= split_lines(s));
    } else {
        let t1 = t.drop_last();
        lemma_split_lines_concat(s, t1);
        lemma_split_lines_nonempty(t1);
        assert((s + t).drop_last() =~= s + t1);
        assert((s + t).last() == t.last());
        let a = split_lines(s).drop_last();
        let b = split_lines(t1);
        if t.last() == '\n' {
            assert((a + b).push(Seq::<char>::empty()) =~= a + b.push(Seq::<char>::empty()));
        } else {
            assert((a + b).update((a + b).len() - 1, (a + b).last().push(t.last())) =~= a
                + b.update(b.len() - 1, b.last().push(t.last())));
        }
    }
}

/// Finds the first `=` in `v[a..b]`.
fn find_equals(v: &Vec<char>, a: usize, b: usize) -> (r: Option<usize>)
    requires
        a <= b <= v.len(),
    ensures
        match r {
            Some(p) => a <= p < b && is_first_index(
                v@.subrange(a as int, b as int),
                '=',
                p - a,
            ),
            None => forall|j: int| a <= j < b ==> v@[j] != '=',
        },
{
    let mut k = a;
    while k < b
        invariant
            a <= k <= b <= v.len(),
            forall|j: int| a <= j < k ==> v@[j] != '=',
        decreases b - k,
    {
        if v[k] == '=' {
            return Some(k);
        }
        k = k + 1;
    }
    None
}

/// The pair held by the line `v[a..b]`, if any.
fn parse_line(v: &Vec<char>, a: usize, b: usize) -> (r: Option<(String, String)>)
    requires
        a <= b <= v.len(),
    ensures
        match r {
            Some(p) => line_entry(v@.subrange(a as int, b as int)) == Some((p.0@, p.1@)),
            None => line_entry(v@.subrange(a as int, b as int)) is None,
        },
{
    let ghost line = v@.subrange(a as int, b as int);
    let (s, e) = trim_range(v, a, b);
    let ghost t = trim(line);
    assert(t =~= v@.subrange(s as int, e as int));
    if s == e || v[s] == '#' || v[s] == '[' {
        return None;
    }
    match find_equals(v, s, e) {
        None => {
            assert(!exists|p: int| is_first_index(t, '=', p)) by {
                if exists|p: int| is_first_index(t, '=', p) {
                    let p = choose|p: int| is_first_index(t, '=', p);
                    assert(v@[s + p] == t[p]);
                }
            }
            None
        },
        Some(q) => {
            let ghost p = q - s;
            assert(is_first_index(t, '=', p));
            assert forall|p2: int| is_first_index(t, '=', p2) implies p2 == p by {
                if p2 < p {
                    assert(t[p2] != '=');
                } else if p2 > p {
                    assert(t[p] != '=');
                }
            }
            let (ks, ke) = trim_range(v, s, q);
            let (vs, ve) = trim_range(v, q + 1, e);
            assert(t.take(p) =~= v@.subrange(s as int, q as int));
            assert(t.skip(p + 1) =~= v@.subrange(q + 1, e as int));
            let key = string_from_chars(v, ks, ke);
            let val = string_from_chars(v, vs, ve);
            Some((key, val))
        },
    }
}

/// Reads `key = value` lines into a map. Section headers (`[...]`),
/// comments (`#...`), blank lines and lines without `=` are skipped; keys
/// and values are trimmed; a later line for the same key wins.
pub fn parse_ini_to_map(content: &str) -> (m: IniMap)
    ensures
        m@ == entries_map(ini_entries(content@)),
{
    let v = chars_of(content);
    let len = v.len();
    let mut entries: Vec<(String, String)> = Vec::new();
    let mut start: usize = 0;
    let mut i: usize = 0;
    while i < len
        invariant
            start <= i <= len == v.len(),
            v@ == content@,
            start == 0 || v@[start - 1] == '\n',
            forall|k: int| start <= k < i ==> v@[k] != '\n',
            pair_views(entries@) == entries_of_lines(split_lines(v@.take(start as int)).drop_last()),
        decreases len - i,
    {
        if v[i] == '\n' {
            let parsed = parse_line(&v, start, i);
            proof {
                let pre = v@.take(start as int);
                let seg = v@.subrange(start as int, i as int);
                lemma_split_lines_append(pre, seg);
                assert(pre + seg =~= v@.take(i as int));
                assert(v@.take(i + 1).drop_last() =~= v@.take(i as int));
                let sp = split_lines(pre);
                if start == 0 {
                    assert(pre =~= Seq::<char>::empty());
                } else {
                    assert(pre.drop_last() =~= v@.take(start - 1));
                }
                assert(sp.last() =~= Seq::<char>::empty());
                let done = split_lines(v@.take(i + 1)).drop_last();
                assert(done =~= sp.drop_last().push(seg));
                assert(done.drop_last() =~= sp.drop_last());
            }
            let ghost before = entries@;
            match parsed {
                Some(p) => {
                    entries.push(p);
                    assert(pair_views(entries@) =~= pair_views(before).push(
                        (entries@.last().0@, entries@.last().1@),
                    ));
                },
                None => {},
            }
            start = i + 1;
        }
        i = i + 1;
    }
    let parsed = parse_line(&v, start, len);
    proof {
        let pre = v@.take(start as int);
        let seg = v@.subrange(start as int, len as int);
        lemma_split_lines_append(pre, seg);
        assert(pre + seg =~= v@);
        let sp = split_lines(pre);
        if start == 0 {
            assert(pre =~= Seq::<char>::empty());
        } else {
            assert(pre.drop_last() =~= v@.take(start - 1));
        }
        assert(sp.last() =~= Seq::<char>::empty());
        let all = split_lines(v@);
        assert(all =~= sp.drop_last().push(seg));
        assert(all.drop_last() =~= sp.drop_last());
    }
    let ghost before = entries@;
    match parsed {
        Some(p) => {
            entries.push(p);
            assert(pair_views(entries@) =~= pair_views(before).push(
                (entries@.last().0@, entries@.last().1@),
            ));
        },
        None => {},
    }
    IniMap { entries }
}

/// Entries after position `i` that do not have key `k` leave the value of
/// `k` as the first `i` entries set it.
proof fn lemma_entries_map_suffix(es: Seq<(Seq<char>, Seq<char>)>, i: int, k: Seq<char>)
    requires
        0 <= i <= es.len(),
        forall|j: int| i <= j < es.len() ==> (#[trigger] es[j]).0 != k,
    ensures
        entries_map(es).contains_key(k) == entries_map(es.take(i)).contains_key(k),
        entries_map(es).contains_key(k) ==> entries_map(es)[k] == entries_map(es.take(i))[k],
    decreases es.len() - i,
{
    if i < es.len() {
        let d = es.drop_last();
        assert(es.last() == es[es.len() - 1]);
        assert forall|j: int| i <= j < d.len() implies (#[trigger] d[j]).0 != k by {
            assert(d[j] == es[j]);
        }
        lemma_entries_map_suffix(d, i, k);
        assert(d.take(i) =~= es.take(i));
    } else {
        assert(es.take(i) =~= es);
    }
}

impl IniMap {
    /// The value stored for `key`, if any.
    pub fn get(&self, key: &str) -> (r: Option<&String>)
        ensures
            match r {
                Some(v) => self@.contains_key(key@) && self@[key@] == v@,
                None => !self@.contains_key(key@),
            },
    {
        let ghost es = pair_views(self.entries@);
        let mut i = self.entries.len();
        while i > 0
            invariant
                i <= self.entries.len(),
                es == pair_views(self.entries@),
                forall|j: int| i <= j < es.len() ==> (#[trigger] es[j]).0 != key@,
            decreases i,
        {
            let same = crate::text::str_eq(self.entries[i - 1].0.as_str(), key);
            if same {
                proof {
                    lemma_entries_map_suffix(es, i as int, key@);
                    assert(es.take(i as int).drop_last() =~= es.take(i - 1));
                }
                return Some(&self.entries[i - 1].1);
            }
            i = i - 1;
        }
        proof {
            lemma_entries_map_suffix(es, 0, key@);
            assert(es.take(0) =~= Seq::<(Seq<char>, Seq<char>)>::empty());
        }
        None
    }
}

/// Hexadecimal digit.
pub open spec fn is_hex_digit(c: char) -> bool {
    ('0' <= c && c <= '9') || ('a' <= c && c <= 'f') || ('A' <= c && c <= 'F')
}

/// Value of a hexadecimal digit.
pub open spec fn hex_digit_value(c: char) -> nat {
    if '0' <= c && c <= '9' {
        (c as u32 - '0' as u32) as nat
    } else if 'a' <= c && c <= 'f' {
        (c as u32 - 'a' as u32 + 10) as nat
    } else {
        (c as u32 - 'A' as u32 + 10) as nat
    }
}

/// Value of a string of hexadecimal digits.
pub open spec fn hex_value(s: Seq<char>) -> nat
    decreases s.len(),
{
    if s.len() == 0 {
        0
    } else {
        hex_value(s.drop_last()) * 16 + hex_digit_value(s.last())
    }
}

/// `s` with every leading repetition of `p` removed, as
/// `str::trim_start_matches` does.
pub open spec fn strip_prefixes(s: Seq<char>, p: Seq<char>) -> Seq<char>
    decreases s.len(),
{
    if p.len() > 0 && s.len() >= p.len() && s.take(p.len() as int) == p {
        strip_prefixes(s.skip(p.len() as int), p)
    } else {
        s
    }
}

/// The digits a hexadecimal color value is read from: trimmed, with leading
/// `0x` repetitions and then `0X` repetitions removed, then one `+` sign
/// dropped when digits follow it.
pub open spec fn hex_digits(s: Seq<char>) -> Seq<char> {
    let t = strip_prefixes(strip_prefixes(trim(s), seq!['0', 'x']), seq!['0', 'X']);
    if t.len() > 1 && t[0] == '+' {
        t.drop_first()
    } else {
        t
    }
}

/// The color a settings value denotes: the hexadecimal number it spells, if
/// it is one that fits in a `u32`.
pub open spec fn hex_color(s: Seq<char>) -> Option<u32> {
    let d = hex_digits(s);
    if d.len() > 0 && (forall|i: int| 0 <= i < d.len() ==> is_hex_digit(#[trigger] d[i]))
        && hex_value(d) <= u32::MAX {
        Some(hex_value(d) as u32)
    } else {
        None
    }
}

proof fn lemma_hex_value_prefix(s: Seq<char>, i: int)
    requires
        0 <= i <= s.len(),
    ensures
        hex_value(s.take(i)) <= hex_value(s),
    decreases s.len(),
{
    if i < s.len() {
        assert(s.drop_last().take(i) =~= s.take(i));
        lemma_hex_value_prefix(s.drop_last(), i);
    } else {
        assert(s.take(i) =~= s);
    }
}

fn skip_prefixes(v: &Vec<char>, a: usize, b: usize, second: char) -> (r: usize)
    requires
        a <= b <= v.len(),
    ensures
        a <= r <= b,
        v@.subrange(r as int, b as int) == strip_prefixes(
            v@.subrange(a as int, b as int),
            seq!['0', second],
        ),
{
    let ghost p = seq!['0', second];
    let mut i = a;
    while b - i >= 2 && v[i] == '0' && v[i + 1] == second
        invariant
            a <= i <= b <= v.len(),
            p == seq!['0', second],
            strip_prefixes(v@.subrange(a as int, b as int), p) == strip_prefixes(
                v@.subrange(i as int, b as int),
                p,
            ),
        decreases b - i,
    {
        proof {
            let s = v@.subrange(i as int, b as int);
            assert(s.take(2) =~= p);
            assert(s.skip(2) =~= v@.subrange(i + 2, b as int));
        }
        i = i + 2;
    }
    proof {
        let s = v@.subrange(i as int, b as int);
        if s.len() >= 2 && s.take(2) == p {
            assert(s.take(2)[0] == v@[i as int]);
            assert(s.take(2)[1] == v@[i + 1]);
        }
    }
    i
}

/// Reads a color written in hexadecimal (`0x1e1e2e`, `1E1E2E`), as the
/// settings file stores colors; `None` when it is not a `u32` in hex.
pub fn parse_hex(s: &str) -> (r: Option<u32>)
    ensures
        r == hex_color(s@),
{
    let v = chars_of(s);
    let (a, b) = trim_range(&v, 0, v.len());
    assert(v@.subrange(0, v.len() as int) =~= s@);
    let a1 = skip_prefixes(&v, a, b, 'x');
    let a2 = skip_prefixes(&v, a1, b, 'X');
    let start = if b - a2 > 1 && v[a2] == '+' { a2 + 1 } else { a2 };
    let ghost d = hex_digits(s@);
    assert(d =~= v@.subrange(start as int, b as int));
    if start == b {
        return None;
    }
    let mut acc: u32 = 0;
    let mut i = start;
    while i < b
        invariant
            start <= i <= b <= v.len(),
            start < b,
            d == v@.subrange(start as int, b as int),
            d == hex_digits(s@),
            acc == hex_value(d.take(i - start)),
            forall|j: int| 0 <= j < i - start ==> is_hex_digit(#[trigger] d[j]),
        decreases b - i,
    {
        let c = v[i];
        assert(d[i - start] == c);
        proof {
            assert(d.take(i - start + 1).drop_last() =~= d.take(i - start));
        }
        let dv: u32 = if '0' <= c && c <= '9' {
            (c as u32) - ('0' as u32)
        } else if 'a' <= c && c <= 'f' {
            (c as u32) - ('a' as u32) + 10
        } else if 'A' <= c && c <= 'F' {
            (c as u32) - ('A' as u32) + 10
        } else {
            return None;
        };
        match acc.checked_mul(16) {
            Some(t) => match t.checked_add(dv) {
                Some(u) => {
                    acc = u;
                },
                None => {
                    proof {
                        lemma_hex_value_prefix(d, i - start + 1);
                    }
                    return None;
                },
            },
            None => {
                proof {
                    lemma_hex_value_prefix(d, i - start + 1);
                }
                return None;
            },
        }
        i = i + 1;
    }
    assert(d.take(b - start) =~= d);
    Some(acc)
}

} // verus!
