//! The resident memory of the process, as the `VmRSS:` line of the Linux
//! process status text (`/proc/self/status`) gives it in kilobytes.
use vstd::prelude::*;

use crate::ini::{lemma_split_lines_append, lemma_split_lines_concat, split_lines, trim, trim_range};
use crate::text::{chars_of, decimal_value};
use crate::validation::{parse_unsigned_range, parses_unsigned, unsigned_digits};

verus! {

/// The tag that starts the resident-memory line.
pub open spec fn vm_rss_tag() -> Seq<char> {
    seq!['V', 'm', 'R', 'S', 'S', ':']
}

/// `p` is a prefix of `s`.
pub open spec fn has_prefix(s: Seq<char>, p: Seq<char>) -> bool {
    p.len() <= s.len() && s.take(p.len() as int) == p
}

/// `p` is a suffix of `s`.
pub open spec fn has_suffix(s: Seq<char>, p: Seq<char>) -> bool {
    p.len() <= s.len() && s.skip(s.len() - p.len()) == p
}

/// What follows `p` on the first line that starts with `p`.
pub open spec fn first_after_prefix(lines: Seq<Seq<char>>, p: Seq<char>) -> Option<Seq<char>>
    decreases lines.len(),
{
    if lines.len() == 0 {
        None
    } else if has_prefix(lines[0], p) {
        Some(lines[0].skip(p.len() as int))
    } else {
        first_after_prefix(lines.drop_first(), p)
    }
}

/// `s` with every trailing repetition of `p` removed, as
/// `str::trim_end_matches` does with a non-empty pattern.
pub open spec fn strip_suffixes(s: Seq<char>, p: Seq<char>) -> Seq<char>
    decreases s.len(),
{
    if p.len() > 0 && has_suffix(s, p) {
        strip_suffixes(s.take(s.len() - p.len()), p)
    } else {
        s
    }
}

/// The number text of the first `VmRSS:` line: what follows the tag,
/// trimmed, without trailing ` kB` units, trimmed again. Lines are the
/// pieces between newlines; a carriage return before a newline, which
/// `str::lines` would drop, is whitespace that the first trim removes.
pub open spec fn rss_number_text(status: Seq<char>) -> Option<Seq<char>> {
    match first_after_prefix(split_lines(status), vm_rss_tag()) {
        Some(rest) => Some(trim(strip_suffixes(trim(rest), seq![' ', 'k', 'B']))),
        None => None,
    }
}

/// The resident memory in kilobytes that the status text reports: the
/// number of the first `VmRSS:` line when it is a `u64`.
pub open spec fn rss_kb(status: Seq<char>) -> Option<nat> {
    match rss_number_text(status) {
        Some(d) => if parses_unsigned(d, u64::MAX as nat) {
            Some(decimal_value(unsigned_digits(d)))
        } else {
            None
        },
        None => None,
    }
}

/// The end of the line that starts at `start`: the next newline, or the end.
fn line_end(v: &Vec<char>, start: usize) -> (e: usize)
    requires
        start <= v.len(),
    ensures
        start <= e <= v.len(),
        forall|k: int| start <= k < e ==> v@[k] != '\n',
        e == v.len() || v@[e as int] == '\n',
{
    let mut e = start;
    while e < v.len() && v[e] != '\n'
        invariant
            start <= e <= v.len(),
            forall|k: int| start <= k < e ==> v@[k] != '\n',
        decreases v.len() - e,
    {
        e = e + 1;
    }
    e
}

/// Whether `v[a..b]` starts with `VmRSS:`.
fn starts_with_tag(v: &Vec<char>, a: usize, b: usize) -> (r: bool)
    requires
        a <= b <= v.len(),
    ensures
        r == has_prefix(v@.subrange(a as int, b as int), vm_rss_tag()),
{
    let ghost s = v@.subrange(a as int, b as int);
    if b - a < 6 {
        return false;
    }
    let r = v[a] == 'V' && v[a + 1] == 'm' && v[a + 2] == 'R' && v[a + 3] == 'S' && v[a + 4]
        == 'S' && v[a + 5] == ':';
    proof {
        if r {
            assert(s.take(6) =~= vm_rss_tag());
        } else if s.take(6) == vm_rss_tag() {
            assert(s.take(6)[0] == v@[a as int]);
            assert(s.take(6)[1] == v@[a + 1]);
            assert(s.take(6)[2] == v@[a + 2]);
            assert(s.take(6)[3] == v@[a + 3]);
            assert(s.take(6)[4] == v@[a + 4]);
            assert(s.take(6)[5] == v@[a + 5]);
        }
    }
    r
}

/// Reads the number of a `VmRSS:` line's rest `v[a..b]`.
fn rss_number(v: &Vec<char>, a: usize, b: usize) -> (r: Option<u64>)
    requires
        a <= b <= v.len(),
    ensures
        ({
            let d = trim(strip_suffixes(trim(v@.subrange(a as int, b as int)), seq![' ', 'k', 'B']));
            match r {
                Some(n) => parses_unsigned(d, u64::MAX as nat) && n == decimal_value(
                    unsigned_digits(d),
                ),
                None => !parses_unsigned(d, u64::MAX as nat),
            }
        }),
{
    let ghost unit = seq![' ', 'k', 'B'];
    let (s, e0) = trim_range(v, a, b);
    let mut e = e0;
    while e - s >= 3 && v[e - 3] == ' ' && v[e - 2] == 'k' && v[e - 1] == 'B'
        invariant
            a <= s <= e <= e0 <= b <= v.len(),
            unit == seq![' ', 'k', 'B'],
            strip_suffixes(v@.subrange(s as int, e0 as int), unit) == strip_suffixes(
                v@.subrange(s as int, e as int),
                unit,
            ),
        decreases e,
    {
        proof {
            let cur = v@.subrange(s as int, e as int);
            assert(cur.skip(cur.len() - 3) =~= unit);
            assert(cur.take(cur.len() - 3) =~= v@.subrange(s as int, e - 3));
        }
        e = e - 3;
    }
    proof {
        let cur = v@.subrange(s as int, e as int);
        if has_suffix(cur, unit) {
            assert(cur.skip(cur.len() - 3)[0] == v@[e - 3]);
            assert(cur.skip(cur.len() - 3)[1] == v@[e - 2]);
            assert(cur.skip(cur.len() - 3)[2] == v@[e - 1]);
        }
        assert(strip_suffixes(cur, unit) == cur);
    }
    let (c, d) = trim_range(v, s, e);
    parse_unsigned_range(v, c, d, u64::MAX)
}

/// The resident memory in kilobytes reported by a Linux process status
/// text: the number after `VmRSS:` on the first line that starts with it,
/// read without its `kB` unit; `None` when there is no such line or the
/// number is not a `u64`.
pub fn rss_kb_from_status(status: &str) -> (r: Option<u64>)
    ensures
        match r {
            Some(n) => rss_kb(status@) == Some(n as nat),
            None => rss_kb(status@) is None,
        },
{
    let v = chars_of(status);
    let len = v.len();
    let ghost tag = vm_rss_tag();
    let mut start: usize = 0;
    assert(v@.skip(0) =~= v@);
    loop
        invariant
            start <= len == v.len(),
            v@ == status@,
            tag == vm_rss_tag(),
            first_after_prefix(split_lines(v@), tag) == first_after_prefix(
                split_lines(v@.skip(start as int)),
                tag,
            ),
        decreases len - start,
    {
        let e = line_end(&v, start);
        let ghost seg = v@.subrange(start as int, e as int);
        let ghost rest = v@.skip(start as int);
        proof {
            lemma_split_lines_append(Seq::<char>::empty(), seg);
            assert(Seq::<char>::empty() + seg =~= seg);
            assert(split_lines(Seq::<char>::empty()) =~= seq![Seq::<char>::empty()]);
            assert(split_lines(seg) =~= seq![seg]);
            if e == len {
                assert(rest =~= seg);
            } else {
                let line = seg.push('\n');
                let more = v@.skip(e + 1);
                assert(rest =~= line + more);
                assert(line.drop_last() =~= seg);
                lemma_split_lines_concat(line, more);
                assert(split_lines(line) =~= seq![seg, Seq::<char>::empty()]);
                assert(split_lines(rest) =~= seq![seg] + split_lines(more));
            }
            assert(split_lines(rest)[0] == seg);
        }
        if starts_with_tag(&v, start, e) {
            proof {
                assert(seg.skip(6) =~= v@.subrange(start + 6, e as int));
            }
            return rss_number(&v, start + 6, e);
        }
        if e == len {
            proof {
                assert(split_lines(rest).drop_first() =~= Seq::<Seq<char>>::empty());
                assert(first_after_prefix(Seq::<Seq<char>>::empty(), tag) is None);
            }
            return None;
        }
        proof {
            let more = v@.skip(e + 1);
            assert(split_lines(rest).drop_first() =~= split_lines(more));
        }
        start = e + 1;
    }
}

} // verus!
