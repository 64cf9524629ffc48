//! Writing a settings file: comment, section, blank and `key = value` lines,
//! each ended by a newline, laid out so that reading the text back gives the
//! same pairs.
use vstd::prelude::*;

use crate::ini::{
    entries_map, entries_of_lines, ini_entries, is_first_index, is_whitespace, line_entry,
    lemma_split_lines_append, split_lines, trim, trim_end, trim_start,
};
use crate::text::{chars_of, push_char, push_chars};

verus! {

/// One line of a settings file.
pub enum IniLine {
    /// An empty line.
    Blank,
    /// `# text`.
    Comment(String),
    /// `[name]`.
    Section(String),
    /// `key = value`.
    Entry(String, String),
}

/// `s` has no whitespace at either end.
pub open spec fn is_trimmed(s: Seq<char>) -> bool {
    s.len() == 0 || (!is_whitespace(s[0]) && !is_whitespace(s.last()))
}

/// `s` holds no newline.
pub open spec fn single_line(s: Seq<char>) -> bool {
    forall|i: int| 0 <= i < s.len() ==> s[i] != '\n'
}

/// `s` holds no `=`.
pub open spec fn no_equals(s: Seq<char>) -> bool {
    forall|i: int| 0 <= i < s.len() ==> s[i] != '='
}

/// A line that reads back as what it holds: comment and section text stay
/// on one line; a key is trimmed, holds no `=` and does not start with `#`
/// or `[`; a value is trimmed and on one line.
pub open spec fn line_ok(l: IniLine) -> bool {
    match l {
        IniLine::Blank => true,
        IniLine::Comment(c) => single_line(c@),
        IniLine::Section(n) => single_line(n@),
        IniLine::Entry(k, v) => {
            &&& single_line(k@)
            &&& no_equals(k@)
            &&& is_trimmed(k@)
            &&& (k@.len() == 0 || (k@[0] != '#' && k@[0] != '['))
            &&& single_line(v@)
            &&& is_trimmed(v@)
        },
    }
}

/// The text of a line, without its newline.
pub open spec fn line_text(l: IniLine) -> Seq<char> {
    match l {
        IniLine::Blank => Seq::empty(),
        IniLine::Comment(c) => seq!['#', ' '] + c@,
        IniLine::Section(n) => seq!['['] + n@ + seq![']'],
        IniLine::Entry(k, v) => k@ + seq![' ', '=', ' '] + v@,
    }
}

/// The text of the lines, each followed by a newline.
pub open spec fn ini_text(lines: Seq<IniLine>) -> Seq<char>
    decreases lines.len(),
{
    if lines.len() == 0 {
        Seq::empty()
    } else {
        ini_text(lines.drop_last()) + line_text(lines.last()) + seq!['\n']
    }
}

/// The pair a line holds, if it is an entry.
pub open spec fn line_pair(l: IniLine) -> Option<(Seq<char>, Seq<char>)> {
    match l {
        IniLine::Entry(k, v) => Some((k@, v@)),
        _ => None,
    }
}

/// The pairs the entry lines hold, in order.
pub open spec fn line_pairs(lines: Seq<IniLine>) -> Seq<(Seq<char>, Seq<char>)>
    decreases lines.len(),
{
    if lines.len() == 0 {
        Seq::empty()
    } else {
        let r = line_pairs(lines.drop_last());
        match line_pair(lines.last()) {
            Some(p) => r.push(p),
            None => r,
        }
    }
}

/// The texts of the lines, in order.
pub open spec fn line_texts(lines: Seq<IniLine>) -> Seq<Seq<char>>
    decreases lines.len(),
{
    if lines.len() == 0 {
        Seq::empty()
    } else {
        line_texts(lines.drop_last()).push(line_text(lines.last()))
    }
}

/// Appends all of `t` to `s`.
fn push_str(s: &mut String, t: &str)
    ensures
        final(s)@ == old(s)@ + t@,
{
    let v = chars_of(t);
    push_chars(s, &v, 0, v.len());
    assert(v@.subrange(0, v.len() as int) =~= v@);
}

/// Appends the text of one line and its newline.
fn push_line(s: &mut String, l: &IniLine)
    ensures
        final(s)@ == old(s)@ + line_text(*l) + seq!['\n'],
{
    match l {
        IniLine::Blank => {},
        IniLine::Comment(c) => {
            push_char(s, '#');
            push_char(s, ' ');
            push_str(s, c.as_str());
        },
        IniLine::Section(n) => {
            push_char(s, '[');
            push_str(s, n.as_str());
            push_char(s, ']');
        },
        IniLine::Entry(k, v) => {
            push_str(s, k.as_str());
            push_char(s, ' ');
            push_char(s, '=');
            push_char(s, ' ');
            push_str(s, v.as_str());
        },
    }
    push_char(s, '\n');
    assert(final(s)@ =~= old(s)@ + line_text(*l) + seq!['\n']);
}

/// The text of a settings file holding `lines`, each ended by a newline.
pub fn render_ini(lines: &Vec<IniLine>) -> (s: String)
    ensures
        s@ == ini_text(lines@),
{
    let mut s = String::new();
    let mut i: usize = 0;
    while i < lines.len()
        invariant
            i <= lines.len(),
            s@ == ini_text(lines@.take(i as int)),
        decreases lines.len() - i,
    {
        push_line(&mut s, &lines[i]);
        assert(lines@.take(i + 1).drop_last() =~= lines@.take(i as int));
        i = i + 1;
    }
    assert(lines@.take(lines.len() as int) =~= lines@);
    s
}

proof fn lemma_trim_start_keeps(s: Seq<char>)
    requires
        s.len() > 0,
        !is_whitespace(s[0]),
    ensures
        trim_start(s) == s,
{
}

proof fn lemma_trim_end_keeps(s: Seq<char>)
    requires
        s.len() > 0,
        !is_whitespace(s.last()),
    ensures
        trim_end(s) == s,
{
}

/// Leading whitespace goes.
proof fn lemma_trim_start_skip(w: Seq<char>, x: Seq<char>)
    requires
        forall|i: int| 0 <= i < w.len() ==> is_whitespace(#[trigger] w[i]),
    ensures
        trim_start(w + x) == trim_start(x),
    decreases w.len(),
{
    if w.len() > 0 {
        assert((w + x).drop_first() =~= w.drop_first() + x);
        assert((w + x)[0] == w[0]);
        lemma_trim_start_skip(w.drop_first(), x);
    } else {
        assert(w + x =~= x);
    }
}

/// Trailing whitespace goes.
proof fn lemma_trim_end_skip(x: Seq<char>, w: Seq<char>)
    requires
        forall|i: int| 0 <= i < w.len() ==> is_whitespace(#[trigger] w[i]),
    ensures
        trim_end(x + w) == trim_end(x),
    decreases w.len(),
{
    if w.len() > 0 {
        assert((x + w).drop_last() =~= x + w.drop_last());
        assert((x + w).last() == w.last());
        lemma_trim_end_skip(x, w.drop_last());
    } else {
        assert(x + w =~= x);
    }
}

/// Trimming the end of text that starts with a non-space keeps that start.
proof fn lemma_trim_end_after(x: Seq<char>, y: Seq<char>)
    requires
        x.len() > 0,
        !is_whitespace(x.last()),
    ensures
        trim_end(x + y) == x + trim_end(y),
    decreases y.len(),
{
    if y.len() > 0 {
        if is_whitespace(y.last()) {
            assert((x + y).drop_last() =~= x + y.drop_last());
            lemma_trim_end_after(x, y.drop_last());
        } else {
            lemma_trim_end_keeps(x + y);
            lemma_trim_end_keeps(y);
        }
    } else {
        assert(x + y =~= x);
        lemma_trim_end_keeps(x);
    }
}

/// A trimmed text is its own trim.
proof fn lemma_trimmed(s: Seq<char>)
    requires
        is_trimmed(s),
    ensures
        trim(s) == s,
{
    if s.len() > 0 {
        lemma_trim_start_keeps(s);
        lemma_trim_end_keeps(s);
    }
}

/// Lines that start with `#` or `[` hold no pair.
proof fn lemma_marked_line(m: char, rest: Seq<char>)
    requires
        m == '#' || m == '[',
    ensures
        line_entry(seq![m] + rest) is None,
{
    let s = seq![m] + rest;
    lemma_trim_start_keeps(s);
    lemma_trim_end_after(seq![m], rest);
    assert(trim(s)[0] == m);
}

/// An entry line reads back as its key and value.
proof fn lemma_entry_line(k: Seq<char>, v: Seq<char>)
    requires
        no_equals(k),
        is_trimmed(k),
        k.len() == 0 || (k[0] != '#' && k[0] != '['),
        is_trimmed(v),
    ensures
        line_entry(k + seq![' ', '=', ' '] + v) == Some((k, v)),
{
    let line = k + seq![' ', '=', ' '] + v;
    let k1 = if k.len() == 0 { Seq::<char>::empty() } else { k.push(' ') };
    let v1 = if v.len() == 0 { Seq::<char>::empty() } else { seq![' '] + v };
    let t = k1 + seq!['='] + v1;
    // The trimmed line is `k1 = v1`.
    let a = k1 + seq!['='] + seq![' '] + v;
    if k.len() == 0 {
        assert(line =~= seq![' '] + (seq!['='] + seq![' '] + v));
        lemma_trim_start_skip(seq![' '], seq!['='] + seq![' '] + v);
        lemma_trim_start_keeps(seq!['='] + seq![' '] + v);
        assert(seq!['='] + seq![' '] + v =~= a);
    } else {
        assert(line =~= a);
        assert(line[0] == k[0]);
        lemma_trim_start_keeps(line);
    }
    assert(trim_start(line) == a);
    if v.len() == 0 {
        assert(a =~= (k1 + seq!['=']) + seq![' ']);
        lemma_trim_end_skip(k1 + seq!['='], seq![' ']);
        lemma_trim_end_keeps(k1 + seq!['=']);
        assert(k1 + seq!['='] =~= t);
    } else {
        assert(a =~= t);
        assert(t.last() == v.last());
        lemma_trim_end_keeps(t);
    }
    assert(trim(line) == t);
    // The first `=` in it follows the key.
    let p = k1.len() as int;
    assert(t[p] == '=');
    assert forall|j: int| 0 <= j < p implies t[j] != '=' by {
        assert(t[j] == k1[j]);
        if j < k.len() {
            assert(k1[j] == k[j]);
        }
    }
    assert(is_first_index(t, '=', p));
    assert forall|q: int| is_first_index(t, '=', q) implies q == p by {
        if q < p {
            assert(t[q] != '=');
        } else if q > p {
            assert(t[p] != '=');
        }
    }
    assert(t.len() > 0);
    if k.len() > 0 {
        assert(t[0] == k[0]);
    } else {
        assert(t[0] == '=');
    }
    // Key and value come back trimmed.
    assert(t.take(p) =~= k1);
    assert(t.skip(p + 1) =~= v1);
    if k.len() > 0 {
        lemma_trim_start_keeps(k1);
        assert(k1 =~= k + seq![' ']);
        lemma_trim_end_skip(k, seq![' ']);
        lemma_trim_end_keeps(k);
        assert(trim(k1) == k);
    } else {
        assert(trim(k1) == k);
    }
    if v.len() > 0 {
        lemma_trim_start_skip(seq![' '], v);
        lemma_trimmed(v);
        assert(trim(v1) == v);
    } else {
        assert(trim(v1) == v);
    }
}

/// Each well-formed line reads back as the pair it holds, or as none.
proof fn lemma_line_reads_back(l: IniLine)
    requires
        line_ok(l),
    ensures
        line_entry(line_text(l)) == line_pair(l),
{
    match l {
        IniLine::Blank => {
            assert(trim(Seq::<char>::empty()) =~= Seq::<char>::empty());
        },
        IniLine::Comment(c) => {
            assert(seq!['#', ' '] + c@ =~= seq!['#'] + (seq![' '] + c@));
            lemma_marked_line('#', seq![' '] + c@);
        },
        IniLine::Section(n) => {
            assert(seq!['['] + n@ + seq![']'] =~= seq!['['] + (n@ + seq![']']));
            lemma_marked_line('[', n@ + seq![']']);
        },
        IniLine::Entry(k, v) => {
            lemma_entry_line(k@, v@);
        },
    }
}

/// The text of the lines splits back into the line texts, with one empty
/// piece after the last newline.
proof fn lemma_ini_text_splits(lines: Seq<IniLine>)
    requires
        forall|i: int| 0 <= i < lines.len() ==> line_ok(#[trigger] lines[i]),
    ensures
        split_lines(ini_text(lines)) == line_texts(lines).push(Seq::<char>::empty()),
    decreases lines.len(),
{
    if lines.len() == 0 {
        assert(split_lines(Seq::<char>::empty()) =~= seq![Seq::<char>::empty()]);
        assert(line_texts(lines).push(Seq::<char>::empty()) =~= seq![Seq::<char>::empty()]);
    } else {
        let init = lines.drop_last();
        assert forall|i: int| 0 <= i < init.len() implies line_ok(#[trigger] init[i]) by {
            assert(init[i] == lines[i]);
        }
        lemma_ini_text_splits(init);
        let pre = ini_text(init);
        let l = lines.last();
        assert(line_ok(lines[lines.len() - 1]));
        let t = line_text(l);
        assert(single_line(t)) by {
            match l {
                IniLine::Blank => {},
                IniLine::Comment(c) => {
                    assert forall|i: int| 0 <= i < t.len() implies t[i] != '\n' by {
                        if i >= 2 {
                            assert(t[i] == c@[i - 2]);
                        }
                    }
                },
                IniLine::Section(n) => {
                    assert forall|i: int| 0 <= i < t.len() implies t[i] != '\n' by {
                        if 1 <= i < 1 + n@.len() {
                            assert(t[i] == n@[i - 1]);
                        }
                    }
                },
                IniLine::Entry(k, v) => {
                    assert forall|i: int| 0 <= i < t.len() implies t[i] != '\n' by {
                        if i < k@.len() {
                            assert(t[i] == k@[i]);
                        } else if i >= k@.len() + 3 {
                            assert(t[i] == v@[i - k@.len() - 3]);
                        }
                    }
                },
            }
        }
        lemma_split_lines_append(pre, t);
        let whole = ini_text(lines);
        assert(whole == (pre + t).push('\n')) by {
            assert(whole =~= (pre + t).push('\n'));
        }
        assert(whole.drop_last() =~= pre + t);
        let sp = split_lines(pre);
        assert(sp.last() == Seq::<char>::empty());
        assert(sp.last() + t =~= t);
        assert(split_lines(pre + t) =~= line_texts(init).push(t));
        assert(line_texts(lines) == line_texts(init).push(t));
    }
}

/// The pairs read from the line texts are the pairs the lines hold.
proof fn lemma_line_texts_entries(lines: Seq<IniLine>)
    requires
        forall|i: int| 0 <= i < lines.len() ==> line_ok(#[trigger] lines[i]),
    ensures
        entries_of_lines(line_texts(lines)) == line_pairs(lines),
    decreases lines.len(),
{
    if lines.len() > 0 {
        let init = lines.drop_last();
        assert forall|i: int| 0 <= i < init.len() implies line_ok(#[trigger] init[i]) by {
            assert(init[i] == lines[i]);
        }
        lemma_line_texts_entries(init);
        assert(line_ok(lines[lines.len() - 1]));
        lemma_line_reads_back(lines.last());
        let lt = line_texts(lines);
        assert(lt.drop_last() =~= line_texts(init));
        assert(lt.last() == line_text(lines.last()));
    }
}

/// Reading back a written settings file gives the pairs of its entry lines,
/// in order, so each key maps to the value of its last entry line; comment,
/// section and blank lines give none. This holds for lines whose comment and
/// section text stays on one line, whose keys are trimmed, hold no `=` and
/// do not start with `#` or `[`, and whose values are trimmed and on one
/// line.
pub proof fn lemma_written_ini_reads_back(lines: Seq<IniLine>)
    requires
        forall|i: int| 0 <= i < lines.len() ==> line_ok(#[trigger] lines[i]),
    ensures
        ini_entries(ini_text(lines)) == line_pairs(lines),
        entries_map(ini_entries(ini_text(lines))) == entries_map(line_pairs(lines)),
{
    lemma_ini_text_splits(lines);
    let lt = line_texts(lines);
    let all = lt.push(Seq::<char>::empty());
    assert(all.drop_last() =~= lt);
    assert(trim(Seq::<char>::empty()) =~= Seq::<char>::empty());
    assert(line_entry(all.last()) is None);
    lemma_line_texts_entries(lines);
}

} // verus!
