//! The FFT CSV file: a metadata row (analysis and reconstruction settings),
//! a row of column labels, then one `time, frequency, magnitude, phase` row
//! per frequency bin of each frame. Numbers with a fractional part are kept
//! as their text here; reading their values is left to the caller.
use vstd::prelude::*;

use crate::ini::strip_prefixes;
use crate::ini_values::{bool_text, format_bool, format_usize};
use crate::labels::decimal_text;
use crate::memory::has_prefix;
use crate::names::{eq_ignore_ascii_case, matches_lower};
use crate::segmentation::LastEditedField;
use crate::text::{
    all_digits, char_is_digit, chars_of, count_char, decimal_value, is_digit,
    lemma_count_char_push, str_eq,
};
use crate::validation::{parse_unsigned_range, parses_unsigned, unsigned_digits};

verus! {

// ---------------------------------------------------------------------------
// Floating-point number syntax
// ---------------------------------------------------------------------------

/// `s` without one leading `+` or `-`.
pub open spec fn strip_sign(s: Seq<char>) -> Seq<char> {
    if s.len() > 0 && (s[0] == '+' || s[0] == '-') {
        s.drop_first()
    } else {
        s
    }
}

/// Digits with at most one decimal point, and at least one digit.
pub open spec fn valid_mantissa(m: Seq<char>) -> bool {
    &&& forall|i: int| 0 <= i < m.len() ==> m[i] == '.' || is_digit(#[trigger] m[i])
    &&& count_char(m, '.') <= 1
    &&& exists|i: int| 0 <= i < m.len() && is_digit(#[trigger] m[i])
}

/// An optional sign followed by at least one digit.
pub open spec fn valid_exponent(x: Seq<char>) -> bool {
    strip_sign(x).len() > 0 && all_digits(strip_sign(x))
}

/// The exponent marker, in either case.
pub open spec fn is_exp_char(c: char) -> bool {
    c == 'e' || c == 'E'
}

/// A decimal number: a mantissa, optionally followed by an exponent marker
/// and an exponent.
pub open spec fn valid_number(d: Seq<char>) -> bool {
    valid_mantissa(d) || exists|p: int|
        0 <= p < d.len() && is_exp_char(#[trigger] d[p]) && valid_mantissa(d.take(p))
            && valid_exponent(d.skip(p + 1))
}

/// Text that `f32::from_str` and `f64::from_str` accept: an optional sign,
/// then `inf`, `infinity` or `nan` in any letter case, or a decimal number
/// (digits with at most one point and at least one digit, optionally
/// followed by `e` or `E`, an optional sign and digits), as std documents
/// the grammar.
pub open spec fn is_float_text(s: Seq<char>) -> bool {
    let d = strip_sign(s);
    ||| eq_ignore_ascii_case(d, "inf"@)
    ||| eq_ignore_ascii_case(d, "infinity"@)
    ||| eq_ignore_ascii_case(d, "nan"@)
    ||| valid_number(d)
}

fn mantissa_ok(v: &Vec<char>, a: usize, b: usize) -> (r: bool)
    requires
        a <= b <= v.len(),
    ensures
        r == valid_mantissa(v@.subrange(a as int, b as int)),
{
    let ghost m = v@.subrange(a as int, b as int);
    let mut dots: usize = 0;
    let mut digit = false;
    let mut i = a;
    while i < b
        invariant
            a <= i <= b <= v.len(),
            m == v@.subrange(a as int, b as int),
            dots == count_char(m.take(i - a), '.'),
            dots <= 1,
            forall|j: int| 0 <= j < i - a ==> m[j] == '.' || is_digit(#[trigger] m[j]),
            digit == exists|j: int| 0 <= j < i - a && is_digit(#[trigger] m[j]),
        decreases b - i,
    {
        let c = v[i];
        assert(m[i - a] == c);
        proof {
            assert(m.take(i - a + 1) =~= m.take(i - a).push(c));
            lemma_count_char_push(m.take(i - a), c, '.');
        }
        if c == '.' {
            if dots == 1 {
                proof {
                    crate::text::lemma_count_char_le_len(m.take(i - a + 1), '.');
                    lemma_count_prefix(m, i - a + 1);
                }
                return false;
            }
            dots = dots + 1;
        } else if char_is_digit(c) {
            digit = true;
        } else {
            return false;
        }
        i = i + 1;
    }
    assert(m.take(b - a) =~= m);
    digit
}

/// Counts of a character in a prefix never exceed the count in the whole.
proof fn lemma_count_prefix(s: Seq<char>, k: int)
    requires
        0 <= k <= s.len(),
    ensures
        count_char(s.take(k), '.') <= count_char(s, '.'),
    decreases s.len() - k,
{
    if k < s.len() {
        lemma_count_prefix(s, k + 1);
        assert(s.take(k + 1) =~= s.take(k).push(s[k]));
        lemma_count_char_push(s.take(k), s[k], '.');
    } else {
        assert(s.take(k) =~= s);
    }
}

fn digits_ok(v: &Vec<char>, a: usize, b: usize) -> (r: bool)
    requires
        a <= b <= v.len(),
    ensures
        r == all_digits(v@.subrange(a as int, b as int)),
{
    let ghost m = v@.subrange(a as int, b as int);
    let mut i = a;
    while i < b
        invariant
            a <= i <= b <= v.len(),
            m == v@.subrange(a as int, b as int),
            forall|j: int| 0 <= j < i - a ==> is_digit(#[trigger] m[j]),
        decreases b - i,
    {
        assert(m[i - a] == v@[i as int]);
        if !char_is_digit(v[i]) {
            return false;
        }
        i = i + 1;
    }
    true
}

fn exponent_ok(v: &Vec<char>, a: usize, b: usize) -> (r: bool)
    requires
        a <= b <= v.len(),
    ensures
        r == valid_exponent(v@.subrange(a as int, b as int)),
{
    let ghost x = v@.subrange(a as int, b as int);
    let s = if a < b && (v[a] == '+' || v[a] == '-') { a + 1 } else { a };
    assert(strip_sign(x) =~= v@.subrange(s as int, b as int));
    s < b && digits_ok(v, s, b)
}

/// The characters `v[a..b]` as a vector of their own.
fn sub_chars(v: &Vec<char>, a: usize, b: usize) -> (r: Vec<char>)
    requires
        a <= b <= v.len(),
    ensures
        r@ == v@.subrange(a as int, b as int),
{
    let mut r: Vec<char> = Vec::new();
    let mut i = a;
    while i < b
        invariant
            a <= i <= b <= v.len(),
            r@ == v@.subrange(a as int, i as int),
        decreases b - i,
    {
        r.push(v[i]);
        assert(v@.subrange(a as int, i + 1) =~= v@.subrange(a as int, i as int).push(v@[i as int]));
        i = i + 1;
    }
    r
}

/// Whether `text` is a number that `f32::from_str` would read.
pub fn is_float_text_exec(text: &str) -> (r: bool)
    ensures
        r == is_float_text(text@),
{
    let v = chars_of(text);
    let n = v.len();
    let a = if n > 0 && (v[0] == '+' || v[0] == '-') { 1 } else { 0 };
    let ghost d = strip_sign(text@);
    assert(d =~= v@.subrange(a as int, n as int));
    let dv = sub_chars(&v, a, n);
    if matches_lower(&dv, "inf") || matches_lower(&dv, "infinity") || matches_lower(&dv, "nan") {
        return true;
    }
    let mut p = a;
    while p < n && v[p] != 'e' && v[p] != 'E'
        invariant
            a <= p <= n == v.len(),
            forall|j: int| a <= j < p ==> !is_exp_char(#[trigger] v@[j]),
        decreases n - p,
    {
        p = p + 1;
    }
    if p == n {
        let r = mantissa_ok(&v, a, n);
        proof {
            if !r {
                assert(!valid_number(d)) by {
                    if exists|q: int|
                        0 <= q < d.len() && is_exp_char(#[trigger] d[q]) && valid_mantissa(
                            d.take(q),
                        ) && valid_exponent(d.skip(q + 1)) {
                        let q = choose|q: int|
                            0 <= q < d.len() && is_exp_char(#[trigger] d[q]) && valid_mantissa(
                                d.take(q),
                            ) && valid_exponent(d.skip(q + 1));
                        assert(d[q] == v@[a + q]);
                    }
                }
            }
        }
        return r;
    }
    let ghost q = p - a;
    assert(is_exp_char(d[q]));
    assert(d.take(q) =~= v@.subrange(a as int, p as int));
    assert(d.skip(q + 1) =~= v@.subrange(p + 1, n as int));
    let r = mantissa_ok(&v, a, p) && exponent_ok(&v, p + 1, n);
    proof {
        // The whole text is no mantissa: it holds an exponent marker.
        assert(!valid_mantissa(d)) by {
            assert(d[q] != '.' && !is_digit(d[q]));
        }
        if !r {
            assert(!valid_number(d)) by {
                if exists|q2: int|
                    0 <= q2 < d.len() && is_exp_char(#[trigger] d[q2]) && valid_mantissa(
                        d.take(q2),
                    ) && valid_exponent(d.skip(q2 + 1)) {
                    let q2 = choose|q2: int|
                        0 <= q2 < d.len() && is_exp_char(#[trigger] d[q2]) && valid_mantissa(
                            d.take(q2),
                        ) && valid_exponent(d.skip(q2 + 1));
                    if q2 < q {
                        assert(d[q2] == v@[a + q2]);
                    } else if q2 > q {
                        assert(d.take(q2)[q] == d[q]);
                    }
                }
            }
        }
    }
    r
}

// ---------------------------------------------------------------------------
// The metadata row
// ---------------------------------------------------------------------------

/// A metadata field whose text must be a number (or a boolean).
#[derive(Debug, Clone, Copy, PartialEq, Eq, Structural)]
pub enum CsvField {
    SampleRate,
    WindowLength,
    HopLength,
    Overlap,
    UseCenter,
    StartSample,
    StopSample,
}

/// The analysis window named in the metadata; the Kaiser shape keeps its
/// beta as text.
#[derive(Debug, Clone, PartialEq)]
pub enum CsvWindow {
    Hann,
    Hamming,
    Blackman,
    Kaiser(String),
}

/// The window as a spec value.
pub enum CsvWindowView {
    Hann,
    Hamming,
    Blackman,
    Kaiser(Seq<char>),
}

impl View for CsvWindow {
    type V = CsvWindowView;

    open spec fn view(&self) -> CsvWindowView {
        match self {
            CsvWindow::Hann => CsvWindowView::Hann,
            CsvWindow::Hamming => CsvWindowView::Hamming,
            CsvWindow::Blackman => CsvWindowView::Blackman,
            CsvWindow::Kaiser(b) => CsvWindowView::Kaiser(b@),
        }
    }
}

/// Why an FFT CSV text cannot be read.
#[derive(Debug, Clone, PartialEq)]
pub enum CsvError {
    /// The CSV reader reported an error.
    Read,
    /// There is no row at all.
    Empty,
    /// The metadata row has fewer than 9 fields (how many it has).
    TooFewFields(usize),
    /// A required metadata field does not hold what it should.
    InvalidField(CsvField),
    /// The beta of a Kaiser window is not a number.
    InvalidKaiserBeta,
    /// The window type is none of the known names (the text found).
    UnknownWindowType(String),
    /// There is no row after the metadata row.
    NoDataRows,
}

/// The error as a spec value.
pub enum CsvErrorView {
    Read,
    Empty,
    TooFewFields(nat),
    InvalidField(CsvField),
    InvalidKaiserBeta,
    UnknownWindowType(Seq<char>),
    NoDataRows,
}

impl View for CsvError {
    type V = CsvErrorView;

    open spec fn view(&self) -> CsvErrorView {
        match self {
            CsvError::Read => CsvErrorView::Read,
            CsvError::Empty => CsvErrorView::Empty,
            CsvError::TooFewFields(n) => CsvErrorView::TooFewFields(*n as nat),
            CsvError::InvalidField(f) => CsvErrorView::InvalidField(*f),
            CsvError::InvalidKaiserBeta => CsvErrorView::InvalidKaiserBeta,
            CsvError::UnknownWindowType(t) => CsvErrorView::UnknownWindowType(t@),
            CsvError::NoDataRows => CsvErrorView::NoDataRows,
        }
    }
}

/// Reconstruction settings of the metadata: how many frequencies, and the
/// frequency range as text.
#[derive(Debug, Clone, PartialEq)]
pub struct CsvRecon {
    pub freq_count: usize,
    pub freq_min: String,
    pub freq_max: String,
}

/// The settings a metadata row holds. Fields with a fractional part
/// (overlap, reconstruction range, view range) are kept as text.
#[derive(Debug, Clone, PartialEq)]
pub struct CsvMetadata {
    pub sample_rate: u32,
    pub window_length: usize,
    pub hop_length: usize,
    pub overlap: String,
    pub window: CsvWindow,
    pub use_center: bool,
    pub start_sample: usize,
    pub stop_sample: usize,
    /// Present when the row has at least 12 fields.
    pub recon: Option<CsvRecon>,
    pub zero_pad_factor: usize,
    pub target_segments_per_active: Option<usize>,
    pub target_bins_per_segment: Option<usize>,
    pub last_edited: LastEditedField,
    /// Present when the row has at least 17 fields.
    pub view_freq_min: Option<String>,
    /// Present when the row has at least 18 fields.
    pub view_freq_max: Option<String>,
}

/// The metadata as a spec value.
pub struct CsvMetadataView {
    pub sample_rate: u32,
    pub window_length: usize,
    pub hop_length: usize,
    pub overlap: Seq<char>,
    pub window: CsvWindowView,
    pub use_center: bool,
    pub start_sample: usize,
    pub stop_sample: usize,
    pub recon: Option<(usize, Seq<char>, Seq<char>)>,
    pub zero_pad_factor: usize,
    pub target_segments_per_active: Option<usize>,
    pub target_bins_per_segment: Option<usize>,
    pub last_edited: LastEditedField,
    pub view_freq_min: Option<Seq<char>>,
    pub view_freq_max: Option<Seq<char>>,
}

/// An optional text as a spec value.
pub open spec fn opt_text(o: Option<String>) -> Option<Seq<char>> {
    match o {
        Some(t) => Some(t@),
        None => None,
    }
}

impl View for CsvMetadata {
    type V = CsvMetadataView;

    open spec fn view(&self) -> CsvMetadataView {
        CsvMetadataView {
            sample_rate: self.sample_rate,
            window_length: self.window_length,
            hop_length: self.hop_length,
            overlap: self.overlap@,
            window: self.window@,
            use_center: self.use_center,
            start_sample: self.start_sample,
            stop_sample: self.stop_sample,
            recon: match self.recon {
                Some(r) => Some((r.freq_count, r.freq_min@, r.freq_max@)),
                None => None,
            },
            zero_pad_factor: self.zero_pad_factor,
            target_segments_per_active: self.target_segments_per_active,
            target_bins_per_segment: self.target_bins_per_segment,
            last_edited: self.last_edited,
            view_freq_min: opt_text(self.view_freq_min),
            view_freq_max: opt_text(self.view_freq_max),
        }
    }
}

/// The unsigned number `s` spells in the syntax `from_str` of Rust's
/// unsigned integers accepts, if it is at most `max`.
pub open spec fn uval(s: Seq<char>, max: nat) -> Option<nat> {
    if parses_unsigned(s, max) {
        Some(decimal_value(unsigned_digits(s)))
    } else {
        None
    }
}

/// The boolean `bool::from_str` reads from `s`.
pub open spec fn bool_value(s: Seq<char>) -> Option<bool> {
    if s == "true"@ {
        Some(true)
    } else if s == "false"@ {
        Some(false)
    } else {
        None
    }
}

/// The prefix of a Kaiser window's name, before its beta.
pub open spec fn kaiser_prefix() -> Seq<char> {
    seq!['K', 'a', 'i', 's', 'e', 'r', '_']
}

/// The window a window-type field names: `Kaiser_` and a beta (every
/// leading repetition of `Kaiser_` removed) or one of the other names.
pub open spec fn window_of(s: Seq<char>) -> Result<CsvWindowView, CsvErrorView> {
    if has_prefix(s, kaiser_prefix()) {
        let b = strip_prefixes(s, kaiser_prefix());
        if is_float_text(b) {
            Ok(CsvWindowView::Kaiser(b))
        } else {
            Err(CsvErrorView::InvalidKaiserBeta)
        }
    } else if s == "Hann"@ {
        Ok(CsvWindowView::Hann)
    } else if s == "Hamming"@ {
        Ok(CsvWindowView::Hamming)
    } else if s == "Blackman"@ {
        Ok(CsvWindowView::Blackman)
    } else {
        Err(CsvErrorView::UnknownWindowType(s))
    }
}

/// The last-edited field a name gives (`Overlap` for any other text).
pub open spec fn last_edited_of(s: Seq<char>) -> LastEditedField {
    if s == "SegmentsPerActive"@ {
        LastEditedField::SegmentsPerActive
    } else if s == "BinsPerSegment"@ {
        LastEditedField::BinsPerSegment
    } else {
        LastEditedField::Overlap
    }
}

/// An optional count of field `i`: `None` when the row is shorter, or
/// when the field is not a positive `usize` (read as 0).
pub open spec fn target_of(f: Seq<Seq<char>>, i: int) -> Option<usize> {
    if f.len() > i {
        match uval(f[i], usize::MAX as nat) {
            Some(n) => if n > 0 {
                Some(n as usize)
            } else {
                None
            },
            None => None,
        }
    } else {
        None
    }
}

/// An unsigned field read with a default for text that is no number.
pub open spec fn uval_or(s: Seq<char>, default: nat) -> nat {
    match uval(s, usize::MAX as nat) {
        Some(n) => n,
        None => default,
    }
}

/// The settings a metadata row holds, or why it holds none. The first 9
/// fields are required and checked in order (sample rate, window length,
/// hop length, overlap, window type, centering, start and stop sample;
/// field 6, the channel count, is not read). Fields 9 to 17 are optional:
/// the reconstruction count (default 4097) and range, the zero-padding
/// factor (default 1), the target segment and bin counts (kept only when
/// above 0), the last-edited field, and the view's frequency range.
pub open spec fn parse_metadata(f: Seq<Seq<char>>) -> Result<CsvMetadataView, CsvErrorView> {
    if f.len() < 9 {
        Err(CsvErrorView::TooFewFields(f.len()))
    } else if uval(f[0], u32::MAX as nat) is None {
        Err(CsvErrorView::InvalidField(CsvField::SampleRate))
    } else if uval(f[1], usize::MAX as nat) is None {
        Err(CsvErrorView::InvalidField(CsvField::WindowLength))
    } else if uval(f[2], usize::MAX as nat) is None {
        Err(CsvErrorView::InvalidField(CsvField::HopLength))
    } else if !is_float_text(f[3]) {
        Err(CsvErrorView::InvalidField(CsvField::Overlap))
    } else if window_of(f[4]) is Err {
        Err(window_of(f[4])->Err_0)
    } else if bool_value(f[5]) is None {
        Err(CsvErrorView::InvalidField(CsvField::UseCenter))
    } else if uval(f[7], usize::MAX as nat) is None {
        Err(CsvErrorView::InvalidField(CsvField::StartSample))
    } else if uval(f[8], usize::MAX as nat) is None {
        Err(CsvErrorView::InvalidField(CsvField::StopSample))
    } else {
        Ok(
            CsvMetadataView {
                sample_rate: uval(f[0], u32::MAX as nat)->0 as u32,
                window_length: uval(f[1], usize::MAX as nat)->0 as usize,
                hop_length: uval(f[2], usize::MAX as nat)->0 as usize,
                overlap: f[3],
                window: window_of(f[4])->Ok_0,
                use_center: bool_value(f[5])->0,
                start_sample: uval(f[7], usize::MAX as nat)->0 as usize,
                stop_sample: uval(f[8], usize::MAX as nat)->0 as usize,
                recon: if f.len() >= 12 {
                    Some((uval_or(f[9], 4097) as usize, f[10], f[11]))
                } else {
                    None
                },
                zero_pad_factor: if f.len() >= 13 {
                    uval_or(f[12], 1) as usize
                } else {
                    1
                },
                target_segments_per_active: target_of(f, 13),
                target_bins_per_segment: target_of(f, 14),
                last_edited: if f.len() >= 16 {
                    last_edited_of(f[15])
                } else {
                    LastEditedField::Overlap
                },
                view_freq_min: if f.len() >= 17 {
                    Some(f[16])
                } else {
                    None
                },
                view_freq_max: if f.len() >= 18 {
                    Some(f[17])
                } else {
                    None
                },
            },
        )
    }
}

/// A metadata result as a spec value.
pub open spec fn metadata_result_view(r: Result<CsvMetadata, CsvError>) -> Result<
    CsvMetadataView,
    CsvErrorView,
> {
    match r {
        Ok(m) => Ok(m@),
        Err(e) => Err(e@),
    }
}

/// Views of a record's fields.
pub open spec fn field_views(r: Seq<String>) -> Seq<Seq<char>> {
    r.map_values(|f: String| f@)
}

fn field_uval(f: &String, max: u64) -> (r: Option<u64>)
    ensures
        match r {
            Some(n) => uval(f@, max as nat) == Some(n as nat),
            None => uval(f@, max as nat) is None,
        },
{
    let v = chars_of(f.as_str());
    assert(v@.subrange(0, v.len() as int) =~= f@);
    parse_unsigned_range(&v, 0, v.len(), max)
}

fn window_field(f: &String) -> (r: Result<CsvWindow, CsvError>)
    ensures
        match r {
            Ok(w) => window_of(f@) == Ok::<CsvWindowView, CsvErrorView>(w@),
            Err(e) => window_of(f@) == Err::<CsvWindowView, CsvErrorView>(e@),
        },
{
    let v = chars_of(f.as_str());
    let ghost kp = kaiser_prefix();
    let n = v.len();
    let mut i: usize = 0;
    assert(v@.subrange(0, n as int) =~= v@);
    while n - i >= 7 && v[i] == 'K' && v[i + 1] == 'a' && v[i + 2] == 'i' && v[i + 3] == 's'
        && v[i + 4] == 'e' && v[i + 5] == 'r' && v[i + 6] == '_'
        invariant
            i <= n == v.len(),
            v@ == f@,
            kp == kaiser_prefix(),
            strip_prefixes(v@, kp) == strip_prefixes(v@.subrange(i as int, n as int), kp),
            i > 0 ==> has_prefix(v@, kp),
        decreases n - i,
    {
        proof {
            let rest = v@.subrange(i as int, n as int);
            assert(rest.take(7) =~= kp);
            assert(rest.skip(7) =~= v@.subrange(i + 7, n as int));
            if i == 0 {
                assert(v@.take(7) =~= kp);
            }
        }
        i = i + 7;
    }
    proof {
        let rest = v@.subrange(i as int, n as int);
        if rest.len() >= 7 && rest.take(7) == kp {
            assert(rest.take(7)[0] == v@[i as int]);
            assert(rest.take(7)[1] == v@[i + 1]);
            assert(rest.take(7)[2] == v@[i + 2]);
            assert(rest.take(7)[3] == v@[i + 3]);
            assert(rest.take(7)[4] == v@[i + 4]);
            assert(rest.take(7)[5] == v@[i + 5]);
            assert(rest.take(7)[6] == v@[i + 6]);
        }
        assert(strip_prefixes(rest, kp) == rest);
        if i == 0 {
            assert(rest =~= v@);
        }
    }
    if i > 0 {
        let beta = crate::text::string_from_chars(&v, i, n);
        if is_float_text_exec(beta.as_str()) {
            return Ok(CsvWindow::Kaiser(beta));
        } else {
            return Err(CsvError::InvalidKaiserBeta);
        }
    }
    if str_eq(f.as_str(), "Hann") {
        Ok(CsvWindow::Hann)
    } else if str_eq(f.as_str(), "Hamming") {
        Ok(CsvWindow::Hamming)
    } else if str_eq(f.as_str(), "Blackman") {
        Ok(CsvWindow::Blackman)
    } else {
        Err(CsvError::UnknownWindowType(f.clone()))
    }
}

fn field_bool(f: &String) -> (r: Option<bool>)
    ensures
        match r {
            Some(b) => bool_value(f@) == Some(b),
            None => bool_value(f@) is None,
        },
{
    if str_eq(f.as_str(), "true") {
        Some(true)
    } else if str_eq(f.as_str(), "false") {
        Some(false)
    } else {
        None
    }
}

fn field_last_edited(f: &String) -> (r: LastEditedField)
    ensures
        r == last_edited_of(f@),
{
    if str_eq(f.as_str(), "SegmentsPerActive") {
        LastEditedField::SegmentsPerActive
    } else if str_eq(f.as_str(), "BinsPerSegment") {
        LastEditedField::BinsPerSegment
    } else {
        LastEditedField::Overlap
    }
}

fn field_uval_or(f: &String, default: usize) -> (r: usize)
    ensures
        r == uval_or(f@, default as nat),
{
    match field_uval(f, usize::MAX as u64) {
        Some(n) => n as usize,
        None => default,
    }
}

fn field_target(fields: &Vec<String>, i: usize) -> (r: Option<usize>)
    ensures
        r == target_of(field_views(fields@), i as int),
{
    let ghost f = field_views(fields@);
    if fields.len() > i {
        assert(f[i as int] == fields@[i as int]@);
        match field_uval(&fields[i], usize::MAX as u64) {
            Some(n) => if n > 0 {
                Some(n as usize)
            } else {
                None
            },
            None => None,
        }
    } else {
        None
    }
}

/// Reads the settings of a metadata row, given as its fields.
pub fn parse_metadata_fields(fields: &Vec<String>) -> (r: Result<CsvMetadata, CsvError>)
    ensures
        metadata_result_view(r) == parse_metadata(field_views(fields@)),
{
    let ghost f = field_views(fields@);
    let n = fields.len();
    if n < 9 {
        return Err(CsvError::TooFewFields(n));
    }
    assert(forall|i: int| 0 <= i < n ==> f[i] == (#[trigger] fields@[i])@);
    assert(f[0] == fields@[0]@ && f[1] == fields@[1]@ && f[2] == fields@[2]@ && f[3]
        == fields@[3]@ && f[4] == fields@[4]@ && f[5] == fields@[5]@ && f[7] == fields@[7]@
        && f[8] == fields@[8]@);
    let sample_rate = match field_uval(&fields[0], 0xffff_ffff) {
        Some(x) => x as u32,
        None => {
            return Err(CsvError::InvalidField(CsvField::SampleRate));
        },
    };
    let window_length = match field_uval(&fields[1], usize::MAX as u64) {
        Some(x) => x as usize,
        None => {
            return Err(CsvError::InvalidField(CsvField::WindowLength));
        },
    };
    let hop_length = match field_uval(&fields[2], usize::MAX as u64) {
        Some(x) => x as usize,
        None => {
            return Err(CsvError::InvalidField(CsvField::HopLength));
        },
    };
    if !is_float_text_exec(fields[3].as_str()) {
        return Err(CsvError::InvalidField(CsvField::Overlap));
    }
    let window = match window_field(&fields[4]) {
        Ok(w) => w,
        Err(e) => {
            return Err(e);
        },
    };
    let use_center = match field_bool(&fields[5]) {
        Some(b) => b,
        None => {
            return Err(CsvError::InvalidField(CsvField::UseCenter));
        },
    };
    let start_sample = match field_uval(&fields[7], usize::MAX as u64) {
        Some(x) => x as usize,
        None => {
            return Err(CsvError::InvalidField(CsvField::StartSample));
        },
    };
    let stop_sample = match field_uval(&fields[8], usize::MAX as u64) {
        Some(x) => x as usize,
        None => {
            return Err(CsvError::InvalidField(CsvField::StopSample));
        },
    };
    let recon = if n >= 12 {
        assert(f[9] == fields@[9]@ && f[10] == fields@[10]@ && f[11] == fields@[11]@);
        Some(
            CsvRecon {
                freq_count: field_uval_or(&fields[9], 4097),
                freq_min: fields[10].clone(),
                freq_max: fields[11].clone(),
            },
        )
    } else {
        None
    };
    let zero_pad_factor = if n >= 13 {
        assert(f[12] == fields@[12]@);
        field_uval_or(&fields[12], 1)
    } else {
        1
    };
    let target_segments_per_active = field_target(fields, 13);
    let target_bins_per_segment = field_target(fields, 14);
    let last_edited = if n >= 16 {
        assert(f[15] == fields@[15]@);
        field_last_edited(&fields[15])
    } else {
        LastEditedField::Overlap
    };
    let view_freq_min = if n >= 17 {
        assert(f[16] == fields@[16]@);
        Some(fields[16].clone())
    } else {
        None
    };
    let view_freq_max = if n >= 18 {
        assert(f[17] == fields@[17]@);
        Some(fields[17].clone())
    } else {
        None
    };
    Ok(
        CsvMetadata {
            sample_rate,
            window_length,
            hop_length,
            overlap: fields[3].clone(),
            window,
            use_center,
            start_sample,
            stop_sample,
            recon,
            zero_pad_factor,
            target_segments_per_active,
            target_bins_per_segment,
            last_edited,
            view_freq_min,
            view_freq_max,
        },
    )
}

// ---------------------------------------------------------------------------
// The data rows
// ---------------------------------------------------------------------------

/// Frequency, magnitude and phase of one row, as text.
pub type RowValues = (String, String, String);

/// One frame: its time text and the values of its rows, in file order.
pub type FrameGroup = (String, Vec<RowValues>);

/// The text `a` orders before `b` as Rust's `String` does (character by
/// character, a proper prefix first).
pub open spec fn seq_less(a: Seq<char>, b: Seq<char>) -> bool
    decreases a.len(),
{
    if a.len() == 0 {
        b.len() > 0
    } else if b.len() == 0 {
        false
    } else if a[0] != b[0] {
        (a[0] as int) < (b[0] as int)
    } else {
        seq_less(a.drop_first(), b.drop_first())
    }
}

/// The spec value of one row's values.
pub open spec fn values_view(t: RowValues) -> (Seq<char>, Seq<char>, Seq<char>) {
    (t.0@, t.1@, t.2@)
}

/// The spec values of a frame's rows.
pub open spec fn values_views(v: Seq<RowValues>) -> Seq<(Seq<char>, Seq<char>, Seq<char>)> {
    v.map_values(|t: RowValues| values_view(t))
}

/// The spec value of a frame.
pub open spec fn group_view(g: FrameGroup) -> (Seq<char>, Seq<(Seq<char>, Seq<char>, Seq<char>)>) {
    (g.0@, values_views(g.1@))
}

/// The spec values of the frames.
pub open spec fn groups_view(v: Seq<FrameGroup>) -> Seq<
    (Seq<char>, Seq<(Seq<char>, Seq<char>, Seq<char>)>),
> {
    v.map_values(|g: FrameGroup| group_view(g))
}

/// Adds a row's values under its time text to frames kept in time-text
/// order: appended to the frame of that time, or a new frame in its place.
pub open spec fn insert_row(
    g: Seq<(Seq<char>, Seq<(Seq<char>, Seq<char>, Seq<char>)>)>,
    key: Seq<char>,
    val: (Seq<char>, Seq<char>, Seq<char>),
) -> Seq<(Seq<char>, Seq<(Seq<char>, Seq<char>, Seq<char>)>)>
    decreases g.len(),
{
    if g.len() == 0 {
        seq![(key, seq![val])]
    } else if g[0].0 == key {
        g.update(0, (key, g[0].1.push(val)))
    } else if seq_less(key, g[0].0) {
        seq![(key, seq![val])] + g
    } else {
        seq![g[0]] + insert_row(g.drop_first(), key, val)
    }
}

/// The frames the data rows make: rows with at least 4 fields, grouped by
/// their first field (the time text), in time-text order, each frame's
/// values in file order; shorter rows are skipped.
pub open spec fn group_rows(rows: Seq<Seq<Seq<char>>>) -> Seq<
    (Seq<char>, Seq<(Seq<char>, Seq<char>, Seq<char>)>),
>
    decreases rows.len(),
{
    if rows.len() == 0 {
        Seq::empty()
    } else {
        let g = group_rows(rows.drop_last());
        let r = rows.last();
        if r.len() >= 4 {
            insert_row(g, r[0], (r[1], r[2], r[3]))
        } else {
            g
        }
    }
}

proof fn lemma_seq_less_irreflexive(a: Seq<char>)
    ensures
        !seq_less(a, a),
    decreases a.len(),
{
    if a.len() > 0 {
        lemma_seq_less_irreflexive(a.drop_first());
    }
}

proof fn lemma_seq_less_asymmetric_total(a: Seq<char>, b: Seq<char>)
    ensures
        seq_less(a, b) ==> !seq_less(b, a),
        a != b ==> seq_less(a, b) || seq_less(b, a),
    decreases a.len(),
{
    if a.len() > 0 && b.len() > 0 {
        lemma_seq_less_asymmetric_total(a.drop_first(), b.drop_first());
        if a[0] != b[0] {
            assert((a[0] as int) != (b[0] as int));
        }
        if a[0] == b[0] && a != b {
            assert(a.drop_first() != b.drop_first()) by {
                if a.drop_first() == b.drop_first() {
                    assert(a =~= seq![a[0]] + a.drop_first());
                    assert(b =~= seq![b[0]] + b.drop_first());
                }
            }
        }
    } else if a.len() == 0 && b.len() == 0 {
        assert(a =~= b);
    }
}

proof fn lemma_seq_less_transitive(a: Seq<char>, b: Seq<char>, c: Seq<char>)
    requires
        seq_less(a, b),
        seq_less(b, c),
    ensures
        seq_less(a, c),
    decreases a.len(),
{
    if a.len() > 0 && b.len() > 0 && c.len() > 0 && a[0] == b[0] && b[0] == c[0] {
        lemma_seq_less_transitive(a.drop_first(), b.drop_first(), c.drop_first());
    }
}

/// Inserting after the frames whose time text orders before the key.
proof fn lemma_insert_row_skip(
    g: Seq<(Seq<char>, Seq<(Seq<char>, Seq<char>, Seq<char>)>)>,
    key: Seq<char>,
    val: (Seq<char>, Seq<char>, Seq<char>),
    i: int,
)
    requires
        0 <= i <= g.len(),
        forall|j: int| 0 <= j < i ==> seq_less(#[trigger] g[j].0, key),
    ensures
        insert_row(g, key, val) == g.take(i) + insert_row(g.skip(i), key, val),
    decreases i,
{
    if i == 0 {
        assert(g.skip(0) =~= g);
        assert(g.take(0) + insert_row(g, key, val) =~= insert_row(g, key, val));
    } else {
        let t = g.drop_first();
        assert(seq_less(g[0].0, key));
        lemma_seq_less_irreflexive(key);
        lemma_seq_less_asymmetric_total(g[0].0, key);
        assert forall|j: int| 0 <= j < i - 1 implies seq_less(#[trigger] t[j].0, key) by {
            assert(t[j] == g[j + 1]);
        }
        lemma_insert_row_skip(t, key, val, i - 1);
        assert(t.skip(i - 1) =~= g.skip(i));
        assert(seq![g[0]] + t.take(i - 1) =~= g.take(i));
        assert(seq![g[0]] + (t.take(i - 1) + insert_row(g.skip(i), key, val)) =~= g.take(i)
            + insert_row(g.skip(i), key, val));
    }
}

/// Whether `a` orders before `b`.
fn text_less(a: &String, b: &String) -> (r: bool)
    ensures
        r == seq_less(a@, b@),
{
    let va = chars_of(a.as_str());
    let vb = chars_of(b.as_str());
    let mut k: usize = 0;
    assert(va@.skip(0) =~= va@);
    assert(vb@.skip(0) =~= vb@);
    while k < va.len() && k < vb.len() && va[k] == vb[k]
        invariant
            k <= va.len(),
            k <= vb.len(),
            seq_less(va@, vb@) == seq_less(va@.skip(k as int), vb@.skip(k as int)),
        decreases va.len() - k,
    {
        proof {
            let x = va@.skip(k as int);
            let y = vb@.skip(k as int);
            assert(x.drop_first() =~= va@.skip(k + 1));
            assert(y.drop_first() =~= vb@.skip(k + 1));
        }
        k = k + 1;
    }
    proof {
        let x = va@.skip(k as int);
        let y = vb@.skip(k as int);
        if x.len() > 0 && y.len() > 0 {
            assert(x[0] == va@[k as int]);
            assert(y[0] == vb@[k as int]);
        }
    }
    if k == va.len() {
        k < vb.len()
    } else if k == vb.len() {
        false
    } else {
        va[k] < vb[k]
    }
}

/// Adds a row's values to the frames.
fn add_row(groups: &mut Vec<FrameGroup>, key: String, val: RowValues)
    ensures
        groups_view(final(groups)@) == insert_row(groups_view(old(groups)@), key@, values_view(val)),
{
    let ghost g = groups_view(groups@);
    let n = groups.len();
    let mut i: usize = 0;
    while i < n && text_less(&groups[i].0, &key)
        invariant
            i <= n == groups.len(),
            g == groups_view(groups@),
            forall|j: int| 0 <= j < i ==> seq_less(#[trigger] g[j].0, key@),
        decreases n - i,
    {
        assert(g[i as int].0 == groups@[i as int].0@);
        i = i + 1;
    }
    proof {
        lemma_insert_row_skip(g, key@, values_view(val), i as int);
    }
    let ghost rest = g.skip(i as int);
    if i < n && str_eq(groups[i].0.as_str(), key.as_str()) {
        assert(rest[0] == g[i as int]);
        assert(g[i as int].0 == key@);
        let (k, mut vals) = groups.remove(i);
        vals.push(val);
        groups.insert(i, (k, vals));
        proof {
            assert(values_views(vals@) =~= g[i as int].1.push(values_view(val)));
            assert(groups_view(groups@) =~= g.take(i as int) + insert_row(rest, key@, values_view(val)));
        }
    } else {
        proof {
            if i < n {
                assert(rest[0] == g[i as int]);
                assert(g[i as int].0 == groups@[i as int].0@);
                lemma_seq_less_asymmetric_total(key@, g[i as int].0);
            }
        }
        let mut vals: Vec<RowValues> = Vec::new();
        vals.push(val);
        groups.insert(i, (key, vals));
        proof {
            assert(values_views(vals@) =~= seq![values_view(val)]);
            if i < n {
                assert(insert_row(rest, key@, values_view(val)) == seq![(key@, seq![values_view(val)])]
                    + rest);
            } else {
                assert(rest =~= Seq::<(Seq<char>, Seq<(Seq<char>, Seq<char>, Seq<char>)>)>::empty());
            }
            assert(groups_view(groups@) =~= g.take(i as int) + insert_row(rest, key@, values_view(val)));
        }
    }
}

/// Views of records of fields.
pub open spec fn record_views(v: Seq<Vec<String>>) -> Seq<Seq<Seq<char>>> {
    v.map_values(|r: Vec<String>| field_views(r@))
}

/// Groups the data rows `records[from..]` into frames.
fn group_data_rows(records: &Vec<Vec<String>>, from: usize) -> (g: Vec<FrameGroup>)
    requires
        from <= records.len(),
    ensures
        groups_view(g@) == group_rows(record_views(records@).skip(from as int)),
{
    let ghost rv = record_views(records@);
    let mut groups: Vec<FrameGroup> = Vec::new();
    let mut i = from;
    assert(rv.skip(from as int).take(0) =~= Seq::<Seq<Seq<char>>>::empty());
    assert(groups_view(groups@) =~= Seq::<(Seq<char>, Seq<(Seq<char>, Seq<char>, Seq<char>)>)>::empty());
    while i < records.len()
        invariant
            from <= i <= records.len(),
            rv == record_views(records@),
            groups_view(groups@) == group_rows(rv.skip(from as int).take(i - from)),
        decreases records.len() - i,
    {
        let r = &records[i];
        let ghost rows = rv.skip(from as int).take(i - from + 1);
        proof {
            assert(rows.drop_last() =~= rv.skip(from as int).take(i - from));
            assert(rows.last() == rv[i as int]);
            assert(rv[i as int] == field_views(r@));
        }
        if r.len() >= 4 {
            proof {
                assert(rv[i as int][0] == r@[0]@);
                assert(rv[i as int][1] == r@[1]@);
                assert(rv[i as int][2] == r@[2]@);
                assert(rv[i as int][3] == r@[3]@);
            }
            let val = (r[1].clone(), r[2].clone(), r[3].clone());
            add_row(&mut groups, r[0].clone(), val);
        }
        i = i + 1;
    }
    assert(rv.skip(from as int).take(records.len() - from) =~= rv.skip(from as int));
    groups
}

// ---------------------------------------------------------------------------
// Reading a whole FFT CSV text
// ---------------------------------------------------------------------------

/// `csv::Error`, made known to the verifier as an opaque type.
#[verifier::external_type_specification]
#[verifier::external_body]
pub struct ExCsvError(csv::Error);

/// The records the `csv` crate reads from a text (no header row, records of
/// any length), each as its fields; `None` when the reader reports an
/// error.
pub uninterp spec fn csv_records_of(text: Seq<char>) -> Option<Seq<Seq<Seq<char>>>>;

/// The records of `text`, each as its fields.
///
/// Trusted: reads `text` with `csv::ReaderBuilder` (`has_headers(false)`,
/// `flexible(true)`) and collects each `StringRecord`'s fields; the
/// contract claims that the result is `csv_records_of` of the text, a
/// function of the text alone, and that an error of the reader is
/// returned as an error. What the records are (quoting, line endings) is
/// left to the `csv` crate and not stated.
#[verifier::external_body]
fn csv_records(text: &str) -> (r: Result<Vec<Vec<String>>, csv::Error>)
    ensures
        match r {
            Ok(v) => csv_records_of(text@) == Some(record_views(v@)),
            Err(_) => csv_records_of(text@) is None,
        },
{
    let mut reader = csv::ReaderBuilder::new().has_headers(false).flexible(true).from_reader(
        text.as_bytes(),
    );
    let mut out: Vec<Vec<String>> = Vec::new();
    for record in reader.records() {
        let record = record?;
        out.push(record.iter().map(|f| f.to_string()).collect());
    }
    Ok(out)
}

/// What a whole FFT CSV holds: the settings of the first record (the
/// metadata row) and the frames of the data rows, which start after the
/// second record (the column labels, which are not read); or why it holds
/// none: an error of the reader, no record at all, a bad metadata row, or
/// no second record.
pub open spec fn fft_csv_from_records(recs: Option<Seq<Seq<Seq<char>>>>) -> Result<
    (CsvMetadataView, Seq<(Seq<char>, Seq<(Seq<char>, Seq<char>, Seq<char>)>)>),
    CsvErrorView,
> {
    match recs {
        None => Err(CsvErrorView::Read),
        Some(r) => if r.len() == 0 {
            Err(CsvErrorView::Empty)
        } else {
            match parse_metadata(r[0]) {
                Err(e) => Err(e),
                Ok(m) => if r.len() < 2 {
                    Err(CsvErrorView::NoDataRows)
                } else {
                    Ok((m, group_rows(r.skip(2))))
                },
            }
        },
    }
}

/// A read result as a spec value.
pub open spec fn read_result_view(r: Result<(CsvMetadata, Vec<FrameGroup>), CsvError>) -> Result<
    (CsvMetadataView, Seq<(Seq<char>, Seq<(Seq<char>, Seq<char>, Seq<char>)>)>),
    CsvErrorView,
> {
    match r {
        Ok((m, g)) => Ok((m@, groups_view(g@))),
        Err(e) => Err(e@),
    }
}

/// Reads an FFT CSV given as its records.
pub fn read_fft_csv_records(records: &Vec<Vec<String>>) -> (r: Result<
    (CsvMetadata, Vec<FrameGroup>),
    CsvError,
>)
    ensures
        read_result_view(r) == fft_csv_from_records(Some(record_views(records@))),
{
    let ghost rv = record_views(records@);
    if records.len() == 0 {
        return Err(CsvError::Empty);
    }
    assert(rv[0] == field_views(records@[0]@));
    let meta = match parse_metadata_fields(&records[0]) {
        Ok(m) => m,
        Err(e) => {
            return Err(e);
        },
    };
    if records.len() < 2 {
        return Err(CsvError::NoDataRows);
    }
    let groups = group_data_rows(records, 2);
    Ok((meta, groups))
}

/// Reads an FFT CSV text: its metadata and its frames, each frame's rows
/// as text, frames in time-text order.
pub fn read_fft_csv(text: &str) -> (r: Result<(CsvMetadata, Vec<FrameGroup>), CsvError>)
    ensures
        read_result_view(r) == fft_csv_from_records(csv_records_of(text@)),
{
    match csv_records(text) {
        Ok(records) => read_fft_csv_records(&records),
        Err(_) => Err(CsvError::Read),
    }
}

// ---------------------------------------------------------------------------
// Writing the metadata row
// ---------------------------------------------------------------------------

/// The name a window is written with.
pub open spec fn window_text(w: CsvWindowView) -> Seq<char> {
    match w {
        CsvWindowView::Hann => "Hann"@,
        CsvWindowView::Hamming => "Hamming"@,
        CsvWindowView::Blackman => "Blackman"@,
        CsvWindowView::Kaiser(b) => kaiser_prefix() + b,
    }
}

/// The name a last-edited field is written with.
pub open spec fn last_edited_text(l: LastEditedField) -> Seq<char> {
    match l {
        LastEditedField::Overlap => "Overlap"@,
        LastEditedField::SegmentsPerActive => "SegmentsPerActive"@,
        LastEditedField::BinsPerSegment => "BinsPerSegment"@,
    }
}

/// A count, written as 0 when absent.
pub open spec fn count_or_zero(o: Option<usize>) -> nat {
    match o {
        Some(n) => n as nat,
        None => 0,
    }
}

/// The 18 fields of a written metadata row: sample rate, window length,
/// hop length, overlap, window, centering, channel count (1), start and
/// stop sample, reconstruction count and range, zero-padding factor, target
/// segment and bin counts (0 when absent), last-edited field, and the
/// view's frequency range.
pub open spec fn metadata_fields(m: CsvMetadataView) -> Seq<Seq<char>> {
    let r = m.recon->0;
    seq![
        decimal_text(m.sample_rate as nat),
        decimal_text(m.window_length as nat),
        decimal_text(m.hop_length as nat),
        m.overlap,
        window_text(m.window),
        bool_text(m.use_center),
        seq!['1'],
        decimal_text(m.start_sample as nat),
        decimal_text(m.stop_sample as nat),
        decimal_text(r.0 as nat),
        r.1,
        r.2,
        decimal_text(m.zero_pad_factor as nat),
        decimal_text(count_or_zero(m.target_segments_per_active)),
        decimal_text(count_or_zero(m.target_bins_per_segment)),
        last_edited_text(m.last_edited),
        m.view_freq_min->0,
        m.view_freq_max->0,
    ]
}

/// Text the CSV writer leaves unquoted: no comma, quote or line break.
pub open spec fn csv_plain(f: Seq<char>) -> bool {
    forall|i: int| 0 <= i < f.len() ==> f[i] != ',' && f[i] != '"' && f[i] != '\r' && f[i] != '\n'
}

/// Metadata that can be written: the reconstruction settings and the view
/// range are present, and the texts the caller gives (overlap, Kaiser
/// beta, ranges) need no quoting.
pub open spec fn metadata_writable(m: CsvMetadataView) -> bool {
    &&& m.recon is Some
    &&& m.view_freq_min is Some
    &&& m.view_freq_max is Some
    &&& csv_plain(m.overlap)
    &&& (m.window matches CsvWindowView::Kaiser(b) ==> csv_plain(b))
    &&& csv_plain((m.recon->0).1)
    &&& csv_plain((m.recon->0).2)
    &&& csv_plain(m.view_freq_min->0)
    &&& csv_plain(m.view_freq_max->0)
}

/// The text of a written metadata row: the fields separated by commas,
/// ended by a newline.
pub open spec fn fft_csv_metadata_text(m: CsvMetadataView) -> Seq<char> {
    crate::text::join_with(metadata_fields(m), seq![',']) + seq!['\n']
}

/// One CSV record of at least two fields that need no quoting.
///
/// Trusted: writes `fields` with `csv::WriterBuilder` (defaults: comma
/// delimiter, quoting only where necessary, `\n` terminator) into memory
/// and returns the text. The contract claims what the `csv` writer's
/// source shows for such fields: they are written as they are, separated
/// by commas, followed by `\n`; writing into a `Vec<u8>` cannot fail.
#[verifier::external_body]
fn csv_line(fields: &Vec<String>) -> (s: String)
    requires
        fields.len() >= 2,
        forall|i: int| 0 <= i < fields.len() ==> csv_plain(#[trigger] fields@[i]@),
    ensures
        s@ == crate::text::join_with(field_views(fields@), seq![',']) + seq!['\n'],
{
    let mut writer = csv::WriterBuilder::new().from_writer(Vec::new());
    let _ = writer.write_record(fields);
    let bytes = writer.into_inner().unwrap_or_default();
    String::from_utf8(bytes).unwrap_or_default()
}

proof fn lemma_decimal_plain(n: nat)
    ensures
        csv_plain(decimal_text(n)),
{
    crate::ini_values::lemma_decimal_text(n);
    let t = decimal_text(n);
    assert forall|i: int| 0 <= i < t.len() implies t[i] != ',' && t[i] != '"' && t[i] != '\r'
        && t[i] != '\n' by {
        assert(is_digit(t[i]));
    }
}

fn window_name(w: &CsvWindow) -> (s: String)
    ensures
        s@ == window_text(w@),
{
    match w {
        CsvWindow::Hann => "Hann".to_owned(),
        CsvWindow::Hamming => "Hamming".to_owned(),
        CsvWindow::Blackman => "Blackman".to_owned(),
        CsvWindow::Kaiser(b) => {
            let mut s = "Kaiser_".to_owned();
            proof {
                reveal_strlit("Kaiser_");
                assert(s@ =~= kaiser_prefix());
            }
            let bv = chars_of(b.as_str());
            crate::text::push_chars(&mut s, &bv, 0, bv.len());
            assert(bv@.subrange(0, bv.len() as int) =~= b@);
            s
        },
    }
}

fn last_edited_name(l: LastEditedField) -> (s: String)
    ensures
        s@ == last_edited_text(l),
{
    match l {
        LastEditedField::Overlap => "Overlap".to_owned(),
        LastEditedField::SegmentsPerActive => "SegmentsPerActive".to_owned(),
        LastEditedField::BinsPerSegment => "BinsPerSegment".to_owned(),
    }
}

fn count_text(o: Option<usize>) -> (s: String)
    ensures
        s@ == decimal_text(count_or_zero(o)),
{
    match o {
        Some(n) => format_usize(n),
        None => format_usize(0),
    }
}

/// The metadata row an FFT CSV export starts with.
pub fn write_fft_csv_metadata(meta: &CsvMetadata) -> (s: String)
    requires
        metadata_writable(meta@),
    ensures
        s@ == fft_csv_metadata_text(meta@),
{
    let ghost m = meta@;
    let recon = match &meta.recon {
        Some(r) => r,
        None => {
            proof {
                assert(false);
            }
            return String::new();
        },
    };
    let (vmin, vmax) = match (&meta.view_freq_min, &meta.view_freq_max) {
        (Some(a), Some(b)) => (a, b),
        _ => {
            proof {
                assert(false);
            }
            return String::new();
        },
    };
    let mut fields: Vec<String> = Vec::new();
    fields.push(format_usize(meta.sample_rate as usize));
    fields.push(format_usize(meta.window_length));
    fields.push(format_usize(meta.hop_length));
    fields.push(meta.overlap.clone());
    fields.push(window_name(&meta.window));
    fields.push(format_bool(meta.use_center));
    fields.push("1".to_owned());
    fields.push(format_usize(meta.start_sample));
    fields.push(format_usize(meta.stop_sample));
    fields.push(format_usize(recon.freq_count));
    fields.push(recon.freq_min.clone());
    fields.push(recon.freq_max.clone());
    fields.push(format_usize(meta.zero_pad_factor));
    fields.push(count_text(meta.target_segments_per_active));
    fields.push(count_text(meta.target_bins_per_segment));
    fields.push(last_edited_name(meta.last_edited));
    fields.push(vmin.clone());
    fields.push(vmax.clone());
    proof {
        reveal_strlit("1");
        assert(fields@[0]@ == metadata_fields(m)[0]);
        assert(fields@[1]@ == metadata_fields(m)[1]);
        assert(fields@[2]@ == metadata_fields(m)[2]);
        assert(fields@[3]@ == metadata_fields(m)[3]);
        assert(fields@[4]@ == metadata_fields(m)[4]);
        assert(fields@[5]@ == metadata_fields(m)[5]);
        assert(fields@[6]@ == metadata_fields(m)[6]);
        assert(fields@[7]@ == metadata_fields(m)[7]);
        assert(fields@[8]@ == metadata_fields(m)[8]);
        assert(fields@[9]@ == metadata_fields(m)[9]);
        assert(fields@[10]@ == metadata_fields(m)[10]);
        assert(fields@[11]@ == metadata_fields(m)[11]);
        assert(fields@[12]@ == metadata_fields(m)[12]);
        assert(fields@[13]@ == metadata_fields(m)[13]);
        assert(fields@[14]@ == metadata_fields(m)[14]);
        assert(fields@[15]@ == metadata_fields(m)[15]);
        assert(fields@[16]@ == metadata_fields(m)[16]);
        assert(fields@[17]@ == metadata_fields(m)[17]);
        assert(field_views(fields@) =~= metadata_fields(m));
        let f = metadata_fields(m);
        lemma_decimal_plain(m.sample_rate as nat);
        lemma_decimal_plain(m.window_length as nat);
        lemma_decimal_plain(m.hop_length as nat);
        lemma_decimal_plain(m.start_sample as nat);
        lemma_decimal_plain(m.stop_sample as nat);
        lemma_decimal_plain((m.recon->0).0 as nat);
        lemma_decimal_plain(m.zero_pad_factor as nat);
        lemma_decimal_plain(count_or_zero(m.target_segments_per_active));
        lemma_decimal_plain(count_or_zero(m.target_bins_per_segment));
        reveal_strlit("Hann");
        reveal_strlit("Hamming");
        reveal_strlit("Blackman");
        reveal_strlit("true");
        reveal_strlit("false");
        reveal_strlit("Overlap");
        reveal_strlit("SegmentsPerActive");
        reveal_strlit("BinsPerSegment");
        assert(csv_plain(window_text(m.window))) by {
            let t = window_text(m.window);
            if let CsvWindowView::Kaiser(b) = m.window {
                assert forall|i: int| 0 <= i < t.len() implies t[i] != ',' && t[i] != '"' && t[i]
                    != '\r' && t[i] != '\n' by {
                    if i >= 7 {
                        assert(t[i] == b[i - 7]);
                    }
                }
            }
        }
        assert(csv_plain(bool_text(m.use_center)));
        assert(csv_plain(last_edited_text(m.last_edited)));
        assert forall|i: int| 0 <= i < fields.len() implies csv_plain(#[trigger] fields@[i]@) by {
            assert(fields@[i]@ == f[i]);
        }
    }
    csv_line(&fields)
}

// ---------------------------------------------------------------------------
// What a written metadata row reads back as
// ---------------------------------------------------------------------------

proof fn lemma_uval_decimal(n: nat, max: nat)
    requires
        n <= max,
    ensures
        uval(decimal_text(n), max) == Some(n),
{
    crate::ini_values::lemma_decimal_text(n);
    let t = decimal_text(n);
    assert(is_digit(t[0]));
    assert(unsigned_digits(t) == t);
}

/// A number's text never starts with the Kaiser prefix.
proof fn lemma_float_not_kaiser(b: Seq<char>)
    requires
        is_float_text(b),
    ensures
        !(b.len() >= 7 && b.take(7) == kaiser_prefix()),
{
    if b.len() >= 7 && b.take(7) == kaiser_prefix() {
        assert(b[0] == b.take(7)[0]);
        assert(b[0] == 'K');
        let d = strip_sign(b);
        assert(d == b);
        reveal_strlit("inf");
        reveal_strlit("infinity");
        reveal_strlit("nan");
        assert(!eq_ignore_ascii_case(d, "inf"@)) by {
            assert(crate::names::ascii_lower(d[0]) != "inf"@[0]);
        }
        assert(!eq_ignore_ascii_case(d, "infinity"@)) by {
            assert(crate::names::ascii_lower(d[0]) != "infinity"@[0]);
        }
        assert(!eq_ignore_ascii_case(d, "nan"@)) by {
            assert(crate::names::ascii_lower(d[0]) != "nan"@[0]);
        }
        assert(!valid_mantissa(d)) by {
            assert(d[0] != '.' && !is_digit(d[0]));
        }
        assert(!valid_number(d)) by {
            if exists|p: int|
                0 <= p < d.len() && is_exp_char(#[trigger] d[p]) && valid_mantissa(d.take(p))
                    && valid_exponent(d.skip(p + 1)) {
                let p = choose|p: int|
                    0 <= p < d.len() && is_exp_char(#[trigger] d[p]) && valid_mantissa(d.take(p))
                        && valid_exponent(d.skip(p + 1));
                if p == 0 {
                    assert(d[0] == 'K');
                } else {
                    assert(d.take(p)[0] == d[0]);
                }
            }
        }
    }
}

/// Metadata as the export writes it: its texts are numbers where they
/// should be, and the target counts it holds are positive.
pub open spec fn metadata_well_formed(m: CsvMetadataView) -> bool {
    &&& metadata_writable(m)
    &&& is_float_text(m.overlap)
    &&& (m.window matches CsvWindowView::Kaiser(b) ==> is_float_text(b))
    &&& (m.target_segments_per_active matches Some(n) ==> n > 0)
    &&& (m.target_bins_per_segment matches Some(n) ==> n > 0)
}

/// The fields of a written metadata row read back as the same metadata:
/// every setting, the optional ones included, survives a write and a read.
pub proof fn lemma_metadata_round_trip(m: CsvMetadataView)
    requires
        metadata_well_formed(m),
    ensures
        parse_metadata(metadata_fields(m)) == Ok::<CsvMetadataView, CsvErrorView>(m),
{
    let f = metadata_fields(m);
    let r = m.recon->0;
    reveal_strlit("Hann");
    reveal_strlit("Hamming");
    reveal_strlit("Blackman");
    reveal_strlit("true");
    reveal_strlit("false");
    reveal_strlit("Overlap");
    reveal_strlit("SegmentsPerActive");
    reveal_strlit("BinsPerSegment");
    lemma_uval_decimal(m.sample_rate as nat, u32::MAX as nat);
    lemma_uval_decimal(m.window_length as nat, usize::MAX as nat);
    lemma_uval_decimal(m.hop_length as nat, usize::MAX as nat);
    lemma_uval_decimal(m.start_sample as nat, usize::MAX as nat);
    lemma_uval_decimal(m.stop_sample as nat, usize::MAX as nat);
    lemma_uval_decimal(r.0 as nat, usize::MAX as nat);
    lemma_uval_decimal(m.zero_pad_factor as nat, usize::MAX as nat);
    lemma_uval_decimal(count_or_zero(m.target_segments_per_active), usize::MAX as nat);
    lemma_uval_decimal(count_or_zero(m.target_bins_per_segment), usize::MAX as nat);
    // The window reads back.
    let kp = kaiser_prefix();
    assert(window_of(window_text(m.window)) == Ok::<CsvWindowView, CsvErrorView>(m.window)) by {
        let t = window_text(m.window);
        match m.window {
            CsvWindowView::Kaiser(b) => {
                assert(t.take(7) =~= kp);
                assert(t.skip(7) =~= b);
                lemma_float_not_kaiser(b);
                assert(strip_prefixes(t, kp) == strip_prefixes(b, kp));
                assert(strip_prefixes(b, kp) == b);
            },
            _ => {
                assert(t[0] != 'K');
                assert(!has_prefix(t, kp)) by {
                    if has_prefix(t, kp) {
                        assert(t.take(7)[0] == t[0]);
                    }
                }
            },
        }
    }
    assert("true"@.len() == 4 && "false"@.len() == 5);
    assert("Overlap"@.len() == 7 && "SegmentsPerActive"@.len() == 17 && "BinsPerSegment"@.len()
        == 14);
    assert(bool_value(bool_text(m.use_center)) == Some(m.use_center));
    assert(last_edited_of(last_edited_text(m.last_edited)) == m.last_edited);
    assert(f.len() == 18);
    assert(f[4] == window_text(m.window));
    let p = parse_metadata(f);
    assert(p is Ok);
    let q = p->Ok_0;
    assert(q.recon == m.recon);
    assert(q.target_segments_per_active == m.target_segments_per_active);
    assert(q.target_bins_per_segment == m.target_bins_per_segment);
    assert(q.view_freq_min == m.view_freq_min);
    assert(q.view_freq_max == m.view_freq_max);
    assert(q.window == m.window);
    assert(q == m);
}

/// Frames whose time texts are strictly increasing.
pub open spec fn keys_in_order(g: Seq<(Seq<char>, Seq<(Seq<char>, Seq<char>, Seq<char>)>)>) -> bool {
    forall|i: int, j: int| 0 <= i < j < g.len() ==> seq_less(#[trigger] g[i].0, #[trigger] g[j].0)
}

proof fn lemma_insert_row_in_order(
    g: Seq<(Seq<char>, Seq<(Seq<char>, Seq<char>, Seq<char>)>)>,
    key: Seq<char>,
    val: (Seq<char>, Seq<char>, Seq<char>),
)
    requires
        keys_in_order(g),
    ensures
        keys_in_order(insert_row(g, key, val)),
        forall|i: int|
            0 <= i < insert_row(g, key, val).len() ==> #[trigger] insert_row(g, key, val)[i].0 == key
                || exists|j: int| 0 <= j < g.len() && g[j].0 == insert_row(g, key, val)[i].0,
    decreases g.len(),
{
    let res = insert_row(g, key, val);
    if g.len() == 0 {
    } else if g[0].0 == key {
        assert forall|i: int| 0 <= i < res.len() implies #[trigger] res[i].0 == key || exists|j: int|
            0 <= j < g.len() && g[j].0 == res[i].0 by {
            if i > 0 {
                assert(res[i] == g[i]);
            }
        }
        assert forall|i: int, j: int| 0 <= i < j < res.len() implies seq_less(
            #[trigger] res[i].0,
            #[trigger] res[j].0,
        ) by {
            assert(res[i].0 == g[i].0);
            assert(res[j].0 == g[j].0);
        }
    } else if seq_less(key, g[0].0) {
        assert forall|i: int, j: int| 0 <= i < j < res.len() implies seq_less(
            #[trigger] res[i].0,
            #[trigger] res[j].0,
        ) by {
            assert(res[j] == g[j - 1]);
            if i == 0 {
                if j > 1 {
                    assert(seq_less(g[0].0, g[j - 1].0));
                    lemma_seq_less_transitive(key, g[0].0, g[j - 1].0);
                }
            } else {
                assert(res[i] == g[i - 1]);
            }
        }
        assert forall|i: int| 0 <= i < res.len() implies #[trigger] res[i].0 == key || exists|j: int|
            0 <= j < g.len() && g[j].0 == res[i].0 by {
            if i > 0 {
                assert(res[i] == g[i - 1]);
            }
        }
    } else {
        let t = g.drop_first();
        assert(keys_in_order(t)) by {
            assert forall|i: int, j: int| 0 <= i < j < t.len() implies seq_less(
                #[trigger] t[i].0,
                #[trigger] t[j].0,
            ) by {
                assert(t[i] == g[i + 1]);
                assert(t[j] == g[j + 1]);
            }
        }
        lemma_insert_row_in_order(t, key, val);
        let rt = insert_row(t, key, val);
        lemma_seq_less_asymmetric_total(key, g[0].0);
        assert(seq_less(g[0].0, key));
        assert forall|i: int| 0 <= i < res.len() implies #[trigger] res[i].0 == key || exists|j: int|
            0 <= j < g.len() && g[j].0 == res[i].0 by {
            if i == 0 {
                assert(g[0].0 == res[0].0);
            } else {
                assert(res[i] == rt[i - 1]);
                if rt[i - 1].0 != key {
                    let j = choose|j: int| 0 <= j < t.len() && t[j].0 == rt[i - 1].0;
                    assert(g[j + 1] == t[j]);
                }
            }
        }
        assert forall|i: int, j: int| 0 <= i < j < res.len() implies seq_less(
            #[trigger] res[i].0,
            #[trigger] res[j].0,
        ) by {
            assert(res[j] == rt[j - 1]);
            if i == 0 {
                assert(res[0] == g[0]);
                if rt[j - 1].0 != key {
                    let k = choose|k: int| 0 <= k < t.len() && t[k].0 == rt[j - 1].0;
                    assert(t[k] == g[k + 1]);
                }
            } else {
                assert(res[i] == rt[i - 1]);
            }
        }
    }
}

/// The frames of the data rows come in strictly increasing time-text
/// order, one frame per time text.
pub proof fn lemma_group_rows_in_order(rows: Seq<Seq<Seq<char>>>)
    ensures
        keys_in_order(group_rows(rows)),
    decreases rows.len(),
{
    if rows.len() > 0 {
        lemma_group_rows_in_order(rows.drop_last());
        let r = rows.last();
        if r.len() >= 4 {
            lemma_insert_row_in_order(group_rows(rows.drop_last()), r[0], (r[1], r[2], r[3]));
        }
    }
}

// ---------------------------------------------------------------------------
// What reading a metadata row gives, field by field
// ---------------------------------------------------------------------------

/// The 9 required fields of a metadata row hold what they should: numbers
/// that fit, a number for the overlap, a known window, a boolean.
pub open spec fn required_fields_ok(f: Seq<Seq<char>>) -> bool {
    &&& f.len() >= 9
    &&& uval(f[0], u32::MAX as nat) is Some
    &&& uval(f[1], usize::MAX as nat) is Some
    &&& uval(f[2], usize::MAX as nat) is Some
    &&& is_float_text(f[3])
    &&& window_of(f[4]) is Ok
    &&& bool_value(f[5]) is Some
    &&& uval(f[7], usize::MAX as nat) is Some
    &&& uval(f[8], usize::MAX as nat) is Some
}

/// Reading a metadata row whose required fields are good succeeds, and each
/// setting comes from its own field: fields 0 to 8 give the required
/// settings (field 6 is not read); the reconstruction settings are there
/// exactly when the row has at least 12 fields (a count that is no number
/// reads as 4097); the zero-padding factor is field 12 whenever the row has
/// at least 13 fields (1 when it is no number or missing); each target
/// count is its field when the row reaches it and the field is a positive
/// number, and absent otherwise; field 15 names the last-edited field
/// (`Overlap` for any other text or when missing); fields 16 and 17 are the
/// view range when the row reaches them.
pub proof fn lemma_metadata_fields_read(f: Seq<Seq<char>>)
    requires
        required_fields_ok(f),
    ensures
        parse_metadata(f) is Ok,
        ({
            let m = parse_metadata(f)->Ok_0;
            &&& m.sample_rate as nat == uval(f[0], u32::MAX as nat)->0
            &&& m.window_length as nat == uval(f[1], usize::MAX as nat)->0
            &&& m.hop_length as nat == uval(f[2], usize::MAX as nat)->0
            &&& m.overlap == f[3]
            &&& window_of(f[4]) == Ok::<CsvWindowView, CsvErrorView>(m.window)
            &&& bool_value(f[5]) == Some(m.use_center)
            &&& m.start_sample as nat == uval(f[7], usize::MAX as nat)->0
            &&& m.stop_sample as nat == uval(f[8], usize::MAX as nat)->0
            &&& (m.recon is Some <==> f.len() >= 12)
            &&& (f.len() >= 12 ==> {
                &&& (m.recon->0).1 == f[10]
                &&& (m.recon->0).2 == f[11]
                &&& (uval(f[9], usize::MAX as nat) is Some ==> (m.recon->0).0 as nat == uval(
                    f[9],
                    usize::MAX as nat,
                )->0)
                &&& (uval(f[9], usize::MAX as nat) is None ==> (m.recon->0).0 == 4097)
            })
            &&& (f.len() >= 13 && uval(f[12], usize::MAX as nat) is Some ==> m.zero_pad_factor as nat
                == uval(f[12], usize::MAX as nat)->0)
            &&& (f.len() >= 13 && uval(f[12], usize::MAX as nat) is None ==> m.zero_pad_factor == 1)
            &&& (f.len() < 13 ==> m.zero_pad_factor == 1)
            &&& (m.target_segments_per_active is Some <==> (f.len() >= 14 && uval(
                f[13],
                usize::MAX as nat,
            ) is Some && uval(f[13], usize::MAX as nat)->0 > 0))
            &&& (m.target_segments_per_active is Some ==> m.target_segments_per_active->0 as nat
                == uval(f[13], usize::MAX as nat)->0)
            &&& (m.target_bins_per_segment is Some <==> (f.len() >= 15 && uval(
                f[14],
                usize::MAX as nat,
            ) is Some && uval(f[14], usize::MAX as nat)->0 > 0))
            &&& (m.target_bins_per_segment is Some ==> m.target_bins_per_segment->0 as nat == uval(
                f[14],
                usize::MAX as nat,
            )->0)
            &&& (f.len() >= 16 && f[15] == "SegmentsPerActive"@ ==> m.last_edited
                == LastEditedField::SegmentsPerActive)
            &&& (f.len() >= 16 && f[15] == "BinsPerSegment"@ ==> m.last_edited
                == LastEditedField::BinsPerSegment)
            &&& (!(f.len() >= 16 && (f[15] == "SegmentsPerActive"@ || f[15] == "BinsPerSegment"@))
                ==> m.last_edited == LastEditedField::Overlap)
            &&& (f.len() >= 17 <==> m.view_freq_min is Some)
            &&& (f.len() >= 17 ==> m.view_freq_min == Some(f[16]))
            &&& (f.len() >= 18 <==> m.view_freq_max is Some)
            &&& (f.len() >= 18 ==> m.view_freq_max == Some(f[17]))
        }),
{
    reveal_strlit("SegmentsPerActive");
    reveal_strlit("BinsPerSegment");
    assert("SegmentsPerActive"@.len() == 17 && "BinsPerSegment"@.len() == 14);
}

/// A metadata row that is not good is refused with the first problem in
/// field order: too few fields (with their number), then the sample rate,
/// window length, hop length, overlap, window type (the text of an unknown
/// one, or a Kaiser beta that is no number), centering, start sample and
/// stop sample.
pub proof fn lemma_metadata_errors(f: Seq<Seq<char>>)
    ensures
        f.len() < 9 ==> parse_metadata(f) == Err::<CsvMetadataView, CsvErrorView>(
            CsvErrorView::TooFewFields(f.len()),
        ),
        f.len() >= 9 && uval(f[0], u32::MAX as nat) is None ==> parse_metadata(f) == Err::<
            CsvMetadataView,
            CsvErrorView,
        >(CsvErrorView::InvalidField(CsvField::SampleRate)),
        f.len() >= 9 && uval(f[0], u32::MAX as nat) is Some && uval(f[1], usize::MAX as nat) is None
            ==> parse_metadata(f) == Err::<CsvMetadataView, CsvErrorView>(
            CsvErrorView::InvalidField(CsvField::WindowLength),
        ),
        f.len() >= 9 && uval(f[0], u32::MAX as nat) is Some && uval(f[1], usize::MAX as nat) is Some
            && uval(f[2], usize::MAX as nat) is None ==> parse_metadata(f) == Err::<
            CsvMetadataView,
            CsvErrorView,
        >(CsvErrorView::InvalidField(CsvField::HopLength)),
        f.len() >= 9 && uval(f[0], u32::MAX as nat) is Some && uval(f[1], usize::MAX as nat) is Some
            && uval(f[2], usize::MAX as nat) is Some && !is_float_text(f[3]) ==> parse_metadata(f)
            == Err::<CsvMetadataView, CsvErrorView>(CsvErrorView::InvalidField(CsvField::Overlap)),
        f.len() >= 9 && uval(f[0], u32::MAX as nat) is Some && uval(f[1], usize::MAX as nat) is Some
            && uval(f[2], usize::MAX as nat) is Some && is_float_text(f[3]) && window_of(f[4]) is Err
            ==> parse_metadata(f) == Err::<CsvMetadataView, CsvErrorView>(window_of(f[4])->Err_0),
        f.len() >= 9 && uval(f[0], u32::MAX as nat) is Some && uval(f[1], usize::MAX as nat) is Some
            && uval(f[2], usize::MAX as nat) is Some && is_float_text(f[3]) && window_of(f[4]) is Ok
            && bool_value(f[5]) is None ==> parse_metadata(f) == Err::<CsvMetadataView, CsvErrorView>(
            CsvErrorView::InvalidField(CsvField::UseCenter),
        ),
        f.len() >= 9 && uval(f[0], u32::MAX as nat) is Some && uval(f[1], usize::MAX as nat) is Some
            && uval(f[2], usize::MAX as nat) is Some && is_float_text(f[3]) && window_of(f[4]) is Ok
            && bool_value(f[5]) is Some && uval(f[7], usize::MAX as nat) is None ==> parse_metadata(f)
            == Err::<CsvMetadataView, CsvErrorView>(CsvErrorView::InvalidField(CsvField::StartSample)),
        f.len() >= 9 && uval(f[0], u32::MAX as nat) is Some && uval(f[1], usize::MAX as nat) is Some
            && uval(f[2], usize::MAX as nat) is Some && is_float_text(f[3]) && window_of(f[4]) is Ok
            && bool_value(f[5]) is Some && uval(f[7], usize::MAX as nat) is Some && uval(
            f[8],
            usize::MAX as nat,
        ) is None ==> parse_metadata(f) == Err::<CsvMetadataView, CsvErrorView>(
            CsvErrorView::InvalidField(CsvField::StopSample),
        ),
        (parse_metadata(f) is Ok) == required_fields_ok(f),
{
}

// ---------------------------------------------------------------------------
// What the frames of the data rows are
// ---------------------------------------------------------------------------

/// The values of the rows of at least 4 fields whose time text is `k`, in
/// file order.
pub open spec fn rows_values(rows: Seq<Seq<Seq<char>>>, k: Seq<char>) -> Seq<
    (Seq<char>, Seq<char>, Seq<char>),
>
    decreases rows.len(),
{
    if rows.len() == 0 {
        Seq::empty()
    } else {
        let r = rows.last();
        let before = rows_values(rows.drop_last(), k);
        if r.len() >= 4 && r[0] == k {
            before.push((r[1], r[2], r[3]))
        } else {
            before
        }
    }
}

/// The values of the frame with time text `k`, or none.
pub open spec fn frame_values(
    g: Seq<(Seq<char>, Seq<(Seq<char>, Seq<char>, Seq<char>)>)>,
    k: Seq<char>,
) -> Seq<(Seq<char>, Seq<char>, Seq<char>)>
    decreases g.len(),
{
    if g.len() == 0 {
        Seq::empty()
    } else if g[0].0 == k {
        g[0].1
    } else {
        frame_values(g.drop_first(), k)
    }
}

/// Every frame holds at least one row.
pub open spec fn frames_nonempty(g: Seq<(Seq<char>, Seq<(Seq<char>, Seq<char>, Seq<char>)>)>) -> bool {
    forall|i: int| 0 <= i < g.len() ==> (#[trigger] g[i]).1.len() > 0
}

proof fn lemma_frame_values_absent(
    g: Seq<(Seq<char>, Seq<(Seq<char>, Seq<char>, Seq<char>)>)>,
    k: Seq<char>,
)
    requires
        forall|i: int| 0 <= i < g.len() ==> (#[trigger] g[i]).0 != k,
    ensures
        frame_values(g, k) == Seq::<(Seq<char>, Seq<char>, Seq<char>)>::empty(),
    decreases g.len(),
{
    if g.len() > 0 {
        let t = g.drop_first();
        assert(g[0].0 != k);
        assert forall|i: int| 0 <= i < t.len() implies (#[trigger] t[i]).0 != k by {
            assert(t[i] == g[i + 1]);
        }
        lemma_frame_values_absent(t, k);
    }
}

proof fn lemma_frame_values_insert(
    g: Seq<(Seq<char>, Seq<(Seq<char>, Seq<char>, Seq<char>)>)>,
    key: Seq<char>,
    val: (Seq<char>, Seq<char>, Seq<char>),
    k: Seq<char>,
)
    requires
        keys_in_order(g),
        frames_nonempty(g),
    ensures
        frame_values(insert_row(g, key, val), k) == if k == key {
            frame_values(g, k).push(val)
        } else {
            frame_values(g, k)
        },
        frames_nonempty(insert_row(g, key, val)),
    decreases g.len(),
{
    let res = insert_row(g, key, val);
    let one = Seq::<(Seq<char>, Seq<char>, Seq<char>)>::empty().push(val);
    if g.len() == 0 {
        assert(res.drop_first() =~= Seq::<(Seq<char>, Seq<(Seq<char>, Seq<char>, Seq<char>)>)>::empty());
        assert(res[0].1 =~= one);
        assert(frame_values(g, k) =~= Seq::<(Seq<char>, Seq<char>, Seq<char>)>::empty());
        assert(frame_values(res.drop_first(), k) =~= Seq::<(Seq<char>, Seq<char>, Seq<char>)>::empty());
    } else if g[0].0 == key {
        assert(res.drop_first() =~= g.drop_first());
        assert(res[0].0 == key);
        assert forall|i: int| 0 <= i < res.len() implies (#[trigger] res[i]).1.len() > 0 by {
            if i > 0 {
                assert(res[i] == g[i]);
            }
        }
    } else if seq_less(key, g[0].0) {
        assert(res.drop_first() =~= g);
        assert(res[0].0 == key);
        assert(res[0].1 =~= one);
        if k == key {
            assert forall|i: int| 0 <= i < g.len() implies (#[trigger] g[i]).0 != k by {
                lemma_seq_less_irreflexive(key);
                if i > 0 {
                    assert(seq_less(g[0].0, g[i].0));
                    lemma_seq_less_transitive(key, g[0].0, g[i].0);
                    lemma_seq_less_irreflexive(g[i].0);
                }
            }
            lemma_frame_values_absent(g, k);
        }
        assert forall|i: int| 0 <= i < res.len() implies (#[trigger] res[i]).1.len() > 0 by {
            if i > 0 {
                assert(res[i] == g[i - 1]);
            }
        }
    } else {
        let t = g.drop_first();
        assert(keys_in_order(t)) by {
            assert forall|i: int, j: int| 0 <= i < j < t.len() implies seq_less(
                #[trigger] t[i].0,
                #[trigger] t[j].0,
            ) by {
                assert(t[i] == g[i + 1]);
                assert(t[j] == g[j + 1]);
            }
        }
        assert(frames_nonempty(t)) by {
            assert forall|i: int| 0 <= i < t.len() implies (#[trigger] t[i]).1.len() > 0 by {
                assert(t[i] == g[i + 1]);
            }
        }
        lemma_frame_values_insert(t, key, val, k);
        let rt = insert_row(t, key, val);
        assert(res.drop_first() =~= rt);
        assert(res[0] == g[0]);
        if g[0].0 == k {
            assert(k != key);
        } else {
            assert(frame_values(g, k) == frame_values(t, k));
            assert(frame_values(res, k) == frame_values(rt, k));
        }
        assert forall|i: int| 0 <= i < res.len() implies (#[trigger] res[i]).1.len() > 0 by {
            if i > 0 {
                assert(res[i] == rt[i - 1]);
            }
        }
    }
}

/// The frames the data rows make: for every time text, the frame with that
/// text holds exactly the values of the rows (of at least 4 fields) with
/// that time text, in file order, and there is no frame for a time text no
/// such row has; frames come in strictly increasing time-text order.
pub proof fn lemma_group_rows_frames(rows: Seq<Seq<Seq<char>>>, k: Seq<char>)
    ensures
        frame_values(group_rows(rows), k) == rows_values(rows, k),
        frames_nonempty(group_rows(rows)),
        keys_in_order(group_rows(rows)),
        forall|i: int|
            0 <= i < group_rows(rows).len() ==> rows_values(rows, #[trigger] group_rows(rows)[i].0).len()
                > 0,
    decreases rows.len(),
{
    lemma_group_rows_in_order(rows);
    if rows.len() > 0 {
        let init = rows.drop_last();
        lemma_group_rows_frames(init, k);
        lemma_group_rows_in_order(init);
        let r = rows.last();
        let g = group_rows(init);
        if r.len() >= 4 {
            lemma_frame_values_insert(g, r[0], (r[1], r[2], r[3]), k);
        }
        let res = group_rows(rows);
        assert forall|i: int| 0 <= i < res.len() implies rows_values(rows, #[trigger] res[i].0).len()
            > 0 by {
            let ki = res[i].0;
            lemma_group_rows_frames(init, ki);
            if r.len() >= 4 {
                lemma_frame_values_insert(g, r[0], (r[1], r[2], r[3]), ki);
            }
            lemma_frame_values_of_member(res, i);
        }
    }
}

/// The frame found for a frame's own time text is that frame.
proof fn lemma_frame_values_of_member(
    g: Seq<(Seq<char>, Seq<(Seq<char>, Seq<char>, Seq<char>)>)>,
    i: int,
)
    requires
        0 <= i < g.len(),
        keys_in_order(g),
    ensures
        frame_values(g, g[i].0) == g[i].1,
    decreases i,
{
    if i > 0 {
        let t = g.drop_first();
        assert(seq_less(g[0].0, g[i].0));
        lemma_seq_less_irreflexive(g[i].0);
        assert(g[0].0 != g[i].0);
        assert(keys_in_order(t)) by {
            assert forall|a: int, b: int| 0 <= a < b < t.len() implies seq_less(
                #[trigger] t[a].0,
                #[trigger] t[b].0,
            ) by {
                assert(t[a] == g[a + 1]);
                assert(t[b] == g[b + 1]);
            }
        }
        lemma_frame_values_of_member(t, i - 1);
        assert(t[i - 1] == g[i]);
    }
}

/// The second record of an FFT CSV (the column labels) is never read:
/// whatever it holds, reading gives the same result.
pub proof fn lemma_read_ignores_labels(r: Seq<Seq<Seq<char>>>, labels: Seq<Seq<char>>)
    requires
        r.len() >= 2,
    ensures
        fft_csv_from_records(Some(r.update(1, labels))) == fft_csv_from_records(Some(r)),
{
    let u = r.update(1, labels);
    assert(u[0] == r[0]);
    assert(u.skip(2) =~= r.skip(2));
}

/// One more data row at the end of an FFT CSV leaves the settings as they
/// were and adds its values at the end of the frame of its time text (a
/// row of fewer than 4 fields adds nothing); every other frame is
/// unchanged.
pub proof fn lemma_read_appended_row(
    r: Seq<Seq<Seq<char>>>,
    row: Seq<Seq<char>>,
    k: Seq<char>,
)
    requires
        r.len() >= 2,
        parse_metadata(r[0]) is Ok,
    ensures
        fft_csv_from_records(Some(r)) is Ok,
        fft_csv_from_records(Some(r.push(row))) is Ok,
        ({
            let before = fft_csv_from_records(Some(r))->Ok_0;
            let after = fft_csv_from_records(Some(r.push(row)))->Ok_0;
            &&& after.0 == before.0
            &&& before.0 == parse_metadata(r[0])->Ok_0
            &&& frame_values(after.1, k) == if row.len() >= 4 && row[0] == k {
                frame_values(before.1, k).push((row[1], row[2], row[3]))
            } else {
                frame_values(before.1, k)
            }
        }),
{
    let rp = r.push(row);
    assert(rp[0] == r[0]);
    let data = r.skip(2);
    assert(rp.skip(2) =~= data.push(row));
    lemma_group_rows_frames(data, k);
    lemma_group_rows_frames(data.push(row), k);
    assert(data.push(row).drop_last() =~= data);
    assert(data.push(row).last() == row);
}

/// The window names a metadata row may hold: `Hann`, `Hamming` and
/// `Blackman` name their windows; `Kaiser_` followed by a number names a
/// Kaiser window with that number as its beta, and a repeated `Kaiser_`
/// prefix names the same window; `Kaiser_` followed by text that is no
/// number (and no further `Kaiser_`) is refused as a bad beta.
pub proof fn lemma_window_names(b: Seq<char>)
    ensures
        window_of("Hann"@) == Ok::<CsvWindowView, CsvErrorView>(CsvWindowView::Hann),
        window_of("Hamming"@) == Ok::<CsvWindowView, CsvErrorView>(CsvWindowView::Hamming),
        window_of("Blackman"@) == Ok::<CsvWindowView, CsvErrorView>(CsvWindowView::Blackman),
        is_float_text(b) ==> window_of(kaiser_prefix() + b) == Ok::<CsvWindowView, CsvErrorView>(
            CsvWindowView::Kaiser(b),
        ),
        !is_float_text(b) && !has_prefix(b, kaiser_prefix()) ==> window_of(kaiser_prefix() + b)
            == Err::<CsvWindowView, CsvErrorView>(CsvErrorView::InvalidKaiserBeta),
        window_of(kaiser_prefix() + kaiser_prefix() + b) == window_of(kaiser_prefix() + b),
{
    let kp = kaiser_prefix();
    reveal_strlit("Hann");
    reveal_strlit("Hamming");
    reveal_strlit("Blackman");
    assert(!has_prefix("Hann"@, kp)) by {
        assert("Hann"@.len() < 7);
    }
    assert(!has_prefix("Hamming"@, kp)) by {
        assert("Hamming"@.take(7)[0] != kp[0]);
    }
    assert(!has_prefix("Blackman"@, kp)) by {
        assert("Blackman"@.take(7)[0] != kp[0]);
    }
    let s1 = kp + b;
    assert(s1.take(7) =~= kp);
    assert(s1.skip(7) =~= b);
    assert(has_prefix(s1, kp));
    assert(strip_prefixes(s1, kp) == strip_prefixes(b, kp));
    if !has_prefix(b, kp) {
        assert(!(b.len() >= kp.len() && b.take(kp.len() as int) == kp));
        assert(strip_prefixes(b, kp) == b);
    }
    if is_float_text(b) {
        lemma_float_not_kaiser(b);
        assert(strip_prefixes(b, kp) == b);
    }
    let s2 = kp + kp + b;
    assert(s2.take(7) =~= kp);
    assert(s2.skip(7) =~= s1);
    assert(has_prefix(s2, kp));
    assert(strip_prefixes(s2, kp) == strip_prefixes(s1, kp));
}

/// Time texts are ordered as text: `a` comes before `b` exactly when `a` is
/// a proper prefix of `b`, or at the first place where they differ the
/// character of `a` is the smaller.
pub proof fn lemma_seq_less_lexicographic(a: Seq<char>, b: Seq<char>)
    ensures
        seq_less(a, b) <==> ((a.len() < b.len() && b.take(a.len() as int) == a) || exists|i: int|
            0 <= i < a.len() && i < b.len() && a.take(i) == b.take(i) && (a[i] as int) < (
            #[trigger] b[i] as int)),
    decreases a.len(),
{
    let lex = exists|i: int|
        0 <= i < a.len() && i < b.len() && a.take(i) == b.take(i) && (a[i] as int) < (
        #[trigger] b[i] as int);
    if a.len() == 0 {
        if b.len() > 0 {
            assert(b.take(0) =~= a);
        }
        assert(!lex);
    } else if b.len() == 0 {
        assert(!lex);
    } else if a[0] != b[0] {
        if (a[0] as int) < (b[0] as int) {
            assert(a.take(0) =~= b.take(0));
            assert(lex);
        } else {
            assert(!lex) by {
                if lex {
                    let i = choose|i: int|
                        0 <= i < a.len() && i < b.len() && a.take(i) == b.take(i) && (a[i] as int)
                            < (#[trigger] b[i] as int);
                    if i > 0 {
                        assert(a.take(i)[0] == b.take(i)[0]);
                    }
                }
            }
            assert(!(a.len() < b.len() && b.take(a.len() as int) == a)) by {
                if a.len() < b.len() && b.take(a.len() as int) == a {
                    assert(b.take(a.len() as int)[0] == a[0]);
                }
            }
        }
    } else {
        let a1 = a.drop_first();
        let b1 = b.drop_first();
        lemma_seq_less_lexicographic(a1, b1);
        let lex1 = exists|i: int|
            0 <= i < a1.len() && i < b1.len() && a1.take(i) == b1.take(i) && (a1[i] as int) < (
            #[trigger] b1[i] as int);
        assert(lex <==> lex1) by {
            if lex {
                let i = choose|i: int|
                    0 <= i < a.len() && i < b.len() && a.take(i) == b.take(i) && (a[i] as int) < (
                    #[trigger] b[i] as int);
                assert(i > 0);
                assert(a1.take(i - 1) =~= a.take(i).drop_first());
                assert(b1.take(i - 1) =~= b.take(i).drop_first());
                assert(a1[i - 1] == a[i] && b1[i - 1] == b[i]);
            }
            if lex1 {
                let i = choose|i: int|
                    0 <= i < a1.len() && i < b1.len() && a1.take(i) == b1.take(i) && (a1[i] as int)
                        < (#[trigger] b1[i] as int);
                assert(a.take(i + 1) =~= seq![a[0]] + a1.take(i));
                assert(b.take(i + 1) =~= seq![b[0]] + b1.take(i));
                assert(a[i + 1] == a1[i] && b[i + 1] == b1[i]);
            }
        }
        assert((a.len() < b.len() && b.take(a.len() as int) == a) <==> (a1.len() < b1.len()
            && b1.take(a1.len() as int) == a1)) by {
            if a.len() < b.len() && b.take(a.len() as int) == a {
                assert(b1.take(a1.len() as int) =~= b.take(a.len() as int).drop_first());
            }
            if a1.len() < b1.len() && b1.take(a1.len() as int) == a1 {
                assert(b.take(a.len() as int) =~= seq![b[0]] + b1.take(a1.len() as int));
                assert(a =~= seq![a[0]] + a1);
            }
        }
    }
}

proof fn lemma_digits_have_no_point(d: Seq<char>)
    requires
        all_digits(d),
    ensures
        count_char(d, '.') == 0,
    decreases d.len(),
{
    if d.len() > 0 {
        let init = d.drop_last();
        assert(all_digits(init)) by {
            assert forall|i: int| 0 <= i < init.len() implies is_digit(#[trigger] init[i]) by {
                assert(init[i] == d[i]);
            }
        }
        lemma_digits_have_no_point(init);
        assert(is_digit(d[d.len() - 1]));
    }
}

/// The number syntax of the overlap and Kaiser-beta fields: a run of digits
/// is a number, with or without a trailing point; a sign may stand before a
/// number that has none; the empty text, a lone sign and a lone point are
/// not numbers.
pub proof fn lemma_float_text_forms(d: Seq<char>, s: Seq<char>)
    ensures
        d.len() > 0 && all_digits(d) ==> is_float_text(d),
        d.len() > 0 && all_digits(d) ==> is_float_text(d.push('.')),
        is_float_text(s) && s[0] != '+' && s[0] != '-' ==> is_float_text(seq!['-'] + s)
            && is_float_text(seq!['+'] + s),
        !is_float_text(Seq::<char>::empty()),
        !is_float_text(seq!['-']),
        !is_float_text(seq!['+']),
        !is_float_text(seq!['.']),
{
    reveal_strlit("inf");
    reveal_strlit("infinity");
    reveal_strlit("nan");
    if d.len() > 0 && all_digits(d) {
        assert(is_digit(d[0]));
        assert(strip_sign(d) == d);
        lemma_digits_have_no_point(d);
        assert(valid_mantissa(d));
        let dp = d.push('.');
        assert(dp[0] == d[0]);
        assert(strip_sign(dp) == dp);
        lemma_count_char_push(d, '.', '.');
        assert forall|i: int| 0 <= i < dp.len() implies dp[i] == '.' || is_digit(#[trigger] dp[i]) by {
            if i < d.len() {
                assert(dp[i] == d[i]);
            }
        }
        assert(is_digit(dp[0]));
        assert(valid_mantissa(dp));
    }
    if s.len() > 0 && is_float_text(s) && s[0] != '+' && s[0] != '-' {
        assert(strip_sign(s) == s);
        assert(strip_sign(seq!['-'] + s) =~= s);
        assert(strip_sign(seq!['+'] + s) =~= s);
    }
    let e = Seq::<char>::empty();
    assert(strip_sign(e) == e);
    assert(!valid_mantissa(e));
    assert(strip_sign(seq!['-']) =~= e);
    assert(strip_sign(seq!['+']) =~= e);
    let pt = seq!['.'];
    assert(strip_sign(pt) == pt);
    assert(!valid_mantissa(pt)) by {
        assert(!is_digit(pt[0]));
    }
    assert(!valid_number(pt)) by {
        assert(!is_exp_char(pt[0]));
    }
    assert(!eq_ignore_ascii_case(pt, "inf"@));
    assert(!eq_ignore_ascii_case(pt, "nan"@));
    assert(!eq_ignore_ascii_case(pt, "infinity"@));
}

} // verus!
