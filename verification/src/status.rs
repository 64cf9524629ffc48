//! The application's status bar: what the program is doing now, the most
//! recent timing of each kind of operation, and memory use, plus the
//! processing stages and mouse modes that the status reflects.
use std::collections::VecDeque;
use std::time::Duration;
use std::time::Instant;

use vstd::prelude::*;

use crate::ini_write::single_line;
use crate::text::{
    chars_of, copy_chars, count_char, count_lines, extend_chars, join_chars, join_with, line_count,
    seqs_of, str_eq,
};

verus! {

/// `std::time::Instant`, made known to the verifier as an opaque type: the
/// status bar keeps instants and hands them to the clock functions below,
/// and nothing is claimed of what is inside one.
#[verifier::external_type_specification]
#[verifier::external_body]
pub struct ExInstant(Instant);

/// The current time.
///
/// Trusted: calls `std::time::Instant::now`. Its value depends on the clock,
/// so nothing is claimed of it.
#[verifier::external_body]
fn instant_now() -> Instant {
    Instant::now()
}

/// The time elapsed since `start`.
///
/// Trusted: calls `std::time::Instant::elapsed`. Its value depends on the
/// clock, so nothing is claimed of it.
#[verifier::external_body]
fn instant_elapsed(start: &Instant) -> Duration {
    start.elapsed()
}

/// The time from `earlier` to `now` (zero if `earlier` is later).
///
/// Trusted: calls `std::time::Instant::duration_since`. Its value depends on
/// the clock, so nothing is claimed of it.
#[verifier::external_body]
fn duration_between(now: &Instant, earlier: &Instant) -> Duration {
    now.duration_since(*earlier)
}

/// The whole length of `d` in nanoseconds.
///
/// Trusted: calls `std::time::Duration::as_nanos`. A `Duration` is opaque
/// here, so nothing is claimed of the number.
#[verifier::external_body]
fn duration_nanos(d: &Duration) -> u128 {
    d.as_nanos()
}

/// The two passes of spectrogram computation.
#[derive(Debug, Clone, Copy, PartialEq, Eq, Structural)]
pub enum FftStage {
    Overview,
    Focus,
}

impl FftStage {
    /// Short name of the stage, used as its timing key.
    pub fn label(self) -> (s: &'static str)
        ensures
            self == FftStage::Overview ==> s@ == "Overview FFT"@,
            self == FftStage::Focus ==> s@ == "FFT"@,
    {
        match self {
            FftStage::Overview => "Overview FFT",
            FftStage::Focus => "FFT",
        }
    }

    /// Status text while the stage runs.
    pub fn activity_text(self) -> (s: &'static str)
        ensures
            self == FftStage::Overview ==> s@ == "Processing overview FFT..."@,
            self == FftStage::Focus ==> s@ == "Processing focused FFT..."@,
    {
        match self {
            FftStage::Overview => "Processing overview FFT...",
            FftStage::Focus => "Processing focused FFT...",
        }
    }
}

/// What a drag with the mouse does on the plots.
#[derive(Clone, Copy, Debug, PartialEq, Eq, Structural)]
pub enum MouseMode {
    Time,
    Move,
    SelectZoom,
    RoiSelect,
}

/// The plot a mouse selection was started on.
#[derive(Clone, Copy, Debug, PartialEq, Eq, Structural)]
pub enum MouseSurface {
    Spectrogram,
    Waveform,
}

/// A rectangle being dragged out with the mouse, in widget pixels.
#[derive(Clone, Copy, Debug, PartialEq, Eq, Structural)]
pub struct MouseSelection {
    pub surface: MouseSurface,
    pub start_x: i32,
    pub start_y: i32,
    pub current_x: i32,
    pub current_y: i32,
}

/// What one turn of the mouse wheel over the spectrogram does.
#[derive(Clone, Copy, Debug, PartialEq, Eq, Structural)]
pub enum WheelAction {
    /// Pan the frequency axis (wheel up: higher frequencies).
    PanFrequency,
    /// Pan the time axis (wheel up: earlier).
    PanTime,
    /// Zoom the frequency axis around the cursor.
    ZoomFrequency,
    /// Zoom the time axis around the cursor.
    ZoomTime,
}

/// The wheel's navigation scheme: with no modifier it pans frequency, with
/// Ctrl it pans time; with Alt it zooms frequency, and with Alt and Ctrl it
/// zooms time, unless `swap_zoom_axes` swaps which of the two zooms which
/// axis.
pub fn wheel_action(has_alt: bool, has_ctrl: bool, swap_zoom_axes: bool) -> (a: WheelAction)
    ensures
        !has_alt && !has_ctrl ==> a == WheelAction::PanFrequency,
        !has_alt && has_ctrl ==> a == WheelAction::PanTime,
        has_alt && (has_ctrl == swap_zoom_axes) ==> a == WheelAction::ZoomFrequency,
        has_alt && (has_ctrl != swap_zoom_axes) ==> a == WheelAction::ZoomTime,
{
    if has_alt {
        let zoom_freq = if swap_zoom_axes { has_ctrl } else { !has_ctrl };
        if zoom_freq {
            WheelAction::ZoomFrequency
        } else {
            WheelAction::ZoomTime
        }
    } else if has_ctrl {
        WheelAction::PanTime
    } else {
        WheelAction::PanFrequency
    }
}

/// Severity of a message in the top message bar.
#[derive(Clone, Copy, Debug, PartialEq, Eq, Structural)]
pub enum MsgLevel {
    Info,
    Warning,
    Error,
}

/// A timed entry of the status bar (for example "FFT load 4.7s").
pub struct TimedEntry {
    /// Category of the operation ("FFT", "Reconstruction", ...); at most one
    /// entry per key.
    pub key: String,
    /// How long the operation took.
    pub duration: Duration,
    /// When the entry was recorded.
    pub recorded_at: Instant,
}

/// The entries of `s` whose key is not `key`, in their order.
pub open spec fn without_key(s: Seq<TimedEntry>, key: Seq<char>) -> Seq<TimedEntry>
    decreases s.len(),
{
    if s.len() == 0 {
        s
    } else {
        let r = without_key(s.drop_last(), key);
        if s.last().key@ == key {
            r
        } else {
            r.push(s.last())
        }
    }
}

/// No two entries share a key.
pub open spec fn keys_unique(s: Seq<TimedEntry>) -> bool {
    forall|i: int, j: int| 0 <= i < j < s.len() ==> s[i].key@ != s[j].key@
}

/// Every entry of `without_key(s, key)` is an entry of `s` with another key.
pub proof fn lemma_without_key_members(s: Seq<TimedEntry>, key: Seq<char>)
    ensures
        forall|i: int|
            0 <= i < without_key(s, key).len() ==> (#[trigger] without_key(s, key)[i]).key@ != key,
        forall|i: int|
            0 <= i < without_key(s, key).len() ==> s.contains(#[trigger] without_key(s, key)[i]),
        without_key(s, key).len() <= s.len(),
    decreases s.len(),
{
    if s.len() > 0 {
        lemma_without_key_members(s.drop_last(), key);
        let r = without_key(s.drop_last(), key);
        assert forall|i: int|
            0 <= i < without_key(s, key).len() implies (#[trigger] without_key(s, key)[i]).key@
            != key && s.contains(without_key(s, key)[i]) by {
            if i < r.len() {
                assert(without_key(s, key)[i] == r[i]);
                assert(s.drop_last().contains(r[i]));
                let k = choose|k: int| 0 <= k < s.drop_last().len() && s.drop_last()[k] == r[i];
                assert(s[k] == r[i]);
            } else {
                assert(s[s.len() - 1] == s.last());
            }
        }
    }
}

/// Removing the entries of one key keeps the keys unique.
pub proof fn lemma_without_key_unique(s: Seq<TimedEntry>, key: Seq<char>)
    requires
        keys_unique(s),
    ensures
        keys_unique(without_key(s, key)),
    decreases s.len(),
{
    if s.len() > 0 {
        let d = s.drop_last();
        assert(keys_unique(d));
        lemma_without_key_unique(d, key);
        lemma_without_key_members(d, key);
        let r = without_key(d, key);
        if s.last().key@ != key {
            assert forall|i: int, j: int|
                0 <= i < j < r.push(s.last()).len() implies r.push(s.last())[i].key@ != r.push(
                s.last(),
            )[j].key@ by {
                if j == r.len() {
                    assert(d.contains(r[i]));
                    let k = choose|k: int| 0 <= k < d.len() && d[k] == r[i];
                    assert(s[k] == r[i]);
                    assert(s[s.len() - 1] == s.last());
                }
            }
        }
    }
}

/// The status bar's state; `render` and `render_wrapped` turn it into text.
pub struct StatusBarManager {
    activity: String,
    progress: Option<String>,
    timings: VecDeque<TimedEntry>,
    operation_start: Option<(String, Instant)>,
}

impl StatusBarManager {
    #[verifier::type_invariant]
    spec fn inv(self) -> bool {
        keys_unique(self.timings@)
    }

    /// The current activity (first slot).
    pub closed spec fn current_activity(&self) -> Seq<char> {
        self.activity@
    }

    /// The progress text appended to the activity, if any.
    pub closed spec fn progress_text(&self) -> Option<Seq<char>> {
        match self.progress {
            Some(p) => Some(p@),
            None => None,
        }
    }

    /// The timed entries, most recently recorded first.
    pub closed spec fn entries(&self) -> Seq<TimedEntry> {
        self.timings@
    }

    /// Key of the operation being timed, if one is.
    pub closed spec fn pending_key(&self) -> Option<Seq<char>> {
        match self.operation_start {
            Some(p) => Some(p.0@),
            None => None,
        }
    }

    /// A status bar saying it is ready, with no timings.
    pub fn new() -> (s: Self)
        ensures
            s.current_activity() == "Ready | Load an audio file to begin"@,
            s.progress_text() is None,
            s.entries().len() == 0,
            s.pending_key() is None,
            keys_unique(s.entries()),
    {
        StatusBarManager {
            activity: "Ready | Load an audio file to begin".to_owned(),
            progress: None,
            timings: VecDeque::new(),
            operation_start: None,
        }
    }

    /// Sets the current activity and clears the progress text.
    pub fn set_activity(&mut self, text: &str)
        ensures
            final(self).current_activity() == text@,
            final(self).progress_text() is None,
            final(self).entries() == old(self).entries(),
            final(self).pending_key() == old(self).pending_key(),
    {
        proof {
            use_type_invariant(&*self);
        }
        self.activity = text.to_owned();
        self.progress = None;
    }

    /// Sets (or with `None` clears) the progress text shown after the activity.
    pub fn set_progress(&mut self, text: Option<&str>)
        ensures
            final(self).progress_text() == (match text {
                Some(t) => Some(t@),
                None => None::<Seq<char>>,
            }),
            final(self).current_activity() == old(self).current_activity(),
            final(self).entries() == old(self).entries(),
            final(self).pending_key() == old(self).pending_key(),
    {
        proof {
            use_type_invariant(&*self);
        }
        self.progress = match text {
            Some(t) => Some(t.to_owned()),
            None => None,
        };
    }

    /// Records how long an operation of kind `key` took: any earlier entry
    /// of that key is dropped and the new entry goes first.
    pub fn record_timing(&mut self, key: &str, duration: Duration)
        ensures
            final(self).entries().len() == without_key(old(self).entries(), key@).len() + 1,
            final(self).entries()[0].key@ == key@,
            final(self).entries()[0].duration == duration,
            final(self).entries().drop_first() == without_key(old(self).entries(), key@),
            keys_unique(final(self).entries()),
            final(self).current_activity() == old(self).current_activity(),
            final(self).progress_text() == old(self).progress_text(),
            final(self).pending_key() == old(self).pending_key(),
    {
        proof {
            use_type_invariant(&*self);
        }
        let ghost old_entries = self.timings@;
        let mut kept: VecDeque<TimedEntry> = VecDeque::new();
        let n = self.timings.len();
        let mut i: usize = 0;
        while i < n
            invariant
                i <= n == self.timings@.len(),
                self.timings@ == old_entries,
                kept@ == without_key(old_entries.take(i as int), key@),
            decreases n - i,
        {
            let same = str_eq(self.timings[i].key.as_str(), key);
            proof {
                assert(old_entries.take(i + 1).drop_last() =~= old_entries.take(i as int));
            }
            if !same {
                let e = &self.timings[i];
                let copy = TimedEntry { key: e.key.clone(), duration: e.duration, recorded_at: e.recorded_at };
                kept.push_back(copy);
            }
            proof {
                assert(kept@ =~= without_key(old_entries.take(i + 1), key@));
            }
            i = i + 1;
        }
        let ghost rest = kept@;
        kept.push_front(TimedEntry { key: key.to_owned(), duration, recorded_at: instant_now() });
        proof {
            assert(kept@.drop_first() =~= rest);
            assert(old_entries.take(n as int) =~= old_entries);
            lemma_without_key_unique(old_entries, key@);
            lemma_without_key_members(old_entries, key@);
            assert forall|a: int, b: int| 0 <= a < b < kept@.len() implies kept@[a].key@
                != kept@[b].key@ by {
                if a == 0 {
                    assert(kept@[b] == kept@.drop_first()[b - 1]);
                } else {
                    assert(kept@[a] == kept@.drop_first()[a - 1]);
                    assert(kept@[b] == kept@.drop_first()[b - 1]);
                }
            }
        }
        self.timings = kept;
        proof {
            use_type_invariant(&*self);
        }
    }

    /// Starts timing an operation of kind `key`; `finish_timing` records it.
    pub fn start_timing(&mut self, key: &str)
        ensures
            final(self).pending_key() == Some(key@),
            final(self).entries() == old(self).entries(),
            final(self).current_activity() == old(self).current_activity(),
            final(self).progress_text() == old(self).progress_text(),
    {
        proof {
            use_type_invariant(&*self);
        }
        self.operation_start = Some((key.to_owned(), instant_now()));
    }

    /// Finishes the operation being timed and records how long it took.
    /// Returns that duration, or `None` when no operation was being timed.
    pub fn finish_timing(&mut self) -> (d: Option<Duration>)
        ensures
            final(self).pending_key() is None,
            final(self).current_activity() == old(self).current_activity(),
            final(self).progress_text() == old(self).progress_text(),
            keys_unique(final(self).entries()),
            match old(self).pending_key() {
                None => d is None && final(self).entries() == old(self).entries(),
                Some(k) => d is Some && final(self).entries().len() == without_key(
                    old(self).entries(),
                    k,
                ).len() + 1 && final(self).entries()[0].key@ == k && final(self).entries()[0].duration
                    == d->0 && final(self).entries().drop_first() == without_key(
                    old(self).entries(),
                    k,
                ),
            },
    {
        proof {
            use_type_invariant(&*self);
        }
        match &self.operation_start {
            Some(op) => {
                let key = op.0.clone();
                let start = op.1;
                self.operation_start = None;
                let duration = instant_elapsed(&start);
                self.record_timing(key.as_str(), duration);
                Some(duration)
            },
            None => {
                proof {
                    use_type_invariant(&*self);
                }
                None
            },
        }
    }

    /// Forgets the operation being timed without recording it.
    pub fn cancel_timing(&mut self)
        ensures
            final(self).pending_key() is None,
            final(self).entries() == old(self).entries(),
            final(self).current_activity() == old(self).current_activity(),
            final(self).progress_text() == old(self).progress_text(),
    {
        proof {
            use_type_invariant(&*self);
        }
        self.operation_start = None;
    }

    /// Removes every timed entry and the operation being timed.
    pub fn clear_timings(&mut self)
        ensures
            final(self).entries().len() == 0,
            final(self).pending_key() is None,
            final(self).current_activity() == old(self).current_activity(),
            final(self).progress_text() == old(self).progress_text(),
    {
        self.timings = VecDeque::new();
        self.operation_start = None;
    }
}

/// The separator between status slots.
pub open spec fn slot_separator() -> Seq<char> {
    seq![' ', ' ', '|', ' ', ' ']
}

/// The label of the memory slot.
pub open spec fn memory_label(memory: Seq<char>) -> Seq<char> {
    seq!['M', 'e', 'm', 'o', 'r', 'y', ':', ' '] + memory
}

/// The activity slot: the activity, followed by ` (progress)` when there is
/// a progress text.
pub open spec fn activity_slot(activity: Seq<char>, progress: Option<Seq<char>>) -> Seq<char> {
    match progress {
        Some(p) => activity + seq![' ', '('] + p + seq![')'],
        None => activity,
    }
}

/// The slots of the status bar: activity, one label per timed entry, memory.
pub open spec fn status_slots(
    activity: Seq<char>,
    progress: Option<Seq<char>>,
    labels: Seq<Seq<char>>,
    memory: Seq<char>,
) -> Seq<Seq<char>> {
    seq![activity_slot(activity, progress)] + labels + seq![memory_label(memory)]
}

/// Views of a list of strings.
pub open spec fn string_views(v: Seq<String>) -> Seq<Seq<char>> {
    v.map_values(|x: String| x@)
}

/// One step of line wrapping: the slot joins the current line unless that
/// would make a non-empty line longer than `max` characters, in which case the
/// line is closed and the slot starts the next one.
pub open spec fn wrap_step(
    lines: Seq<Seq<char>>,
    cur: Seq<char>,
    part: Seq<char>,
    max: nat,
) -> (Seq<Seq<char>>, Seq<char>) {
    let candidate = if cur.len() == 0 {
        part
    } else {
        cur + slot_separator() + part
    };
    if candidate.len() > max && cur.len() != 0 {
        (lines.push(cur), part)
    } else {
        (lines, candidate)
    }
}

/// Closed lines and current line after wrapping the first `k` slots.
pub open spec fn wrap_prefix(parts: Seq<Seq<char>>, max: nat, k: nat) -> (Seq<Seq<char>>, Seq<
    char,
>)
    decreases k,
{
    if k == 0 || k > parts.len() {
        (Seq::empty(), Seq::empty())
    } else {
        let st = wrap_prefix(parts, max, (k - 1) as nat);
        wrap_step(st.0, st.1, parts[k - 1], max)
    }
}

/// The lines of the wrapped status bar.
pub open spec fn wrapped_lines(parts: Seq<Seq<char>>, max: nat) -> Seq<Seq<char>> {
    if parts.len() == 0 {
        Seq::empty()
    } else {
        let st = wrap_prefix(parts, max, parts.len());
        st.0.push(st.1)
    }
}

/// Joining one more piece.
proof fn lemma_join_push(s: Seq<Seq<char>>, x: Seq<char>, sep: Seq<char>)
    ensures
        join_with(s.push(x), sep) == if s.len() == 0 {
            x
        } else {
            join_with(s, sep) + sep + x
        },
{
    assert(s.push(x).drop_last() =~= s);
    if s.len() == 0 {
        assert(s.push(x)[0] == x);
    }
}

/// What wrapping the first `k` slots keeps: the lines so far and the
/// current line, joined by the separator, are those slots joined by it; the
/// current line is not empty; and every line is either within `max`
/// characters
/// or a single slot.
proof fn lemma_wrap_prefix(parts: Seq<Seq<char>>, max: nat, k: nat)
    requires
        1 <= k <= parts.len(),
        forall|i: int| 0 <= i < parts.len() ==> (#[trigger] parts[i]).len() > 0,
    ensures
        ({
            let st = wrap_prefix(parts, max, k);
            &&& join_with(st.0.push(st.1), slot_separator()) == join_with(
                parts.take(k as int),
                slot_separator(),
            )
            &&& st.1.len() > 0
            &&& st.1.len() <= max || parts.contains(st.1)
            &&& forall|i: int|
                0 <= i < st.0.len() ==> (#[trigger] st.0[i]).len() <= max || parts.contains(
                    st.0[i],
                )
        }),
    decreases k,
{
    let sep = slot_separator();
    let part = parts[k - 1];
    assert(parts.take(k as int).drop_last() =~= parts.take(k - 1));
    assert(parts.take(k as int).last() == part);
    assert(parts.contains(part));
    if k == 1 {
        assert(wrap_prefix(parts, max, 0) == (Seq::<Seq<char>>::empty(), Seq::<char>::empty()));
        lemma_join_push(Seq::<Seq<char>>::empty(), part, sep);
        lemma_join_push(Seq::<Seq<char>>::empty(), part, sep);
        assert(parts.take(1) =~= seq![part]);
    } else {
        lemma_wrap_prefix(parts, max, (k - 1) as nat);
        let prev = wrap_prefix(parts, max, (k - 1) as nat);
        let lines = prev.0;
        let cur = prev.1;
        lemma_join_push(lines, cur, sep);
        lemma_join_push(parts.take(k - 1), part, sep);
        let candidate = cur + sep + part;
        if candidate.len() > max {
            let nl = lines.push(cur);
            lemma_join_push(nl, part, sep);
            assert forall|i: int| 0 <= i < nl.len() implies (#[trigger] nl[i]).len() <= max
                || parts.contains(nl[i]) by {
                if i < lines.len() {
                    assert(nl[i] == lines[i]);
                }
            }
        } else {
            lemma_join_push(lines, candidate, sep);
            assert(candidate.len() > 0);
            if lines.len() > 0 {
                assert(join_with(lines, sep) + sep + candidate =~= join_with(lines, sep) + sep + cur
                    + sep + part);
            }
        }
    }
}

/// Wrapping only decides where lines break: when every slot has text, the
/// wrapped lines joined by the slot separator are the one-line status text,
/// and a line is longer than `max` characters only when it holds a single
/// slot.
pub proof fn lemma_wrapping_keeps_slots(parts: Seq<Seq<char>>, max: nat)
    requires
        forall|i: int| 0 <= i < parts.len() ==> (#[trigger] parts[i]).len() > 0,
    ensures
        join_with(wrapped_lines(parts, max), slot_separator()) == join_with(parts, slot_separator()),
        forall|i: int|
            0 <= i < wrapped_lines(parts, max).len() ==> (
            #[trigger] wrapped_lines(parts, max)[i]).len() <= max || parts.contains(
                wrapped_lines(parts, max)[i],
            ),
{
    if parts.len() > 0 {
        lemma_wrap_prefix(parts, max, parts.len());
        assert(parts.take(parts.len() as int) =~= parts);
        let st = wrap_prefix(parts, max, parts.len());
        let w = st.0.push(st.1);
        assert forall|i: int| 0 <= i < w.len() implies (#[trigger] w[i]).len() <= max
            || parts.contains(w[i]) by {
            if i < st.0.len() {
                assert(w[i] == st.0[i]);
            }
        }
    }
}

/// `s` with every newline replaced by `sep`, as `str::replace` gives it.
pub open spec fn replace_newlines(s: Seq<char>, sep: Seq<char>) -> Seq<char>
    decreases s.len(),
{
    if s.len() == 0 {
        s
    } else {
        let r = replace_newlines(s.drop_last(), sep);
        if s.last() == '\n' {
            r + sep
        } else {
            r.push(s.last())
        }
    }
}

proof fn lemma_replace_concat(a: Seq<char>, b: Seq<char>, sep: Seq<char>)
    ensures
        replace_newlines(a + b, sep) == replace_newlines(a, sep) + replace_newlines(b, sep),
    decreases b.len(),
{
    if b.len() == 0 {
        assert(a + b =~= a);
        assert(replace_newlines(a, sep) + replace_newlines(b, sep) =~= replace_newlines(a, sep));
    } else {
        assert((a + b).drop_last() =~= a + b.drop_last());
        assert((a + b).last() == b.last());
        lemma_replace_concat(a, b.drop_last(), sep);
        let ra = replace_newlines(a, sep);
        let rb = replace_newlines(b.drop_last(), sep);
        if b.last() == '\n' {
            assert(ra + rb + sep =~= ra + (rb + sep));
        } else {
            assert((ra + rb).push(b.last()) =~= ra + rb.push(b.last()));
        }
    }
}

proof fn lemma_replace_single_line(a: Seq<char>, sep: Seq<char>)
    requires
        single_line(a),
    ensures
        replace_newlines(a, sep) == a,
        count_char(a, '\n') == 0,
    decreases a.len(),
{
    if a.len() > 0 {
        assert(a.last() == a[a.len() - 1]);
        lemma_replace_single_line(a.drop_last(), sep);
        assert(replace_newlines(a.drop_last(), sep).push(a.last()) =~= a);
    }
}

proof fn lemma_count_char_concat(a: Seq<char>, b: Seq<char>, c: char)
    ensures
        count_char(a + b, c) == count_char(a, c) + count_char(b, c),
    decreases b.len(),
{
    if b.len() == 0 {
        assert(a + b =~= a);
    } else {
        assert((a + b).drop_last() =~= a + b.drop_last());
        assert((a + b).last() == b.last());
        lemma_count_char_concat(a, b.drop_last(), c);
    }
}

/// Lines joined by newlines: turning the newlines back into `sep` gives the
/// lines joined by `sep`, and the text has one newline fewer than lines.
proof fn lemma_join_lines(lines: Seq<Seq<char>>, sep: Seq<char>)
    requires
        forall|i: int| 0 <= i < lines.len() ==> single_line(#[trigger] lines[i]),
    ensures
        replace_newlines(join_with(lines, seq!['\n']), sep) == join_with(lines, sep),
        lines.len() > 0 ==> count_char(join_with(lines, seq!['\n']), '\n') == lines.len() - 1,
    decreases lines.len(),
{
    let nl = seq!['\n'];
    if lines.len() == 1 {
        assert(single_line(lines[0]));
        lemma_replace_single_line(lines[0], sep);
    } else if lines.len() > 1 {
        let init = lines.drop_last();
        assert forall|i: int| 0 <= i < init.len() implies single_line(#[trigger] init[i]) by {
            assert(init[i] == lines[i]);
        }
        lemma_join_lines(init, sep);
        let x = lines.last();
        assert(single_line(lines[lines.len() - 1]));
        lemma_replace_single_line(x, sep);
        let j = join_with(init, nl);
        lemma_replace_concat(j + nl, x, sep);
        lemma_replace_concat(j, nl, sep);
        assert(nl.drop_last() =~= Seq::<char>::empty());
        assert(nl.last() == '\n');
        assert(replace_newlines(Seq::<char>::empty(), sep) == Seq::<char>::empty());
        assert(count_char(Seq::<char>::empty(), '\n') == 0);
        assert(Seq::<char>::empty() + sep =~= sep);
        assert(replace_newlines(nl, sep) =~= sep);
        lemma_count_char_concat(j + nl, x, '\n');
        lemma_count_char_concat(j, nl, '\n');
        assert(count_char(nl, '\n') == 1);
    }
}

/// Wrapping slots without newlines gives lines without newlines.
proof fn lemma_wrap_prefix_single_line(parts: Seq<Seq<char>>, max: nat, k: nat)
    requires
        k <= parts.len(),
        forall|i: int| 0 <= i < parts.len() ==> single_line(#[trigger] parts[i]),
    ensures
        single_line(wrap_prefix(parts, max, k).1),
        forall|i: int|
            0 <= i < wrap_prefix(parts, max, k).0.len() ==> single_line(
                #[trigger] wrap_prefix(parts, max, k).0[i],
            ),
    decreases k,
{
    if k > 0 {
        lemma_wrap_prefix_single_line(parts, max, (k - 1) as nat);
        let prev = wrap_prefix(parts, max, (k - 1) as nat);
        let part = parts[k - 1];
        assert(single_line(part));
        let candidate = prev.1 + slot_separator() + part;
        assert(single_line(candidate)) by {
            assert forall|i: int| 0 <= i < candidate.len() implies candidate[i] != '\n' by {
                if i < prev.1.len() {
                    assert(candidate[i] == prev.1[i]);
                } else if i >= prev.1.len() + 5 {
                    assert(candidate[i] == part[i - prev.1.len() - 5]);
                }
            }
        }
        let nl = prev.0.push(prev.1);
        assert forall|i: int| 0 <= i < nl.len() implies single_line(#[trigger] nl[i]) by {
            if i < prev.0.len() {
                assert(nl[i] == prev.0[i]);
            }
        }
    }
}

/// The wrapped status text, with its line breaks turned back into slot
/// separators, is the one-line status text, when every slot has text and
/// none holds a line break; and that text has exactly as many lines (as
/// `str::lines` counts them) as the wrapping made, which is what the status
/// bar's height is measured from.
pub proof fn lemma_wrapped_text_unwraps(parts: Seq<Seq<char>>, max: nat)
    requires
        forall|i: int| 0 <= i < parts.len() ==> (#[trigger] parts[i]).len() > 0,
        forall|i: int| 0 <= i < parts.len() ==> single_line(#[trigger] parts[i]),
    ensures
        replace_newlines(join_with(wrapped_lines(parts, max), seq!['\n']), slot_separator())
            == join_with(parts, slot_separator()),
        line_count(join_with(wrapped_lines(parts, max), seq!['\n'])) == wrapped_lines(
            parts,
            max,
        ).len(),
{
    lemma_wrapping_keeps_slots(parts, max);
    let w = wrapped_lines(parts, max);
    if parts.len() > 0 {
        lemma_wrap_prefix(parts, max, parts.len());
        lemma_wrap_prefix_single_line(parts, max, parts.len());
        let st = wrap_prefix(parts, max, parts.len());
        assert forall|i: int| 0 <= i < w.len() implies single_line(#[trigger] w[i]) by {
            if i < st.0.len() {
                assert(w[i] == st.0[i]);
            }
        }
        lemma_join_lines(w, slot_separator());
        let t = join_with(w, seq!['\n']);
        let last = w.last();
        assert(last == st.1);
        assert(last.len() > 0);
        assert(last[last.len() - 1] != '\n');
        if w.len() == 1 {
            assert(t == w[0]);
        } else {
            assert(t == join_with(w.drop_last(), seq!['\n']) + seq!['\n'] + last);
        }
        assert(t.len() > 0);
        assert(t.last() == last.last());
    } else {
        assert(w.len() == 0);
        lemma_join_lines(w, slot_separator());
    }
}

/// The line width used for wrapping: at least 20.
pub open spec fn wrap_width(max_chars: usize) -> nat {
    if max_chars < 20 {
        20
    } else {
        max_chars as nat
    }
}

/// Characters per line estimated for a window `win_width` pixels wide.
pub open spec fn chars_for_width(win_width: i32) -> usize {
    let a: int = if win_width - 16 < 40 {
        40
    } else {
        win_width - 16
    };
    let b: int = a / 7;
    (if b < 20 {
        20
    } else {
        b
    }) as usize
}

/// Pixel height for `lines` lines of status text: 17 per line plus 8, at
/// least 25; `i32::MAX` where that does not fit an `i32`.
pub open spec fn height_for_lines(lines: nat) -> i32 {
    let c: int = if lines < 1 {
        1
    } else {
        lines as int
    };
    if c * 17 + 8 > i32::MAX {
        i32::MAX
    } else if c * 17 + 8 < 25 {
        25
    } else {
        (c * 17 + 8) as i32
    }
}

fn wrap_slots(parts: &Vec<Vec<char>>, max: usize) -> (lines: Vec<Vec<char>>)
    ensures
        seqs_of(lines@) == wrapped_lines(seqs_of(parts@), max as nat),
{
    let ghost ps = seqs_of(parts@);
    let sep: Vec<char> = vec![' ', ' ', '|', ' ', ' '];
    assert(sep@ =~= slot_separator());
    let mut lines: Vec<Vec<char>> = Vec::new();
    let mut cur: Vec<char> = Vec::new();
    let mut i: usize = 0;
    while i < parts.len()
        invariant
            i <= parts.len(),
            ps == seqs_of(parts@),
            sep@ == slot_separator(),
            (seqs_of(lines@), cur@) == wrap_prefix(ps, max as nat, i as nat),
        decreases parts.len() - i,
    {
        let part = &parts[i];
        assert(ps[i as int] == part@);
        let cand_len: u128 = if cur.len() == 0 {
            part.len() as u128
        } else {
            cur.len() as u128 + 5 + part.len() as u128
        };
        if cand_len > max as u128 && cur.len() != 0 {
            let ghost old_lines = lines@;
            lines.push(cur);
            assert(seqs_of(lines@) =~= seqs_of(old_lines).push(seqs_of(lines@).last()));
            cur = copy_chars(part);
        } else if cur.len() == 0 {
            cur = copy_chars(part);
        } else {
            extend_chars(&mut cur, &sep);
            extend_chars(&mut cur, part);
        }
        i = i + 1;
    }
    if parts.len() > 0 {
        let ghost old_lines = lines@;
        lines.push(cur);
        assert(seqs_of(lines@) =~= seqs_of(old_lines).push(seqs_of(lines@).last()));
    }
    lines
}

impl StatusBarManager {
    /// The slots for given timing labels and memory text.
    pub open spec fn status_parts(&self, labels: Seq<Seq<char>>, memory: Seq<char>) -> Seq<Seq<char>> {
        status_slots(self.current_activity(), self.progress_text(), labels, memory)
    }

    /// The wrapped status text for given timing labels and memory text.
    pub open spec fn wrapped_text(&self, labels: Seq<Seq<char>>, memory: Seq<char>, max_chars: usize) -> Seq<
        char,
    > {
        join_with(wrapped_lines(self.status_parts(labels, memory), wrap_width(max_chars)), seq!['\n'])
    }

    /// `labels` are texts `format_entry` may give for the timed entries, in
    /// order.
    pub open spec fn labels_from<F: Fn(&String, Duration) -> String>(
        &self,
        labels: Seq<String>,
        format_entry: F,
    ) -> bool {
        labels.len() == self.entries().len() && forall|i: int|
            0 <= i < labels.len() ==> format_entry.ensures(
                (&self.entries()[i].key, self.entries()[i].duration),
                #[trigger] labels[i],
            )
    }

    fn timing_labels<F: Fn(&String, Duration) -> String>(&self, format_entry: &F) -> (labels: Vec<
        String,
    >)
        requires
            forall|k: &String, d: Duration| format_entry.requires((k, d)),
        ensures
            labels.len() == self.entries().len(),
            forall|i: int|
                0 <= i < labels.len() ==> format_entry.ensures(
                    (&self.entries()[i].key, self.entries()[i].duration),
                    #[trigger] labels@[i],
                ),
    {
        let mut labels: Vec<String> = Vec::new();
        let mut i: usize = 0;
        while i < self.timings.len()
            invariant
                i <= self.timings.len(),
                labels.len() == i,
                forall|k: &String, d: Duration| format_entry.requires((k, d)),
                forall|j: int|
                    0 <= j < i ==> format_entry.ensures(
                        (&self.timings@[j].key, self.timings@[j].duration),
                        #[trigger] labels@[j],
                    ),
            decreases self.timings.len() - i,
        {
            let label = format_entry(&self.timings[i].key, self.timings[i].duration);
            labels.push(label);
            i = i + 1;
        }
        labels
    }

    fn slot_chars(&self, labels: &Vec<String>, memory: &str) -> (parts: Vec<Vec<char>>)
        ensures
            seqs_of(parts@) == status_slots(
                self.current_activity(),
                self.progress_text(),
                string_views(labels@),
                memory@,
            ),
    {
        let mut parts: Vec<Vec<char>> = Vec::new();
        let mut slot = chars_of(self.activity.as_str());
        match &self.progress {
            Some(p) => {
                slot.push(' ');
                slot.push('(');
                let pc = chars_of(p.as_str());
                extend_chars(&mut slot, &pc);
                slot.push(')');
            },
            None => {},
        }
        assert(slot@ =~= activity_slot(self.current_activity(), self.progress_text()));
        parts.push(slot);
        let mut i: usize = 0;
        while i < labels.len()
            invariant
                i <= labels.len(),
                seqs_of(parts@) =~= seq![activity_slot(self.current_activity(), self.progress_text())]
                    + string_views(labels@).take(i as int),
            decreases labels.len() - i,
        {
            let c = chars_of(labels[i].as_str());
            let ghost before = parts@;
            parts.push(c);
            proof {
                assert(seqs_of(parts@) =~= seqs_of(before).push(c@));
                assert(string_views(labels@).take(i + 1) =~= string_views(labels@).take(i as int).push(
                    labels@[i as int]@,
                ));
            }
            i = i + 1;
        }
        let mut mem: Vec<char> = vec!['M', 'e', 'm', 'o', 'r', 'y', ':', ' '];
        let mc = chars_of(memory);
        extend_chars(&mut mem, &mc);
        parts.push(mem);
        assert(string_views(labels@).take(labels.len() as int) =~= string_views(labels@));
        assert(seqs_of(parts@) =~= status_slots(
            self.current_activity(),
            self.progress_text(),
            string_views(labels@),
            memory@,
        ));
        parts
    }

    /// The status bar text for given timing labels: the slots separated by
    /// `"  |  "`.
    pub fn render_with_labels(&self, labels: &Vec<String>, memory: &str) -> (s: String)
        ensures
            s@ == join_with(self.status_parts(string_views(labels@), memory@), slot_separator()),
    {
        let parts = self.slot_chars(labels, memory);
        let sep: Vec<char> = vec![' ', ' ', '|', ' ', ' '];
        assert(sep@ =~= slot_separator());
        join_chars(&parts, &sep)
    }

    /// The status bar text for given timing labels, wrapped to lines of at
    /// most `max(max_chars, 20)` characters where possible: a line breaks
    /// at a slot boundary when adding the next slot would make it too long.
    pub fn render_wrapped_with_labels(&self, labels: &Vec<String>, max_chars: usize, memory: &str) -> (s:
        String)
        ensures
            s@ == self.wrapped_text(string_views(labels@), memory@, max_chars),
    {
        let parts = self.slot_chars(labels, memory);
        let max = if max_chars < 20 { 20 } else { max_chars };
        let lines = wrap_slots(&parts, max);
        let nl: Vec<char> = vec!['\n'];
        assert(nl@ =~= seq!['\n']);
        join_chars(&lines, &nl)
    }

    /// Pixel height the status bar needs, with given timing labels, in a
    /// window `win_width` pixels wide, estimating 7 pixels per character.
    pub fn measure_height_with_labels(&self, labels: &Vec<String>, win_width: i32, memory: &str) -> (h:
        i32)
        requires
            win_width >= i32::MIN + 16,
        ensures
            h == height_for_lines(
                line_count(self.wrapped_text(string_views(labels@), memory@, chars_for_width(win_width))),
            ),
    {
        let max_chars = chars_per_line(win_width);
        let text = self.render_wrapped_with_labels(labels, max_chars, memory);
        let n = count_lines(text.as_str());
        let c: usize = if n < 1 { 1 } else { n };
        if c > ((i32::MAX - 8) / 17) as usize {
            i32::MAX
        } else {
            let h = (c as i32) * 17 + 8;
            if h < 25 {
                25
            } else {
                h
            }
        }
    }

    /// The status bar text: the slots separated by `"  |  "`. Each timed
    /// entry's slot is the text `format_entry` gives for its key and
    /// duration; `memory` is the memory-use text.
    pub fn render<F: Fn(&String, Duration) -> String>(&self, memory: &str, format_entry: F) -> (s:
        String)
        requires
            forall|k: &String, d: Duration| format_entry.requires((k, d)),
        ensures
            exists|labels: Seq<String>|
                self.labels_from(labels, format_entry) && s@ == join_with(
                    self.status_parts(string_views(labels), memory@),
                    slot_separator(),
                ),
    {
        let labels = self.timing_labels(&format_entry);
        assert(self.labels_from(labels@, format_entry));
        self.render_with_labels(&labels, memory)
    }

    /// The status bar text wrapped to lines of at most `max(max_chars, 20)`
    /// characters where possible, each timed entry's slot being the text
    /// `format_entry` gives.
    pub fn render_wrapped<F: Fn(&String, Duration) -> String>(
        &self,
        max_chars: usize,
        memory: &str,
        format_entry: F,
    ) -> (s: String)
        requires
            forall|k: &String, d: Duration| format_entry.requires((k, d)),
        ensures
            exists|labels: Seq<String>|
                self.labels_from(labels, format_entry) && s@ == self.wrapped_text(
                    string_views(labels),
                    memory@,
                    max_chars,
                ),
    {
        let labels = self.timing_labels(&format_entry);
        assert(self.labels_from(labels@, format_entry));
        self.render_wrapped_with_labels(&labels, max_chars, memory)
    }

    /// Pixel height the status bar needs in a window `win_width` pixels wide,
    /// estimating 7 pixels per character, each timed entry's slot being the
    /// text `format_entry` gives.
    pub fn measure_height<F: Fn(&String, Duration) -> String>(
        &self,
        win_width: i32,
        memory: &str,
        format_entry: F,
    ) -> (h: i32)
        requires
            win_width >= i32::MIN + 16,
            forall|k: &String, d: Duration| format_entry.requires((k, d)),
        ensures
            exists|labels: Seq<String>|
                self.labels_from(labels, format_entry) && h == height_for_lines(
                    line_count(
                        self.wrapped_text(string_views(labels), memory@, chars_for_width(win_width)),
                    ),
                ),
    {
        let labels = self.timing_labels(&format_entry);
        assert(self.labels_from(labels@, format_entry));
        self.measure_height_with_labels(&labels, win_width, memory)
    }
}

/// For the same timing labels and memory text: the wrapped status text with
/// its line breaks turned back into slot separators is the one-line status
/// text, and the height measured for a window is 17 pixels per line of the
/// status text wrapped at that window's width, plus 8 (at least 25, capped
/// at `i32::MAX`); there is at least one line. This holds when the
/// activity has text and the activity, progress, labels and memory text
/// hold no line break, and every label has text.
pub proof fn lemma_status_text_laws(
    s: &StatusBarManager,
    labels: Seq<Seq<char>>,
    memory: Seq<char>,
    max_chars: usize,
    win_width: i32,
)
    requires
        s.current_activity().len() > 0,
        single_line(s.current_activity()),
        s.progress_text() matches Some(p) ==> single_line(p),
        single_line(memory),
        forall|i: int| 0 <= i < labels.len() ==> (#[trigger] labels[i]).len() > 0,
        forall|i: int| 0 <= i < labels.len() ==> single_line(#[trigger] labels[i]),
    ensures
        replace_newlines(s.wrapped_text(labels, memory, max_chars), slot_separator()) == join_with(
            s.status_parts(labels, memory),
            slot_separator(),
        ),
        line_count(s.wrapped_text(labels, memory, chars_for_width(win_width))) == wrapped_lines(
            s.status_parts(labels, memory),
            wrap_width(chars_for_width(win_width)),
        ).len(),
        wrapped_lines(s.status_parts(labels, memory), wrap_width(chars_for_width(win_width))).len()
            >= 1,
{
    let parts = s.status_parts(labels, memory);
    let a = activity_slot(s.current_activity(), s.progress_text());
    assert(single_line(a)) by {
        match s.progress_text() {
            Some(p) => {
                let act = s.current_activity();
                assert forall|i: int| 0 <= i < a.len() implies a[i] != '\n' by {
                    if i < act.len() {
                        assert(a[i] == act[i]);
                    } else if act.len() + 2 <= i < act.len() + 2 + p.len() {
                        assert(a[i] == p[i - act.len() - 2]);
                    }
                }
            },
            None => {},
        }
    }
    let m = memory_label(memory);
    assert(single_line(m)) by {
        assert forall|i: int| 0 <= i < m.len() implies m[i] != '\n' by {
            if i >= 8 {
                assert(m[i] == memory[i - 8]);
            }
        }
    }
    assert(a.len() > 0);
    assert(m.len() > 0);
    assert forall|i: int| 0 <= i < parts.len() implies (#[trigger] parts[i]).len() > 0 && single_line(
        parts[i],
    ) by {
        if i == 0 {
            assert(parts[i] == a);
        } else if i <= labels.len() {
            assert(parts[i] == labels[i - 1]);
        } else {
            assert(parts[i] == m);
        }
    }
    lemma_wrapped_text_unwraps(parts, wrap_width(max_chars));
    lemma_wrapped_text_unwraps(parts, wrap_width(chars_for_width(win_width)));
    lemma_wrap_prefix(parts, wrap_width(chars_for_width(win_width)), parts.len());
}

/// Characters that fit on one status line of a window `win_width` pixels
/// wide, estimating 7 pixels per character: at least 20.
pub fn chars_per_line(win_width: i32) -> (n: usize)
    requires
        win_width >= i32::MIN + 16,
    ensures
        n == chars_for_width(win_width),
{
    let w = win_width - 16;
    let a = if w < 40 { 40 } else { w };
    let b = a / 7;
    if b < 20 { 20 } else { b as usize }
}

/// Decides whether a throttled redraw is due: at least `min_interval_ms`
/// milliseconds (`min_interval_ms * 1_000_000` nanoseconds) have passed.
pub fn interval_elapsed(elapsed_nanos: u128, min_interval_ms: u64) -> (due: bool)
    ensures
        due == (elapsed_nanos >= min_interval_ms as int * 1_000_000),
{
    elapsed_nanos >= (min_interval_ms as u128) * 1_000_000
}

/// Limits how often something is redone: at most once per interval.
pub struct UpdateThrottle {
    last_update: Option<Instant>,
    min_interval_ms: u64,
}

impl UpdateThrottle {
    /// Minimum interval, in milliseconds.
    pub closed spec fn interval_ms(&self) -> u64 {
        self.min_interval_ms
    }

    /// Whether an update has happened yet.
    pub closed spec fn has_updated(&self) -> bool {
        self.last_update is Some
    }

    /// A throttle whose first `should_update` always answers yes.
    pub fn new(min_interval_ms: u64) -> (t: Self)
        ensures
            t.interval_ms() == min_interval_ms,
            !t.has_updated(),
    {
        UpdateThrottle { last_update: None, min_interval_ms }
    }

    /// Whether the interval has passed since the last update; if so, now
    /// counts as the last update. The first call always answers yes, and a
    /// call that answers no leaves the throttle as it was, so the time of
    /// the last update only moves on a yes.
    ///
    /// Whether a later call answers yes depends on the clock (through
    /// `interval_elapsed` of the time since the last update); the instants
    /// are opaque, so that time is not stated.
    pub fn should_update(&mut self) -> (due: bool)
        ensures
            final(self).interval_ms() == old(self).interval_ms(),
            !old(self).has_updated() ==> due,
            due ==> final(self).has_updated(),
            !due ==> *final(self) == *old(self),
    {
        let now = instant_now();
        match self.last_update {
            None => {
                self.last_update = Some(now);
                true
            },
            Some(last) => {
                let elapsed = duration_nanos(&duration_between(&now, &last));
                if interval_elapsed(elapsed, self.min_interval_ms) {
                    self.last_update = Some(now);
                    true
                } else {
                    false
                }
            },
        }
    }
}

} // verus!
