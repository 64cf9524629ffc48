//! Geometry of the bottom of the main window: the segmentation summary panel
//! and the status bar grow with their text, and the main area above them
//! takes what is left. Also the pacing of the periodic status refresh and
//! when the progress indicator changes.
use vstd::prelude::*;

use crate::ini::split_lines;
use crate::text::chars_of;

verus! {

/// Height of the menu bar.
pub const MENU_H: i32 = 25;

/// Height of the status bar when it holds one line.
pub const STATUS_BAR_BASE_H: i32 = 25;

/// Extra space kept between the main area and the status panels.
pub const STATUS_FFT_OFFSET: i32 = 0;

/// Timer ticks between two status refreshes (about half a second at 16 ms
/// per tick).
pub const STATUS_REFRESH_TICKS: u32 = 30;

/// A widget's position and size in pixels.
#[derive(Debug, Clone, Copy, PartialEq, Eq, Structural)]
pub struct PanelRect {
    pub x: i32,
    pub y: i32,
    pub w: i32,
    pub h: i32,
}

/// Where the main area, the segmentation panel and the status bar go.
#[derive(Debug, Clone, Copy, PartialEq, Eq, Structural)]
pub struct BottomPanels {
    pub root: PanelRect,
    pub status_fft: PanelRect,
    pub status_bar: PanelRect,
}

/// Rows a line takes when wrapped at `width` characters (an empty line
/// takes one).
pub open spec fn line_rows(line: Seq<char>, width: nat) -> nat
    recommends
        width > 0,
{
    let n: nat = if line.len() == 0 {
        1
    } else {
        line.len()
    };
    ((n - 1) as nat) / width + 1
}

/// Rows all the lines take.
pub open spec fn rows_of_lines(lines: Seq<Seq<char>>, width: nat) -> nat
    decreases lines.len(),
{
    if lines.len() == 0 {
        0
    } else {
        rows_of_lines(lines.drop_last(), width) + line_rows(lines.last(), width)
    }
}

/// Rows a text takes, its lines being the pieces between newlines: at
/// least one.
pub open spec fn text_rows(text: Seq<char>, width: nat) -> nat {
    let r = rows_of_lines(split_lines(text), width);
    if r < 1 {
        1
    } else {
        r
    }
}

/// Height of the segmentation panel for `rows` rows of text: 17 pixels a
/// row and 8 of padding, at least 24.
pub open spec fn panel_height(rows: nat) -> int {
    if rows * 17 + 8 < 24 {
        24
    } else {
        (rows * 17 + 8) as int
    }
}

/// Where the panels go in a `win_w` by `win_h` window, with a status bar
/// `bar_h` high and a segmentation panel `fft_h` high, stacked at the
/// bottom under the menu and main area.
pub open spec fn bottom_panels_spec(win_w: i32, win_h: i32, bar_h: i32, fft_h: i32) -> BottomPanels {
    BottomPanels {
        root: PanelRect {
            x: 0,
            y: MENU_H,
            w: win_w,
            h: (win_h - MENU_H - bar_h - fft_h - STATUS_FFT_OFFSET) as i32,
        },
        status_fft: PanelRect {
            x: 0,
            y: (win_h - bar_h - fft_h - STATUS_FFT_OFFSET) as i32,
            w: win_w,
            h: fft_h,
        },
        status_bar: PanelRect { x: 0, y: (win_h - bar_h) as i32, w: win_w, h: bar_h },
    }
}

proof fn lemma_line_rows_bound(line: Seq<char>, width: nat)
    requires
        width > 0,
    ensures
        line_rows(line, width) <= line.len() + 1,
        line_rows(line, width) >= 1,
{
    let n: nat = if line.len() == 0 {
        1
    } else {
        line.len()
    };
    assert(((n - 1) as nat) / width <= (n - 1) as nat) by (nonlinear_arith)
        requires
            width > 0,
    ;
}

/// Rows a text takes when each of its lines wraps at `width_chars`
/// characters; a text with no rows counts as one.
pub fn wrapped_row_count(text: &str, width_chars: usize) -> (rows: usize)
    requires
        width_chars > 0,
        text@.len() < usize::MAX,
    ensures
        rows == text_rows(text@, width_chars as nat),
{
    let v = chars_of(text);
    let len = v.len();
    let ghost w = width_chars as nat;
    let mut total: usize = 0;
    let mut start: usize = 0;
    let mut i: usize = 0;
    while i < len
        invariant
            start <= i <= len == v.len(),
            len < usize::MAX,
            w == width_chars as nat,
            width_chars > 0,
            start == 0 || v@[start - 1] == '\n',
            forall|k: int| start <= k < i ==> v@[k] != '\n',
            total == rows_of_lines(split_lines(v@.take(start as int)).drop_last(), w),
            total <= start,
        decreases len - i,
    {
        if v[i] == '\n' {
            let n = i - start;
            let m: usize = if n == 0 { 1 } else { n };
            let r = (m - 1) / width_chars + 1;
            proof {
                let pre = v@.take(start as int);
                let seg = v@.subrange(start as int, i as int);
                crate::ini::lemma_split_lines_append(pre, seg);
                assert(pre + seg =~= v@.take(i as int));
                assert(v@.take(i + 1).drop_last() =~= v@.take(i as int));
                let sp = split_lines(pre);
                if start == 0 {
                    assert(pre =~= Seq::<char>::empty());
                } else {
                    assert(pre.drop_last() =~= v@.take(start - 1));
                }
                assert(sp.last() =~= Seq::<char>::empty());
                let done = split_lines(v@.take(i + 1)).drop_last();
                assert(done =~= sp.drop_last().push(seg));
                assert(done.drop_last() =~= sp.drop_last());
                assert(r == line_rows(seg, w));
                lemma_line_rows_bound(seg, w);
            }
            total = total + r;
            start = i + 1;
        }
        i = i + 1;
    }
    let n = len - start;
    let m: usize = if n == 0 { 1 } else { n };
    let r = (m - 1) / width_chars + 1;
    proof {
        let pre = v@.take(start as int);
        let seg = v@.subrange(start as int, len as int);
        crate::ini::lemma_split_lines_append(pre, seg);
        assert(pre + seg =~= v@);
        let sp = split_lines(pre);
        if start == 0 {
            assert(pre =~= Seq::<char>::empty());
        } else {
            assert(pre.drop_last() =~= v@.take(start - 1));
        }
        assert(sp.last() =~= Seq::<char>::empty());
        let all = split_lines(v@);
        assert(all =~= sp.drop_last().push(seg));
        assert(all.drop_last() =~= sp.drop_last());
        assert(r == line_rows(seg, w));
        lemma_line_rows_bound(seg, w);
    }
    let total = total + r;
    if total < 1 {
        1
    } else {
        total
    }
}

/// Height of the segmentation panel for `rows` rows of text.
pub fn fft_panel_height(rows: usize) -> (h: i32)
    requires
        rows * 17 + 8 <= i32::MAX,
    ensures
        h == panel_height(rows as nat),
{
    let h = (rows as i32) * 17 + 8;
    if h < 24 {
        24
    } else {
        h
    }
}

/// Where the main area, the segmentation panel and the status bar go.
pub fn bottom_panels(win_w: i32, win_h: i32, bar_h: i32, fft_h: i32) -> (p: BottomPanels)
    requires
        win_h >= i32::MIN + MENU_H,
        i32::MIN <= win_h - MENU_H - bar_h <= i32::MAX,
        i32::MIN <= win_h - MENU_H - bar_h - fft_h <= i32::MAX,
        i32::MIN <= win_h - bar_h <= i32::MAX,
        i32::MIN <= win_h - bar_h - fft_h <= i32::MAX,
    ensures
        p == bottom_panels_spec(win_w, win_h, bar_h, fft_h),
{
    BottomPanels {
        root: PanelRect {
            x: 0,
            y: MENU_H,
            w: win_w,
            h: win_h - MENU_H - bar_h - fft_h - STATUS_FFT_OFFSET,
        },
        status_fft: PanelRect {
            x: 0,
            y: win_h - bar_h - fft_h - STATUS_FFT_OFFSET,
            w: win_w,
            h: fft_h,
        },
        status_bar: PanelRect { x: 0, y: win_h - bar_h, w: win_w, h: bar_h },
    }
}

/// The panels fill the window below the menu without gaps or overlap: the
/// main area ends where the segmentation panel starts, that panel ends where
/// the status bar starts, and the status bar ends at the bottom of the
/// window; all three span the window's width.
pub proof fn lemma_panels_stack(win_w: i32, win_h: i32, bar_h: i32, fft_h: i32)
    requires
        win_h >= i32::MIN + MENU_H,
        i32::MIN <= win_h - MENU_H - bar_h <= i32::MAX,
        i32::MIN <= win_h - MENU_H - bar_h - fft_h <= i32::MAX,
        i32::MIN <= win_h - bar_h <= i32::MAX,
        i32::MIN <= win_h - bar_h - fft_h <= i32::MAX,
    ensures
        ({
            let p = bottom_panels_spec(win_w, win_h, bar_h, fft_h);
            &&& p.root.y == MENU_H
            &&& p.root.y + p.root.h + STATUS_FFT_OFFSET == p.status_fft.y
            &&& p.status_fft.y + p.status_fft.h == p.status_bar.y
            &&& p.status_bar.y + p.status_bar.h == win_h
            &&& p.root.x == 0 && p.status_fft.x == 0 && p.status_bar.x == 0
            &&& p.root.w == win_w && p.status_fft.w == win_w && p.status_bar.w == win_w
        }),
{
}

/// Counts timer ticks and says when the status is due for a refresh.
pub struct RefreshCounter {
    ticks: u32,
}

impl RefreshCounter {
    #[verifier::type_invariant]
    spec fn counter_ok(self) -> bool {
        self.ticks < STATUS_REFRESH_TICKS
    }

    /// Ticks counted since the last refresh.
    pub closed spec fn ticks(self) -> nat {
        self.ticks as nat
    }

    /// A counter that has seen no tick.
    pub fn new() -> (c: Self)
        ensures
            c.ticks() == 0,
    {
        RefreshCounter { ticks: 0 }
    }

    /// Counts a tick; answers whether the status is due for a refresh, which
    /// is on every `STATUS_REFRESH_TICKS`-th tick.
    pub fn tick(&mut self) -> (due: bool)
        ensures
            old(self).ticks() < STATUS_REFRESH_TICKS,
            due == (old(self).ticks() + 1 == STATUS_REFRESH_TICKS),
            final(self).ticks() == if due {
                0
            } else {
                old(self).ticks() + 1
            },
    {
        proof {
            use_type_invariant(&*self);
        }
        let next = self.ticks + 1;
        if next >= STATUS_REFRESH_TICKS {
            self.ticks = 0;
            true
        } else {
            self.ticks = next;
            false
        }
    }
}

/// What the periodic refresh does to the progress indicator.
#[derive(Debug, Clone, Copy, PartialEq, Eq, Structural)]
pub enum ProgressStep {
    /// Leave it as it is.
    Keep,
    /// Show `done` of `total` frames.
    Show,
    /// Take it away: all frames are done.
    Clear,
}

/// What the periodic refresh does to the progress indicator while work is
/// in flight: show the count while some but not all frames are done, clear
/// it once all are done, else leave it.
pub fn progress_step(is_processing: bool, done: usize, total: usize) -> (step: ProgressStep)
    ensures
        step == if !is_processing || total == 0 {
            ProgressStep::Keep
        } else if 0 < done && done < total {
            ProgressStep::Show
        } else if done >= total {
            ProgressStep::Clear
        } else {
            ProgressStep::Keep
        },
{
    if !is_processing || total == 0 {
        ProgressStep::Keep
    } else if done > 0 && done < total {
        ProgressStep::Show
    } else if done >= total {
        ProgressStep::Clear
    } else {
        ProgressStep::Keep
    }
}

} // verus!
