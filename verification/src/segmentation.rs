//! Integer side of the segmentation solver: window lengths kept even and in
//! range, segment counts, and the local search for the window length whose
//! segment count comes closest to a target.
use vstd::prelude::*;

verus! {

/// Which segmentation field the user edited last; the solver keeps that
/// field fixed and adjusts the others.
#[derive(Debug, Clone, Copy, PartialEq, Eq, Structural)]
pub enum LastEditedField {
    Overlap,
    SegmentsPerActive,
    BinsPerSegment,
}

/// Segment lengths offered as presets in the sidebar.
pub const SEG_PRESETS: [usize; 9] = [256, 512, 1024, 2048, 4096, 8192, 16384, 32768, 65536];

/// The preset list as a sequence.
pub open spec fn seg_presets() -> Seq<usize> {
    seq![256usize, 512, 1024, 2048, 4096, 8192, 16384, 32768, 65536]
}

/// `max(x, 2)`.
pub open spec fn at_least_two(x: usize) -> usize {
    if x < 2 {
        2
    } else {
        x
    }
}

/// The window length `value` brought into `[max(min, 2), max(max, 2)]` and then
/// made even: an odd length moves up by one, or down by one when it sits at
/// `max`.
pub open spec fn clamp_even_value(value: usize, min: usize, max: usize) -> usize {
    let lo = at_least_two(min);
    let hi = at_least_two(max);
    let v = if value < lo {
        lo
    } else if value > hi {
        hi
    } else {
        value
    };
    let w = if v % 2 != 0 {
        if v == max {
            (v - 1) as usize
        } else {
            (v + 1) as usize
        }
    } else {
        v
    };
    at_least_two(w)
}

/// Number of whole windows of length `window`, stepped by `hop` (at least 1),
/// that fit in `active` samples.
pub open spec fn segment_count(active: usize, window: usize, hop: usize) -> nat {
    if active < window {
        0
    } else {
        ((active - window) as nat / (if hop < 1 { 1 } else { hop }) as nat + 1) as nat
    }
}

/// `|a - b|`.
pub open spec fn abs_diff(a: usize, b: usize) -> usize {
    if a >= b {
        (a - b) as usize
    } else {
        (b - a) as usize
    }
}

/// Number of search steps on each side of the approximate window.
pub open spec fn search_steps() -> nat {
    256
}

/// The unclamped candidate examined at `step` on `side` (0 below, 1 above):
/// the approximation itself at step 0, else the approximation moved by
/// `2 * step`, saturating at the ends of `usize`.
pub open spec fn raw_candidate(approx: usize, step: nat, side: nat) -> usize {
    if step == 0 {
        approx
    } else if side == 0 {
        if approx >= 2 * step {
            (approx - 2 * step) as usize
        } else {
            0
        }
    } else {
        if approx + 2 * step <= usize::MAX {
            (approx + 2 * step) as usize
        } else {
            usize::MAX
        }
    }
}

/// The search order of candidate windows: for each step, the lower then the
/// upper candidate, each clamped and made even.
pub open spec fn candidate_window(approx: usize, min: usize, max: usize, i: int) -> usize {
    clamp_even_value(raw_candidate(approx, (i / 2) as nat, (i % 2) as nat), min, max)
}

/// Whether a candidate with error `err` and distance `dist` replaces the
/// current best: smaller error first, then smaller distance, then smaller
/// window.
pub open spec fn improves(
    err: usize,
    dist: usize,
    cand: usize,
    best_err: usize,
    best_dist: usize,
    best: usize,
) -> bool {
    ||| err < best_err
    ||| (err == best_err && dist < best_dist)
    ||| (err == best_err && dist == best_dist && cand < best)
}

/// The search over `cands` (with segment counts `segs`) from position `i`,
/// holding the current best window and its error and distance. It stops at
/// the first candidate whose segment count equals the target.
pub open spec fn best_window_from(
    approx: usize,
    target: usize,
    cands: Seq<usize>,
    segs: Seq<usize>,
    i: int,
    best: usize,
    best_err: usize,
    best_dist: usize,
) -> usize
    decreases cands.len() - i,
{
    if i < 0 || i >= cands.len() {
        best
    } else {
        let cand = cands[i];
        let err = abs_diff(segs[i], target);
        let dist = abs_diff(cand, approx);
        if improves(err, dist, cand, best_err, best_dist, best) {
            if err == 0 {
                cand
            } else {
                best_window_from(approx, target, cands, segs, i + 1, cand, err, dist)
            }
        } else if best_err == 0 {
            best
        } else {
            best_window_from(approx, target, cands, segs, i + 1, best, best_err, best_dist)
        }
    }
}

/// The window the search settles on, starting from the approximation.
pub open spec fn best_window(
    approx: usize,
    target: usize,
    cands: Seq<usize>,
    segs: Seq<usize>,
) -> usize {
    best_window_from(approx, target, cands, segs, 0, approx, usize::MAX, usize::MAX)
}

/// Keeps a window length even and within `[max(min, 2), max(max, 2)]`
/// (one below the lower bound only when both bounds are the same odd number).
pub fn clamp_even(value: usize, min: usize, max: usize) -> (r: usize)
    requires
        at_least_two(min) <= at_least_two(max),
    ensures
        r == clamp_even_value(value, min, max),
        r % 2 == 0,
        2 <= r <= at_least_two(max),
        at_least_two(min) <= r + 1,
        value % 2 == 0 && at_least_two(min) <= value <= at_least_two(max) ==> r == value,
{
    let lo = if min < 2 { 2 } else { min };
    let hi = if max < 2 { 2 } else { max };
    let mut v = if value < lo {
        lo
    } else if value > hi {
        hi
    } else {
        value
    };
    if v % 2 != 0 {
        v = if v == max { v - 1 } else { v + 1 };
    }
    if v < 2 {
        2
    } else {
        v
    }
}

/// Number of windows of length `window`, stepped by `hop` (taken as at
/// least 1), that fit in `active_samples`.
pub fn num_segments(active_samples: usize, window: usize, hop: usize) -> (n: usize)
    requires
        segment_count(active_samples, window, hop) <= usize::MAX,
    ensures
        n == segment_count(active_samples, window, hop),
{
    if active_samples < window {
        return 0;
    }
    let h = if hop < 1 { 1 } else { hop };
    (active_samples - window) / h + 1
}

/// Clamping an already clamped window length changes nothing.
pub proof fn lemma_clamp_even_stable(value: usize, min: usize, max: usize)
    requires
        at_least_two(min) <= at_least_two(max),
    ensures
        clamp_even_value(clamp_even_value(value, min, max), min, max) == clamp_even_value(
            value,
            min,
            max,
        ),
{
}

/// Number of analysis frames over `total_samples`: the frames of
/// `num_segments`, with the signal padded by one window length when frames
/// are centered; none when the signal is shorter than one window.
pub fn frame_count(total_samples: usize, window_length: usize, hop: usize, use_center: bool) -> (n:
    usize)
    requires
        hop >= 1,
        use_center ==> total_samples + window_length <= usize::MAX,
        total_samples >= window_length && use_center ==> total_samples / hop < usize::MAX,
        total_samples >= window_length && !use_center ==> (total_samples - window_length) / (hop as int)
            < usize::MAX,
    ensures
        total_samples < window_length ==> n == 0,
        total_samples >= window_length && use_center ==> n == total_samples / hop + 1,
        total_samples >= window_length && !use_center ==> n == (total_samples - window_length)
            / (hop as int) + 1,
{
    if total_samples < window_length {
        return 0;
    }
    let padded = if use_center {
        total_samples + window_length
    } else {
        total_samples
    };
    (padded - window_length) / hop + 1
}

/// Number of frequency bins of a window of `window` samples zero-padded by
/// `zero_pad_factor` (taken as at least 1).
pub fn bins_for_window(window: usize, zero_pad_factor: usize) -> (bins: usize)
    requires
        window * at_least_one(zero_pad_factor) <= usize::MAX,
    ensures
        bins == (window * at_least_one(zero_pad_factor)) / 2 + 1,
{
    let zpf = if zero_pad_factor < 1 { 1 } else { zero_pad_factor };
    (window * zpf) / 2 + 1
}

/// `max(x, 1)`.
pub open spec fn at_least_one(x: usize) -> usize {
    if x < 1 {
        1
    } else {
        x
    }
}

/// The window length that yields `target_bins` frequency bins at the given
/// zero padding, kept even and within the window bounds.
pub fn window_for_target_bins(target_bins: usize, zero_pad_factor: usize, min: usize, max: usize) -> (w:
    usize)
    requires
        at_least_two(min) <= at_least_two(max),
    ensures
        ({
            let nfft: int = if target_bins < 1 {
                0
            } else if (target_bins - 1) * 2 > usize::MAX {
                usize::MAX as int
            } else {
                (target_bins - 1) * 2
            };
            let from_bins = nfft / at_least_one(zero_pad_factor) as int;
            w == clamp_even_value(
                (if from_bins < 2 {
                    2
                } else {
                    from_bins
                }) as usize,
                min,
                max,
            )
        }),
{
    let zpf = if zero_pad_factor < 1 { 1 } else { zero_pad_factor };
    let less = if target_bins < 1 { 0 } else { target_bins - 1 };
    let nfft = if less > usize::MAX / 2 { usize::MAX } else { less * 2 };
    let q = nfft / zpf;
    let from_bins = if q < 2 { 2 } else { q };
    clamp_even(from_bins, min, max)
}

/// A segment length rounded up to an even length of at least 2.
pub fn round_even(n: usize) -> (r: usize)
    requires
        n < usize::MAX,
    ensures
        n < 2 ==> r == 2,
        n >= 2 && n % 2 == 1 ==> r == n + 1,
        n >= 2 && n % 2 == 0 ==> r == n,
{
    if n < 2 {
        2
    } else if n % 2 != 0 {
        n + 1
    } else {
        n
    }
}

/// Samples of the analysis range `[start, stop)` that lie within audio of
/// `len` samples (none when the range is empty or inverted).
pub fn active_sample_count(start: usize, stop: usize, len: usize) -> (n: usize)
    ensures
        ({
            let s = if start < len { start } else { len };
            let e = if stop < len { stop } else { len };
            n == if e > s { e - s } else { 0 }
        }),
{
    let s = if start < len { start } else { len };
    let e = if stop < len { stop } else { len };
    if e > s { e - s } else { 0 }
}

/// The segment length a typed size asks for: brought into
/// `[4, max(active_samples, 4)]`, then rounded up to an even length.
pub fn typed_segment_size(raw: usize, active_samples: usize) -> (n: usize)
    requires
        active_samples < usize::MAX,
    ensures
        ({
            let hi: int = if active_samples < 4 { 4 } else { active_samples as int };
            let c: int = if raw < 4 { 4 } else if raw > hi { hi } else { raw as int };
            n == if c % 2 == 1 { c + 1 } else { c }
        }),
        n % 2 == 0,
        4 <= n,
{
    let hi = if active_samples < 4 { 4 } else { active_samples };
    let c = if raw < 4 { 4 } else if raw > hi { hi } else { raw };
    round_even(c)
}

/// Position of `size` in the preset list, if it is a preset.
pub fn find_preset_index(size: usize) -> (r: Option<usize>)
    ensures
        match r {
            Some(i) => i < 9 && seg_presets()[i as int] == size && forall|j: int|
                0 <= j < i ==> seg_presets()[j] != size,
            None => forall|j: int| 0 <= j < 9 ==> seg_presets()[j] != size,
        },
{
    let presets = SEG_PRESETS;
    assert(presets@ =~= seg_presets());
    let mut i: usize = 0;
    while i < 9
        invariant
            i <= 9,
            presets@ == seg_presets(),
            forall|j: int| 0 <= j < i ==> seg_presets()[j] != size,
        decreases 9 - i,
    {
        if presets[i] == size {
            return Some(i);
        }
        i = i + 1;
    }
    None
}

/// The candidate windows of the local search around `approx`, in the order
/// they are examined (`2 * 256` entries, the first two both `approx` clamped).
pub fn window_candidates(approx: usize, min: usize, max: usize) -> (cands: Vec<usize>)
    requires
        at_least_two(min) <= at_least_two(max),
    ensures
        cands.len() == 2 * search_steps(),
        forall|i: int| 0 <= i < cands.len() ==> cands@[i] == candidate_window(approx, min, max, i),
{
    let mut cands: Vec<usize> = Vec::new();
    let mut step: usize = 0;
    while step < 256
        invariant
            step <= 256,
            at_least_two(min) <= at_least_two(max),
            cands.len() == 2 * step,
            forall|i: int| 0 <= i < cands.len() ==> cands@[i] == candidate_window(approx, min, max, i),
        decreases 256 - step,
    {
        let (below, above) = if step == 0 {
            (approx, approx)
        } else {
            let down = if approx >= step * 2 { approx - step * 2 } else { 0 };
            let up = if approx <= usize::MAX - step * 2 { approx + step * 2 } else { usize::MAX };
            (down, up)
        };
        assert(below == raw_candidate(approx, step as nat, 0));
        assert(above == raw_candidate(approx, step as nat, 1));
        let c0 = clamp_even(below, min, max);
        cands.push(c0);
        let c1 = clamp_even(above, min, max);
        cands.push(c1);
        proof {
            let k0: int = 2 * step;
            let k1: int = 2 * step + 1;
            assert(k0 / 2 == step && k0 % 2 == 0);
            assert(k1 / 2 == step && k1 % 2 == 1);
        }
        step = step + 1;
    }
    cands
}

/// The window the local search picks among `cands`, whose segment counts are
/// `segs`: the first candidate whose count equals `target`, or else the one
/// with the smallest error, then the smallest distance from `approx`, then
/// the smallest length.
pub fn pick_best_window(approx: usize, target: usize, cands: &Vec<usize>, segs: &Vec<usize>) -> (w:
    usize)
    requires
        cands.len() == segs.len(),
    ensures
        w == best_window(approx, target, cands@, segs@),
{
    let mut best = approx;
    let mut best_err = usize::MAX;
    let mut best_dist = usize::MAX;
    let mut i: usize = 0;
    while i < cands.len()
        invariant
            i <= cands.len() == segs.len(),
            best_err != 0,
            best_window(approx, target, cands@, segs@) == best_window_from(
                approx,
                target,
                cands@,
                segs@,
                i as int,
                best,
                best_err,
                best_dist,
            ),
        decreases cands.len() - i,
    {
        let cand = cands[i];
        let s = segs[i];
        let err = if s >= target { s - target } else { target - s };
        let dist = if cand >= approx { cand - approx } else { approx - cand };
        if err < best_err || (err == best_err && dist < best_dist) || (err == best_err && dist
            == best_dist && cand < best) {
            best = cand;
            best_err = err;
            best_dist = dist;
            if best_err == 0 {
                return best;
            }
        }
        i = i + 1;
    }
    best
}

/// Search error of candidate `k`.
pub open spec fn candidate_error(segs: Seq<usize>, target: usize, k: int) -> usize {
    abs_diff(segs[k], target)
}

proof fn lemma_best_window_from_minimal(
    approx: usize,
    target: usize,
    cands: Seq<usize>,
    segs: Seq<usize>,
    i: int,
    best: usize,
    best_err: usize,
    best_dist: usize,
)
    requires
        0 <= i <= cands.len(),
        cands.len() == segs.len(),
        best_err != 0,
    ensures
        ({
            let r = best_window_from(approx, target, cands, segs, i, best, best_err, best_dist);
            ||| (r == best && forall|k: int|
                i <= k < cands.len() ==> best_err <= #[trigger] candidate_error(segs, target, k))
            ||| exists|j: int|
                i <= j < cands.len() && cands[j] == r && candidate_error(segs, target, j)
                    <= best_err && forall|k: int|
                    i <= k < cands.len() ==> candidate_error(segs, target, j)
                        <= #[trigger] candidate_error(segs, target, k)
        }),
    decreases cands.len() - i,
{
    if i < cands.len() {
        let cand = cands[i];
        let err = abs_diff(segs[i], target);
        let dist = abs_diff(cand, approx);
        assert(err == candidate_error(segs, target, i));
        if improves(err, dist, cand, best_err, best_dist, best) {
            if err != 0 {
                lemma_best_window_from_minimal(approx, target, cands, segs, i + 1, cand, err, dist);
                let r = best_window_from(approx, target, cands, segs, i + 1, cand, err, dist);
                if r == cand && forall|k: int|
                    i + 1 <= k < cands.len() ==> err <= #[trigger] candidate_error(segs, target, k) {
                    assert forall|k: int| i <= k < cands.len() implies candidate_error(
                        segs,
                        target,
                        i,
                    ) <= #[trigger] candidate_error(segs, target, k) by {
                        if k > i {
                            assert(err <= candidate_error(segs, target, k));
                        }
                    }
                } else {
                    let j = choose|j: int|
                        i + 1 <= j < cands.len() && cands[j] == r && candidate_error(
                            segs,
                            target,
                            j,
                        ) <= err && forall|k: int|
                            i + 1 <= k < cands.len() ==> candidate_error(segs, target, j)
                                <= #[trigger] candidate_error(segs, target, k);
                    assert forall|k: int| i <= k < cands.len() implies candidate_error(
                        segs,
                        target,
                        j,
                    ) <= #[trigger] candidate_error(segs, target, k) by {
                        if k > i {
                            assert(candidate_error(segs, target, j) <= candidate_error(
                                segs,
                                target,
                                k,
                            ));
                        }
                    }
                }
            } else {
                assert forall|k: int| i <= k < cands.len() implies candidate_error(segs, target, i)
                    <= #[trigger] candidate_error(segs, target, k) by {}
            }
        } else {
            lemma_best_window_from_minimal(
                approx,
                target,
                cands,
                segs,
                i + 1,
                best,
                best_err,
                best_dist,
            );
            let r = best_window_from(approx, target, cands, segs, i + 1, best, best_err, best_dist);
            if r == best && forall|k: int|
                i + 1 <= k < cands.len() ==> best_err <= #[trigger] candidate_error(segs, target, k) {
                assert forall|k: int| i <= k < cands.len() implies best_err
                    <= #[trigger] candidate_error(segs, target, k) by {
                    if k > i {
                        assert(best_err <= candidate_error(segs, target, k));
                    }
                }
            } else {
                let j = choose|j: int|
                    i + 1 <= j < cands.len() && cands[j] == r && candidate_error(segs, target, j)
                        <= best_err && forall|k: int|
                        i + 1 <= k < cands.len() ==> candidate_error(segs, target, j)
                            <= #[trigger] candidate_error(segs, target, k);
                assert forall|k: int| i <= k < cands.len() implies candidate_error(segs, target, j)
                    <= #[trigger] candidate_error(segs, target, k) by {
                    if k > i {
                        assert(candidate_error(segs, target, j) <= candidate_error(
                            segs,
                            target,
                            k,
                        ));
                    }
                }
            }
        }
    }
}

/// The local search never settles on a window whose segment count is
/// further from the target than that of any candidate it was offered: the
/// result is a candidate of least error. (The target must lie strictly
/// between 0 and `usize::MAX`, which keeps every error below the search's
/// starting error.)
pub proof fn lemma_best_window_has_least_error(
    approx: usize,
    target: usize,
    cands: Seq<usize>,
    segs: Seq<usize>,
)
    requires
        cands.len() == segs.len(),
        cands.len() > 0,
        0 < target < usize::MAX,
    ensures
        exists|j: int|
            0 <= j < cands.len() && cands[j] == best_window(approx, target, cands, segs) && forall|
                k: int,
            |
                0 <= k < cands.len() ==> candidate_error(segs, target, j)
                    <= #[trigger] candidate_error(segs, target, k),
{
    lemma_best_window_from_minimal(approx, target, cands, segs, 0, approx, usize::MAX, usize::MAX);
    let r = best_window(approx, target, cands, segs);
    if r == approx && forall|k: int|
        0 <= k < cands.len() ==> usize::MAX <= #[trigger] candidate_error(segs, target, k) {
        assert(usize::MAX <= candidate_error(segs, target, 0));
        assert(false);
    }
}

proof fn lemma_best_window_from_first_exact(
    approx: usize,
    target: usize,
    cands: Seq<usize>,
    segs: Seq<usize>,
    i: int,
    j: int,
    best: usize,
    best_err: usize,
    best_dist: usize,
)
    requires
        cands.len() == segs.len(),
        0 <= i <= j < cands.len(),
        segs[j] == target,
        forall|k: int| i <= k < j ==> segs[k] != target,
        best_err != 0,
    ensures
        best_window_from(approx, target, cands, segs, i, best, best_err, best_dist) == cands[j],
    decreases j - i,
{
    if i < j {
        let cand = cands[i];
        let err = abs_diff(segs[i], target);
        let dist = abs_diff(cand, approx);
        assert(segs[i] != target);
        if improves(err, dist, cand, best_err, best_dist, best) {
            lemma_best_window_from_first_exact(approx, target, cands, segs, i + 1, j, cand, err, dist);
        } else {
            lemma_best_window_from_first_exact(
                approx,
                target,
                cands,
                segs,
                i + 1,
                j,
                best,
                best_err,
                best_dist,
            );
        }
    }
}

/// When some candidate's segment count equals the target exactly, the search
/// returns the first such candidate in search order.
pub proof fn lemma_best_window_first_exact(
    approx: usize,
    target: usize,
    cands: Seq<usize>,
    segs: Seq<usize>,
    j: int,
)
    requires
        cands.len() == segs.len(),
        0 <= j < cands.len(),
        segs[j] == target,
        forall|k: int| 0 <= k < j ==> segs[k] != target,
    ensures
        best_window(approx, target, cands, segs) == cands[j],
{
    lemma_best_window_from_first_exact(
        approx,
        target,
        cands,
        segs,
        0,
        j,
        approx,
        usize::MAX,
        usize::MAX,
    );
}

} // verus!
