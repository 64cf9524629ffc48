//! Integer planning of spectrogram-to-audio reconstruction: how many frames
//! a quality level uses, how long the overlap-add output is, and which part
//! of it a centered reconstruction keeps.
use vstd::prelude::*;

verus! {

/// Unit in which start and stop times of the analysis range are given.
#[derive(Debug, Clone, Copy, PartialEq, Eq, Structural)]
pub enum TimeUnit {
    Seconds,
    Samples,
}

/// Speed/precision trade-off of a reconstruction.
#[derive(Debug, Clone, Copy, PartialEq, Eq, Structural)]
pub enum ReconstructionQuality {
    /// Every 4th frame.
    Fast,
    /// Every 2nd frame.
    Balanced,
    /// All frames.
    High,
    /// All frames, with overlap-add normalization.
    Perfect,
}

impl ReconstructionQuality {
    /// Use every `frame_skip()`-th frame.
    pub fn frame_skip(&self) -> (n: usize)
        ensures
            *self == ReconstructionQuality::Fast ==> n == 4,
            *self == ReconstructionQuality::Balanced ==> n == 2,
            *self == ReconstructionQuality::High ==> n == 1,
            *self == ReconstructionQuality::Perfect ==> n == 1,
    {
        match self {
            ReconstructionQuality::Fast => 4,
            ReconstructionQuality::Balanced => 2,
            ReconstructionQuality::High => 1,
            ReconstructionQuality::Perfect => 1,
        }
    }
}

/// Length of the overlap-add of `num_frames` windows of `window_len`
/// samples placed `hop` apart.
pub open spec fn ola_length(num_frames: nat, hop: nat, window_len: nat) -> nat {
    if num_frames == 0 {
        0
    } else {
        ((num_frames - 1) as nat * hop + window_len) as nat
    }
}

/// Output length of the overlap-add of a non-empty run of frames.
pub fn overlap_add_length(num_frames: usize, hop: usize, window_len: usize) -> (n: usize)
    requires
        num_frames >= 1,
        ola_length(num_frames as nat, hop as nat, window_len as nat) <= usize::MAX,
    ensures
        n == ola_length(num_frames as nat, hop as nat, window_len as nat),
{
    proof {
        assert((num_frames - 1) * hop <= (num_frames - 1) * hop + window_len);
    }
    (num_frames - 1) * hop + window_len
}

/// Where a centered reconstruction's raw overlap-add output lies in the
/// signal, and how much of it to crop to stay inside the analysed range.
#[derive(Debug, Clone, Copy, PartialEq, Eq, Structural)]
pub struct CenteredCropPlan {
    /// Length of the raw overlap-add output.
    pub raw_len: usize,
    /// First signal sample kept.
    pub keep_start: usize,
    /// One past the last signal sample kept.
    pub keep_end: usize,
    /// Samples cropped from the start of the raw output.
    pub crop_left: usize,
    /// Samples cropped from the end of the raw output.
    pub crop_right: usize,
}

/// The crop plan for frames centered on samples `first_center` through
/// `last_center`, with windows of `window_length` samples, keeping the part
/// within `[start_sample, stop_sample)`.
pub open spec fn crop_plan(
    first_center: int,
    last_center: int,
    window_length: int,
    start_sample: int,
    stop_sample: int,
) -> CenteredCropPlan {
    let raw_start = first_center - window_length / 2;
    let raw_end = last_center + (window_length - window_length / 2);
    let raw_len = if raw_end - raw_start > 0 {
        raw_end - raw_start
    } else {
        0
    };
    let keep_start = if raw_start > start_sample {
        raw_start
    } else {
        start_sample
    };
    let capped = if raw_end < stop_sample {
        raw_end
    } else {
        stop_sample
    };
    let keep_end = if capped > raw_start {
        capped
    } else {
        raw_start
    };
    let crop_left = if keep_start - raw_start > 0 {
        keep_start - raw_start
    } else {
        0
    };
    let crop_right = if raw_end - keep_end > 0 {
        raw_end - keep_end
    } else {
        0
    };
    CenteredCropPlan {
        raw_len: raw_len as usize,
        keep_start: keep_start as usize,
        keep_end: keep_end as usize,
        crop_left: crop_left as usize,
        crop_right: crop_right as usize,
    }
}

/// Plans the crop of a centered reconstruction from the sample positions
/// the first and last frames are centered on. The positions worked with
/// (window bounds and their differences) must fit an `i64`.
pub fn centered_crop_plan_from_centers(
    first_center: i64,
    last_center: i64,
    window_length: usize,
    start_sample: usize,
    stop_sample: usize,
) -> (p: CenteredCropPlan)
    requires
        window_length <= i64::MAX,
        start_sample <= i64::MAX,
        stop_sample <= i64::MAX,
        i64::MIN <= first_center - window_length / 2,
        last_center + (window_length - window_length / 2) <= i64::MAX,
        i64::MIN <= (last_center + (window_length - window_length / 2)) - (first_center
            - window_length / 2) <= i64::MAX,
        start_sample - (first_center - window_length / 2) <= i64::MAX,
    ensures
        p == crop_plan(
            first_center as int,
            last_center as int,
            window_length as int,
            start_sample as int,
            stop_sample as int,
        ),
{
    let w = window_length as i64;
    let pad_left = w / 2;
    let pad_right = w - w / 2;
    let raw_start = first_center - pad_left;
    let raw_end = last_center + pad_right;
    let raw_len = if raw_end - raw_start > 0 { raw_end - raw_start } else { 0 };
    let start = start_sample as i64;
    let stop = stop_sample as i64;
    let keep_start = if raw_start > start { raw_start } else { start };
    let capped = if raw_end < stop { raw_end } else { stop };
    let keep_end = if capped > raw_start { capped } else { raw_start };
    let crop_left = if keep_start - raw_start > 0 { keep_start - raw_start } else { 0 };
    let crop_right = if raw_end - keep_end > 0 { raw_end - keep_end } else { 0 };
    CenteredCropPlan {
        raw_len: raw_len as usize,
        keep_start: keep_start as usize,
        keep_end: keep_end as usize,
        crop_left: crop_left as usize,
        crop_right: crop_right as usize,
    }
}

/// A crop plan splits the raw output into the cropped start, the kept part
/// and the cropped end; the kept part begins at signal sample `keep_start`
/// (the raw output begins half a window before the first center), never
/// before `start_sample`, and ends no later than `stop_sample` when the raw
/// output starts by then. When something is kept, cropping an output of
/// the raw length leaves exactly it.
pub proof fn lemma_crop_plan_keeps_range(
    first_center: int,
    last_center: int,
    window_length: int,
    start_sample: int,
    stop_sample: int,
)
    requires
        0 <= first_center <= last_center,
        0 <= window_length,
        0 <= start_sample <= usize::MAX,
        0 <= stop_sample <= usize::MAX,
        last_center + window_length <= usize::MAX,
        crop_plan(first_center, last_center, window_length, start_sample, stop_sample).keep_start
            <= crop_plan(first_center, last_center, window_length, start_sample, stop_sample).keep_end,
    ensures
        ({
            let p = crop_plan(first_center, last_center, window_length, start_sample, stop_sample);
            let raw_start = first_center - window_length / 2;
            &&& p.crop_left + (p.keep_end - p.keep_start) + p.crop_right == p.raw_len
            &&& p.keep_start == raw_start + p.crop_left
            &&& p.keep_start >= start_sample
            &&& raw_start <= stop_sample ==> p.keep_end <= stop_sample
            &&& p.keep_start < p.keep_end ==> p.crop_left < p.raw_len - p.crop_right
        }),
{
    let raw_start = first_center - window_length / 2;
    let raw_end = last_center + (window_length - window_length / 2);
    assert(raw_start <= raw_end);
    assert(0 <= raw_end <= usize::MAX);
}

/// The part `[crop_left, len - crop_right)` of an output of `len` samples
/// that a crop keeps, or `None` when nothing is left.
pub fn cropped_range(len: usize, crop_left: usize, crop_right: usize) -> (r: Option<(usize, usize)>)
    ensures
        match r {
            Some((a, b)) => a == crop_left && b == len - crop_right && crop_right <= len && a < b,
            None => crop_left >= (if crop_right <= len {
                len - crop_right
            } else {
                0
            }),
        },
{
    let end = if crop_right <= len { len - crop_right } else { 0 };
    if crop_left < end {
        Some((crop_left, end))
    } else {
        None
    }
}

/// Positions, in the final output of `output_len` samples, where one frame's
/// contribution starts after another: frame `k` (for `k >= 1`) starts at
/// `k * hop`, shifted left by `crop_left`; positions outside
/// `(0, output_len)` are left out.
pub open spec fn boundary_positions(num_frames: nat, hop: nat, crop_left: nat, output_len: nat) -> Seq<
    nat,
>
    decreases num_frames,
{
    if num_frames <= 1 {
        Seq::empty()
    } else {
        let prev = boundary_positions((num_frames - 1) as nat, hop, crop_left, output_len);
        let start = ((num_frames - 1) as nat * hop) as int;
        let pos = if start > crop_left {
            start - crop_left
        } else {
            0
        };
        if 0 < pos < output_len {
            prev.push(pos as nat)
        } else {
            prev
        }
    }
}

/// Unsigned values as naturals.
pub open spec fn nat_views(v: Seq<usize>) -> Seq<nat> {
    v.map_values(|x: usize| x as nat)
}

/// The frame boundaries inside the final output (used to measure the jumps
/// the overlap-add leaves at frame edges).
pub fn frame_boundaries(num_frames: usize, hop: usize, crop_left: usize, output_len: usize) -> (v:
    Vec<usize>)
    requires
        num_frames == 0 || (num_frames - 1) * hop <= usize::MAX,
    ensures
        nat_views(v@) == boundary_positions(
            num_frames as nat,
            hop as nat,
            crop_left as nat,
            output_len as nat,
        ),
{
    let mut v: Vec<usize> = Vec::new();
    if num_frames == 0 {
        assert(nat_views(v@) =~= boundary_positions(0, hop as nat, crop_left as nat, output_len as nat));
        return v;
    }
    let mut k: usize = 1;
    while k < num_frames
        invariant
            1 <= k <= num_frames,
            (num_frames - 1) * hop <= usize::MAX,
            nat_views(v@) == boundary_positions(
                k as nat,
                hop as nat,
                crop_left as nat,
                output_len as nat,
            ),
        decreases num_frames - k,
    {
        proof {
            assert(k * hop <= (num_frames - 1) * hop) by (nonlinear_arith)
                requires
                    k <= num_frames - 1,
            ;
        }
        let start = k * hop;
        let pos = if start > crop_left { start - crop_left } else { 0 };
        let ghost before = v@;
        if pos > 0 && pos < output_len {
            v.push(pos);
            assert(nat_views(v@) =~= nat_views(before).push(
                pos as nat,
            ));
        }
        k = k + 1;
    }
    v
}

} // verus!
