use musickbeets::reconstruction::ReconstructionQuality;
use musickbeets::segmentation::{
    active_sample_count, bins_for_window, clamp_even, find_preset_index, frame_count,
    num_segments, pick_best_window, round_even, typed_segment_size, window_candidates,
    window_for_target_bins, LastEditedField,
};

#[test]
fn test_frame_skip() {
    assert_eq!(ReconstructionQuality::Fast.frame_skip(), 4);
    assert_eq!(ReconstructionQuality::Balanced.frame_skip(), 2);
    assert_eq!(ReconstructionQuality::High.frame_skip(), 1);
    assert_eq!(ReconstructionQuality::Perfect.frame_skip(), 1);
}

#[test]
fn clamp_even_keeps_lengths_even_and_in_range() {
    assert_eq!(clamp_even(8192, 2, 131072), 8192);
    assert_eq!(clamp_even(8193, 2, 131072), 8194);
    assert_eq!(clamp_even(1, 2, 131072), 2);
    assert_eq!(clamp_even(0, 0, 0), 2);
    assert_eq!(clamp_even(200_000, 2, 131072), 131072);
    assert_eq!(clamp_even(200_000, 2, 44101), 44100);
    assert_eq!(clamp_even(5, 7, 7), 6);
}

#[test]
fn segment_counts() {
    assert_eq!(num_segments(44100, 8192, 2048), 18);
    assert_eq!(num_segments(100, 200, 10), 0);
    assert_eq!(num_segments(100, 100, 0), 1);
    assert_eq!(num_segments(110, 100, 0), 11);
    assert_eq!(frame_count(44100, 2048, 512, false), 83);
    assert_eq!(frame_count(44100, 2048, 512, true), 87);
    assert_eq!(frame_count(1000, 2048, 512, true), 0);
}

#[test]
fn bins_and_windows() {
    assert_eq!(bins_for_window(2048, 1), 1025);
    assert_eq!(bins_for_window(2048, 0), 1025);
    assert_eq!(bins_for_window(2048, 4), 4097);
    assert_eq!(window_for_target_bins(1025, 1, 2, 131072), 2048);
    assert_eq!(window_for_target_bins(1025, 2, 2, 131072), 1024);
    assert_eq!(window_for_target_bins(0, 1, 2, 131072), 2);
    assert_eq!(window_for_target_bins(usize::MAX, 1, 2, 131072), 131072);
}

#[test]
fn presets_and_rounding() {
    assert_eq!(find_preset_index(256), Some(0));
    assert_eq!(find_preset_index(8192), Some(5));
    assert_eq!(find_preset_index(65536), Some(8));
    assert_eq!(find_preset_index(1000), None);
    assert_eq!(round_even(0), 2);
    assert_eq!(round_even(1), 2);
    assert_eq!(round_even(7), 8);
    assert_eq!(round_even(8), 8);
}

fn hop(window: usize, overlap_percent: f32) -> usize {
    ((window as f32) * (1.0 - (overlap_percent / 100.0))).max(1.0) as usize
}

fn search(active: usize, overlap: f32, target: usize, min: usize, max: usize) -> usize {
    let factor = (1.0 - overlap / 100.0).max(0.01);
    let approx = ((active as f32) / (1.0 + (target - 1) as f32 * factor)).round() as usize;
    let approx = clamp_even(approx, min, max);
    let cands = window_candidates(approx, min, max);
    let segs: Vec<usize> = cands
        .iter()
        .map(|&c| num_segments(active, c, hop(c, overlap)))
        .collect();
    pick_best_window(approx, target, &cands, &segs)
}

#[test]
fn window_search_reaches_target_segments() {
    let w = search(44_100, 75.0, 18, 2, 131072);
    assert_eq!(num_segments(44_100, w, hop(w, 75.0)), 18);
    assert_eq!(w % 2, 0);
    let w = search(44_100, 50.0, 10, 2, 131072);
    assert_eq!(num_segments(44_100, w, hop(w, 50.0)), 10);
}

#[test]
fn candidate_order_and_first_exact_hit() {
    let cands = window_candidates(100, 2, 1000);
    assert_eq!(cands.len(), 512);
    assert_eq!(cands[0], 100);
    assert_eq!(cands[1], 100);
    assert_eq!(cands[2], 98);
    assert_eq!(cands[3], 102);
    assert_eq!(cands[511], 610);
    // Every candidate's count is 5 except two hits; the first hit wins.
    let mut segs = vec![5usize; 512];
    segs[7] = 9;
    segs[4] = 9;
    assert_eq!(pick_best_window(100, 9, &cands, &segs), cands[4]);
    // No hit: least error, then nearest to the approximation.
    let mut segs = vec![1usize; 512];
    segs[9] = 7;
    segs[10] = 7;
    assert_eq!(pick_best_window(100, 9, &cands, &segs), cands[9]);
    assert_eq!(LastEditedField::Overlap, LastEditedField::Overlap);
}

#[test]
fn active_samples_of_range() {
    assert_eq!(active_sample_count(100, 500, 1000), 400);
    assert_eq!(active_sample_count(100, 5000, 1000), 900);
    assert_eq!(active_sample_count(2000, 5000, 1000), 0);
    assert_eq!(active_sample_count(500, 100, 1000), 0);
    assert_eq!(active_sample_count(0, 0, 0), 0);
}

#[test]
fn typed_segment_sizes() {
    assert_eq!(typed_segment_size(1, 44100), 4);
    assert_eq!(typed_segment_size(1023, 44100), 1024);
    assert_eq!(typed_segment_size(2048, 44100), 2048);
    assert_eq!(typed_segment_size(100000, 44101), 44102);
    assert_eq!(typed_segment_size(100000, 44100), 44100);
    assert_eq!(typed_segment_size(9, 0), 4);
}
