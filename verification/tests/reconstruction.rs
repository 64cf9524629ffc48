use musickbeets::reconstruction::{
    centered_crop_plan_from_centers, cropped_range, frame_boundaries, overlap_add_length,
    CenteredCropPlan, TimeUnit,
};

#[test]
fn overlap_add_lengths() {
    assert_eq!(overlap_add_length(1, 512, 2048), 2048);
    assert_eq!(overlap_add_length(5, 512, 2048), 4 * 512 + 2048);
}

#[test]
fn crop_plan_for_single_centered_frame() {
    // One frame centered at 22050 with a 44100-sample window, range 0..44100.
    let p = centered_crop_plan_from_centers(22050, 22050, 44100, 0, 44100);
    assert_eq!(
        p,
        CenteredCropPlan { raw_len: 44100, keep_start: 0, keep_end: 44100, crop_left: 0, crop_right: 0 }
    );
}

#[test]
fn crop_plan_trims_padding_outside_range() {
    // Frames centered at 0 and 1024, window 2048, analysed range 0..1500.
    let p = centered_crop_plan_from_centers(0, 1024, 2048, 0, 1500);
    assert_eq!(p.raw_len, 3072);
    assert_eq!(p.keep_start, 0);
    assert_eq!(p.keep_end, 1500);
    assert_eq!(p.crop_left, 1024);
    assert_eq!(p.crop_right, 548);
}

#[test]
fn cropping_ranges() {
    assert_eq!(cropped_range(100, 10, 20), Some((10, 80)));
    assert_eq!(cropped_range(100, 80, 20), None);
    assert_eq!(cropped_range(10, 0, 20), None);
}

#[test]
fn boundaries_inside_output() {
    assert_eq!(frame_boundaries(4, 100, 0, 1000), vec![100, 200, 300]);
    assert_eq!(frame_boundaries(4, 100, 150, 120), vec![50]);
    assert_eq!(frame_boundaries(1, 100, 0, 1000), Vec::<usize>::new());
    assert_eq!(frame_boundaries(0, 100, 0, 1000), Vec::<usize>::new());
    assert_ne!(TimeUnit::Seconds, TimeUnit::Samples);
}

#[test]
fn crop_plan_parts_add_up() {
    for &(first, last, window, start, stop) in &[
        (0i64, 1024i64, 2048usize, 0usize, 1500usize),
        (4096, 8192, 4096, 3000, 9000),
        (22050, 22050, 44100, 0, 44100),
        (10000, 20000, 1000, 12000, 15000),
    ] {
        let p = centered_crop_plan_from_centers(first, last, window, start, stop);
        assert!(p.keep_start <= p.keep_end);
        assert_eq!(p.crop_left + (p.keep_end - p.keep_start) + p.crop_right, p.raw_len);
        assert_eq!(p.keep_start as i64, first - (window / 2) as i64 + p.crop_left as i64);
        assert!(p.keep_start >= start && p.keep_end <= stop);
        let kept = cropped_range(p.raw_len, p.crop_left, p.crop_right).unwrap();
        assert_eq!(kept.1 - kept.0, p.keep_end - p.keep_start);
    }
}
