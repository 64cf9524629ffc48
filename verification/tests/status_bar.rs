use std::time::Duration;

use musickbeets::status::{
    interval_elapsed, wheel_action, FftStage, MouseMode, MouseSelection, MouseSurface, MsgLevel,
    StatusBarManager, UpdateThrottle, WheelAction,
};

fn fmt(key: &String, d: Duration) -> String {
    format!("{}: {}ms", key, d.as_millis())
}

#[test]
fn stage_labels() {
    assert_eq!(FftStage::Overview.label(), "Overview FFT");
    assert_eq!(FftStage::Focus.label(), "FFT");
    assert_eq!(FftStage::Overview.activity_text(), "Processing overview FFT...");
    assert_eq!(FftStage::Focus.activity_text(), "Processing focused FFT...");
}

#[test]
fn new_status_bar_renders_ready() {
    let s = StatusBarManager::new();
    assert_eq!(
        s.render("12 MB", fmt),
        "Ready | Load an audio file to begin  |  Memory: 12 MB"
    );
}

#[test]
fn activity_and_progress() {
    let mut s = StatusBarManager::new();
    s.set_activity("Loading audio...");
    s.set_progress(Some("42%"));
    assert_eq!(s.render("1 MB", fmt), "Loading audio... (42%)  |  Memory: 1 MB");
    s.set_progress(None);
    assert_eq!(s.render("1 MB", fmt), "Loading audio...  |  Memory: 1 MB");
    s.set_progress(Some("3/9"));
    s.set_activity("Ready");
    assert_eq!(s.render("1 MB", fmt), "Ready  |  Memory: 1 MB");
}

#[test]
fn timings_most_recent_first_one_per_key() {
    let mut s = StatusBarManager::new();
    s.set_activity("Ready");
    s.record_timing("FFT", Duration::from_millis(1500));
    s.record_timing("Reconstruction", Duration::from_millis(200));
    assert_eq!(
        s.render("5 MB", fmt),
        "Ready  |  Reconstruction: 200ms  |  FFT: 1500ms  |  Memory: 5 MB"
    );
    s.record_timing("FFT", Duration::from_millis(700));
    assert_eq!(
        s.render("5 MB", fmt),
        "Ready  |  FFT: 700ms  |  Reconstruction: 200ms  |  Memory: 5 MB"
    );
    s.clear_timings();
    assert_eq!(s.render("5 MB", fmt), "Ready  |  Memory: 5 MB");
}

#[test]
fn start_finish_cancel_timing() {
    let mut s = StatusBarManager::new();
    s.set_activity("Ready");
    assert!(s.finish_timing().is_none());
    s.start_timing("CSV load");
    let d = s.finish_timing();
    assert!(d.is_some());
    let text = s.render("0 MB", |k: &String, _d: Duration| k.clone());
    assert_eq!(text, "Ready  |  CSV load  |  Memory: 0 MB");
    assert!(s.finish_timing().is_none());
    s.start_timing("WAV save");
    s.cancel_timing();
    assert!(s.finish_timing().is_none());
    assert_eq!(s.render("0 MB", |k: &String, _d: Duration| k.clone()), text);
}

#[test]
fn wrapping_breaks_at_slot_boundaries() {
    let mut s = StatusBarManager::new();
    s.set_activity("Processing overview FFT...");
    s.record_timing("FFT", Duration::from_millis(4700));
    let wide = s.render_wrapped(200, "12 MB", fmt);
    assert_eq!(wide, "Processing overview FFT...  |  FFT: 4700ms  |  Memory: 12 MB");
    let narrow = s.render_wrapped(30, "12 MB", fmt);
    assert_eq!(narrow, "Processing overview FFT...\nFFT: 4700ms  |  Memory: 12 MB");
    // Widths under 20 are raised to 20.
    let tiny = s.render_wrapped(1, "12 MB", fmt);
    assert_eq!(tiny, "Processing overview FFT...\nFFT: 4700ms\nMemory: 12 MB");
}

#[test]
fn wrapping_counts_characters() {
    let mut s = StatusBarManager::new();
    // 19 characters (20 bytes): with the slot separator and the memory slot
    // that is 33 characters, which fits.
    s.set_activity("é234567890123456789");
    assert_eq!(s.render_wrapped(33, "1", fmt), "é234567890123456789  |  Memory: 1");
    // One character more no longer fits.
    s.set_activity("é2345678901234567890");
    assert_eq!(s.render_wrapped(33, "1", fmt), "é2345678901234567890\nMemory: 1");
    s.set_activity("ééééééé");
    // 20 characters, though 27 bytes: still one line.
    assert_eq!(s.render_wrapped(20, "", fmt), "ééééééé  |  Memory: ");
}

#[test]
fn measured_height() {
    let mut s = StatusBarManager::new();
    s.set_activity("Ready");
    assert_eq!(s.measure_height(1200, "12 MB", fmt), 25);
    s.set_activity("Processing overview FFT...");
    s.record_timing("FFT", Duration::from_millis(4700));
    // 300 px: (300 - 16) / 7 = 40 chars per line -> two lines.
    assert_eq!(s.measure_height(300, "12 MB", fmt), 2 * 17 + 8);
    // Very narrow windows still allow 40 / 7 -> 20 chars.
    assert_eq!(s.measure_height(0, "12 MB", fmt), 3 * 17 + 8);
}

#[test]
fn throttle_first_call_updates() {
    let mut t = UpdateThrottle::new(1_000_000);
    assert!(t.should_update());
    assert!(!t.should_update());
    let mut z = UpdateThrottle::new(0);
    assert!(z.should_update());
    assert!(z.should_update());
}

#[test]
fn interval_decision() {
    assert!(interval_elapsed(16_000_000, 16));
    assert!(!interval_elapsed(15_999_999, 16));
    assert!(interval_elapsed(0, 0));
}

#[test]
fn mouse_and_message_types() {
    let sel = MouseSelection {
        surface: MouseSurface::Waveform,
        start_x: 1,
        start_y: 2,
        current_x: 3,
        current_y: 4,
    };
    assert_eq!(sel.surface, MouseSurface::Waveform);
    assert_ne!(MouseMode::Time, MouseMode::Move);
    assert_ne!(MouseMode::SelectZoom, MouseMode::RoiSelect);
    assert_ne!(MsgLevel::Info, MsgLevel::Error);
    assert_ne!(MsgLevel::Warning, MsgLevel::Error);
}

#[test]
fn wrapping_only_moves_line_breaks() {
    let mut s = StatusBarManager::new();
    s.set_activity("Reconstructing...");
    s.record_timing("Overview FFT", Duration::from_millis(1234));
    s.record_timing("FFT", Duration::from_millis(56));
    s.record_timing("Reconstruction", Duration::from_millis(7890));
    let flat = s.render("456 MB", fmt);
    for width in [0usize, 20, 30, 45, 80, 200] {
        let wrapped = s.render_wrapped(width, "456 MB", fmt);
        assert_eq!(wrapped.replace('\n', "  |  "), flat, "width {}", width);
        for line in wrapped.split('\n') {
            assert!(line.chars().count() <= width.max(20) || !line.contains("  |  "), "line {:?}", line);
        }
    }
}

#[test]
fn wheel_navigation_scheme() {
    assert_eq!(wheel_action(false, false, false), WheelAction::PanFrequency);
    assert_eq!(wheel_action(false, true, false), WheelAction::PanTime);
    assert_eq!(wheel_action(true, false, false), WheelAction::ZoomFrequency);
    assert_eq!(wheel_action(true, true, false), WheelAction::ZoomTime);
    assert_eq!(wheel_action(true, false, true), WheelAction::ZoomTime);
    assert_eq!(wheel_action(true, true, true), WheelAction::ZoomFrequency);
    assert_eq!(wheel_action(false, false, true), WheelAction::PanFrequency);
    assert_eq!(wheel_action(false, true, true), WheelAction::PanTime);
}

#[test]
fn height_follows_wrapped_lines() {
    let mut s = StatusBarManager::new();
    s.set_activity("Reconstructing...");
    s.record_timing("Overview FFT", Duration::from_millis(1234));
    s.record_timing("Reconstruction", Duration::from_millis(7890));
    for w in [0, 200, 300, 400, 800, 1200] {
        let c = musickbeets::status::chars_per_line(w);
        let lines = s.render_wrapped(c, "456 MB", fmt).lines().count().max(1) as i32;
        assert_eq!(s.measure_height(w, "456 MB", fmt), 17 * lines + 8, "width {}", w);
    }
}

#[test]
fn same_labels_same_text() {
    let mut s = StatusBarManager::new();
    s.set_activity("Reconstructing...");
    s.set_progress(Some("3/9 frames, 33%"));
    s.record_timing("FFT", Duration::from_millis(1234));
    let labels = vec!["FFT: 1.23s".to_string(), "Overview FFT: 0.50s".to_string()];
    let flat = s.render_with_labels(&labels, "456 MB");
    assert_eq!(flat, "Reconstructing... (3/9 frames, 33%)  |  FFT: 1.23s  |  Overview FFT: 0.50s  |  Memory: 456 MB");
    for w in [0, 150, 300, 600, 1200] {
        let c = musickbeets::status::chars_per_line(w);
        let wrapped = s.render_wrapped_with_labels(&labels, c, "456 MB");
        assert_eq!(wrapped.replace('\n', "  |  "), flat);
        let lines = wrapped.lines().count() as i32;
        assert_eq!(s.measure_height_with_labels(&labels, w, "456 MB"), 17 * lines.max(1) + 8);
    }
}
