use musickbeets::panel_layout::{
    bottom_panels, fft_panel_height, progress_step, wrapped_row_count, PanelRect, ProgressStep,
    RefreshCounter,
};
use musickbeets::status::chars_per_line;

#[test]
fn characters_per_line() {
    assert_eq!(chars_per_line(1200), 169);
    assert_eq!(chars_per_line(16 + 7 * 30), 30);
    assert_eq!(chars_per_line(100), 20);
    assert_eq!(chars_per_line(0), 20);
    assert_eq!(chars_per_line(-500), 20);
}

#[test]
fn wrapped_rows() {
    assert_eq!(wrapped_row_count("", 20), 1);
    assert_eq!(wrapped_row_count("short", 20), 1);
    assert_eq!(wrapped_row_count(&"x".repeat(20), 20), 1);
    assert_eq!(wrapped_row_count(&"x".repeat(21), 20), 2);
    assert_eq!(wrapped_row_count("a\nb", 20), 2);
    assert_eq!(wrapped_row_count("a\n", 20), 2);
    assert_eq!(wrapped_row_count("\n\n", 20), 3);
    let text = format!("{}\n{}", "y".repeat(45), "z".repeat(3));
    assert_eq!(wrapped_row_count(&text, 20), 4);
    // Characters, not bytes, are counted.
    assert_eq!(wrapped_row_count(&"é".repeat(20), 20), 1);
}

#[test]
fn panel_heights() {
    assert_eq!(fft_panel_height(0), 24);
    assert_eq!(fft_panel_height(1), 25);
    assert_eq!(fft_panel_height(3), 59);
}

#[test]
fn panels_stack_at_the_bottom() {
    let p = bottom_panels(1200, 1555, 25, 59);
    assert_eq!(p.root, PanelRect { x: 0, y: 25, w: 1200, h: 1555 - 25 - 25 - 59 });
    assert_eq!(p.status_fft, PanelRect { x: 0, y: 1555 - 25 - 59, w: 1200, h: 59 });
    assert_eq!(p.status_bar, PanelRect { x: 0, y: 1555 - 25, w: 1200, h: 25 });
}

#[test]
fn refresh_every_thirty_ticks() {
    let mut c = RefreshCounter::new();
    let mut due_at = Vec::new();
    for n in 1..=95 {
        if c.tick() {
            due_at.push(n);
        }
    }
    assert_eq!(due_at, vec![30, 60, 90]);
}

#[test]
fn progress_steps() {
    assert_eq!(progress_step(false, 5, 10), ProgressStep::Keep);
    assert_eq!(progress_step(true, 5, 0), ProgressStep::Keep);
    assert_eq!(progress_step(true, 0, 10), ProgressStep::Keep);
    assert_eq!(progress_step(true, 5, 10), ProgressStep::Show);
    assert_eq!(progress_step(true, 10, 10), ProgressStep::Clear);
    assert_eq!(progress_step(true, 12, 10), ProgressStep::Clear);
}
