use musickbeets::canvas::PixelCanvas;

const BG: (u8, u8, u8) = (0x1e, 0x1e, 0x2e);
const WAVE: (u8, u8, u8) = (0x89, 0xb4, 0xfa);

fn pixel(c: &PixelCanvas, x: usize, y: usize) -> (u8, u8, u8) {
    let i = (y * c.width() + x) * 3;
    let b = c.pixels();
    (b[i], b[i + 1], b[i + 2])
}

fn painted(c: &PixelCanvas, color: (u8, u8, u8)) -> Vec<(usize, usize)> {
    let mut v = Vec::new();
    for y in 0..c.height() {
        for x in 0..c.width() {
            if pixel(c, x, y) == color {
                v.push((x, y));
            }
        }
    }
    v
}

fn canvas(w: usize, h: usize) -> PixelCanvas {
    let mut c = PixelCanvas::new();
    c.resize(w, h);
    c.fill_background(BG);
    c
}

#[test]
fn resize_allocates_only_on_size_change() {
    let mut c = PixelCanvas::new();
    c.resize(4, 3);
    assert_eq!(c.pixels().len(), 36);
    assert!(c.pixels().iter().all(|&b| b == 0));
    c.fill_background(BG);
    c.resize(3, 4);
    assert_eq!((c.width(), c.height()), (3, 4));
    assert_eq!(pixel(&c, 2, 3), BG);
    c.resize(5, 5);
    assert_eq!(pixel(&c, 4, 4), (0, 0, 0));
}

#[test]
fn background_and_center_line() {
    let mut c = canvas(5, 4);
    assert!(painted(&c, BG).len() == 20);
    c.draw_center_line(WAVE);
    assert_eq!(painted(&c, WAVE), vec![(0, 2), (1, 2), (2, 2), (3, 2), (4, 2)]);
}

#[test]
fn line_shallow_slope() {
    let mut c = canvas(10, 10);
    c.draw_line(0, 0, 6, 2, WAVE);
    assert_eq!(
        painted(&c, WAVE),
        vec![(0, 0), (1, 0), (2, 1), (3, 1), (4, 1), (5, 2), (6, 2)]
    );
}

#[test]
fn line_steep_and_reversed() {
    let mut c = canvas(10, 10);
    c.draw_line(3, 5, 1, 0, WAVE);
    let p = painted(&c, WAVE);
    assert!(p.contains(&(3, 5)));
    assert!(p.contains(&(1, 0)));
    assert_eq!(p.len(), 6);
}

#[test]
fn line_clipped_to_canvas() {
    let mut c = canvas(4, 4);
    c.draw_line(-3, 1, 6, 1, WAVE);
    assert_eq!(painted(&c, WAVE), vec![(0, 1), (1, 1), (2, 1), (3, 1)]);
    let mut d = canvas(4, 4);
    d.draw_line(2, 2, 2, 2, WAVE);
    assert_eq!(painted(&d, WAVE), vec![(2, 2)]);
}

#[test]
fn dots_and_columns() {
    let mut c = canvas(4, 4);
    c.draw_dot(0, 0, WAVE);
    assert_eq!(painted(&c, WAVE), vec![(0, 0), (1, 0), (0, 1), (1, 1)]);
    let mut d = canvas(4, 4);
    d.draw_column(2, 3, 1, WAVE);
    assert_eq!(painted(&d, WAVE), vec![(2, 1), (2, 2), (2, 3)]);
    let mut e = canvas(4, 4);
    e.draw_column(1, 9, 2, WAVE);
    assert_eq!(painted(&e, WAVE), vec![(1, 2), (1, 3)]);
}

#[test]
fn set_pixel_outside_buffer_is_ignored() {
    let mut c = canvas(2, 2);
    c.set_pixel(1, 1, WAVE);
    assert_eq!(pixel(&c, 1, 1), WAVE);
    c.set_pixel(0, 2, WAVE);
    assert_eq!(painted(&c, WAVE), vec![(1, 1)]);
}
