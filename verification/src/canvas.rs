//! The RGB pixel buffer the waveform view is drawn into: background, center
//! line, peak columns, sample dots and Bresenham lines.
use vstd::prelude::*;

verus! {

/// `|v|`.
pub open spec fn abs_int(v: int) -> int {
    if v < 0 {
        -v
    } else {
        v
    }
}

/// The buffer with the three bytes at `idx` set to `c`, when they lie
/// inside it.
pub open spec fn paint_at(buf: Seq<u8>, idx: int, c: (u8, u8, u8)) -> Seq<u8> {
    if 0 <= idx && idx + 2 < buf.len() {
        buf.update(idx, c.0).update(idx + 1, c.1).update(idx + 2, c.2)
    } else {
        buf
    }
}

/// Byte offset of pixel `(x, y)` in a buffer `width` pixels wide.
pub open spec fn pixel_index(width: int, x: int, y: int) -> int {
    (y * width + x) * 3
}

/// Whether `p` lies on a `width` by `height` canvas.
pub open spec fn on_canvas(width: int, height: int, p: (int, int)) -> bool {
    0 <= p.0 < width && 0 <= p.1 < height
}

/// The buffer with the points of `pts` that lie on the canvas painted `c`,
/// in order.
pub open spec fn paint_points(
    buf: Seq<u8>,
    width: int,
    height: int,
    pts: Seq<(int, int)>,
    c: (u8, u8, u8),
) -> Seq<u8>
    decreases pts.len(),
{
    if pts.len() == 0 {
        buf
    } else {
        let b = paint_points(buf, width, height, pts.drop_last(), c);
        let p = pts.last();
        if on_canvas(width, height, p) {
            paint_at(b, pixel_index(width, p.0, p.1), c)
        } else {
            b
        }
    }
}

/// Whether a Bresenham coordinate steps towards its target.
pub open spec fn step_towards(v: int, target: int, s: int) -> bool {
    &&& (s == 1 || s == -1)
    &&& (v < target ==> s == 1)
    &&& (v > target ==> s == -1)
}

/// The points Bresenham's algorithm visits from `(x, y)` to `(x1, y1)`, with
/// the algorithm's error term and steps.
pub open spec fn bresenham_from(
    x: int,
    y: int,
    x1: int,
    y1: int,
    dx: int,
    dy: int,
    sx: int,
    sy: int,
    err: int,
) -> Seq<(int, int)>
    decreases abs_int(x1 - x) + abs_int(y1 - y),
    when step_towards(x, x1, sx) && step_towards(y, y1, sy) && dy <= 0 && 0 <= dx
{
    let here = seq![(x, y)];
    if x == x1 && y == y1 {
        here
    } else {
        let e2 = 2 * err;
        if e2 >= dy && x == x1 {
            here
        } else {
            let nx = if e2 >= dy {
                x + sx
            } else {
                x
            };
            let err1 = if e2 >= dy {
                err + dy
            } else {
                err
            };
            if e2 <= dx && y == y1 {
                here
            } else {
                let ny = if e2 <= dx {
                    y + sy
                } else {
                    y
                };
                let err2 = if e2 <= dx {
                    err1 + dx
                } else {
                    err1
                };
                here + bresenham_from(nx, ny, x1, y1, dx, dy, sx, sy, err2)
            }
        }
    }
}

/// The points of the line from `(x0, y0)` to `(x1, y1)`.
pub open spec fn line_points(x0: int, y0: int, x1: int, y1: int) -> Seq<(int, int)> {
    let dx = abs_int(x1 - x0);
    let dy = -abs_int(y1 - y0);
    bresenham_from(
        x0,
        y0,
        x1,
        y1,
        dx,
        dy,
        if x0 < x1 {
            1
        } else {
            -1
        },
        if y0 < y1 {
            1
        } else {
            -1
        },
        dx + dy,
    )
}

/// Two points are neighbours: each coordinate differs by at most one, and
/// they are not the same point.
pub open spec fn adjacent(p: (int, int), q: (int, int)) -> bool {
    &&& abs_int(p.0 - q.0) <= 1
    &&& abs_int(p.1 - q.1) <= 1
    &&& p != q
}

/// `v` lies between `a` and `b` (in either order).
pub open spec fn between(v: int, a: int, b: int) -> bool {
    (a <= v && v <= b) || (b <= v && v <= a)
}

/// The error term of Bresenham's algorithm in terms of the distances still
/// to go (`rx`, `ry`) on a line with extents `dx` and `-dy`.
pub open spec fn bresenham_error(dx: int, dy: int, rx: int, ry: int) -> int {
    dx + dy - dy * rx - dx * ry
}

proof fn lemma_bresenham_from(
    x: int,
    y: int,
    x1: int,
    y1: int,
    dx: int,
    dy: int,
    sx: int,
    sy: int,
    err: int,
)
    requires
        step_towards(x, x1, sx),
        step_towards(y, y1, sy),
        dy <= 0 <= dx,
        abs_int(x1 - x) <= dx,
        abs_int(y1 - y) <= -dy,
        err == bresenham_error(dx, dy, abs_int(x1 - x), abs_int(y1 - y)),
    ensures
        ({
            let pts = bresenham_from(x, y, x1, y1, dx, dy, sx, sy, err);
            &&& pts.len() >= 1
            &&& pts[0] == (x, y)
            &&& pts.last() == (x1, y1)
            &&& forall|i: int|
                0 <= i < pts.len() ==> between(#[trigger] pts[i].0, x, x1) && between(
                    pts[i].1,
                    y,
                    y1,
                )
            &&& forall|i: int| 0 <= i < pts.len() - 1 ==> adjacent(#[trigger] pts[i], pts[i + 1])
        }),
    decreases abs_int(x1 - x) + abs_int(y1 - y),
{
    let rx = abs_int(x1 - x);
    let ry = abs_int(y1 - y);
    let pts = bresenham_from(x, y, x1, y1, dx, dy, sx, sy, err);
    if x == x1 && y == y1 {
        assert(pts == seq![(x, y)]);
        return;
    }
    let e2 = 2 * err;
    if e2 >= dy && x == x1 {
        assert(rx == 0);
        assert(dy * rx == 0) by (nonlinear_arith)
            requires
                rx == 0,
        ;
        assert(ry >= 1);
        assert(dx * ry >= dx) by (nonlinear_arith)
            requires
                dx >= 0,
                ry >= 1,
        ;
        assert(-dy * ry >= -dy) by (nonlinear_arith)
            requires
                dy <= 0,
                ry >= 1,
        ;
        assert(false);
    }
    let nx = if e2 >= dy {
        x + sx
    } else {
        x
    };
    let err1 = if e2 >= dy {
        err + dy
    } else {
        err
    };
    if e2 <= dx && y == y1 {
        assert(ry == 0);
        assert(dx * ry == 0) by (nonlinear_arith)
            requires
                ry == 0,
        ;
        if rx >= 1 {
            assert(dy * rx <= dy) by (nonlinear_arith)
                requires
                    dy <= 0,
                    rx >= 1,
            ;
            assert(rx <= dx);
            assert(false);
        }
        assert(false);
    }
    let ny = if e2 <= dx {
        y + sy
    } else {
        y
    };
    let err2 = if e2 <= dx {
        err1 + dx
    } else {
        err1
    };
    let rx2 = abs_int(x1 - nx);
    let ry2 = abs_int(y1 - ny);
    assert(rx2 == if e2 >= dy {
        rx - 1
    } else {
        rx
    });
    assert(ry2 == if e2 <= dx {
        ry - 1
    } else {
        ry
    });
    assert(e2 >= dy || e2 <= dx);
    assert(dy * (rx - 1) == dy * rx - dy) by (nonlinear_arith);
    assert(dx * (ry - 1) == dx * ry - dx) by (nonlinear_arith);
    assert(err2 == bresenham_error(dx, dy, rx2, ry2));
    lemma_bresenham_from(nx, ny, x1, y1, dx, dy, sx, sy, err2);
    let rest = bresenham_from(nx, ny, x1, y1, dx, dy, sx, sy, err2);
    assert(pts == seq![(x, y)] + rest);
    assert forall|i: int| 0 <= i < pts.len() implies between(#[trigger] pts[i].0, x, x1) && between(
        pts[i].1,
        y,
        y1,
    ) by {
        if i > 0 {
            assert(pts[i] == rest[i - 1]);
        }
    }
    assert forall|i: int| 0 <= i < pts.len() - 1 implies adjacent(#[trigger] pts[i], pts[i + 1]) by {
        if i > 0 {
            assert(pts[i] == rest[i - 1]);
            assert(pts[i + 1] == rest[i]);
        } else {
            assert(pts[1] == rest[0]);
        }
    }
}

/// Bresenham's line from `(x0, y0)` to `(x1, y1)` starts at the first point,
/// ends at the second, stays within the rectangle they span, and moves to a
/// neighbouring pixel at every step.
pub proof fn lemma_line_points(x0: int, y0: int, x1: int, y1: int)
    ensures
        ({
            let pts = line_points(x0, y0, x1, y1);
            &&& pts.len() >= 1
            &&& pts[0] == (x0, y0)
            &&& pts.last() == (x1, y1)
            &&& forall|i: int|
                0 <= i < pts.len() ==> between(#[trigger] pts[i].0, x0, x1) && between(
                    pts[i].1,
                    y0,
                    y1,
                )
            &&& forall|i: int| 0 <= i < pts.len() - 1 ==> adjacent(#[trigger] pts[i], pts[i + 1])
        }),
{
    let dx = abs_int(x1 - x0);
    let dy = -abs_int(y1 - y0);
    assert(dy * dx == dx * dy) by (nonlinear_arith);
    assert(dx * (-dy) == -(dx * dy)) by (nonlinear_arith);
    assert(bresenham_error(dx, dy, dx, -dy) == dx + dy);
    lemma_bresenham_from(
        x0,
        y0,
        x1,
        y1,
        dx,
        dy,
        if x0 < x1 {
            1
        } else {
            -1
        },
        if y0 < y1 {
            1
        } else {
            -1
        },
        dx + dy,
    );
}

/// The 3x3 block of points around `(cx, cy)`, row by row.
pub open spec fn dot_points(cx: int, cy: int) -> Seq<(int, int)> {
    seq![
        (cx - 1, cy - 1),
        (cx, cy - 1),
        (cx + 1, cy - 1),
        (cx - 1, cy),
        (cx, cy),
        (cx + 1, cy),
        (cx - 1, cy + 1),
        (cx, cy + 1),
        (cx + 1, cy + 1),
    ]
}

/// The points of row `y` from column 0 to `width - 1`.
pub open spec fn row_points(width: nat, y: int) -> Seq<(int, int)> {
    Seq::new(width, |i: int| (i, y))
}

/// The points of column `x` from row `top` to row `bottom`.
pub open spec fn column_points(x: int, top: int, bottom: int) -> Seq<(int, int)> {
    Seq::new((bottom - top + 1) as nat, |i: int| (x, top + i))
}

/// An RGB image buffer, three bytes per pixel, row by row.
pub struct PixelCanvas {
    buffer: Vec<u8>,
    width: usize,
    height: usize,
}

impl PixelCanvas {
    #[verifier::type_invariant]
    spec fn inv(self) -> bool {
        self.buffer.len() == self.width * self.height * 3
    }

    /// The bytes of the image.
    pub closed spec fn bytes(&self) -> Seq<u8> {
        self.buffer@
    }

    /// Width in pixels.
    pub closed spec fn spec_width(&self) -> nat {
        self.width as nat
    }

    /// Height in pixels.
    pub closed spec fn spec_height(&self) -> nat {
        self.height as nat
    }

    /// Moves the buffer and size out, leaving an empty canvas.
    fn take_parts(&mut self) -> (parts: (Vec<u8>, usize, usize))
        ensures
            parts.0@ == old(self).bytes(),
            parts.1 == old(self).spec_width(),
            parts.2 == old(self).spec_height(),
            parts.0.len() == parts.1 * parts.2 * 3,
            final(self).bytes().len() == 0,
    {
        let mut tmp = PixelCanvas::new();
        std::mem::swap(self, &mut tmp);
        proof {
            use_type_invariant(&tmp);
        }
        let PixelCanvas { buffer, width, height } = tmp;
        (buffer, width, height)
    }

    /// An empty canvas.
    pub fn new() -> (c: Self)
        ensures
            c.bytes().len() == 0,
            c.spec_width() == 0,
            c.spec_height() == 0,
    {
        PixelCanvas { buffer: Vec::new(), width: 0, height: 0 }
    }

    /// The image bytes.
    pub fn pixels(&self) -> (b: &Vec<u8>)
        ensures
            b@ == self.bytes(),
    {
        &self.buffer
    }

    /// Width in pixels.
    pub fn width(&self) -> (w: usize)
        ensures
            w == self.spec_width(),
    {
        self.width
    }

    /// Height in pixels.
    pub fn height(&self) -> (h: usize)
        ensures
            h == self.spec_height(),
    {
        self.height
    }

    /// Sets the size; the buffer is reallocated, all zero, only when its byte
    /// count changes.
    pub fn resize(&mut self, width: usize, height: usize)
        requires
            width * height * 3 <= usize::MAX,
        ensures
            final(self).spec_width() == width,
            final(self).spec_height() == height,
            final(self).bytes().len() == width * height * 3,
            old(self).bytes().len() == width * height * 3 ==> final(self).bytes() == old(
                self,
            ).bytes(),
            old(self).bytes().len() != width * height * 3 ==> forall|i: int|
                0 <= i < final(self).bytes().len() ==> #[trigger] final(self).bytes()[i] == 0,
    {
        proof {
            use_type_invariant(&*self);
        }
        let size = width * height * 3;
        if self.buffer.len() == size {
            let (buffer, _, _) = self.take_parts();
            *self = PixelCanvas { buffer, width, height };
        } else {
            let mut buffer: Vec<u8> = Vec::new();
            let mut i: usize = 0;
            while i < size
                invariant
                    i <= size,
                    buffer.len() == i,
                    forall|j: int| 0 <= j < i ==> #[trigger] buffer@[j] == 0,
                decreases size - i,
            {
                buffer.push(0);
                i = i + 1;
            }
            *self = PixelCanvas { buffer, width, height };
        }
    }

    /// Paints pixel `(x, y)` when its bytes lie inside the buffer.
    pub fn set_pixel(&mut self, x: usize, y: usize, color: (u8, u8, u8))
        requires
            (y * old(self).spec_width() + x) * 3 + 2 <= usize::MAX,
        ensures
            final(self).bytes() == paint_at(
                old(self).bytes(),
                pixel_index(old(self).spec_width() as int, x as int, y as int),
                color,
            ),
            final(self).spec_width() == old(self).spec_width(),
            final(self).spec_height() == old(self).spec_height(),
    {
        proof {
            use_type_invariant(&*self);
        }
        let idx = (y * self.width + x) * 3;
        if idx + 2 < self.buffer.len() {
            let (mut buffer, width, height) = self.take_parts();
            buffer.set(idx, color.0);
            buffer.set(idx + 1, color.1);
            buffer.set(idx + 2, color.2);
            *self = PixelCanvas { buffer, width, height };
        }
    }

    fn paint_point(&mut self, x: i64, y: i64, color: (u8, u8, u8))
        ensures
            final(self).bytes() == (if on_canvas(
                old(self).spec_width() as int,
                old(self).spec_height() as int,
                (x as int, y as int),
            ) {
                paint_at(
                    old(self).bytes(),
                    pixel_index(old(self).spec_width() as int, x as int, y as int),
                    color,
                )
            } else {
                old(self).bytes()
            }),
            final(self).spec_width() == old(self).spec_width(),
            final(self).spec_height() == old(self).spec_height(),
    {
        proof {
            use_type_invariant(&*self);
        }
        if x >= 0 && y >= 0 && (x as u64) < (self.width as u64) && (y as u64) < (self.height as u64) {
            let xu = x as usize;
            let yu = y as usize;
            proof {
                assert(yu * self.width + xu < self.width * self.height) by (nonlinear_arith)
                    requires
                        xu < self.width,
                        yu < self.height,
                ;
            }
            self.set_pixel(xu, yu, color);
        }
    }

    /// Paints every pixel `color`.
    pub fn fill_background(&mut self, color: (u8, u8, u8))
        ensures
            final(self).spec_width() == old(self).spec_width(),
            final(self).spec_height() == old(self).spec_height(),
            final(self).bytes().len() == old(self).bytes().len(),
            forall|i: int|
                0 <= i < final(self).bytes().len() ==> #[trigger] final(self).bytes()[i] == (if i
                    % 3 == 0 {
                    color.0
                } else if i % 3 == 1 {
                    color.1
                } else {
                    color.2
                }),
    {
        proof {
            use_type_invariant(&*self);
        }
        let (mut buffer, width, height) = self.take_parts();
        let n = width * height;
        let mut i: usize = 0;
        while i < n
            invariant
                i <= n,
                n * 3 == buffer.len(),
                buffer.len() == width * height * 3,
                width == old(self).spec_width(),
                height == old(self).spec_height(),
                forall|j: int|
                    0 <= j < 3 * i ==> #[trigger] buffer@[j] == (if j % 3 == 0 {
                        color.0
                    } else if j % 3 == 1 {
                        color.1
                    } else {
                        color.2
                    }),
            decreases n - i,
        {
            let idx = i * 3;
            buffer.set(idx, color.0);
            buffer.set(idx + 1, color.1);
            buffer.set(idx + 2, color.2);
            i = i + 1;
        }
        *self = PixelCanvas { buffer, width, height };
    }

    /// Paints the middle row (`height / 2`) `color`; nothing on a canvas
    /// with no columns.
    pub fn draw_center_line(&mut self, color: (u8, u8, u8))
        requires
            old(self).spec_width() == 0 || old(self).spec_height() > 0,
        ensures
            final(self).spec_width() == old(self).spec_width(),
            final(self).spec_height() == old(self).spec_height(),
            final(self).bytes() == paint_points(
                old(self).bytes(),
                old(self).spec_width() as int,
                old(self).spec_height() as int,
                row_points(old(self).spec_width(), (old(self).spec_height() / 2) as int),
                color,
            ),
    {
        proof {
            use_type_invariant(&*self);
        }
        let ghost orig = self.buffer@;
        let cy = self.height / 2;
        let mut px: usize = 0;
        while px < self.width
            invariant
                px <= self.width,
                self.width == old(self).spec_width(),
                self.height == old(self).spec_height(),
                self.width == 0 || self.height > 0,
                cy == self.height / 2,
                self.buffer.len() == self.width * self.height * 3,
                self.buffer@ == paint_points(
                    orig,
                    self.width as int,
                    self.height as int,
                    row_points(self.width as nat, cy as int).take(px as int),
                    color,
                ),
            decreases self.width - px,
        {
            proof {
                assert(cy * self.width + px < self.width * self.height) by (nonlinear_arith)
                    requires
                        px < self.width,
                        cy < self.height,
                ;
                let pts = row_points(self.width as nat, cy as int);
                assert(pts.take(px + 1).drop_last() =~= pts.take(px as int));
                assert(pts.take(px + 1).last() == (px as int, cy as int));
            }
            self.set_pixel(px, cy, color);
            px = px + 1;
        }
        assert(row_points(self.width as nat, cy as int).take(self.width as int) =~= row_points(
            self.width as nat,
            cy as int,
        ));
    }

    /// Paints column `x` from row `min(y_a, y_b)` to row `max(y_a, y_b)`,
    /// both clamped to the last row.
    pub fn draw_column(&mut self, x: usize, y_a: usize, y_b: usize, color: (u8, u8, u8))
        requires
            x < old(self).spec_width(),
            old(self).spec_height() > 0,
        ensures
            final(self).spec_width() == old(self).spec_width(),
            final(self).spec_height() == old(self).spec_height(),
            ({
                let last = old(self).spec_height() - 1;
                let lo = if y_a < y_b {
                    y_a as int
                } else {
                    y_b as int
                };
                let hi = if y_a < y_b {
                    y_b as int
                } else {
                    y_a as int
                };
                let top = if lo < last {
                    lo
                } else {
                    last
                };
                let bottom = if hi < last {
                    hi
                } else {
                    last
                };
                final(self).bytes() == paint_points(
                    old(self).bytes(),
                    old(self).spec_width() as int,
                    old(self).spec_height() as int,
                    column_points(x as int, top, bottom),
                    color,
                )
            }),
    {
        proof {
            use_type_invariant(&*self);
        }
        let ghost orig = self.buffer@;
        let last = self.height - 1;
        let lo = if y_a < y_b { y_a } else { y_b };
        let hi = if y_a < y_b { y_b } else { y_a };
        let top = if lo < last { lo } else { last };
        let bottom = if hi < last { hi } else { last };
        let ghost pts = column_points(x as int, top as int, bottom as int);
        let mut py = top;
        while py <= bottom
            invariant
                top <= py <= bottom + 1,
                bottom < self.height,
                x < self.width,
                self.width == old(self).spec_width(),
                self.height == old(self).spec_height(),
                self.buffer.len() == self.width * self.height * 3,
                pts == column_points(x as int, top as int, bottom as int),
                self.buffer@ == paint_points(
                    orig,
                    self.width as int,
                    self.height as int,
                    pts.take(py - top),
                    color,
                ),
            decreases bottom + 1 - py,
        {
            proof {
                assert(py * self.width + x < self.width * self.height) by (nonlinear_arith)
                    requires
                        x < self.width,
                        py < self.height,
                ;
                assert(pts.take(py - top + 1).drop_last() =~= pts.take(py - top));
                assert(pts.take(py - top + 1).last() == (x as int, py as int));
            }
            self.set_pixel(x, py, color);
            py = py + 1;
        }
        assert(pts.take(bottom + 1 - top) =~= pts);
    }

    /// Paints the 3x3 block around `(cx, cy)`, skipping pixels off the canvas.
    pub fn draw_dot(&mut self, cx: i32, cy: i32, color: (u8, u8, u8))
        ensures
            final(self).spec_width() == old(self).spec_width(),
            final(self).spec_height() == old(self).spec_height(),
            final(self).bytes() == paint_points(
                old(self).bytes(),
                old(self).spec_width() as int,
                old(self).spec_height() as int,
                dot_points(cx as int, cy as int),
                color,
            ),
    {
        let ghost orig = self.bytes();
        let ghost pts = dot_points(cx as int, cy as int);
        let mut k: usize = 0;
        while k < 9
            invariant
                k <= 9,
                self.spec_width() == old(self).spec_width(),
                self.spec_height() == old(self).spec_height(),
                pts == dot_points(cx as int, cy as int),
                self.bytes() == paint_points(
                    orig,
                    self.spec_width() as int,
                    self.spec_height() as int,
                    pts.take(k as int),
                    color,
                ),
            decreases 9 - k,
        {
            let dy: i64 = (k / 3) as i64 - 1;
            let dx: i64 = (k % 3) as i64 - 1;
            proof {
                assert(pts.take(k + 1).drop_last() =~= pts.take(k as int));
                assert(pts[k as int] == (cx + dx, cy + dy));
            }
            self.paint_point(cx as i64 + dx, cy as i64 + dy, color);
            k = k + 1;
        }
        assert(pts.take(9) =~= pts);
    }

    /// Draws the line from `(x0, y0)` to `(x1, y1)` with Bresenham's
    /// algorithm, painting the points that lie on the canvas.
    pub fn draw_line(&mut self, x0: i32, y0: i32, x1: i32, y1: i32, color: (u8, u8, u8))
        ensures
            final(self).spec_width() == old(self).spec_width(),
            final(self).spec_height() == old(self).spec_height(),
            final(self).bytes() == paint_points(
                old(self).bytes(),
                old(self).spec_width() as int,
                old(self).spec_height() as int,
                line_points(x0 as int, y0 as int, x1 as int, y1 as int),
                color,
            ),
    {
        let ghost orig = self.bytes();
        let ghost all = line_points(x0 as int, y0 as int, x1 as int, y1 as int);
        let tx = x1 as i64;
        let ty = y1 as i64;
        let mut x = x0 as i64;
        let mut y = y0 as i64;
        let dx: i64 = if tx >= x { tx - x } else { x - tx };
        let dy: i64 = -(if ty >= y { ty - y } else { y - ty });
        let sx: i64 = if x < tx { 1 } else { -1 };
        let sy: i64 = if y < ty { 1 } else { -1 };
        let mut err: i64 = dx + dy;
        let ghost mut done: Seq<(int, int)> = Seq::empty();
        loop
            invariant_except_break
                self.spec_width() == old(self).spec_width(),
                self.spec_height() == old(self).spec_height(),
                tx == x1 as i64,
                ty == y1 as i64,
                -0x1_0000_0000 <= dy <= 0 <= dx <= 0x1_0000_0000,
                2 * dy <= err <= 2 * dx,
                i32::MIN <= x <= i32::MAX,
                i32::MIN <= y <= i32::MAX,
                step_towards(x as int, tx as int, sx as int),
                step_towards(y as int, ty as int, sy as int),
                (x0 <= x <= tx) || (tx <= x <= x0),
                (y0 <= y <= ty) || (ty <= y <= y0),
                done + bresenham_from(
                    x as int,
                    y as int,
                    tx as int,
                    ty as int,
                    dx as int,
                    dy as int,
                    sx as int,
                    sy as int,
                    err as int,
                ) == all,
                self.bytes() == paint_points(
                    orig,
                    self.spec_width() as int,
                    self.spec_height() as int,
                    done,
                    color,
                ),
            ensures
                self.spec_width() == old(self).spec_width(),
                self.spec_height() == old(self).spec_height(),
                self.bytes() == paint_points(
                    orig,
                    self.spec_width() as int,
                    self.spec_height() as int,
                    all,
                    color,
                ),
            decreases abs_int(tx - x) + abs_int(ty - y),
        {
            let ghost rest = bresenham_from(
                x as int,
                y as int,
                tx as int,
                ty as int,
                dx as int,
                dy as int,
                sx as int,
                sy as int,
                err as int,
            );
            self.paint_point(x, y, color);
            proof {
                assert((done.push((x as int, y as int))).drop_last() =~= done);
                done = done.push((x as int, y as int));
            }
            if x == tx && y == ty {
                assert(rest =~= seq![(x as int, y as int)]);
                assert(done =~= all);
                break;
            }
            let e2 = 2 * err;
            if e2 >= dy {
                if x == tx {
                    assert(rest =~= seq![(x as int, y as int)]);
                    assert(done =~= all);
                    break;
                }
                err = err + dy;
                x = x + sx;
            }
            if e2 <= dx {
                if y == ty {
                    assert(rest =~= seq![(x as int - (if e2 >= dy { sx as int } else { 0 }), y as int)]);
                    assert(done =~= all);
                    break;
                }
                err = err + dx;
                y = y + sy;
            }
            proof {
                assert(done =~= done.drop_last().push(rest[0]));
            }
        }
    }
}

} // verus!
