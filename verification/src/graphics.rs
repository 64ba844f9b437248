//! Drawing points and rectangles into a frame of 32-bit pixels.

use vstd::prelude::*;

verus! {

/// Mathematical model of a frame: its visible size, the pixels stored per
/// line, and the pixels line by line. The pixel at `(x, y)` is
/// `pixels[y * pixels_per_line + x]`.
pub struct Frame {
    pub width: int,
    pub height: int,
    pub pixels_per_line: int,
    pub pixels: Seq<u32>,
}

impl Frame {
    /// The sizes are not negative and there is one pixel for every position
    /// of every line.
    pub open spec fn wf(self) -> bool {
        &&& 0 <= self.width
        &&& 0 <= self.height
        &&& 0 <= self.pixels_per_line
        &&& self.pixels.len() == self.pixels_per_line * self.height
    }

    /// `px` is a column that is both visible and stored.
    pub open spec fn in_x_range(self, px: int) -> bool {
        0 <= px && px < self.width && px < self.pixels_per_line
    }

    /// `py` is a line of the frame.
    pub open spec fn in_y_range(self, py: int) -> bool {
        0 <= py < self.height
    }

    /// Position of the pixel at `(x, y)` in `pixels`.
    pub open spec fn index(self, x: int, y: int) -> int {
        y * self.pixels_per_line + x
    }

    /// The first and the last corner of the rectangle of width `w` and
    /// height `h` at `(px, py)` are in range.
    pub open spec fn rect_in_range(self, px: int, py: int, w: int, h: int) -> bool {
        &&& self.in_x_range(px)
        &&& self.in_y_range(py)
        &&& self.in_x_range(px + w - 1)
        &&& self.in_y_range(py + h - 1)
    }

    /// The frame with the pixel at `(x, y)` set to `color`.
    pub open spec fn with_point(self, color: u32, x: int, y: int) -> Frame {
        Frame { pixels: self.pixels.update(self.index(x, y), color), ..self }
    }

    /// The frame with every pixel of the rectangle of width `w` and height
    /// `h` at `(px, py)` set to `color`, and every other pixel as it was.
    pub open spec fn with_rect(self, color: u32, px: int, py: int, w: int, h: int) -> Frame {
        Frame {
            pixels: Seq::new(
                self.pixels.len(),
                |i: int|
                    if px <= i % self.pixels_per_line < px + w && py <= i / self.pixels_per_line
                        < py + h {
                        color
                    } else {
                        self.pixels[i]
                    },
            ),
            ..self
        }
    }
}

/// A stored position `(x, y)` has its own place in the pixels of a frame, and
/// the place determines the position.
pub proof fn lemma_index(frame: Frame, x: int, y: int)
    requires
        frame.wf(),
        0 <= x < frame.pixels_per_line,
        0 <= y < frame.height,
    ensures
        0 <= frame.index(x, y) < frame.pixels.len(),
        frame.index(x, y) % frame.pixels_per_line == x,
        frame.index(x, y) / frame.pixels_per_line == y,
{
    let l = frame.pixels_per_line;
    assert(0 <= y * l && y * l + l <= l * frame.height) by (nonlinear_arith)
        requires
            0 <= y < frame.height,
            0 < l,
    ;
    vstd::arithmetic::div_mod::lemma_fundamental_div_mod_converse(y * l + x, l, y, x);
}

/// Filling a rectangle sets exactly the pixels at the positions inside it.
pub proof fn lemma_with_rect(
    frame: Frame,
    color: u32,
    px: int,
    py: int,
    w: int,
    h: int,
    x: int,
    y: int,
)
    requires
        frame.wf(),
        0 <= x < frame.pixels_per_line,
        0 <= y < frame.height,
    ensures
        frame.with_rect(color, px, py, w, h).pixels[frame.index(x, y)] == if px <= x < px + w && py
            <= y < py + h {
            color
        } else {
            frame.pixels[frame.index(x, y)]
        },
{
    lemma_index(frame, x, y);
}

/// A point is a rectangle of one pixel: drawing either gives the same frame.
pub proof fn lemma_point_is_unit_rect(frame: Frame, color: u32, x: int, y: int)
    requires
        frame.wf(),
        frame.in_x_range(x),
        frame.in_y_range(y),
    ensures
        frame.with_rect(color, x, y, 1, 1) == frame.with_point(color, x, y),
{
    let l = frame.pixels_per_line;
    let rect = frame.with_rect(color, x, y, 1, 1).pixels;
    let point = frame.with_point(color, x, y).pixels;
    lemma_index(frame, x, y);
    assert forall|i: int| 0 <= i < frame.pixels.len() implies rect[i] == point[i] by {
        vstd::arithmetic::div_mod::lemma_fundamental_div_mod(i, l);
        if i % l == x && i / l == y {
            assert(i == frame.index(x, y)) by (nonlinear_arith)
                requires
                    i == l * (i / l) + i % l,
                    i % l == x,
                    i / l == y,
                    frame.index(x, y) == y * l + x,
            ;
        }
    }
    assert(rect =~= point);
}

/// A frame of 32-bit pixels that can be drawn into.
pub struct VramBufferInfo {
    buf: Vec<u32>,
    width: i64,
    height: i64,
    pixels_per_line: i64,
}

impl View for VramBufferInfo {
    type V = Frame;

    closed spec fn view(&self) -> Frame {
        Frame {
            width: self.width as int,
            height: self.height as int,
            pixels_per_line: self.pixels_per_line as int,
            pixels: self.buf@,
        }
    }
}

impl VramBufferInfo {
    /// The frame is well formed.
    pub open spec fn wf(&self) -> bool {
        self@.wf()
    }

    /// A frame of the given sizes with every pixel zero. `None` when a size
    /// is negative or the pixels cannot be counted in `usize`.
    pub fn new(width: i64, height: i64, pixels_per_line: i64) -> (r: Option<Self>)
        ensures
            match r {
                Some(v) => {
                    &&& v.wf()
                    &&& pixels_per_line * height <= usize::MAX
                    &&& v@.width == width
                    &&& v@.height == height
                    &&& v@.pixels_per_line == pixels_per_line
                    &&& forall|i: int| 0 <= i < v@.pixels.len() ==> v@.pixels[i] == 0
                },
                None => width < 0 || height < 0 || pixels_per_line < 0 || pixels_per_line * height
                    > usize::MAX,
            },
    {
        if width < 0 || height < 0 || pixels_per_line < 0 {
            return None;
        }
        if pixels_per_line as u64 > usize::MAX as u64 || height as u64 > usize::MAX as u64 {
            if pixels_per_line == 0 || height == 0 {
                assert(pixels_per_line * height == 0) by (nonlinear_arith)
                    requires
                        pixels_per_line == 0 || height == 0,
                ;
                return Some(VramBufferInfo { buf: Vec::new(), width, height, pixels_per_line });
            }
            assert(pixels_per_line * height > usize::MAX) by (nonlinear_arith)
                requires
                    pixels_per_line > usize::MAX || height > usize::MAX,
                    pixels_per_line >= 1,
                    height >= 1,
            ;
            return None;
        }
        match (pixels_per_line as usize).checked_mul(height as usize) {
            None => None,
            Some(count) => {
                let mut buf: Vec<u32> = Vec::new();
                let mut i: usize = 0;
                while i < count
                    invariant
                        i <= count,
                        buf@.len() == i,
                        forall|k: int| 0 <= k < i ==> buf@[k] == 0,
                    decreases count - i,
                {
                    buf.push(0);
                    i += 1;
                }
                Some(VramBufferInfo { buf, width, height, pixels_per_line })
            },
        }
    }

    /// Bytes that one pixel takes in video memory.
    pub fn bytes_per_pixel(&self) -> (n: i64)
        ensures
            n == 4,
    {
        4
    }

    /// Pixels stored per line, visible or not.
    pub fn pixels_per_line(&self) -> (n: i64)
        ensures
            n == self@.pixels_per_line,
    {
        self.pixels_per_line
    }

    /// Visible pixels per line.
    pub fn width(&self) -> (n: i64)
        ensures
            n == self@.width,
    {
        self.width
    }

    /// Number of lines.
    pub fn height(&self) -> (n: i64)
        ensures
            n == self@.height,
    {
        self.height
    }

    /// The pixels, line by line.
    pub fn pixels(&self) -> (p: &[u32])
        ensures
            p@ == self@.pixels,
    {
        self.buf.as_slice()
    }

    /// Whether `px` is a column that is both visible and stored.
    pub fn is_in_x_range(&self, px: i64) -> (b: bool)
        ensures
            b == self@.in_x_range(px as int),
    {
        let limit = if self.width < self.pixels_per_line {
            self.width
        } else {
            self.pixels_per_line
        };
        0 <= px && px < limit
    }

    /// Whether `py` is a line of the frame.
    pub fn is_in_y_range(&self, py: i64) -> (b: bool)
        ensures
            b == self@.in_y_range(py as int),
    {
        0 <= py && py < self.height
    }

    /// The color of the pixel at `(x, y)`, if the position is in range.
    pub fn pixel_at(&self, x: i64, y: i64) -> (r: Option<u32>)
        requires
            self.wf(),
        ensures
            match r {
                Some(color) => self@.in_x_range(x as int) && self@.in_y_range(y as int) && color
                    == self@.pixels[self@.index(x as int, y as int)],
                None => !(self@.in_x_range(x as int) && self@.in_y_range(y as int)),
            },
    {
        if self.is_in_x_range(x) && self.is_in_y_range(y) {
            let i = self.pixel_index(x, y);
            Some(self.buf[i])
        } else {
            None
        }
    }

    /// Position in the pixels of the stored position `(x, y)`.
    fn pixel_index(&self, x: i64, y: i64) -> (i: usize)
        requires
            self.wf(),
            0 <= x < self@.pixels_per_line,
            0 <= y < self@.height,
        ensures
            i == self@.index(x as int, y as int),
            i < self@.pixels.len(),
    {
        let count = self.buf.len();
        proof {
            lemma_index(self@, x as int, y as int);
            let l = self.pixels_per_line as int;
            assert(y <= y * l <= y * l + x && l <= l * self.height) by (nonlinear_arith)
                requires
                    0 <= y < self.height,
                    0 < l,
                    0 <= x,
            ;
        }
        (y as usize) * (self.pixels_per_line as usize) + (x as usize)
    }

    /// Sets the pixel at the stored position `(x, y)`.
    fn unchecked_draw_point(&mut self, color: u32, x: i64, y: i64)
        requires
            old(self).wf(),
            0 <= x < old(self)@.pixels_per_line,
            0 <= y < old(self)@.height,
        ensures
            final(self)@ == old(self)@.with_point(color, x as int, y as int),
            final(self).wf(),
    {
        let i = self.pixel_index(x, y);
        self.buf.set(i, color);
    }
}

/// Sets the pixel at `(x, y)` to `color`. Fails, and draws nothing, when the
/// position is out of range.
pub fn draw_point(buf: &mut VramBufferInfo, color: u32, x: i64, y: i64) -> (r: Result<
    (),
    &'static str,
>)
    requires
        old(buf).wf(),
    ensures
        final(buf).wf(),
        match r {
            Ok(_) => {
                &&& old(buf)@.in_x_range(x as int) && old(buf)@.in_y_range(y as int)
                &&& final(buf)@ == old(buf)@.with_point(color, x as int, y as int)
            },
            Err(e) => {
                &&& !(old(buf)@.in_x_range(x as int) && old(buf)@.in_y_range(y as int))
                &&& final(buf)@ == old(buf)@
                &&& e@ == "Out of range"@
            },
        },
{
    if buf.is_in_x_range(x) && buf.is_in_y_range(y) {
        buf.unchecked_draw_point(color, x, y);
        Ok(())
    } else {
        Err("Out of range")
    }
}

/// Sets every pixel of the rectangle of width `w` and height `h` whose first
/// corner is `(px, py)` to `color`. Fails, and draws nothing, when the first
/// or the last corner of the rectangle is out of range.
pub fn fill_rect(buf: &mut VramBufferInfo, color: u32, px: i64, py: i64, w: i64, h: i64) -> (r:
    Result<(), &'static str>)
    requires
        old(buf).wf(),
    ensures
        final(buf).wf(),
        match r {
            Ok(_) => {
                &&& old(buf)@.rect_in_range(px as int, py as int, w as int, h as int)
                &&& final(buf)@ == old(buf)@.with_rect(
                    color,
                    px as int,
                    py as int,
                    w as int,
                    h as int,
                )
            },
            Err(e) => {
                &&& !old(buf)@.rect_in_range(px as int, py as int, w as int, h as int)
                &&& final(buf)@ == old(buf)@
                &&& e@ == "Out of range"@
            },
        },
{
    if !buf.is_in_x_range(px) || !buf.is_in_y_range(py) {
        return Err("Out of range");
    }
    let x_end = match px.checked_add(w) {
        Some(e) => e,
        None => {
            return Err("Out of range");
        },
    };
    let y_end = match py.checked_add(h) {
        Some(e) => e,
        None => {
            return Err("Out of range");
        },
    };
    let in_range = match (x_end.checked_sub(1), y_end.checked_sub(1)) {
        (Some(x_last), Some(y_last)) => buf.is_in_x_range(x_last) && buf.is_in_y_range(y_last),
        _ => false,
    };
    if !in_range {
        return Err("Out of range");
    }
    let ghost before = buf@;
    let mut y = py;
    assert(buf@.pixels =~= before.with_rect(color, px as int, py as int, w as int, 0).pixels);
    while y < y_end
        invariant
            buf.wf(),
            before.wf(),
            before.rect_in_range(px as int, py as int, w as int, h as int),
            x_end == px + w,
            y_end == py + h,
            py <= y,
            y <= y_end || y == py,
            buf@ == before.with_rect(color, px as int, py as int, w as int, y - py),
        decreases y_end - y,
    {
        let mut x = px;
        while x < x_end
            invariant
                buf.wf(),
                before.wf(),
                before.rect_in_range(px as int, py as int, w as int, h as int),
                x_end == px + w,
                y_end == py + h,
                py <= y < y_end,
                px <= x,
                x <= x_end || x == px,
                buf@.width == before.width,
                buf@.height == before.height,
                buf@.pixels_per_line == before.pixels_per_line,
                buf@.pixels.len() == before.pixels.len(),
                forall|i: int|
                    0 <= i < before.pixels.len() ==> #[trigger] buf@.pixels[i] == if (px <= i
                        % before.pixels_per_line < px + w && py <= i / before.pixels_per_line < y)
                        || (px <= i % before.pixels_per_line < x && i / before.pixels_per_line
                        == y) {
                        color
                    } else {
                        before.pixels[i]
                    },
            decreases x_end - x,
        {
            let ghost row = buf@;
            buf.unchecked_draw_point(color, x, y);
            proof {
                let l = before.pixels_per_line;
                lemma_index(row, x as int, y as int);
                assert forall|i: int| 0 <= i < before.pixels.len() implies #[trigger] buf@.pixels[i]
                    == if (px <= i % l < px + w && py <= i / l < y) || (px <= i % l < x + 1 && i
                    / l == y) {
                    color
                } else {
                    before.pixels[i]
                } by {
                    vstd::arithmetic::div_mod::lemma_fundamental_div_mod(i, l);
                    if i % l == x && i / l == y {
                        assert(i == row.index(x as int, y as int)) by (nonlinear_arith)
                            requires
                                i == l * (i / l) + i % l,
                                i % l == x,
                                i / l == y,
                                row.index(x as int, y as int) == y * l + x,
                        ;
                    }
                }
            }
            x += 1;
        }
        y += 1;
        assert(buf@.pixels =~= before.with_rect(
            color,
            px as int,
            py as int,
            w as int,
            y - py,
        ).pixels);
    }
    assert(buf@.pixels =~= before.with_rect(
        color,
        px as int,
        py as int,
        w as int,
        h as int,
    ).pixels);
    Ok(())
}

} // verus!
