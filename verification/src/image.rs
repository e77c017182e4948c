//! The pixel buffer: a `width x height` grid of packed colors stored
//! row-major, placed at `(x_offset, y_offset)` within a larger canvas.
//!
//! All coordinate-taking operations clip silently: a write outside the
//! buffer is a no-op and a read outside it is `None`.  This is the
//! engine's central robustness contract — rasterization loops may
//! overshoot the buffer without crashing.

use vstd::prelude::*;

use crate::color::{BLACK, WHITE};

verus! {

/// A rectangular grid of packed `0x00RRGGBB` colors.
///
/// Invariant ([`Image::wf`]): `bytes` holds exactly `width * height`
/// entries, row-major.  `x_offset` and `y_offset` place the buffer
/// within a larger destination canvas and do not affect its own
/// coordinate system.
#[derive(Clone)]
pub struct Image {
    pub bytes: Vec<u32>,
    pub width: usize,
    pub height: usize,
    pub x_offset: usize,
    pub y_offset: usize,
}

/// Row-major indices stay inside the buffer.
pub proof fn lemma_rowmajor_in_range(w: int, h: int, x: int, y: int)
    requires
        0 <= x < w,
        0 <= y < h,
    ensures
        0 <= y * w + x < w * h,
{
    assert(0 <= y * w + x < w * h) by (nonlinear_arith)
        requires 0 <= x < w && 0 <= y < h;
}

/// Row-major indexing is injective on in-bounds coordinates.
pub proof fn lemma_rowmajor_injective(w: int, h: int, x1: int, y1: int, x2: int, y2: int)
    requires
        0 <= x1 < w,
        0 <= y1 < h,
        0 <= x2 < w,
        0 <= y2 < h,
        y1 * w + x1 == y2 * w + x2,
    ensures
        x1 == x2 && y1 == y2,
{
    assert(x1 == x2 && y1 == y2) by (nonlinear_arith)
        requires 0 <= x1 < w && 0 <= y1 < h && 0 <= x2 < w && 0 <= y2 < h
            && y1 * w + x1 == y2 * w + x2;
}

impl Image {
    /// Well-formedness: the pixel store matches the stated dimensions,
    /// and each dimension fits in an `i64` coordinate.
    pub open spec fn wf(self) -> bool {
        &&& self.bytes.len() == self.width * self.height
        &&& self.width <= i64::MAX
        &&& self.height <= i64::MAX
    }

    /// Whether `(x, y)` lies inside the buffer.
    pub open spec fn in_bounds(self, x: int, y: int) -> bool {
        0 <= x < self.width && 0 <= y < self.height
    }

    /// The stored color at in-bounds `(x, y)`.
    pub open spec fn pixel(self, x: int, y: int) -> u32 {
        self.bytes[y * self.width + x]
    }

    /// Same dimensions and placement (the pixels may differ).
    pub open spec fn same_shape(self, other: Image) -> bool {
        &&& self.width == other.width
        &&& self.height == other.height
        &&& self.x_offset == other.x_offset
        &&& self.y_offset == other.y_offset
    }

    /// Index of this buffer's pixel `(x, y)` inside a destination canvas
    /// of stride `window_width`, honoring the buffer's placement offsets.
    pub open spec fn canvas_index(self, window_width: int, x: int, y: int) -> int {
        (self.y_offset + y) * window_width + self.x_offset + x
    }

    /// Whether canvas cell `i` lies under some pixel of this buffer.
    pub open spec fn covers(self, window_width: int, i: int) -> bool {
        exists|x: int, y: int|
            #![trigger self.canvas_index(window_width, x, y)]
            self.in_bounds(x, y) && i == self.canvas_index(window_width, x, y)
    }

    /// The color that compositing writes over a canvas cell holding
    /// `under`: foreground pixels map to `fg`, other non-background
    /// colors pass through verbatim, and background pixels map to `bg`
    /// when one is supplied and otherwise leave the cell alone.
    pub open spec fn composited(self, x: int, y: int, fg: u32, bg: Option<u32>, under: u32) -> u32 {
        if self.pixel(x, y) == BLACK {
            fg
        } else if self.pixel(x, y) != WHITE {
            self.pixel(x, y)
        } else if bg is Some {
            bg->0
        } else {
            under
        }
    }

    /// Canvas indices stay inside a destination that holds the full
    /// footprint of this buffer.
    proof fn lemma_canvas_index_in_range(self, window_width: int, x: int, y: int, len: int)
        requires
            self.in_bounds(x, y),
            self.x_offset + self.width <= window_width,
            (self.y_offset + self.height) * window_width <= len,
        ensures
            0 <= self.canvas_index(window_width, x, y) < len,
            self.y_offset + y < len,
    {
        let (xo, yo, w, h) = (self.x_offset as int, self.y_offset as int,
            self.width as int, self.height as int);
        assert(0 <= (yo + y) * window_width + xo + x < len && yo + y < len) by (nonlinear_arith)
            requires 0 <= x < w && 0 <= y < h && xo + w <= window_width
                && (yo + h) * window_width <= len && 0 <= xo && 0 <= yo;
    }

    /// Canvas indexing is injective on in-bounds coordinates.
    proof fn lemma_canvas_index_injective(
        self, window_width: int, x1: int, y1: int, x2: int, y2: int)
        requires
            self.in_bounds(x1, y1),
            self.in_bounds(x2, y2),
            self.x_offset + self.width <= window_width,
            self.canvas_index(window_width, x1, y1) == self.canvas_index(window_width, x2, y2),
        ensures
            x1 == x2 && y1 == y2,
    {
        let (xo, yo, w, h) = (self.x_offset as int, self.y_offset as int,
            self.width as int, self.height as int);
        assert(x1 == x2 && y1 == y2) by (nonlinear_arith)
            requires 0 <= x1 < w && 0 <= y1 < h && 0 <= x2 < w && 0 <= y2 < h
                && xo + w <= window_width && 0 <= xo && 0 <= yo
                && (yo + y1) * window_width + xo + x1 == (yo + y2) * window_width + xo + x2;
    }

    /// A fresh buffer with every pixel set to the background sentinel.
    pub fn new(width: usize, height: usize, x_offset: usize, y_offset: usize) -> (img: Image)
        requires
            width * height <= usize::MAX,
            width <= i64::MAX,
            height <= i64::MAX,
        ensures
            img.wf(),
            img.width == width,
            img.height == height,
            img.x_offset == x_offset,
            img.y_offset == y_offset,
            forall|x: int, y: int| img.in_bounds(x, y) ==> img.pixel(x, y) == WHITE,
    {
        let img = Image {
            bytes: vec![WHITE; width * height],
            width,
            height,
            x_offset,
            y_offset,
        };
        proof {
            assert forall|x: int, y: int| img.in_bounds(x, y) implies img.pixel(x, y) == WHITE by {
                lemma_rowmajor_in_range(width as int, height as int, x, y);
            }
        }
        img
    }

    /// Reads the pixel at `(x, y)`; `None` exactly when out of bounds,
    /// so that an off-buffer read can never be mistaken for background.
    pub fn get(&self, x: i64, y: i64) -> (r: Option<u32>)
        requires
            self.wf(),
        ensures
            r == (if self.in_bounds(x as int, y as int) {
                Some(self.pixel(x as int, y as int))
            } else {
                None::<u32>
            }),
    {
        if x < 0 || y < 0 || y >= (self.height as i64) || x >= (self.width as i64) {
            return None;
        }
        let (x, y): (usize, usize) = (x as usize, y as usize);
        proof {
            lemma_rowmajor_in_range(self.width as int, self.height as int, x as int, y as int);
        }
        Some(self.bytes[y * self.width + x])
    }

    /// Sets the pixel at `(x, y)` to `color` (the foreground sentinel if
    /// `None`); out of bounds is a silent no-op.
    pub fn plot_color(&mut self, x: i64, y: i64, color: Option<u32>)
        requires
            old(self).wf(),
        ensures
            final(self).wf(),
            final(self).same_shape(*old(self)),
            old(self).in_bounds(x as int, y as int) ==> final(self).pixel(x as int, y as int)
                == color.unwrap_or(BLACK),
            forall|px: int, py: int|
                old(self).in_bounds(px, py) && !(px == x as int && py == y as int)
                    ==> final(self).pixel(px, py) == old(self).pixel(px, py),
            !old(self).in_bounds(x as int, y as int) ==> *final(self) == *old(self),
            old(self).in_bounds(x as int, y as int) ==> final(self).bytes@
                == old(self).bytes@.update(y as int * old(self).width + x as int,
                    color.unwrap_or(BLACK)),
    {
        if x < 0 || y < 0 || y >= (self.height as i64) || x >= (self.width as i64) {
            return;
        }
        let (x, y): (usize, usize) = (x as usize, y as usize);
        proof {
            lemma_rowmajor_in_range(self.width as int, self.height as int, x as int, y as int);
        }
        let v = match color {
            Some(c) => c,
            None => BLACK,
        };
        self.bytes[y * self.width + x] = v;
        proof {
            assert forall|px: int, py: int|
                old(self).in_bounds(px, py) && !(px == x as int && py == y as int)
                    implies self.pixel(px, py) == old(self).pixel(px, py) by {
                lemma_rowmajor_in_range(self.width as int, self.height as int, px, py);
                if py * self.width + px == y as int * self.width + x as int {
                    lemma_rowmajor_injective(
                        self.width as int, self.height as int, px, py, x as int, y as int);
                }
            }
        }
    }

    /// Sets the pixel at `(x, y)` to the foreground sentinel; out of
    /// bounds is a silent no-op.
    pub fn plot(&mut self, x: i64, y: i64)
        requires
            old(self).wf(),
        ensures
            final(self).wf(),
            final(self).same_shape(*old(self)),
            old(self).in_bounds(x as int, y as int) ==> final(self).pixel(x as int, y as int)
                == BLACK,
            forall|px: int, py: int|
                old(self).in_bounds(px, py) && !(px == x as int && py == y as int)
                    ==> final(self).pixel(px, py) == old(self).pixel(px, py),
            !old(self).in_bounds(x as int, y as int) ==> *final(self) == *old(self),
            old(self).in_bounds(x as int, y as int) ==> final(self).bytes@
                == old(self).bytes@.update(y as int * old(self).width + x as int, BLACK),
    {
        self.plot_color(x, y, None)
    }

    /// Whether canvas cell `i` lies under a pixel of this buffer that
    /// comes strictly before `(x, y)` in row-major order.
    spec fn covers_prefix(self, window_width: int, i: int, x: int, y: int) -> bool {
        exists|px: int, py: int|
            #![trigger self.canvas_index(window_width, px, py)]
            self.in_bounds(px, py) && (py < y || (py == y && px < x))
                && i == self.canvas_index(window_width, px, py)
    }

    /// Composites this buffer into a flat destination canvas of stride
    /// `window_width` at the buffer's placement offsets: foreground
    /// pixels become `fg`, background pixels become `bg` when one is
    /// supplied (and are skipped otherwise), any other color is copied
    /// verbatim.  Cells outside the buffer's footprint keep their value.
    pub fn draw(&self, buffer: &mut Vec<u32>, fg: u32, bg: Option<u32>, window_width: usize)
        requires
            self.wf(),
            self.x_offset + self.width <= window_width,
            (self.y_offset + self.height) * window_width <= old(buffer).len(),
        ensures
            final(buffer).len() == old(buffer).len(),
            forall|x: int, y: int| self.in_bounds(x, y)
                ==> final(buffer)[self.canvas_index(window_width as int, x, y)]
                    == self.composited(x, y, fg, bg,
                        old(buffer)[self.canvas_index(window_width as int, x, y)]),
            forall|i: int| 0 <= i < old(buffer).len() && !self.covers(window_width as int, i)
                ==> final(buffer)[i] == old(buffer)[i],
    {
        let ghost ww: int = window_width as int;
        let mut y: usize = 0;
        while y < self.height
            invariant
                self.wf(),
                ww == window_width as int,
                self.x_offset + self.width <= window_width,
                (self.y_offset + self.height) * window_width <= old(buffer).len(),
                buffer.len() == old(buffer).len(),
                y <= self.height,
                forall|px: int, py: int| self.in_bounds(px, py) && py < y
                    ==> buffer[self.canvas_index(ww, px, py)]
                        == self.composited(px, py, fg, bg,
                            old(buffer)[self.canvas_index(ww, px, py)]),
                forall|i: int| 0 <= i < old(buffer).len()
                    && !self.covers_prefix(ww, i, 0, y as int)
                    ==> buffer[i] == old(buffer)[i],
            decreases self.height - y,
        {
            let mut x: usize = 0;
            while x < self.width
                invariant
                    self.wf(),
                    ww == window_width as int,
                    self.x_offset + self.width <= window_width,
                    (self.y_offset + self.height) * window_width <= old(buffer).len(),
                    buffer.len() == old(buffer).len(),
                    y < self.height,
                    x <= self.width,
                    forall|px: int, py: int| self.in_bounds(px, py)
                        && (py < y || (py == y && px < x))
                        ==> buffer[self.canvas_index(ww, px, py)]
                            == self.composited(px, py, fg, bg,
                                old(buffer)[self.canvas_index(ww, px, py)]),
                    forall|i: int| 0 <= i < old(buffer).len()
                        && !self.covers_prefix(ww, i, x as int, y as int)
                        ==> buffer[i] == old(buffer)[i],
                decreases self.width - x,
            {
                proof {
                    lemma_rowmajor_in_range(
                        self.width as int, self.height as int, x as int, y as int);
                    self.lemma_canvas_index_in_range(
                        ww, x as int, y as int, old(buffer).len() as int);
                    assert(!self.covers_prefix(ww, self.canvas_index(ww, x as int, y as int),
                        x as int, y as int)) by {
                        assert forall|px: int, py: int| self.in_bounds(px, py)
                            && (py < y || (py == y && px < x))
                            implies self.canvas_index(ww, x as int, y as int)
                                != self.canvas_index(ww, px, py) by {
                            if self.canvas_index(ww, x as int, y as int)
                                == self.canvas_index(ww, px, py) {
                                self.lemma_canvas_index_injective(
                                    ww, x as int, y as int, px, py);
                            }
                        }
                    }
                }
                let p = self.bytes[y * self.width + x];
                let i = (self.y_offset + y) * window_width + self.x_offset + x;
                if p == BLACK {
                    buffer[i] = fg;
                } else if p != WHITE {
                    buffer[i] = p;
                } else if let Some(bgc) = bg {
                    buffer[i] = bgc;
                }
                x += 1;
                proof {
                    let (cx, cy) = (x as int - 1, y as int);
                    assert(self.in_bounds(cx, cy));
                    assert forall|px: int, py: int| self.in_bounds(px, py)
                        && (py < y || (py == y && px < x))
                        implies buffer[self.canvas_index(ww, px, py)]
                            == self.composited(px, py, fg, bg,
                                old(buffer)[self.canvas_index(ww, px, py)]) by {
                        self.lemma_canvas_index_in_range(ww, px, py, old(buffer).len() as int);
                        if self.canvas_index(ww, px, py) == self.canvas_index(ww, cx, cy) {
                            self.lemma_canvas_index_injective(ww, px, py, cx, cy);
                        }
                    }
                    assert forall|i2: int| 0 <= i2 < old(buffer).len()
                        && !self.covers_prefix(ww, i2, x as int, y as int)
                        implies buffer[i2] == old(buffer)[i2] by {
                        assert(i2 != self.canvas_index(ww, cx, cy));
                        assert(!self.covers_prefix(ww, i2, cx, cy));
                    }
                }
            }
            y += 1;
        }
        proof {
            assert forall|i: int| 0 <= i < old(buffer).len() && !self.covers(ww, i)
                implies buffer[i] == old(buffer)[i] by {
                assert(!self.covers_prefix(ww, i, 0, self.height as int));
            }
        }
    }

    /// Copies every pixel of this buffer verbatim into a flat destination
    /// canvas of stride `window_width` at the buffer's placement offsets.
    pub fn draw_raw(&self, buffer: &mut Vec<u32>, window_width: usize)
        requires
            self.wf(),
            self.x_offset + self.width <= window_width,
            (self.y_offset + self.height) * window_width <= old(buffer).len(),
        ensures
            final(buffer).len() == old(buffer).len(),
            forall|x: int, y: int| self.in_bounds(x, y)
                ==> final(buffer)[self.canvas_index(window_width as int, x, y)]
                    == self.pixel(x, y),
            forall|i: int| 0 <= i < old(buffer).len() && !self.covers(window_width as int, i)
                ==> final(buffer)[i] == old(buffer)[i],
    {
        let ghost ww: int = window_width as int;
        let mut y: usize = 0;
        while y < self.height
            invariant
                self.wf(),
                ww == window_width as int,
                self.x_offset + self.width <= window_width,
                (self.y_offset + self.height) * window_width <= old(buffer).len(),
                buffer.len() == old(buffer).len(),
                y <= self.height,
                forall|px: int, py: int| self.in_bounds(px, py) && py < y
                    ==> buffer[self.canvas_index(ww, px, py)] == self.pixel(px, py),
                forall|i: int| 0 <= i < old(buffer).len()
                    && !self.covers_prefix(ww, i, 0, y as int)
                    ==> buffer[i] == old(buffer)[i],
            decreases self.height - y,
        {
            let mut x: usize = 0;
            while x < self.width
                invariant
                    self.wf(),
                    ww == window_width as int,
                    self.x_offset + self.width <= window_width,
                    (self.y_offset + self.height) * window_width <= old(buffer).len(),
                    buffer.len() == old(buffer).len(),
                    y < self.height,
                    x <= self.width,
                    forall|px: int, py: int| self.in_bounds(px, py)
                        && (py < y || (py == y && px < x))
                        ==> buffer[self.canvas_index(ww, px, py)] == self.pixel(px, py),
                    forall|i: int| 0 <= i < old(buffer).len()
                        && !self.covers_prefix(ww, i, x as int, y as int)
                        ==> buffer[i] == old(buffer)[i],
                decreases self.width - x,
            {
                proof {
                    lemma_rowmajor_in_range(
                        self.width as int, self.height as int, x as int, y as int);
                    self.lemma_canvas_index_in_range(
                        ww, x as int, y as int, old(buffer).len() as int);
                }
                let p = self.bytes[y * self.width + x];
                let i = (self.y_offset + y) * window_width + self.x_offset + x;
                buffer[i] = p;
                x += 1;
                proof {
                    let (cx, cy) = (x as int - 1, y as int);
                    assert(self.in_bounds(cx, cy));
                    assert forall|px: int, py: int| self.in_bounds(px, py)
                        && (py < y || (py == y && px < x))
                        implies buffer[self.canvas_index(ww, px, py)] == self.pixel(px, py) by {
                        self.lemma_canvas_index_in_range(ww, px, py, old(buffer).len() as int);
                        if self.canvas_index(ww, px, py) == self.canvas_index(ww, cx, cy) {
                            self.lemma_canvas_index_injective(ww, px, py, cx, cy);
                        }
                    }
                    assert forall|i2: int| 0 <= i2 < old(buffer).len()
                        && !self.covers_prefix(ww, i2, x as int, y as int)
                        implies buffer[i2] == old(buffer)[i2] by {
                        assert(i2 != self.canvas_index(ww, cx, cy));
                        assert(!self.covers_prefix(ww, i2, cx, cy));
                    }
                }
            }
            y += 1;
        }
        proof {
            assert forall|i: int| 0 <= i < old(buffer).len() && !self.covers(ww, i)
                implies buffer[i] == old(buffer)[i] by {
                assert(!self.covers_prefix(ww, i, 0, self.height as int));
            }
        }
    }

    /// Draws the buffer's one-pixel border in the foreground sentinel,
    /// leaving the interior untouched.
    pub fn draw_outline(&mut self)
        requires
            old(self).wf(),
        ensures
            final(self).wf(),
            final(self).same_shape(*old(self)),
            forall|x: int, y: int| old(self).in_bounds(x, y)
                ==> final(self).pixel(x, y) == (if x == 0 || x == old(self).width - 1
                        || y == 0 || y == old(self).height - 1 {
                    BLACK
                } else {
                    old(self).pixel(x, y)
                }),
    {
        let h = self.height as i64;
        let w = self.width as i64;
        let mut i: i64 = 0;
        while i < h
            invariant
                self.wf(),
                self.same_shape(*old(self)),
                w == self.width,
                h == self.height,
                0 <= i <= h,
                forall|px: int, py: int| self.in_bounds(px, py) && (px == 0 || px == w - 1)
                    && py < i ==> self.pixel(px, py) == BLACK,
                forall|px: int, py: int| self.in_bounds(px, py)
                    && !((px == 0 || px == w - 1) && py < i)
                    ==> self.pixel(px, py) == old(self).pixel(px, py),
            decreases h - i,
        {
            self.plot(0, i);
            self.plot(w - 1, i);
            i += 1;
        }
        let mut i: i64 = 0;
        while i < w
            invariant
                self.wf(),
                self.same_shape(*old(self)),
                w == self.width,
                h == self.height,
                0 <= i <= w,
                forall|px: int, py: int| self.in_bounds(px, py) && (px == 0 || px == w - 1)
                    ==> self.pixel(px, py) == BLACK,
                forall|px: int, py: int| self.in_bounds(px, py) && (py == 0 || py == h - 1)
                    && px < i ==> self.pixel(px, py) == BLACK,
                forall|px: int, py: int| self.in_bounds(px, py)
                    && !(px == 0 || px == w - 1) && !((py == 0 || py == h - 1) && px < i)
                    ==> self.pixel(px, py) == old(self).pixel(px, py),
            decreases w - i,
        {
            self.plot(i, h - 1);
            self.plot(i, 0);
            i += 1;
        }
    }

    /// Resets every pixel to the background sentinel.
    pub fn clear(&mut self)
        requires
            old(self).wf(),
        ensures
            final(self).wf(),
            final(self).same_shape(*old(self)),
            forall|x: int, y: int| final(self).in_bounds(x, y)
                ==> final(self).pixel(x, y) == WHITE,
    {
        let n = self.bytes.len();
        let mut i: usize = 0;
        while i < n
            invariant
                self.wf(),
                self.same_shape(*old(self)),
                n == self.bytes.len(),
                i <= n,
                forall|j: int| 0 <= j < i ==> self.bytes[j] == WHITE,
            decreases n - i,
        {
            self.bytes[i] = WHITE;
            i += 1;
        }
        proof {
            assert forall|x: int, y: int| self.in_bounds(x, y)
                implies self.pixel(x, y) == WHITE by {
                lemma_rowmajor_in_range(self.width as int, self.height as int, x, y);
            }
        }
    }
}

} // verus!
