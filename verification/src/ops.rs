//! Whole-image operations: sub-rectangle blitting and nearest-neighbor
//! resize of binary (foreground/background) images.

use vstd::prelude::*;

use crate::color::{BLACK, WHITE};
use crate::image::Image;
use crate::line::COORD_LIMIT;

verus! {

/// The source coordinate nearest-neighbor resampling reads for
/// destination coordinate `d`: `(d * src_dim) / dst_dim`, truncating.
pub open spec fn resize_src(d: int, src_dim: int, dst_dim: int) -> int {
    (d * src_dim) / dst_dim
}

/// Whether the blit of a `width x height` window of `source` (read at
/// `src_offset`) onto the destination at `dest_offset` paints the
/// destination pixel `(px, py)`: the pixel lies in the clipped window
/// and the corresponding source pixel is foreground.
pub open spec fn copy_plots(
    source: Image, dest_offset: (int, int), src_offset: (int, int),
    width: int, height: int, px: int, py: int,
) -> bool {
    &&& dest_offset.0 <= px < dest_offset.0 + width
    &&& dest_offset.1 <= py < dest_offset.1 + height
    &&& source.in_bounds(px - dest_offset.0 + src_offset.0, py - dest_offset.1 + src_offset.1)
    &&& source.pixel(px - dest_offset.0 + src_offset.0, py - dest_offset.1 + src_offset.1)
        == BLACK
}

impl Image {
    /// Blits the `width x height` sub-rectangle of `source` starting at
    /// `src_offset` onto this buffer at `dest_offset`, copying only
    /// foreground source pixels and clipping silently at both buffers'
    /// edges.
    pub fn copy(
        &mut self, source: &Image, dest_offset: (usize, usize), src_offset: (usize, usize),
        width: usize, height: usize,
    )
        requires
            old(self).wf(),
            source.wf(),
            width + dest_offset.0 <= usize::MAX,
            height + dest_offset.1 <= usize::MAX,
            src_offset.0 + width <= i64::MAX,
            src_offset.1 + height <= i64::MAX,
            old(self).width <= i64::MAX,
            old(self).height <= i64::MAX,
        ensures
            final(self).wf(),
            final(self).same_shape(*old(self)),
            forall|px: int, py: int| old(self).in_bounds(px, py)
                ==> final(self).pixel(px, py) == (if copy_plots(*source,
                        (dest_offset.0 as int, dest_offset.1 as int),
                        (src_offset.0 as int, src_offset.1 as int),
                        width as int, height as int, px, py) {
                    BLACK
                } else {
                    old(self).pixel(px, py)
                }),
    {
        let (x_offset, y_offset) = dest_offset;
        let (sx_offset, sy_offset) = src_offset;
        let y_end = if height + y_offset < self.height { height + y_offset } else { self.height };
        let x_end = if width + x_offset < self.width { width + x_offset } else { self.width };
        let mut y = y_offset;
        while y < y_end
            invariant
                self.wf(),
                self.same_shape(*old(self)),
                source.wf(),
                width + x_offset <= usize::MAX,
                height + y_offset <= usize::MAX,
                sx_offset + width <= i64::MAX,
                sy_offset + height <= i64::MAX,
                self.width <= i64::MAX,
                self.height <= i64::MAX,
                y_end == (if height + y_offset < self.height { height + y_offset as int } else { self.height as int }),
                x_end == (if width + x_offset < self.width { width + x_offset as int } else { self.width as int }),
                y_offset <= y,
                y <= y_end || y == y_offset,
                forall|px: int, py: int| old(self).in_bounds(px, py)
                    ==> self.pixel(px, py) == (if py < y && copy_plots(*source,
                            (x_offset as int, y_offset as int),
                            (sx_offset as int, sy_offset as int),
                            width as int, height as int, px, py) {
                        BLACK
                    } else {
                        old(self).pixel(px, py)
                    }),
            decreases y_end - y,
        {
            let sy = y - y_offset;
            let mut x = x_offset;
            while x < x_end
                invariant
                    self.wf(),
                    self.same_shape(*old(self)),
                    source.wf(),
                    width + x_offset <= usize::MAX,
                    height + y_offset <= usize::MAX,
                    sx_offset + width <= i64::MAX,
                    sy_offset + height <= i64::MAX,
                    self.width <= i64::MAX,
                    self.height <= i64::MAX,
                    y_end == (if height + y_offset < self.height { height + y_offset as int } else { self.height as int }),
                    x_end == (if width + x_offset < self.width { width + x_offset as int } else { self.width as int }),
                    y_offset <= y < y_end,
                    sy == y - y_offset,
                    x_offset <= x,
                    x <= x_end || x == x_offset,
                    forall|px: int, py: int| old(self).in_bounds(px, py)
                        ==> self.pixel(px, py) == (if (py < y || (py == y && px < x))
                                && copy_plots(*source,
                                    (x_offset as int, y_offset as int),
                                    (sx_offset as int, sy_offset as int),
                                    width as int, height as int, px, py) {
                            BLACK
                        } else {
                            old(self).pixel(px, py)
                        }),
                decreases x_end - x,
            {
                let sx = x - x_offset;
                match source.get(sx as i64 + sx_offset as i64, sy as i64 + sy_offset as i64) {
                    Some(p) => {
                        if p == BLACK {
                            self.plot(x as i64, y as i64);
                        }
                    }
                    None => {}
                }
                x += 1;
            }
            y += 1;
        }
    }

    /// Nearest-neighbor resize to `scaled_width x scaled_height`,
    /// carrying over foreground/background status only: a destination
    /// pixel is foreground exactly when its resampled source pixel is.
    pub fn resize(
        &self, scaled_width: usize, scaled_height: usize, x_offset: usize, y_offset: usize,
    ) -> (scaled: Image)
        requires
            self.wf(),
            self.width <= COORD_LIMIT,
            self.height <= COORD_LIMIT,
            scaled_width <= COORD_LIMIT,
            scaled_height <= COORD_LIMIT,
            scaled_width * scaled_height <= usize::MAX,
        ensures
            scaled.wf(),
            scaled.width == scaled_width,
            scaled.height == scaled_height,
            scaled.x_offset == x_offset,
            scaled.y_offset == y_offset,
            forall|dx: int, dy: int| scaled.in_bounds(dx, dy)
                ==> scaled.pixel(dx, dy) == (if self.in_bounds(
                        resize_src(dx, self.width as int, scaled_width as int),
                        resize_src(dy, self.height as int, scaled_height as int))
                        && self.pixel(
                            resize_src(dx, self.width as int, scaled_width as int),
                            resize_src(dy, self.height as int, scaled_height as int)) == BLACK {
                    BLACK
                } else {
                    WHITE
                }),
    {
        proof {
            crate::line::lemma_abs_mul_le(scaled_width as int, scaled_height as int,
                1int * 0x10_0000, 1int * 0x10_0000);
        }
        let mut scaled = Image::new(scaled_width, scaled_height, x_offset, y_offset);
        let mut sx: i64;
        let mut sy: i64;
        let mut dx: i64;
        let mut dy: i64 = 0;

        let og_height = self.height as i64;
        let og_width = self.width as i64;
        let scaled_height = scaled.height as i64;
        let scaled_width = scaled.width as i64;

        while dy < scaled_height
            invariant
                scaled.wf(),
                self.wf(),
                og_width == self.width,
                og_height == self.height,
                scaled_width == scaled.width,
                scaled_height == scaled.height,
                self.width <= COORD_LIMIT,
                self.height <= COORD_LIMIT,
                scaled.width <= COORD_LIMIT,
                scaled.height <= COORD_LIMIT,
                scaled.x_offset == x_offset,
                scaled.y_offset == y_offset,
                0 <= dy <= scaled_height,
                forall|qx: int, qy: int| scaled.in_bounds(qx, qy)
                    ==> scaled.pixel(qx, qy) == (if qy < dy && self.in_bounds(
                            resize_src(qx, self.width as int, scaled.width as int),
                            resize_src(qy, self.height as int, scaled.height as int))
                            && self.pixel(
                                resize_src(qx, self.width as int, scaled.width as int),
                                resize_src(qy, self.height as int, scaled.height as int))
                                == BLACK {
                        BLACK
                    } else {
                        WHITE
                    }),
            decreases scaled_height - dy,
        {
            proof {
                crate::line::lemma_abs_mul_le(dy as int, og_height as int,
                    1int * 0x10_0000, 1int * 0x10_0000);
            }
            sy = (dy * og_height) / scaled_height;
            proof {
                assert(sy == resize_src(dy as int, self.height as int, scaled.height as int));
            }
            dx = 0;
            while dx < scaled_width
                invariant
                    scaled.wf(),
                    self.wf(),
                    og_width == self.width,
                    og_height == self.height,
                    scaled_width == scaled.width,
                    scaled_height == scaled.height,
                    self.width <= COORD_LIMIT,
                    self.height <= COORD_LIMIT,
                    scaled.width <= COORD_LIMIT,
                    scaled.height <= COORD_LIMIT,
                    scaled.x_offset == x_offset,
                    scaled.y_offset == y_offset,
                    0 <= dy < scaled_height,
                    0 <= dx <= scaled_width,
                    sy == resize_src(dy as int, self.height as int, scaled.height as int),
                    forall|qx: int, qy: int| scaled.in_bounds(qx, qy)
                        ==> scaled.pixel(qx, qy) == (if (qy < dy || (qy == dy && qx < dx))
                                && self.in_bounds(
                                    resize_src(qx, self.width as int, scaled.width as int),
                                    resize_src(qy, self.height as int, scaled.height as int))
                                && self.pixel(
                                    resize_src(qx, self.width as int, scaled.width as int),
                                    resize_src(qy, self.height as int, scaled.height as int))
                                    == BLACK {
                            BLACK
                        } else {
                            WHITE
                        }),
                decreases scaled_width - dx,
            {
                proof {
                    crate::line::lemma_abs_mul_le(dx as int, og_width as int,
                        1int * 0x10_0000, 1int * 0x10_0000);
                }
                sx = (dx * og_width) / scaled_width;
                proof {
                    assert(sx == resize_src(dx as int, self.width as int, scaled.width as int));
                }
                let keep = match self.get(sx, sy) {
                    Some(p) => p == BLACK,
                    None => false,
                };
                if keep {
                    scaled.plot(dx, dy);
                }
                dx += 1;
            }
            dy += 1;
        }
        scaled
    }
}

/// An integer upscale followed by the matching downscale restores a
/// binary image exactly: resizing `img` to `k` times its size and that
/// result back to the original size gives back every pixel, provided
/// every pixel of `img` is either the foreground or the background
/// sentinel.  (Downscaling in general is lossy by design; this is the
/// exact special case.)
pub proof fn lemma_resize_round_trip(img: Image, up: Image, down: Image, k: int)
    requires
        img.wf(),
        k >= 1,
        img.width >= 1,
        img.height >= 1,
        up.width == k * img.width,
        up.height == k * img.height,
        down.width == img.width,
        down.height == img.height,
        forall|x: int, y: int| img.in_bounds(x, y)
            ==> img.pixel(x, y) == BLACK || img.pixel(x, y) == WHITE,
        forall|dx: int, dy: int| up.in_bounds(dx, dy)
            ==> up.pixel(dx, dy) == (if img.in_bounds(
                    resize_src(dx, img.width as int, up.width as int),
                    resize_src(dy, img.height as int, up.height as int))
                    && img.pixel(
                        resize_src(dx, img.width as int, up.width as int),
                        resize_src(dy, img.height as int, up.height as int)) == BLACK {
                BLACK
            } else {
                WHITE
            }),
        forall|dx: int, dy: int| down.in_bounds(dx, dy)
            ==> down.pixel(dx, dy) == (if up.in_bounds(
                    resize_src(dx, up.width as int, down.width as int),
                    resize_src(dy, up.height as int, down.height as int))
                    && up.pixel(
                        resize_src(dx, up.width as int, down.width as int),
                        resize_src(dy, up.height as int, down.height as int)) == BLACK {
                BLACK
            } else {
                WHITE
            }),
    ensures
        forall|x: int, y: int| img.in_bounds(x, y) ==> down.pixel(x, y) == img.pixel(x, y),
{
    let w = img.width as int;
    let h = img.height as int;
    assert forall|x: int, y: int| img.in_bounds(x, y)
        implies down.pixel(x, y) == img.pixel(x, y) by {
        lemma_exact_scale(x, k, w);
        lemma_exact_scale(y, k, h);
        assert(up.in_bounds(k * x, k * y)) by (nonlinear_arith)
            requires 0 <= x < w && 0 <= y < h && k >= 1
                && up.width == k * w && up.height == k * h;
    }
}

/// Both resampling directions of an exact integer scale cancel:
/// `(x * (k*w)) / w == k * x` and `((k*x) * w) / (k*w) == x`.
proof fn lemma_exact_scale(x: int, k: int, w: int)
    requires
        k >= 1,
        w >= 1,
        0 <= x < w,
    ensures
        resize_src(x, k * w, w) == k * x,
        resize_src(k * x, w, k * w) == x,
{
    assert(k * w >= 1) by (nonlinear_arith) requires k >= 1 && w >= 1;
    assert(x * (k * w) == w * (x * k)) by (nonlinear_arith);
    vstd::arithmetic::div_mod::lemma_div_multiples_vanish(x * k, w);
    assert((k * x) * w == (k * w) * x) by (nonlinear_arith);
    vstd::arithmetic::div_mod::lemma_div_multiples_vanish(x, k * w);
}

} // verus!
