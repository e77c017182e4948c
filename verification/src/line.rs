//! Bresenham line strokes with an integer pen-width threshold.
//!
//! A stroke steps along the major axis of the segment, plotting one
//! pixel per step; a thickening pass then extends each step along the
//! x axis while an integer "total offset from the ideal line" metric
//! stays inside `[-delta, delta)`.  `delta` is the precomputed integer
//! half-width threshold `floor(w * sqrt(1 + b*b)) / 2` for a pen of
//! width `w` over a line of truncated integer slope `b`; width zero
//! gives `delta == 0` and degenerates to a plain one-pixel Bresenham
//! line.  The metric's truncating division is deliberate and
//! load-bearing for pixel-exact output.

use vstd::prelude::*;
use vstd::math::abs;

use crate::color::BLACK;
use crate::image::Image;
use crate::Point;

verus! {

/// Coordinate magnitude accepted by the stroke primitives; keeps every
/// intermediate product of the integer metric inside an `i64`.
pub const COORD_LIMIT: i64 = 0x10_0000;

/// Truncating (round-toward-zero) integer division, as Rust's `/` on
/// machine integers computes it.
pub open spec fn tdiv(a: int, b: int) -> int {
    if (a < 0) != (b < 0) {
        -(abs(a) as int / abs(b) as int)
    } else {
        abs(a) as int / abs(b) as int
    }
}

/// Truncating division never grows the dividend's magnitude.
pub proof fn lemma_tdiv_bound(a: int, b: int)
    requires
        b != 0,
    ensures
        abs(tdiv(a, b)) <= abs(a),
{
    vstd::arithmetic::div_mod::lemma_div_nonincreasing(abs(a) as int, abs(b) as int);
}

/// Bounds on two factors bound their product's magnitude.
pub proof fn lemma_abs_mul_le(a: int, b: int, ba: int, bb: int)
    requires
        abs(a) <= ba,
        abs(b) <= bb,
    ensures
        abs(a * b) <= ba * bb,
{
    assert(-ba <= a <= ba && -bb <= b <= bb);
    assert(-(ba * bb) <= a * b <= ba * bb) by (nonlinear_arith)
        requires -ba <= a <= ba && -bb <= b <= bb;
}

/// Rust's truncating `/`, total over the arguments the stroke needs.
pub(crate) fn div_trunc(a: i64, b: i64) -> (q: i64)
    requires
        b != 0,
        a > i64::MIN,
        b > i64::MIN,
    ensures
        q == tdiv(a as int, b as int),
        abs(q as int) <= abs(a as int),
{
    let ua = if a < 0 { -a } else { a };
    let ub = if b < 0 { -b } else { b };
    let uq = ua / ub;
    proof {
        assert(uq == abs(a as int) / abs(b as int));
        lemma_tdiv_bound(a as int, b as int);
    }
    if (a < 0) != (b < 0) { -uq } else { uq }
}

/// The constant part of the stroke's thickening metric on row `y`: the
/// metric at column `xx` is `xx + stroke_shift(..)`.
pub open spec fn stroke_shift(x1: int, y1: int, dx: int, dy: int, y: int) -> int {
    if dy == 0 {
        -x1
    } else {
        tdiv(y1 * dx, dy) - tdiv(y * dx, dy) - x1
    }
}

/// Columns the thickening pass adds around a step pixel at column `x`
/// on a row with metric shift `c`: when the step column's metric lies
/// inside `[-delta, delta)`, the whole run `[-delta-c-1, delta-c]` of
/// columns except `x` itself; nothing otherwise.
pub open spec fn thick_plots(x: int, c: int, delta: int, px: int) -> bool {
    let lo = -delta - c;
    let hi = delta - c;
    lo <= x < hi && lo - 1 <= px <= hi && px != x
}

/// The pixels one major-axis step at `(x, y)` plots: the step pixel
/// itself plus its thickening run.
pub open spec fn step_plots(
    x: int, y: int, x1: int, y1: int, dx: int, dy: int, delta: int, px: int, py: int,
) -> bool {
    py == y && (px == x || thick_plots(x, stroke_shift(x1, y1, dx, dy, y), delta, px))
}

/// Pixels plotted by the x-major stepping loop started at `(x, y)` with
/// error accumulator `d` and `n` steps left before the endpoint.
pub open spec fn steps_x_plots(
    x: int, y: int, d: int, n: nat, sx: int, sy: int, ax: int, ay: int,
    x1: int, y1: int, dx: int, dy: int, delta: int, px: int, py: int,
) -> bool
    decreases n,
{
    if n == 0 {
        step_plots(x, y, x1, y1, dx, dy, delta, px, py)
    } else {
        step_plots(x, y, x1, y1, dx, dy, delta, px, py)
            || steps_x_plots(
                x + sx,
                if d >= 0 { y + sy } else { y },
                (if d >= 0 { d - ax } else { d }) + ay,
                (n - 1) as nat,
                sx, sy, ax, ay, x1, y1, dx, dy, delta, px, py,
            )
    }
}

/// Pixels plotted by the y-major stepping loop, symmetrically.
pub open spec fn steps_y_plots(
    x: int, y: int, d: int, n: nat, sx: int, sy: int, ax: int, ay: int,
    x1: int, y1: int, dx: int, dy: int, delta: int, px: int, py: int,
) -> bool
    decreases n,
{
    if n == 0 {
        step_plots(x, y, x1, y1, dx, dy, delta, px, py)
    } else {
        step_plots(x, y, x1, y1, dx, dy, delta, px, py)
            || steps_y_plots(
                if d >= 0 { x + sx } else { x },
                y + sy,
                (if d >= 0 { d - ay } else { d }) + ax,
                (n - 1) as nat,
                sx, sy, ax, ay, x1, y1, dx, dy, delta, px, py,
            )
    }
}

/// The outline of an axis-aligned square of half-side `r` around
/// `(cx, cy)`: four strokes between consecutive corners.
pub open spec fn square_plots(cx: int, cy: int, r: int, delta: int, px: int, py: int) -> bool {
    ||| stroke_plots(cx - r, cy - r, cx + r, cy - r, delta, px, py)
    ||| stroke_plots(cx + r, cy - r, cx + r, cy + r, delta, px, py)
    ||| stroke_plots(cx + r, cy + r, cx - r, cy + r, delta, px, py)
    ||| stroke_plots(cx - r, cy + r, cx - r, cy - r, delta, px, py)
}

/// The outline of the right triangle on three corners of that square:
/// three strokes between consecutive vertices.
pub open spec fn triangle_plots(cx: int, cy: int, d: int, delta: int, px: int, py: int) -> bool {
    ||| stroke_plots(cx - d, cy - d, cx + d, cy - d, delta, px, py)
    ||| stroke_plots(cx + d, cy - d, cx + d, cy + d, delta, px, py)
    ||| stroke_plots(cx + d, cy + d, cx - d, cy - d, delta, px, py)
}

/// The full pixel set of a stroke from `(x1, y1)` to `(x2, y2)` with
/// half-width threshold `delta`.
pub open spec fn stroke_plots(
    x1: int, y1: int, x2: int, y2: int, delta: int, px: int, py: int,
) -> bool {
    let dx = x2 - x1;
    let dy = y2 - y1;
    let ax = 2 * abs(dx) as int;
    let ay = 2 * abs(dy) as int;
    let sx: int = if dx > 0 { 1 } else { -1 };
    let sy: int = if dy > 0 { 1 } else { -1 };
    if ax > ay {
        steps_x_plots(x1, y1, ay - abs(dx) as int, abs(dx) as nat,
            sx, sy, ax, ay, x1, y1, dx, dy, delta, px, py)
    } else {
        steps_y_plots(x1, y1, ax - abs(dy) as int, abs(dy) as nat,
            sx, sy, ax, ay, x1, y1, dx, dy, delta, px, py)
    }
}

/// A zero-length stroke always covers its single endpoint, whatever
/// the width threshold.
pub proof fn lemma_stroke_point(x1: int, y1: int, delta: int)
    ensures
        stroke_plots(x1, y1, x1, y1, delta, x1, y1),
{
}

/// Flat x-major stepping (`ay == 0`, so `d` stays negative and `y`
/// never moves) with width threshold zero covers exactly the run of
/// `n + 1` columns from `x` toward `sx`.
proof fn lemma_steps_x_flat0(
    x: int, y: int, d: int, n: nat, sx: int, sy: int, ax: int,
    x1: int, y1: int, dx: int, px: int, py: int,
)
    requires
        d < 0,
        sx == 1 || sx == -1,
    ensures
        steps_x_plots(x, y, d, n, sx, sy, ax, 0, x1, y1, dx, 0, 0, px, py)
            <==> (py == y && (if sx == 1 { x <= px <= x + n } else { x - n <= px <= x })),
    decreases n,
{
    if n > 0 {
        lemma_steps_x_flat0(x + sx, y, d, (n - 1) as nat, sx, sy, ax, x1, y1, dx, px, py);
    }
}

/// A width-zero horizontal stroke covers exactly the segment's pixels.
pub proof fn lemma_stroke_horizontal(x1: int, y1: int, x2: int, px: int, py: int)
    ensures
        stroke_plots(x1, y1, x2, y1, 0, px, py)
            <==> (py == y1 && (if x1 <= x2 { x1 <= px <= x2 } else { x2 <= px <= x1 })),
{
    let dx = x2 - x1;
    if dx == 0 {
        assert(stroke_plots(x1, y1, x2, y1, 0, px, py)
            == step_plots(x1, y1, x1, y1, 0, 0, 0, px, py));
    } else {
        let sx: int = if dx > 0 { 1 } else { -1 };
        lemma_steps_x_flat0(x1, y1, -(abs(dx) as int), abs(dx), sx,
            -1, 2 * abs(dx) as int, x1, y1, dx, px, py);
    }
}

/// Flat y-major stepping (`ax == 0`: a vertical segment, so `d` stays
/// negative and `x` never moves) with width threshold zero covers
/// exactly the run of `n + 1` rows from `y` toward `sy`.
proof fn lemma_steps_y_flat0(
    x: int, y: int, d: int, n: nat, sx: int, sy: int, ay: int,
    x1: int, y1: int, dy: int, px: int, py: int,
)
    requires
        d < 0,
        sy == 1 || sy == -1,
    ensures
        steps_y_plots(x, y, d, n, sx, sy, 0, ay, x1, y1, 0, dy, 0, px, py)
            <==> (px == x && (if sy == 1 { y <= py <= y + n } else { y - n <= py <= y })),
    decreases n,
{
    if n > 0 {
        lemma_steps_y_flat0(x, y + sy, d, (n - 1) as nat, sx, sy, ay, x1, y1, dy, px, py);
    }
}

/// A width-zero vertical stroke covers exactly the segment's pixels.
pub proof fn lemma_stroke_vertical(x1: int, y1: int, y2: int, px: int, py: int)
    ensures
        stroke_plots(x1, y1, x1, y2, 0, px, py)
            <==> (px == x1 && (if y1 <= y2 { y1 <= py <= y2 } else { y2 <= py <= y1 })),
{
    let dy = y2 - y1;
    if dy == 0 {
        assert(stroke_plots(x1, y1, x1, y2, 0, px, py)
            == step_plots(x1, y1, x1, y1, 0, 0, 0, px, py));
    } else {
        let sy: int = if dy > 0 { 1 } else { -1 };
        lemma_steps_y_flat0(x1, y1, -(abs(dy) as int), abs(dy), -1,
            sy, 2 * abs(dy) as int, x1, y1, dy, px, py);
    }
}

impl Image {
    /// The stroke's "total offset" metric at column `xx` of row `y`:
    /// `xx - x1` for horizontal segments, else
    /// `xx - (y*dx)/dy + (y1*dx)/dy - x1` with truncating division.
    fn stroke_total(x1: i64, y1: i64, dx: i64, dy: i64, y: i64, xx: i64) -> (t: i64)
        requires
            abs(x1 as int) <= COORD_LIMIT,
            abs(y1 as int) <= COORD_LIMIT,
            abs(dx as int) <= 2 * COORD_LIMIT,
            abs(dy as int) <= 2 * COORD_LIMIT,
            abs(y as int) <= 8 * COORD_LIMIT,
            abs(xx as int) <= 0x4000_0000_0000,
        ensures
            t == xx + stroke_shift(x1 as int, y1 as int, dx as int, dy as int, y as int),
    {
        if dy == 0 {
            xx - x1
        } else {
            proof {
                assert(COORD_LIMIT == 0x10_0000);
                lemma_abs_mul_le(y as int, dx as int, 8int * 0x10_0000, 2int * 0x10_0000);
                lemma_abs_mul_le(y1 as int, dx as int, 1int * 0x10_0000, 2int * 0x10_0000);
            }
            xx - div_trunc(y * dx, dy) + div_trunc(y1 * dx, dy) - x1
        }
    }

    /// The thickening pass around the step pixel `(x, y)`: walks right
    /// then left from `x`, plotting while the metric stays inside
    /// `[-delta, delta)`.  Plots exactly the [`thick_plots`] columns of
    /// row `y` (the step pixel itself is the stepping loop's business).
    fn thicken_row(
        &mut self, x: i64, y: i64, x1: i64, y1: i64, dx: i64, dy: i64, delta: i64,
        color: Option<u32>,
    )
        requires
            old(self).wf(),
            abs(x1 as int) <= COORD_LIMIT,
            abs(y1 as int) <= COORD_LIMIT,
            abs(dx as int) <= 2 * COORD_LIMIT,
            abs(dy as int) <= 2 * COORD_LIMIT,
            abs(x as int) <= 8 * COORD_LIMIT,
            abs(y as int) <= 8 * COORD_LIMIT,
            0 <= delta <= COORD_LIMIT,
        ensures
            final(self).wf(),
            final(self).same_shape(*old(self)),
            forall|px: int, py: int| old(self).in_bounds(px, py)
                ==> final(self).pixel(px, py) == (if py == y as int
                        && thick_plots(x as int,
                            stroke_shift(x1 as int, y1 as int, dx as int, dy as int, y as int),
                            delta as int, px) {
                    color.unwrap_or(BLACK)
                } else {
                    old(self).pixel(px, py)
                }),
    {
        let ghost c = stroke_shift(x1 as int, y1 as int, dx as int, dy as int, y as int);
        let ghost lo = -delta - c;
        let ghost hi = delta - c;
        proof {
            assert(COORD_LIMIT == 0x10_0000);
            if dy != 0 {
                lemma_abs_mul_le(y as int, dx as int, 8int * 0x10_0000, 2int * 0x10_0000);
                lemma_abs_mul_le(y1 as int, dx as int, 1int * 0x10_0000, 2int * 0x10_0000);
                lemma_tdiv_bound(y as int * dx as int, dy as int);
                lemma_tdiv_bound(y1 as int * dx as int, dy as int);
            }
            assert(abs(c) <= 0x2000_0000_0000);
        }
        let mut xx = x;
        let mut t = Self::stroke_total(x1, y1, dx, dy, y, xx);
        while -delta <= t && t < delta
            invariant
                self.wf(),
                self.same_shape(*old(self)),
                abs(x1 as int) <= COORD_LIMIT,
                abs(y1 as int) <= COORD_LIMIT,
                abs(dx as int) <= 2 * COORD_LIMIT,
                abs(dy as int) <= 2 * COORD_LIMIT,
                abs(x as int) <= 8 * COORD_LIMIT,
                abs(y as int) <= 8 * COORD_LIMIT,
                0 <= delta <= COORD_LIMIT,
                c == stroke_shift(x1 as int, y1 as int, dx as int, dy as int, y as int),
                abs(c) <= 0x2000_0000_0000,
                lo == -delta - c,
                hi == delta - c,
                t == xx + c,
                x <= xx,
                xx > x ==> lo <= x < hi,
                xx > x ==> xx <= hi,
                forall|px: int, py: int| old(self).in_bounds(px, py)
                    ==> self.pixel(px, py) == (if py == y as int && x < px <= xx {
                        color.unwrap_or(BLACK)
                    } else {
                        old(self).pixel(px, py)
                    }),
            decreases delta - t,
        {
            xx += 1;
            self.plot_color(xx, y, color);
            t = Self::stroke_total(x1, y1, dx, dy, y, xx);
        }
        let ghost rhi = xx as int;
        proof {
            assert(xx == x || xx == hi);
            assert(xx == x ==> !(lo <= x < hi));
            assert(rhi == (if lo <= x < hi { hi } else { x as int }));
        }
        let mut xx = x;
        let mut t = Self::stroke_total(x1, y1, dx, dy, y, xx);
        while -delta <= t && t < delta
            invariant
                self.wf(),
                self.same_shape(*old(self)),
                abs(x1 as int) <= COORD_LIMIT,
                abs(y1 as int) <= COORD_LIMIT,
                abs(dx as int) <= 2 * COORD_LIMIT,
                abs(dy as int) <= 2 * COORD_LIMIT,
                abs(x as int) <= 8 * COORD_LIMIT,
                abs(y as int) <= 8 * COORD_LIMIT,
                0 <= delta <= COORD_LIMIT,
                c == stroke_shift(x1 as int, y1 as int, dx as int, dy as int, y as int),
                abs(c) <= 0x2000_0000_0000,
                lo == -delta - c,
                hi == delta - c,
                t == xx + c,
                xx <= x,
                xx < x ==> lo <= x < hi,
                xx < x ==> lo - 1 <= xx,
                rhi == (if lo <= x < hi { hi } else { x as int }),
                forall|px: int, py: int| old(self).in_bounds(px, py)
                    ==> self.pixel(px, py) == (if py == y as int
                            && ((x < px <= rhi) || (xx <= px < x)) {
                        color.unwrap_or(BLACK)
                    } else {
                        old(self).pixel(px, py)
                    }),
            decreases t + delta + 1,
        {
            xx -= 1;
            self.plot_color(xx, y, color);
            t = Self::stroke_total(x1, y1, dx, dy, y, xx);
        }
        proof {
            assert(xx == x || xx == lo - 1);
        }
    }

    /// The x-major stepping loop: one pixel (plus thickening) per unit
    /// of x, stepping y when the error accumulator `d` turns
    /// non-negative; stops at `x == x2` after processing that step.
    #[verifier::rlimit(30)]
    fn stroke_steps_x(
        &mut self, x1: i64, y1: i64, x2: i64, y2: i64, dx: i64, dy: i64,
        sx: i64, sy: i64, ax: i64, ay: i64, delta: i64, color: Option<u32>,
    )
        requires
            old(self).wf(),
            abs(x1 as int) <= COORD_LIMIT,
            abs(y1 as int) <= COORD_LIMIT,
            abs(x2 as int) <= COORD_LIMIT,
            abs(y2 as int) <= COORD_LIMIT,
            dx == x2 - x1,
            dy == y2 - y1,
            ax == 2 * abs(dx as int),
            ay == 2 * abs(dy as int),
            ax > ay,
            sx == (if dx > 0 { 1int } else { -1int }),
            sy == (if dy > 0 { 1int } else { -1int }),
            0 <= delta <= COORD_LIMIT,
        ensures
            final(self).wf(),
            final(self).same_shape(*old(self)),
            forall|px: int, py: int| old(self).in_bounds(px, py)
                ==> final(self).pixel(px, py) == (if steps_x_plots(
                        x1 as int, y1 as int, ay - abs(dx as int), abs(dx as int),
                        sx as int, sy as int, ax as int, ay as int,
                        x1 as int, y1 as int, dx as int, dy as int, delta as int, px, py) {
                    color.unwrap_or(BLACK)
                } else {
                    old(self).pixel(px, py)
                }),
    {
        let mut d = ay - ax / 2;
        let mut x = x1;
        let mut y = y1;
        let ghost d0: int = ay - abs(dx as int);
        let ghost n0: nat = abs(dx as int);
        proof {
            assert(ax / 2 == abs(dx as int));
            assert(d == d0);
        }
        while x != x2
            invariant
                self.wf(),
                self.same_shape(*old(self)),
                abs(x1 as int) <= COORD_LIMIT,
                abs(y1 as int) <= COORD_LIMIT,
                abs(x2 as int) <= COORD_LIMIT,
                abs(y2 as int) <= COORD_LIMIT,
                dx == x2 - x1,
                dy == y2 - y1,
                ax == 2 * abs(dx as int),
                ay == 2 * abs(dy as int),
                ax > ay,
                sx == (if dx > 0 { 1int } else { -1int }),
                sy == (if dy > 0 { 1int } else { -1int }),
                0 <= delta <= COORD_LIMIT,
                d0 == ay - abs(dx as int),
                n0 == abs(dx as int),
                sx == 1 ==> x1 <= x <= x2,
                sx == -1 ==> x2 <= x <= x1,
                abs(y as int - y1 as int) + abs(x2 as int - x as int) <= n0,
                -ax <= d <= ay,
                forall|px: int, py: int|
                    steps_x_plots(x as int, y as int, d as int, abs(x2 as int - x as int),
                        sx as int, sy as int, ax as int, ay as int,
                        x1 as int, y1 as int, dx as int, dy as int, delta as int, px, py)
                    ==> steps_x_plots(x1 as int, y1 as int, d0, n0,
                        sx as int, sy as int, ax as int, ay as int,
                        x1 as int, y1 as int, dx as int, dy as int, delta as int, px, py),
                forall|px: int, py: int| old(self).in_bounds(px, py)
                    && steps_x_plots(x1 as int, y1 as int, d0, n0,
                        sx as int, sy as int, ax as int, ay as int,
                        x1 as int, y1 as int, dx as int, dy as int, delta as int, px, py)
                    && !steps_x_plots(x as int, y as int, d as int, abs(x2 as int - x as int),
                        sx as int, sy as int, ax as int, ay as int,
                        x1 as int, y1 as int, dx as int, dy as int, delta as int, px, py)
                    ==> self.pixel(px, py) == color.unwrap_or(BLACK),
                forall|px: int, py: int| old(self).in_bounds(px, py)
                    && !steps_x_plots(x1 as int, y1 as int, d0, n0,
                        sx as int, sy as int, ax as int, ay as int,
                        x1 as int, y1 as int, dx as int, dy as int, delta as int, px, py)
                    ==> self.pixel(px, py) == old(self).pixel(px, py),
            decreases abs(x2 as int - x as int),
        {
            self.plot_color(x, y, color);
            self.thicken_row(x, y, x1, y1, dx, dy, delta, color);
            proof {
                let n: nat = abs(x2 as int - x as int);
                let nx: int = x + sx;
                let ny: int = if d >= 0 { y + sy as int } else { y as int };
                let nd: int = (if d >= 0 { d - ax as int } else { d as int }) + ay;
                assert(steps_x_plots(x as int, y as int, d as int, n,
                    sx as int, sy as int, ax as int, ay as int,
                    x1 as int, y1 as int, dx as int, dy as int, delta as int, 0, 0)
                    == (step_plots(x as int, y as int, x1 as int, y1 as int,
                            dx as int, dy as int, delta as int, 0, 0)
                        || steps_x_plots(nx, ny, nd, (n - 1) as nat,
                            sx as int, sy as int, ax as int, ay as int,
                            x1 as int, y1 as int, dx as int, dy as int, delta as int, 0, 0)));
            }
            if d >= 0 {
                y = y + sy;
                d = d - ax;
            }
            x = x + sx;
            d = d + ay;
        }
        self.plot_color(x, y, color);
        self.thicken_row(x, y, x1, y1, dx, dy, delta, color);
    }

    /// The y-major stepping loop, symmetric to [`Image::stroke_steps_x`];
    /// the thickening pass still runs along x.
    #[verifier::rlimit(30)]
    fn stroke_steps_y(
        &mut self, x1: i64, y1: i64, x2: i64, y2: i64, dx: i64, dy: i64,
        sx: i64, sy: i64, ax: i64, ay: i64, delta: i64, color: Option<u32>,
    )
        requires
            old(self).wf(),
            abs(x1 as int) <= COORD_LIMIT,
            abs(y1 as int) <= COORD_LIMIT,
            abs(x2 as int) <= COORD_LIMIT,
            abs(y2 as int) <= COORD_LIMIT,
            dx == x2 - x1,
            dy == y2 - y1,
            ax == 2 * abs(dx as int),
            ay == 2 * abs(dy as int),
            ax <= ay,
            sx == (if dx > 0 { 1int } else { -1int }),
            sy == (if dy > 0 { 1int } else { -1int }),
            0 <= delta <= COORD_LIMIT,
        ensures
            final(self).wf(),
            final(self).same_shape(*old(self)),
            forall|px: int, py: int| old(self).in_bounds(px, py)
                ==> final(self).pixel(px, py) == (if steps_y_plots(
                        x1 as int, y1 as int, ax - abs(dy as int), abs(dy as int),
                        sx as int, sy as int, ax as int, ay as int,
                        x1 as int, y1 as int, dx as int, dy as int, delta as int, px, py) {
                    color.unwrap_or(BLACK)
                } else {
                    old(self).pixel(px, py)
                }),
    {
        let mut d = ax - ay / 2;
        let mut x = x1;
        let mut y = y1;
        let ghost d0: int = ax - abs(dy as int);
        let ghost n0: nat = abs(dy as int);
        proof {
            assert(ay / 2 == abs(dy as int));
            assert(d == d0);
        }
        while y != y2
            invariant
                self.wf(),
                self.same_shape(*old(self)),
                abs(x1 as int) <= COORD_LIMIT,
                abs(y1 as int) <= COORD_LIMIT,
                abs(x2 as int) <= COORD_LIMIT,
                abs(y2 as int) <= COORD_LIMIT,
                dx == x2 - x1,
                dy == y2 - y1,
                ax == 2 * abs(dx as int),
                ay == 2 * abs(dy as int),
                ax <= ay,
                sx == (if dx > 0 { 1int } else { -1int }),
                sy == (if dy > 0 { 1int } else { -1int }),
                0 <= delta <= COORD_LIMIT,
                d0 == ax - abs(dy as int),
                n0 == abs(dy as int),
                sy == 1 ==> y1 <= y <= y2,
                sy == -1 ==> y2 <= y <= y1,
                abs(x as int - x1 as int) + abs(y2 as int - y as int) <= n0,
                -ay <= d <= ax,
                forall|px: int, py: int|
                    steps_y_plots(x as int, y as int, d as int, abs(y2 as int - y as int),
                        sx as int, sy as int, ax as int, ay as int,
                        x1 as int, y1 as int, dx as int, dy as int, delta as int, px, py)
                    ==> steps_y_plots(x1 as int, y1 as int, d0, n0,
                        sx as int, sy as int, ax as int, ay as int,
                        x1 as int, y1 as int, dx as int, dy as int, delta as int, px, py),
                forall|px: int, py: int| old(self).in_bounds(px, py)
                    && steps_y_plots(x1 as int, y1 as int, d0, n0,
                        sx as int, sy as int, ax as int, ay as int,
                        x1 as int, y1 as int, dx as int, dy as int, delta as int, px, py)
                    && !steps_y_plots(x as int, y as int, d as int, abs(y2 as int - y as int),
                        sx as int, sy as int, ax as int, ay as int,
                        x1 as int, y1 as int, dx as int, dy as int, delta as int, px, py)
                    ==> self.pixel(px, py) == color.unwrap_or(BLACK),
                forall|px: int, py: int| old(self).in_bounds(px, py)
                    && !steps_y_plots(x1 as int, y1 as int, d0, n0,
                        sx as int, sy as int, ax as int, ay as int,
                        x1 as int, y1 as int, dx as int, dy as int, delta as int, px, py)
                    ==> self.pixel(px, py) == old(self).pixel(px, py),
            decreases abs(y2 as int - y as int),
        {
            self.plot_color(x, y, color);
            self.thicken_row(x, y, x1, y1, dx, dy, delta, color);
            proof {
                let n: nat = abs(y2 as int - y as int);
                let nx: int = if d >= 0 { x + sx as int } else { x as int };
                let ny: int = y + sy;
                let nd: int = (if d >= 0 { d - ay as int } else { d as int }) + ax;
                assert(steps_y_plots(x as int, y as int, d as int, n,
                    sx as int, sy as int, ax as int, ay as int,
                    x1 as int, y1 as int, dx as int, dy as int, delta as int, 0, 0)
                    == (step_plots(x as int, y as int, x1 as int, y1 as int,
                            dx as int, dy as int, delta as int, 0, 0)
                        || steps_y_plots(nx, ny, nd, (n - 1) as nat,
                            sx as int, sy as int, ax as int, ay as int,
                            x1 as int, y1 as int, dx as int, dy as int, delta as int, 0, 0)));
            }
            if d >= 0 {
                x = x + sx;
                d = d - ay;
            }
            y = y + sy;
            d = d + ax;
        }
        self.plot_color(x, y, color);
        self.thicken_row(x, y, x1, y1, dx, dy, delta, color);
    }

    /// Draws a solid stroke from `a` to `b` in `color` (the foreground
    /// sentinel if `None`), with integer half-width threshold `delta`;
    /// plots exactly the [`stroke_plots`] pixel set.
    pub fn plot_line_width_color(&mut self, a: Point, b: Point, delta: i64, color: Option<u32>)
        requires
            old(self).wf(),
            abs(a.0 as int) <= COORD_LIMIT,
            abs(a.1 as int) <= COORD_LIMIT,
            abs(b.0 as int) <= COORD_LIMIT,
            abs(b.1 as int) <= COORD_LIMIT,
            0 <= delta <= COORD_LIMIT,
        ensures
            final(self).wf(),
            final(self).same_shape(*old(self)),
            forall|px: int, py: int| old(self).in_bounds(px, py)
                ==> final(self).pixel(px, py) == (if stroke_plots(a.0 as int, a.1 as int,
                        b.0 as int, b.1 as int, delta as int, px, py) {
                    color.unwrap_or(BLACK)
                } else {
                    old(self).pixel(px, py)
                }),
    {
        let (x1, y1) = a;
        let (x2, y2) = b;
        let dx = x2 - x1;
        let dx2 = dx * 2;
        let ax = if dx2 < 0 { -dx2 } else { dx2 };
        let sx: i64 = if dx > 0 { 1 } else { -1 };
        let dy = y2 - y1;
        let dy2 = dy * 2;
        let ay = if dy2 < 0 { -dy2 } else { dy2 };
        let sy: i64 = if dy > 0 { 1 } else { -1 };
        if ax > ay {
            self.stroke_steps_x(x1, y1, x2, y2, dx, dy, sx, sy, ax, ay, delta, color);
        } else {
            self.stroke_steps_y(x1, y1, x2, y2, dx, dy, sx, sy, ax, ay, delta, color);
        }
    }

    /// Draws a solid foreground stroke from `a` to `b` with integer
    /// half-width threshold `delta`.
    pub fn plot_line_width(&mut self, a: Point, b: Point, delta: i64)
        requires
            old(self).wf(),
            abs(a.0 as int) <= COORD_LIMIT,
            abs(a.1 as int) <= COORD_LIMIT,
            abs(b.0 as int) <= COORD_LIMIT,
            abs(b.1 as int) <= COORD_LIMIT,
            0 <= delta <= COORD_LIMIT,
        ensures
            final(self).wf(),
            final(self).same_shape(*old(self)),
            forall|px: int, py: int| old(self).in_bounds(px, py)
                ==> final(self).pixel(px, py) == (if stroke_plots(a.0 as int, a.1 as int,
                        b.0 as int, b.1 as int, delta as int, px, py) {
                    BLACK
                } else {
                    old(self).pixel(px, py)
                }),
    {
        self.plot_line_width_color(a, b, delta, None)
    }

    /// Draws the outline of the axis-aligned square of half-side `r`
    /// around `center` as four strokes.
    pub fn plot_square(&mut self, center: Point, r: i64, delta: i64)
        requires
            old(self).wf(),
            abs(center.0 as int) + abs(r as int) <= COORD_LIMIT,
            abs(center.1 as int) + abs(r as int) <= COORD_LIMIT,
            0 <= delta <= COORD_LIMIT,
        ensures
            final(self).wf(),
            final(self).same_shape(*old(self)),
            forall|px: int, py: int| old(self).in_bounds(px, py)
                ==> final(self).pixel(px, py) == (if square_plots(center.0 as int,
                        center.1 as int, r as int, delta as int, px, py) {
                    BLACK
                } else {
                    old(self).pixel(px, py)
                }),
    {
        let (cx, cy) = center;
        let a = (cx - r, cy - r);
        let b = (cx + r, cy - r);
        let c = (cx + r, cy + r);
        let d = (cx - r, cy + r);
        self.plot_line_width(a, b, delta);
        self.plot_line_width(b, c, delta);
        self.plot_line_width(c, d, delta);
        self.plot_line_width(d, a, delta);
    }

    /// Draws the outline of the right triangle spanning three corners
    /// of that square as three strokes.
    pub fn plot_triangle(&mut self, center: Point, d: i64, delta: i64)
        requires
            old(self).wf(),
            abs(center.0 as int) + abs(d as int) <= COORD_LIMIT,
            abs(center.1 as int) + abs(d as int) <= COORD_LIMIT,
            0 <= delta <= COORD_LIMIT,
        ensures
            final(self).wf(),
            final(self).same_shape(*old(self)),
            forall|px: int, py: int| old(self).in_bounds(px, py)
                ==> final(self).pixel(px, py) == (if triangle_plots(center.0 as int,
                        center.1 as int, d as int, delta as int, px, py) {
                    BLACK
                } else {
                    old(self).pixel(px, py)
                }),
    {
        let (cx, cy) = center;
        let a = (cx - d, cy - d);
        let b = (cx + d, cy - d);
        let c = (cx + d, cy + d);
        self.plot_line_width(a, b, delta);
        self.plot_line_width(b, c, delta);
        self.plot_line_width(c, a, delta);
    }

    /// Overlays a one-pixel gray grid: every row and column whose index
    /// is a multiple of `step` is drawn in [`crate::color::GRAY82`].
    pub fn draw_grid(&mut self, step: usize)
        requires
            old(self).wf(),
            step >= 1,
            step <= usize::MAX - old(self).height,
            step <= usize::MAX - old(self).width,
            old(self).width <= COORD_LIMIT,
            old(self).height <= COORD_LIMIT,
        ensures
            final(self).wf(),
            final(self).same_shape(*old(self)),
            forall|px: int, py: int| old(self).in_bounds(px, py)
                ==> final(self).pixel(px, py) == (if px % (step as int) == 0
                        || py % (step as int) == 0 {
                    crate::color::GRAY82
                } else {
                    old(self).pixel(px, py)
                }),
    {
        let w = self.width as i64;
        let h = self.height as i64;
        let mut i: usize = 0;
        while i < self.height
            invariant
                self.wf(),
                self.same_shape(*old(self)),
                w == self.width,
                h == self.height,
                step >= 1,
                step <= usize::MAX - self.height,
                self.width <= COORD_LIMIT,
                self.height <= COORD_LIMIT,
                i % step == 0,
                forall|px: int, py: int| old(self).in_bounds(px, py)
                    ==> self.pixel(px, py) == (if py % (step as int) == 0 && py < i {
                        crate::color::GRAY82
                    } else {
                        old(self).pixel(px, py)
                    }),
            decreases self.height + step - i,
        {
            self.plot_line_width_color((0, i as i64), (w - 1, i as i64), 0, Some(crate::color::GRAY82));
            proof {
                assert forall|px: int, py: int| old(self).in_bounds(px, py)
                    implies (stroke_plots(0, i as int, w as int - 1, i as int, 0, px, py)
                        <==> py == i as int) by {
                    lemma_stroke_horizontal(0, i as int, w as int - 1, px, py);
                }
            }
            i += step;
            proof {
                vstd::arithmetic::div_mod::lemma_mod_add_multiples_vanish(
                    i as int - step as int, step as int);
            }
            proof {
                assert forall|py: int| 0 <= py < i && #[trigger] (py % (step as int)) == 0
                    && py >= i - step implies py == i - step by {
                    lemma_multiple_in_window(py, i as int - step as int, step as int);
                }
            }
        }
        let mut i: usize = 0;
        while i < self.width
            invariant
                self.wf(),
                self.same_shape(*old(self)),
                w == self.width,
                h == self.height,
                step >= 1,
                step <= usize::MAX - self.width,
                self.width <= COORD_LIMIT,
                self.height <= COORD_LIMIT,
                i % step == 0,
                forall|px: int, py: int| old(self).in_bounds(px, py)
                    ==> self.pixel(px, py) == (if py % (step as int) == 0
                            || (px % (step as int) == 0 && px < i) {
                        crate::color::GRAY82
                    } else {
                        old(self).pixel(px, py)
                    }),
            decreases self.width + step - i,
        {
            self.plot_line_width_color((i as i64, h - 1), (i as i64, 0), 0, Some(crate::color::GRAY82));
            proof {
                assert forall|px: int, py: int| old(self).in_bounds(px, py)
                    implies (stroke_plots(i as int, h as int - 1, i as int, 0, 0, px, py)
                        <==> px == i as int) by {
                    lemma_stroke_vertical(i as int, h as int - 1, 0, px, py);
                }
            }
            i += step;
            proof {
                vstd::arithmetic::div_mod::lemma_mod_add_multiples_vanish(
                    i as int - step as int, step as int);
            }
            proof {
                assert forall|px: int| 0 <= px < i && #[trigger] (px % (step as int)) == 0
                    && px >= i - step implies px == i - step by {
                    lemma_multiple_in_window(px, i as int - step as int, step as int);
                }
            }
        }
    }
}

/// Two multiples of `s` within less than `s` of each other coincide.
proof fn lemma_multiple_in_window(a: int, b: int, s: int)
    requires
        s >= 1,
        a % s == 0,
        b % s == 0,
        b <= a < b + s,
    ensures
        a == b,
{
    vstd::arithmetic::div_mod::lemma_fundamental_div_mod(a, s);
    vstd::arithmetic::div_mod::lemma_fundamental_div_mod(b, s);
    assert(a == b) by (nonlinear_arith)
        requires a == s * (a / s) + a % s && b == s * (b / s) + b % s
            && a % s == 0 && b % s == 0 && b <= a < b + s && s >= 1;
}

} // verus!
