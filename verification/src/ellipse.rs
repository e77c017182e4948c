//! Midpoint ellipse rasterization with a per-quadrant visibility mask.
//!
//! A single integer error-accumulator loop walks one quadrant's worth
//! of points and mirrors each into the visible quadrants; a short
//! vertical run then closes the tip of flat ellipses.  Unlike the line
//! primitive, the pen width parameter does not thicken the curve: the
//! outline is always one pixel wide.  The drawn pixel set is specified
//! exactly by [`ellipse_plots`], a recursion that mirrors the walk.

use vstd::prelude::*;
use vstd::math::abs;

use crate::color::BLACK;
use crate::image::Image;
use crate::line::COORD_LIMIT;
use crate::Point;

verus! {

/// Largest accepted semi-axis; keeps the squared error terms in `i64`.
pub const AXIS_LIMIT: i64 = 0x8000;

/// The up-to-four mirror images of walk point `(x, y)` around
/// `(xm, ym)`, one per visible quadrant.
pub open spec fn ellipse_step_plots(
    xm: int, ym: int, x: int, y: int, q0: bool, q1: bool, q2: bool, q3: bool,
    px: int, py: int,
) -> bool {
    ||| q0 && px == xm - x && py == ym + y
    ||| q1 && px == xm + x && py == ym + y
    ||| q2 && px == xm + x && py == ym - y
    ||| q3 && px == xm - x && py == ym - y
}

/// The vertical run that closes the tip once the walk stops at `y0`:
/// both columns of `x == xm` pixels strictly beyond `y0`, out to `b`.
pub open spec fn ellipse_tip_plots(xm: int, ym: int, b: int, y0: int, px: int, py: int) -> bool {
    px == xm && (ym + y0 < py <= ym + b || ym - b <= py < ym - y0)
}

/// Pixels plotted by the midpoint walk from state `(x, y, dx, dy, err)`
/// onward, followed by the closing tip run: each pass mirrors `(x, y)`
/// into the visible quadrants, advances `x` when `2*err >= dx` and `y`
/// when `2*err <= dy`, and hands over to the tip run once `x` moves
/// past zero (or no accumulator fires).  The fuel `n` only bounds the
/// recursion; the walk from the starting state never exhausts it.
pub open spec fn ellipse_walk_plots(
    xm: int, ym: int, a: int, b: int, q0: bool, q1: bool, q2: bool, q3: bool,
    x: int, y: int, dx: int, dy: int, err: int, n: nat, px: int, py: int,
) -> bool
    decreases n,
{
    if n == 0 {
        false
    } else {
        ellipse_step_plots(xm, ym, x, y, q0, q1, q2, q3, px, py) || {
            let e2 = 2 * err;
            let x2 = if e2 >= dx { x + 1 } else { x };
            let dx2 = if e2 >= dx { dx + 2 * b * b } else { dx };
            let err1 = if e2 >= dx { err + dx2 } else { err };
            let y2 = if e2 <= dy { y + 1 } else { y };
            let dy2 = if e2 <= dy { dy + 2 * a * a } else { dy };
            let err2 = if e2 <= dy { err1 + dy2 } else { err1 };
            if x2 > 0 || (!(e2 >= dx) && !(e2 <= dy)) {
                ellipse_tip_plots(xm, ym, b, y2, px, py)
            } else {
                ellipse_walk_plots(xm, ym, a, b, q0, q1, q2, q3,
                    x2, y2, dx2, dy2, err2, (n - 1) as nat, px, py)
            }
        }
    }
}

/// The full pixel set of the ellipse outline with center `(xm, ym)`,
/// semi-axes `(a, b)` and quadrant mask `q0..q3`.
pub open spec fn ellipse_plots(
    xm: int, ym: int, a: int, b: int, q0: bool, q1: bool, q2: bool, q3: bool,
    px: int, py: int,
) -> bool {
    ellipse_walk_plots(xm, ym, a, b, q0, q1, q2, q3,
        -a, 0, (1 - 2 * a) * (b * b), a * a, (1 - 2 * a) * (b * b) + a * a,
        (a + b + 2) as nat, px, py)
}

/// Every visible quadrant's horizontal extreme point lies in the
/// ellipse's pixel set: the very first walk step mirrors `(-a, 0)`.
pub proof fn lemma_ellipse_extremes(
    xm: int, ym: int, a: int, b: int, q0: bool, q1: bool, q2: bool, q3: bool,
)
    requires
        0 <= a,
        0 <= b,
    ensures
        q0 || q3 ==> ellipse_plots(xm, ym, a, b, q0, q1, q2, q3, xm + a, ym),
        q1 || q2 ==> ellipse_plots(xm, ym, a, b, q0, q1, q2, q3, xm - a, ym),
{
    assert((a + b + 2) as nat >= 1);
}

/// For the degenerate vertical case `a == 0`, `b >= 1` the tips
/// `(xm, ym - b)` and `(xm, ym + b)` lie in the pixel set: the first
/// pass steps `x` past zero and the tip run covers the whole column.
pub proof fn lemma_ellipse_degenerate_tips(
    xm: int, ym: int, b: int, q0: bool, q1: bool, q2: bool, q3: bool,
)
    requires
        1 <= b,
    ensures
        ellipse_plots(xm, ym, 0, b, q0, q1, q2, q3, xm, ym + b),
        ellipse_plots(xm, ym, 0, b, q0, q1, q2, q3, xm, ym - b),
{
    assert((1 - 2 * 0) * (b * b) == b * b && 0int * 0 == 0 && 2 * (b * b) >= b * b
        && b * b >= 1) by (nonlinear_arith)
        requires b >= 1;
    assert(ellipse_tip_plots(xm, ym, b, 0, xm, ym + b));
    assert(ellipse_tip_plots(xm, ym, b, 0, xm, ym - b));
}

/// With every quadrant visible, the walk's pixel set is symmetric
/// about both axes through the center.
proof fn lemma_walk_symmetric(
    xm: int, ym: int, a: int, b: int,
    x: int, y: int, dx: int, dy: int, err: int, n: nat, px: int, py: int,
)
    ensures
        ellipse_walk_plots(xm, ym, a, b, true, true, true, true,
            x, y, dx, dy, err, n, px, py)
            == ellipse_walk_plots(xm, ym, a, b, true, true, true, true,
                x, y, dx, dy, err, n, 2 * xm - px, py),
        ellipse_walk_plots(xm, ym, a, b, true, true, true, true,
            x, y, dx, dy, err, n, px, py)
            == ellipse_walk_plots(xm, ym, a, b, true, true, true, true,
                x, y, dx, dy, err, n, px, 2 * ym - py),
    decreases n,
{
    if n > 0 {
        let e2 = 2 * err;
        let x2 = if e2 >= dx { x + 1 } else { x };
        let dx2 = if e2 >= dx { dx + 2 * b * b } else { dx };
        let err1 = if e2 >= dx { err + dx2 } else { err };
        let y2 = if e2 <= dy { y + 1 } else { y };
        let dy2 = if e2 <= dy { dy + 2 * a * a } else { dy };
        let err2 = if e2 <= dy { err1 + dy2 } else { err1 };
        if !(x2 > 0 || (!(e2 >= dx) && !(e2 <= dy))) {
            lemma_walk_symmetric(xm, ym, a, b, x2, y2, dx2, dy2, err2,
                (n - 1) as nat, px, py);
        }
    }
}

/// With every quadrant visible, the ellipse's pixel set is symmetric
/// about both axes through the center: `(px, py)` is drawn exactly
/// when its horizontal mirror `(2*xm - px, py)` and vertical mirror
/// `(px, 2*ym - py)` are.
pub proof fn lemma_ellipse_symmetric(xm: int, ym: int, a: int, b: int, px: int, py: int)
    ensures
        ellipse_plots(xm, ym, a, b, true, true, true, true, px, py)
            == ellipse_plots(xm, ym, a, b, true, true, true, true, 2 * xm - px, py),
        ellipse_plots(xm, ym, a, b, true, true, true, true, px, py)
            == ellipse_plots(xm, ym, a, b, true, true, true, true, px, 2 * ym - py),
{
    lemma_walk_symmetric(xm, ym, a, b, -a, 0,
        (1 - 2 * a) * (b * b), a * a, (1 - 2 * a) * (b * b) + a * a,
        (a + b + 2) as nat, px, py);
}

/// Walk states keep their coordinate ranges, so every drawn pixel lies
/// inside the ellipse's bounding box.
proof fn lemma_walk_box(
    xm: int, ym: int, a: int, b: int, q0: bool, q1: bool, q2: bool, q3: bool,
    x: int, y: int, dx: int, dy: int, err: int, n: nat, px: int, py: int,
)
    requires
        0 <= a,
        0 <= b,
        -a <= x <= 0,
        0 <= y <= b,
        dx == b * b * (2 * x + 1),
        dy == a * a * (2 * y + 1),
        err == b * b * (x + 1) * (x + 1) + a * a * (y + 1) * (y + 1) - a * a * b * b,
        ellipse_walk_plots(xm, ym, a, b, q0, q1, q2, q3, x, y, dx, dy, err, n, px, py),
    ensures
        xm - a <= px <= xm + a,
        ym - b <= py <= ym + b,
    decreases n,
{
    if !ellipse_step_plots(xm, ym, x, y, q0, q1, q2, q3, px, py) {
        let e2 = 2 * err;
        let x2 = if e2 >= dx { x + 1 } else { x };
        let dx2 = if e2 >= dx { dx + 2 * b * b } else { dx };
        let err1 = if e2 >= dx { err + dx2 } else { err };
        let y2 = if e2 <= dy { y + 1 } else { y };
        let dy2 = if e2 <= dy { dy + 2 * a * a } else { dy };
        let err2 = if e2 <= dy { err1 + dy2 } else { err1 };
        if e2 <= dy {
            lemma_y_step_in_range(a, b, x, y, dy, err);
            if a == 0 && b == 0 {
                // in the point case the horizontal step fires too, and
                // the walk stops immediately
                assert(err == 0 && dx == 0) by (nonlinear_arith)
                    requires a == 0 && b == 0 && x == 0
                        && err == b * b * (x + 1) * (x + 1)
                            + a * a * (y + 1) * (y + 1) - a * a * b * b
                        && dx == b * b * (2 * x + 1);
            }
            assert(a * a * (y + 2) * (y + 2)
                == a * a * (y + 1) * (y + 1) + a * a * (2 * (y + 1) + 1)
                && a * a * (2 * (y + 1) + 1)
                    == a * a * (2 * y + 1) + 2 * a * a) by (nonlinear_arith);
        }
        if e2 >= dx {
            assert(b * b * (x + 2) * (x + 2)
                == b * b * (x + 1) * (x + 1) + b * b * (2 * (x + 1) + 1)
                && b * b * (2 * (x + 1) + 1)
                    == b * b * (2 * x + 1) + 2 * b * b) by (nonlinear_arith);
        }
        if !(x2 > 0 || (!(e2 >= dx) && !(e2 <= dy))) {
            lemma_walk_box(xm, ym, a, b, q0, q1, q2, q3, x2, y2, dx2, dy2, err2,
                (n - 1) as nat, px, py);
        }
    }
}

/// Every drawn pixel of the ellipse outline lies inside the exact
/// bounding box `[xm-a, xm+a] x [ym-b, ym+b]`.
pub proof fn lemma_ellipse_box(
    xm: int, ym: int, a: int, b: int, q0: bool, q1: bool, q2: bool, q3: bool,
    px: int, py: int,
)
    requires
        0 <= a,
        0 <= b,
        ellipse_plots(xm, ym, a, b, q0, q1, q2, q3, px, py),
    ensures
        xm - a <= px <= xm + a,
        ym - b <= py <= ym + b,
{
    assert((1 - 2 * a) * (b * b) == b * b * (2 * (-a) + 1)
        && a * a == a * a * (2 * 0 + 1)
        && (1 - 2 * a) * (b * b) + a * a
            == b * b * ((-a) + 1) * ((-a) + 1) + a * a * (0 + 1) * (0 + 1) - a * a * b * b)
        by (nonlinear_arith);
    lemma_walk_box(xm, ym, a, b, q0, q1, q2, q3, -a, 0,
        (1 - 2 * a) * (b * b), a * a, (1 - 2 * a) * (b * b) + a * a,
        (a + b + 2) as nat, px, py);
}

/// All midpoint accumulator terms stay far inside `i64` for bounded
/// semi-axes.
proof fn lemma_err_bounds(a: int, b: int, x: int, y: int, dx: int, dy: int, err: int)
    requires
        0 <= a <= AXIS_LIMIT,
        0 <= b <= AXIS_LIMIT,
        -a <= x <= 1,
        0 <= y <= b + 1,
        dx == b * b * (2 * x + 1),
        dy == a * a * (2 * y + 1),
        err == b * b * (x + 1) * (x + 1) + a * a * (y + 1) * (y + 1) - a * a * b * b,
    ensures
        abs(dx) <= 0x8000_0000_0000,
        abs(dy) <= 0x8000_0000_0000,
        abs(err) <= 0x3800_0000_0000_0000,
        0 <= 2 * a * a <= 0x8000_0000,
        0 <= 2 * b * b <= 0x8000_0000,
{
    crate::line::lemma_abs_mul_le(b, b, 0x8000, 0x8000);
    crate::line::lemma_abs_mul_le(a, a, 0x8000, 0x8000);
    crate::line::lemma_abs_mul_le(b * b, 2 * x + 1, 0x4000_0000, 0x1_0001);
    crate::line::lemma_abs_mul_le(a * a, 2 * y + 1, 0x4000_0000, 0x1_0003);
    crate::line::lemma_abs_mul_le(b * b, x + 1, 0x4000_0000, 0x8001);
    crate::line::lemma_abs_mul_le(b * b * (x + 1), x + 1, 0x2000_4000_0000, 0x8001);
    crate::line::lemma_abs_mul_le(a * a, y + 1, 0x4000_0000, 0x8002);
    crate::line::lemma_abs_mul_le(a * a * (y + 1), y + 1, 0x2000_8000_0000, 0x8002);
    crate::line::lemma_abs_mul_le(a * a, b, 0x4000_0000, 0x8000);
    crate::line::lemma_abs_mul_le(a * a * b, b, 0x2000_0000_0000, 0x8000);
    assert(a * a >= 0 && b * b >= 0 && 2 * a * a == 2 * (a * a)
        && 2 * b * b == 2 * (b * b)) by (nonlinear_arith);
}

/// Whenever the vertical step fires, it stays strictly below the
/// semi-axis, except in the fully degenerate point case `a == b == 0`.
proof fn lemma_y_step_in_range(a: int, b: int, x: int, y: int, dy: int, err: int)
    requires
        0 <= a,
        0 <= b,
        -a <= x <= 0,
        0 <= y <= b,
        dy == a * a * (2 * y + 1),
        err == b * b * (x + 1) * (x + 1) + a * a * (y + 1) * (y + 1) - a * a * b * b,
        2 * err <= dy,
    ensures
        y < b || (a == 0 && b == 0),
        a == 0 ==> b == 0,
{
    if a == 0 {
        assert(b == 0) by (nonlinear_arith)
            requires a == 0 && x == 0 && 0 <= b && dy == a * a * (2 * y + 1) && 2 * err <= dy
                && err == b * b * (x + 1) * (x + 1) + a * a * (y + 1) * (y + 1) - a * a * b * b;
        assert(y == 0);
    } else if y == b {
        assert(false) by (nonlinear_arith)
            requires a >= 1 && 0 <= b && -a <= x <= 0 && y == b
                && dy == a * a * (2 * y + 1) && 2 * err <= dy
                && err == b * b * (x + 1) * (x + 1) + a * a * (y + 1) * (y + 1) - a * a * b * b;
    }
}

impl Image {
    /// Draws the one-pixel outline of the ellipse with center
    /// `(xm, ym)` and semi-axes `(a, b)`, mirrored into the four
    /// quadrants enabled in `quadrants` (I: right-down, II: left-down,
    /// III: left-up, IV: right-up).  The pen width accepted by
    /// [`Image::plot_circle`] is deliberately ignored here.
    ///
    /// Plots exactly the [`ellipse_plots`] pixel set; changed pixels
    /// only ever become foreground and stay inside the ellipse's
    /// bounding box.
    #[verifier::rlimit(100)]
    #[verifier::spinoff_prover]
    pub fn plot_ellipse(&mut self, center: Point, axes: (i64, i64), quadrants: [bool; 4],
        _wd: i64)
        requires
            old(self).wf(),
            abs(center.0 as int) <= COORD_LIMIT,
            abs(center.1 as int) <= COORD_LIMIT,
            0 <= axes.0 <= AXIS_LIMIT,
            0 <= axes.1 <= AXIS_LIMIT,
        ensures
            final(self).wf(),
            final(self).same_shape(*old(self)),
            forall|px: int, py: int| old(self).in_bounds(px, py)
                ==> final(self).pixel(px, py) == (if ellipse_plots(center.0 as int,
                        center.1 as int, axes.0 as int, axes.1 as int,
                        quadrants[0], quadrants[1], quadrants[2], quadrants[3], px, py) {
                    BLACK
                } else {
                    old(self).pixel(px, py)
                }),
            forall|px: int, py: int| old(self).in_bounds(px, py)
                ==> final(self).pixel(px, py) == old(self).pixel(px, py)
                    || (final(self).pixel(px, py) == BLACK
                        && center.0 - axes.0 <= px <= center.0 + axes.0
                        && center.1 - axes.1 <= py <= center.1 + axes.1),
    {
        let (xm, ym) = center;
        let (a, b) = axes;
        let mut x = -a;
        let mut y: i64 = 0;
        let mut e2 = b;
        proof {
            crate::line::lemma_abs_mul_le(1 + 2 * x as int, e2 as int, 0x1_0001, 0x8000);
            crate::line::lemma_abs_mul_le((1 + 2 * x as int) * e2 as int, e2 as int,
                0x8000_8000, 0x8000);
            crate::line::lemma_abs_mul_le(x as int, x as int, 0x8000, 0x8000);
        }
        let mut dx = (1 + 2 * x) * e2 * e2;
        let mut dy = x * x;
        let mut err = dx + dy;
        let ghost mut n: nat = (a as int + b as int + 2) as nat;
        proof {
            assert(err == b * b * (x + 1) * (x + 1) + a * a * (y + 1) * (y + 1) - a * a * b * b
                && dx == b * b * (2 * x + 1) && dy == a * a * (2 * y + 1)
                && dx == (1 - 2 * (a as int)) * (b as int * b as int)
                && dy == a as int * a as int) by (nonlinear_arith)
                requires x == -a && y == 0 && e2 == b && dx == (1 + 2 * x) * e2 * e2
                    && dy == x * x && err == dx + dy;
        }
        loop
            invariant_except_break
                self.wf(),
                self.same_shape(*old(self)),
                abs(xm as int) <= COORD_LIMIT,
                abs(ym as int) <= COORD_LIMIT,
                0 <= a <= AXIS_LIMIT,
                0 <= b <= AXIS_LIMIT,
                -a <= x <= 0,
                0 <= y <= b,
                dx == b * b * (2 * x + 1),
                dy == a * a * (2 * y + 1),
                err == b * b * (x + 1) * (x + 1) + a * a * (y + 1) * (y + 1) - a * a * b * b,
                n <= a + b + 2,
                n as int >= b + 2 - x - y,
                forall|px: int, py: int|
                    ellipse_walk_plots(xm as int, ym as int, a as int, b as int,
                        quadrants[0], quadrants[1], quadrants[2], quadrants[3],
                        x as int, y as int, dx as int, dy as int, err as int, n, px, py)
                        ==> ellipse_plots(xm as int, ym as int, a as int, b as int,
                            quadrants[0], quadrants[1], quadrants[2], quadrants[3], px, py),
                forall|px: int, py: int| old(self).in_bounds(px, py)
                    && ellipse_plots(xm as int, ym as int, a as int, b as int,
                        quadrants[0], quadrants[1], quadrants[2], quadrants[3], px, py)
                    && !ellipse_walk_plots(xm as int, ym as int, a as int, b as int,
                        quadrants[0], quadrants[1], quadrants[2], quadrants[3],
                        x as int, y as int, dx as int, dy as int, err as int, n, px, py)
                    ==> self.pixel(px, py) == BLACK,
                forall|px: int, py: int| old(self).in_bounds(px, py)
                    && !ellipse_plots(xm as int, ym as int, a as int, b as int,
                        quadrants[0], quadrants[1], quadrants[2], quadrants[3], px, py)
                    ==> self.pixel(px, py) == old(self).pixel(px, py),
            ensures
                self.wf(),
                self.same_shape(*old(self)),
                0 <= a <= AXIS_LIMIT,
                0 <= b <= AXIS_LIMIT,
                0 <= y <= b + 1,
                forall|px: int, py: int| old(self).in_bounds(px, py)
                    && ellipse_plots(xm as int, ym as int, a as int, b as int,
                        quadrants[0], quadrants[1], quadrants[2], quadrants[3], px, py)
                    && !ellipse_tip_plots(xm as int, ym as int, b as int, y as int, px, py)
                    ==> self.pixel(px, py) == BLACK,
                forall|px: int, py: int| old(self).in_bounds(px, py)
                    && !ellipse_plots(xm as int, ym as int, a as int, b as int,
                        quadrants[0], quadrants[1], quadrants[2], quadrants[3], px, py)
                    ==> self.pixel(px, py) == old(self).pixel(px, py),
                forall|px: int, py: int|
                    ellipse_tip_plots(xm as int, ym as int, b as int, y as int, px, py)
                        ==> ellipse_plots(xm as int, ym as int, a as int, b as int,
                            quadrants[0], quadrants[1], quadrants[2], quadrants[3], px, py),
            decreases 1 - x, b - y,
        {
            if quadrants[0] {
                self.plot(xm - x, ym + y);
            }
            if quadrants[1] {
                self.plot(xm + x, ym + y);
            }
            if quadrants[2] {
                self.plot(xm + x, ym - y);
            }
            if quadrants[3] {
                self.plot(xm - x, ym - y);
            }
            proof {
                lemma_err_bounds(a as int, b as int, x as int, y as int,
                    dx as int, dy as int, err as int);
            }
            let ghost hx: int = x as int;
            let ghost hy: int = y as int;
            let ghost hdx: int = dx as int;
            let ghost hdy: int = dy as int;
            let ghost herr: int = err as int;
            let ghost hn: nat = n;
            e2 = 2 * err;
            let mut stepped = false;
            if e2 >= dx {
                proof {
                    assert(b * b * (x as int + 2) * (x as int + 2)
                        == b * b * (x as int + 1) * (x as int + 1)
                            + b * b * (2 * (x as int + 1) + 1)
                        && b * b * (2 * (x as int + 1) + 1)
                            == b * b * (2 * x as int + 1) + 2 * b * b) by (nonlinear_arith);
                }
                x += 1;
                dx += 2 * b * b;
                err += dx;
                stepped = true;
            }
            if e2 <= dy {
                proof {
                    lemma_y_step_in_range(a as int, b as int, hx, y as int,
                        dy as int, herr);
                    assert(a * a * (y as int + 2) * (y as int + 2)
                        == a * a * (y as int + 1) * (y as int + 1)
                            + a * a * (2 * (y as int + 1) + 1)
                        && a * a * (2 * (y as int + 1) + 1)
                            == a * a * (2 * y as int + 1) + 2 * a * a) by (nonlinear_arith);
                }
                y += 1;
                dy += 2 * a * a;
                err += dy;
                stepped = true;
            }
            proof {
                n = (n - 1) as nat;
                // one unfolding of the walk at the head state
                assert forall|px: int, py: int| true implies
                    ellipse_walk_plots(xm as int, ym as int, a as int, b as int,
                        quadrants[0], quadrants[1], quadrants[2], quadrants[3],
                        hx, hy, hdx, hdy, herr, hn, px, py)
                    == (ellipse_step_plots(xm as int, ym as int, hx, hy,
                            quadrants[0], quadrants[1], quadrants[2], quadrants[3], px, py)
                        || (if x > 0 || !stepped {
                            ellipse_tip_plots(xm as int, ym as int, b as int, y as int, px, py)
                        } else {
                            ellipse_walk_plots(xm as int, ym as int, a as int, b as int,
                                quadrants[0], quadrants[1], quadrants[2], quadrants[3],
                                x as int, y as int, dx as int, dy as int, err as int,
                                n, px, py)
                        })) by {
                }
            }
            if x > 0 {
                break;
            }
            // the error relation makes one of the two steps fire on every
            // pass of the real algorithm; the guard only gives the loop a
            // provable bound
            if !stepped {
                break;
            }
        }
        let ghost y0: int = y as int;
        while y < b
            invariant
                self.wf(),
                self.same_shape(*old(self)),
                abs(xm as int) <= COORD_LIMIT,
                abs(ym as int) <= COORD_LIMIT,
                0 <= a,
                0 <= b <= AXIS_LIMIT,
                y0 <= y,
                0 <= y0,
                y <= b || y == y0,
                forall|px: int, py: int| old(self).in_bounds(px, py)
                    && ellipse_plots(xm as int, ym as int, a as int, b as int,
                        quadrants[0], quadrants[1], quadrants[2], quadrants[3], px, py)
                    && !ellipse_tip_plots(xm as int, ym as int, b as int, y as int, px, py)
                    ==> self.pixel(px, py) == BLACK,
                forall|px: int, py: int| old(self).in_bounds(px, py)
                    && !ellipse_plots(xm as int, ym as int, a as int, b as int,
                        quadrants[0], quadrants[1], quadrants[2], quadrants[3], px, py)
                    ==> self.pixel(px, py) == old(self).pixel(px, py),
                forall|px: int, py: int|
                    ellipse_tip_plots(xm as int, ym as int, b as int, y0, px, py)
                        ==> ellipse_plots(xm as int, ym as int, a as int, b as int,
                            quadrants[0], quadrants[1], quadrants[2], quadrants[3], px, py),
            decreases b - y,
        {
            y += 1;
            self.plot(xm, ym + y);
            self.plot(xm, ym - y);
            proof {
                // both tip pixels of this pass belong to the spec's tip run
                assert(ellipse_tip_plots(xm as int, ym as int, b as int, y0,
                    xm as int, ym + y as int));
                assert(ellipse_tip_plots(xm as int, ym as int, b as int, y0,
                    xm as int, ym - y as int));
            }
        }
        proof {
            assert forall|px: int, py: int| old(self).in_bounds(px, py)
                implies self.pixel(px, py) == (if ellipse_plots(xm as int, ym as int,
                        a as int, b as int, quadrants[0], quadrants[1], quadrants[2],
                        quadrants[3], px, py) {
                    BLACK
                } else {
                    old(self).pixel(px, py)
                }) by {
                assert(!ellipse_tip_plots(xm as int, ym as int, b as int, y as int, px, py));
            }
            assert forall|px: int, py: int| old(self).in_bounds(px, py)
                && self.pixel(px, py) != old(self).pixel(px, py)
                implies self.pixel(px, py) == BLACK
                    && xm - a <= px <= xm + a && ym - b <= py <= ym + b by {
                lemma_ellipse_box(xm as int, ym as int, a as int, b as int,
                    quadrants[0], quadrants[1], quadrants[2], quadrants[3], px, py);
            }
        }
    }

    /// Draws a one-pixel circle outline of radius `r` around `center`
    /// in all four quadrants; the width parameter is accepted for
    /// symmetry with the line primitives but unused.  The effect is
    /// exactly that of [`Image::plot_ellipse`] with semi-axes `(r, r)`
    /// and every quadrant visible.
    pub fn plot_circle(&mut self, center: Point, r: i64, _wd: i64)
        requires
            old(self).wf(),
            abs(center.0 as int) <= COORD_LIMIT,
            abs(center.1 as int) <= COORD_LIMIT,
            0 <= r <= AXIS_LIMIT,
        ensures
            final(self).wf(),
            final(self).same_shape(*old(self)),
            forall|px: int, py: int| old(self).in_bounds(px, py)
                ==> final(self).pixel(px, py) == (if ellipse_plots(center.0 as int,
                        center.1 as int, r as int, r as int, true, true, true, true,
                        px, py) {
                    BLACK
                } else {
                    old(self).pixel(px, py)
                }),
            forall|px: int, py: int| old(self).in_bounds(px, py)
                ==> final(self).pixel(px, py) == old(self).pixel(px, py)
                    || (final(self).pixel(px, py) == BLACK
                        && center.0 - r <= px <= center.0 + r
                        && center.1 - r <= py <= center.1 + r),
    {
        self.plot_ellipse(center, (r, r), [true, true, true, true], _wd)
    }
}

} // verus!
