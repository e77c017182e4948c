//! Half-space triangle rasterization: three oriented edge functions,
//! evaluated incrementally over the vertices' bounding box; a pixel is
//! filled exactly when all three are non-negative.

use vstd::prelude::*;
use vstd::math::abs;

use crate::color::BLACK;
use crate::image::Image;
use crate::line::COORD_LIMIT;
use crate::Point;

verus! {

/// The smaller of two integers.
pub open spec fn imin(a: int, b: int) -> int {
    if a < b { a } else { b }
}

/// The larger of two integers.
pub open spec fn imax(a: int, b: int) -> int {
    if a < b { b } else { a }
}

/// Coefficients `(a, b, c)` of the edge line through `p1` and `p2`
/// (the function `a*x + b*y + c` vanishes on that line), oriented so
/// that the third vertex `p3` evaluates non-negatively.
pub open spec fn edge_coeffs(
    x1: int, y1: int, x2: int, y2: int, x3: int, y3: int,
) -> (int, int, int) {
    let a = y2 - y1;
    let b = x1 - x2;
    let c = y1 * x2 - x1 * y2;
    if a * x3 + b * y3 + c < 0 {
        (-a, -b, -c)
    } else {
        (a, b, c)
    }
}

/// The oriented edge function of `p1 -> p2` (oriented toward `p3`),
/// evaluated at `(px, py)`.
pub open spec fn edge_val(
    x1: int, y1: int, x2: int, y2: int, x3: int, y3: int, px: int, py: int,
) -> int {
    let (a, b, c) = edge_coeffs(x1, y1, x2, y2, x3, y3);
    a * px + b * py + c
}

/// Each oriented edge function vanishes on the line through its two
/// edge vertices and is non-negative at the opposite vertex, so the
/// three half-plane tests of [`triangle_fill_plots`] carve out exactly
/// the closed triangle (for non-collinear vertices).
pub proof fn lemma_edge_val_on_edge(x1: int, y1: int, x2: int, y2: int, x3: int, y3: int)
    ensures
        edge_val(x1, y1, x2, y2, x3, y3, x1, y1) == 0,
        edge_val(x1, y1, x2, y2, x3, y3, x2, y2) == 0,
        edge_val(x1, y1, x2, y2, x3, y3, x3, y3) >= 0,
{
    let a = y2 - y1;
    let b = x1 - x2;
    let c = y1 * x2 - x1 * y2;
    assert(a * x1 + b * y1 + c == 0 && a * x2 + b * y2 + c == 0
        && -a * x1 + -b * y1 + -c == 0 && -a * x2 + -b * y2 + -c == 0
        && (a * x3 + b * y3 + c < 0 ==> -a * x3 + -b * y3 + -c >= 0)) by (nonlinear_arith)
        requires a == y2 - y1 && b == x1 - x2 && c == y1 * x2 - x1 * y2;
}

/// Whether the filled triangle over vertices `q1`, `q2`, `q3` covers
/// `(px, py)`: inside the vertices' bounding box with all three
/// oriented edge functions non-negative.
pub open spec fn triangle_fill_plots(
    q1x: int, q1y: int, q2x: int, q2y: int, q3x: int, q3y: int, px: int, py: int,
) -> bool {
    &&& imin(imin(q1x, q2x), q3x) <= px <= imax(imax(q1x, q2x), q3x)
    &&& imin(imin(q1y, q2y), q3y) <= py <= imax(imax(q1y, q2y), q3y)
    &&& edge_val(q1x, q1y, q2x, q2y, q3x, q3y, px, py) >= 0
    &&& edge_val(q1x, q1y, q3x, q3y, q2x, q2y, px, py) >= 0
    &&& edge_val(q2x, q2y, q3x, q3y, q1x, q1y, px, py) >= 0
}

/// The three half-plane tests over concrete oriented coefficients,
/// restricted to the scanned bounding box.
pub open spec fn halfplanes_plot(
    a0: int, b0: int, c0: int, a1: int, b1: int, c1: int, a2: int, b2: int, c2: int,
    x_min: int, x_max: int, y_min: int, y_max: int, px: int, py: int,
) -> bool {
    &&& x_min <= px <= x_max
    &&& y_min <= py <= y_max
    &&& a0 * px + b0 * py + c0 >= 0
    &&& a1 * px + b1 * py + c1 >= 0
    &&& a2 * px + b2 * py + c2 >= 0
}

/// An affine form with bounded coefficients stays bounded over the
/// sampled window.
proof fn lemma_affine_bound(a: int, b: int, c: int, px: int, py: int)
    requires
        abs(a) <= 2 * COORD_LIMIT,
        abs(b) <= 2 * COORD_LIMIT,
        abs(c) <= 0x2000_0000_0000,
        abs(px) <= COORD_LIMIT + 1,
        abs(py) <= COORD_LIMIT + 1,
    ensures
        abs(a * px + b * py + c) <= 0x6000_0000_0000,
        abs(a * px) <= 0x2000_0000_0000,
        abs(b * py) <= 0x2000_0000_0000,
{
    crate::line::lemma_abs_mul_le(a, px, 2int * 0x10_0000, 0x10_0001);
    crate::line::lemma_abs_mul_le(b, py, 2int * 0x10_0000, 0x10_0001);
}

impl Image {
    /// Coefficients of the edge `p1 -> p2`, sign-flipped if needed so
    /// that `p3` lies on the non-negative side.
    fn make_equation(p1: Point, p2: Point, p3: Point) -> (abc: (i64, i64, i64))
        requires
            abs(p1.0 as int) <= COORD_LIMIT,
            abs(p1.1 as int) <= COORD_LIMIT,
            abs(p2.0 as int) <= COORD_LIMIT,
            abs(p2.1 as int) <= COORD_LIMIT,
            abs(p3.0 as int) <= COORD_LIMIT,
            abs(p3.1 as int) <= COORD_LIMIT,
        ensures
            (abc.0 as int, abc.1 as int, abc.2 as int) == edge_coeffs(
                p1.0 as int, p1.1 as int, p2.0 as int, p2.1 as int, p3.0 as int, p3.1 as int),
            abs(abc.0 as int) <= 2 * COORD_LIMIT,
            abs(abc.1 as int) <= 2 * COORD_LIMIT,
            abs(abc.2 as int) <= 0x2000_0000_0000,
    {
        proof {
            crate::line::lemma_abs_mul_le(p1.0 as int, p2.1 as int,
                1int * 0x10_0000, 1int * 0x10_0000);
            crate::line::lemma_abs_mul_le(p1.1 as int, p2.0 as int,
                1int * 0x10_0000, 1int * 0x10_0000);
        }
        let a = p2.1 - p1.1;
        let b = p1.0 - p2.0;
        let c = p1.1 * p2.0 - p1.0 * p2.1;
        proof {
            crate::line::lemma_abs_mul_le(a as int, p3.0 as int,
                2int * 0x10_0000, 1int * 0x10_0000);
            crate::line::lemma_abs_mul_le(b as int, p3.1 as int,
                2int * 0x10_0000, 1int * 0x10_0000);
        }
        if a * p3.0 + b * p3.1 + c < 0 {
            (-a, -b, -c)
        } else {
            (a, b, c)
        }
    }

    /// Fills the triangle over `q1`, `q2`, `q3`: scans the vertices'
    /// bounding box and plots exactly the pixels where all three
    /// oriented edge functions are non-negative (boundary included).
    #[verifier::rlimit(100)]
    #[verifier::spinoff_prover]
    pub fn fill_triangle(&mut self, q1: Point, q2: Point, q3: Point)
        requires
            old(self).wf(),
            abs(q1.0 as int) <= COORD_LIMIT,
            abs(q1.1 as int) <= COORD_LIMIT,
            abs(q2.0 as int) <= COORD_LIMIT,
            abs(q2.1 as int) <= COORD_LIMIT,
            abs(q3.0 as int) <= COORD_LIMIT,
            abs(q3.1 as int) <= COORD_LIMIT,
        ensures
            final(self).wf(),
            final(self).same_shape(*old(self)),
            forall|px: int, py: int| old(self).in_bounds(px, py)
                ==> final(self).pixel(px, py) == (if triangle_fill_plots(
                        q1.0 as int, q1.1 as int, q2.0 as int, q2.1 as int,
                        q3.0 as int, q3.1 as int, px, py) {
                    BLACK
                } else {
                    old(self).pixel(px, py)
                }),
    {
        let mut x_min = q1.0;
        let mut y_min = q1.1;
        let mut x_max = q1.0;
        let mut y_max = q1.1;
        if q2.0 < x_min { x_min = q2.0; }
        if q3.0 < x_min { x_min = q3.0; }
        if q2.0 > x_max { x_max = q2.0; }
        if q3.0 > x_max { x_max = q3.0; }
        if q2.1 < y_min { y_min = q2.1; }
        if q3.1 < y_min { y_min = q3.1; }
        if q2.1 > y_max { y_max = q2.1; }
        if q3.1 > y_max { y_max = q3.1; }
        proof {
            assert(x_min == imin(imin(q1.0 as int, q2.0 as int), q3.0 as int));
            assert(x_max == imax(imax(q1.0 as int, q2.0 as int), q3.0 as int));
            assert(y_min == imin(imin(q1.1 as int, q2.1 as int), q3.1 as int));
            assert(y_max == imax(imax(q1.1 as int, q2.1 as int), q3.1 as int));
        }
        let (a0, b0, c0) = Self::make_equation(q1, q2, q3);
        let (a1, b1, c1) = Self::make_equation(q1, q3, q2);
        let (a2, b2, c2) = Self::make_equation(q2, q3, q1);
        proof {
            lemma_affine_bound(a0 as int, b0 as int, c0 as int, x_min as int, y_min as int);
            lemma_affine_bound(a1 as int, b1 as int, c1 as int, x_min as int, y_min as int);
            lemma_affine_bound(a2 as int, b2 as int, c2 as int, x_min as int, y_min as int);
        }
        let mut d0 = a0 * x_min + b0 * y_min + c0;
        let mut d1 = a1 * x_min + b1 * y_min + c1;
        let mut d2 = a2 * x_min + b2 * y_min + c2;

        let mut y = y_min;
        while y <= y_max
            invariant
                self.wf(),
                self.same_shape(*old(self)),
                abs(x_min as int) <= COORD_LIMIT,
                abs(x_max as int) <= COORD_LIMIT,
                abs(y_min as int) <= COORD_LIMIT,
                abs(y_max as int) <= COORD_LIMIT,
                x_min <= x_max,
                y_min <= y_max,
                abs(a0 as int) <= 2 * COORD_LIMIT,
                abs(b0 as int) <= 2 * COORD_LIMIT,
                abs(c0 as int) <= 0x2000_0000_0000,
                abs(a1 as int) <= 2 * COORD_LIMIT,
                abs(b1 as int) <= 2 * COORD_LIMIT,
                abs(c1 as int) <= 0x2000_0000_0000,
                abs(a2 as int) <= 2 * COORD_LIMIT,
                abs(b2 as int) <= 2 * COORD_LIMIT,
                abs(c2 as int) <= 0x2000_0000_0000,
                y_min <= y <= y_max + 1,
                d0 == a0 * x_min + b0 * y + c0,
                d1 == a1 * x_min + b1 * y + c1,
                d2 == a2 * x_min + b2 * y + c2,
                forall|px: int, py: int| old(self).in_bounds(px, py)
                    ==> self.pixel(px, py) == (if py < y && halfplanes_plot(
                            a0 as int, b0 as int, c0 as int, a1 as int, b1 as int, c1 as int,
                            a2 as int, b2 as int, c2 as int, x_min as int, x_max as int,
                            y_min as int, y_max as int, px, py) {
                        BLACK
                    } else {
                        old(self).pixel(px, py)
                    }),
            decreases y_max + 1 - y,
        {
            proof {
                lemma_affine_bound(b0 as int, a0 as int, c0 as int, y as int + 1, x_min as int);
                lemma_affine_bound(b1 as int, a1 as int, c1 as int, y as int + 1, x_min as int);
                lemma_affine_bound(b2 as int, a2 as int, c2 as int, y as int + 1, x_min as int);
                assert(b0 * (y as int + 1) == b0 * y + b0
                    && b1 * (y as int + 1) == b1 * y + b1
                    && b2 * (y as int + 1) == b2 * y + b2
                    && b0 * (y as int + 1) + a0 * x_min == a0 * x_min + b0 * (y as int + 1)
                    && b1 * (y as int + 1) + a1 * x_min == a1 * x_min + b1 * (y as int + 1)
                    && b2 * (y as int + 1) + a2 * x_min == a2 * x_min + b2 * (y as int + 1))
                    by (nonlinear_arith);
            }
            let mut f0 = d0;
            let mut f1 = d1;
            let mut f2 = d2;

            d0 += b0;
            d1 += b1;
            d2 += b2;

            let mut x = x_min;
            while x <= x_max
                invariant
                    self.wf(),
                    self.same_shape(*old(self)),
                    abs(x_min as int) <= COORD_LIMIT,
                    abs(x_max as int) <= COORD_LIMIT,
                    abs(y_min as int) <= COORD_LIMIT,
                    abs(y_max as int) <= COORD_LIMIT,
                    x_min <= x_max,
                    y_min <= y_max,
                    abs(a0 as int) <= 2 * COORD_LIMIT,
                    abs(b0 as int) <= 2 * COORD_LIMIT,
                    abs(c0 as int) <= 0x2000_0000_0000,
                    abs(a1 as int) <= 2 * COORD_LIMIT,
                    abs(b1 as int) <= 2 * COORD_LIMIT,
                    abs(c1 as int) <= 0x2000_0000_0000,
                    abs(a2 as int) <= 2 * COORD_LIMIT,
                    abs(b2 as int) <= 2 * COORD_LIMIT,
                    abs(c2 as int) <= 0x2000_0000_0000,
                    y_min <= y <= y_max,
                    x_min <= x <= x_max + 1,
                    f0 == a0 * x + b0 * y + c0,
                    f1 == a1 * x + b1 * y + c1,
                    f2 == a2 * x + b2 * y + c2,
                    forall|px: int, py: int| old(self).in_bounds(px, py)
                        ==> self.pixel(px, py) == (if (py < y || (py == y && px < x))
                                && halfplanes_plot(
                                    a0 as int, b0 as int, c0 as int, a1 as int, b1 as int,
                                    c1 as int, a2 as int, b2 as int, c2 as int, x_min as int,
                                    x_max as int, y_min as int, y_max as int, px, py) {
                            BLACK
                        } else {
                            old(self).pixel(px, py)
                        }),
                decreases x_max + 1 - x,
            {
                if f0 >= 0 && f1 >= 0 && f2 >= 0 {
                    self.plot(x, y);
                }
                proof {
                    lemma_affine_bound(a0 as int, b0 as int, c0 as int, x as int + 1, y as int);
                    lemma_affine_bound(a1 as int, b1 as int, c1 as int, x as int + 1, y as int);
                    lemma_affine_bound(a2 as int, b2 as int, c2 as int, x as int + 1, y as int);
                    assert(a0 * (x as int + 1) == a0 * x + a0
                        && a1 * (x as int + 1) == a1 * x + a1
                        && a2 * (x as int + 1) == a2 * x + a2) by (nonlinear_arith);
                }
                f0 += a0;
                f1 += a1;
                f2 += a2;
                x += 1;
            }
            y += 1;
        }
        proof {
            assert forall|px: int, py: int| old(self).in_bounds(px, py)
                implies self.pixel(px, py) == (if triangle_fill_plots(
                        q1.0 as int, q1.1 as int, q2.0 as int, q2.1 as int,
                        q3.0 as int, q3.1 as int, px, py) {
                    BLACK
                } else {
                    old(self).pixel(px, py)
                }) by {
                assert(triangle_fill_plots(q1.0 as int, q1.1 as int, q2.0 as int, q2.1 as int,
                    q3.0 as int, q3.1 as int, px, py) == halfplanes_plot(
                    a0 as int, b0 as int, c0 as int, a1 as int, b1 as int, c1 as int,
                    a2 as int, b2 as int, c2 as int, x_min as int, x_max as int,
                    y_min as int, y_max as int, px, py));
            }
        }
    }
}

} // verus!
