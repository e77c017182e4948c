//! De Casteljau evaluation of Bézier curves, plain and rational.
//!
//! The parameter `t` of the float formulation is carried as an exact
//! rational `t = t_num / t_den` with `0 <= t_num <= t_den`, and each
//! interpolation truncates toward zero, mirroring the original
//! coordinate truncation at every reduction level.  Both evaluators are
//! pure: they repeatedly interpolate consecutive control-point pairs
//! until one point remains.

use vstd::prelude::*;
use vstd::math::abs;

use crate::line::{tdiv, lemma_abs_mul_le, COORD_LIMIT};
use crate::Point;

verus! {

/// One truncating interpolation step: `((den-num)*a + num*b) / den`,
/// the integer form of `(1-t)*a + t*b`.
pub open spec fn lerp_trunc(a: int, b: int, num: int, den: int) -> int {
    tdiv((den - num) * a + num * b, den)
}

/// The control polygon after one de Casteljau reduction.
pub open spec fn reduce_once(points: Seq<(int, int)>, num: int, den: int) -> Seq<(int, int)> {
    Seq::new((points.len() - 1) as nat, |i: int|
        (lerp_trunc(points[i].0, points[i + 1].0, num, den),
         lerp_trunc(points[i].1, points[i + 1].1, num, den)))
}

/// The curve point at `t = num / den`: reduce until one point remains;
/// `None` for an empty control polygon.
pub open spec fn curve_point_at(points: Seq<(int, int)>, num: int, den: int)
    -> Option<(int, int)>
    decreases points.len(),
{
    if points.len() == 0 {
        None
    } else if points.len() == 1 {
        Some(points[0])
    } else {
        curve_point_at(reduce_once(points, num, den), num, den)
    }
}

/// The integer view of a control polygon.
pub open spec fn points_view(s: Seq<Point>) -> Seq<(int, int)> {
    Seq::new(s.len(), |i: int| (s[i].0 as int, s[i].1 as int))
}

/// All coordinates bounded by `bound`.
pub open spec fn points_bounded(s: Seq<(int, int)>, bound: int) -> bool {
    forall|i: int| 0 <= i < s.len()
        ==> abs((#[trigger] s[i]).0) <= bound && abs(s[i].1) <= bound
}

/// The integer view of a weight vector.
pub open spec fn weights_view(s: Seq<i64>) -> Seq<int> {
    Seq::new(s.len(), |i: int| s[i] as int)
}

/// One weighted truncating interpolation step at `t = num / den`:
/// `(w1*(den-num)*a + w2*num*b) / (w1*(den-num) + w2*num)`.
pub open spec fn weighted_lerp_trunc(
    a: int, b: int, w1: int, w2: int, num: int, den: int,
) -> int {
    tdiv(w1 * (den - num) * a + w2 * num * b, w1 * (den - num) + w2 * num)
}

/// The control polygon after one weighted de Casteljau reduction; the
/// weights stay in place, each level just stops using the last one.
pub open spec fn weighted_reduce_once(
    points: Seq<(int, int)>, weights: Seq<int>, num: int, den: int,
) -> Seq<(int, int)> {
    Seq::new((points.len() - 1) as nat, |i: int|
        (weighted_lerp_trunc(points[i].0, points[i + 1].0,
            weights[i], weights[i + 1], num, den),
         weighted_lerp_trunc(points[i].1, points[i + 1].1,
            weights[i], weights[i + 1], num, den)))
}

/// The rational curve point at `t = num / den`: weighted reduction
/// until one point remains; `None` for an empty control polygon.
pub open spec fn weighted_curve_point_at(
    points: Seq<(int, int)>, weights: Seq<int>, num: int, den: int,
) -> Option<(int, int)>
    decreases points.len(),
{
    if points.len() == 0 {
        None
    } else if points.len() == 1 {
        Some(points[0])
    } else {
        weighted_curve_point_at(weighted_reduce_once(points, weights, num, den),
            weights, num, den)
    }
}

/// Truncating interpolation with `0 <= num <= den` never leaves the
/// coordinate bound of its endpoints.
proof fn lemma_lerp_bounded(a: int, b: int, num: int, den: int, bound: int)
    requires
        1 <= den,
        0 <= num <= den,
        0 <= bound,
        abs(a) <= bound,
        abs(b) <= bound,
    ensures
        abs(lerp_trunc(a, b, num, den)) <= bound,
{
    let s = (den - num) * a + num * b;
    assert(-(den * bound) <= s <= den * bound) by (nonlinear_arith)
        requires 1 <= den && 0 <= num <= den && -bound <= a <= bound && -bound <= b <= bound
            && 0 <= bound && s == (den - num) * a + num * b;
    assert(abs(s) <= den * bound);
    vstd::arithmetic::div_mod::lemma_div_is_ordered(abs(s) as int, den * bound, den);
    vstd::arithmetic::div_mod::lemma_div_multiples_vanish(bound, den);
    assert(abs(tdiv(s, den)) == abs(s) as int / den);
}

/// Exact endpoint interpolation: at `num == 0` the step returns `a`,
/// at `num == den` it returns `b`.
proof fn lemma_lerp_endpoints(a: int, b: int, den: int)
    requires
        1 <= den,
    ensures
        lerp_trunc(a, b, 0, den) == a,
        lerp_trunc(a, b, den, den) == b,
{
    assert((den - 0) * a + 0 * b == den * a && (den - den) * a + den * b == den * b)
        by (nonlinear_arith);
    lemma_tdiv_exact(a, den);
    lemma_tdiv_exact(b, den);
}

/// Truncating division inverts an exact multiple: `(den*a)/den == a`.
proof fn lemma_tdiv_exact(a: int, den: int)
    requires
        1 <= den,
    ensures
        tdiv(den * a, den) == a,
{
    assert(abs(den * a) == den * abs(a) && ((den * a < 0) == (a < 0 && den * a != 0)))
        by (nonlinear_arith)
        requires den >= 1;
    vstd::arithmetic::div_mod::lemma_div_multiples_vanish(abs(a) as int, den);
}

/// De Casteljau evaluation at `t == 0` returns the first control point,
/// for any non-empty control polygon.
pub proof fn lemma_curve_point_at_start(points: Seq<(int, int)>, den: int)
    requires
        points.len() >= 1,
        1 <= den,
    ensures
        curve_point_at(points, 0, den) == Some(points[0]),
    decreases points.len(),
{
    if points.len() > 1 {
        let r = reduce_once(points, 0, den);
        lemma_lerp_endpoints(points[0].0, points[1].0, den);
        lemma_lerp_endpoints(points[0].1, points[1].1, den);
        assert(r[0] == points[0]);
        lemma_curve_point_at_start(r, den);
    }
}

/// De Casteljau evaluation at `t == 1` returns the last control point,
/// for any non-empty control polygon.
pub proof fn lemma_curve_point_at_end(points: Seq<(int, int)>, den: int)
    requires
        points.len() >= 1,
        1 <= den,
    ensures
        curve_point_at(points, den, den) == Some(points.last()),
    decreases points.len(),
{
    if points.len() > 1 {
        let r = reduce_once(points, den, den);
        lemma_lerp_endpoints(points[points.len() - 2].0, points[points.len() - 1].0, den);
        lemma_lerp_endpoints(points[points.len() - 2].1, points[points.len() - 1].1, den);
        assert(r.last() == points.last());
        lemma_curve_point_at_end(r, den);
    }
}

/// Exact weighted endpoint interpolation: at `num == 0` the step
/// returns `a`, at `num == den` it returns `b`, for any positive
/// weights.
proof fn lemma_weighted_lerp_endpoints(a: int, b: int, w1: int, w2: int, den: int)
    requires
        1 <= den,
        1 <= w1,
        1 <= w2,
    ensures
        weighted_lerp_trunc(a, b, w1, w2, 0, den) == a,
        weighted_lerp_trunc(a, b, w1, w2, den, den) == b,
{
    assert(w1 * (den - 0) * a + w2 * 0 * b == (w1 * den) * a
        && w1 * (den - 0) + w2 * 0 == w1 * den
        && w1 * (den - den) * a + w2 * den * b == (w2 * den) * b
        && w1 * (den - den) + w2 * den == w2 * den
        && w1 * den >= 1 && w2 * den >= 1) by (nonlinear_arith)
        requires 1 <= den && 1 <= w1 && 1 <= w2;
    lemma_tdiv_exact(a, w1 * den);
    lemma_tdiv_exact(b, w2 * den);
}

/// Weighted de Casteljau evaluation at `t == 0` returns the first
/// control point, for any positive weights.
pub proof fn lemma_weighted_curve_point_at_start(
    points: Seq<(int, int)>, weights: Seq<int>, den: int,
)
    requires
        points.len() >= 1,
        weights.len() >= points.len(),
        1 <= den,
        forall|i: int| 0 <= i < weights.len() ==> 1 <= #[trigger] weights[i],
    ensures
        weighted_curve_point_at(points, weights, 0, den) == Some(points[0]),
    decreases points.len(),
{
    if points.len() > 1 {
        let r = weighted_reduce_once(points, weights, 0, den);
        lemma_weighted_lerp_endpoints(points[0].0, points[1].0, weights[0], weights[1], den);
        lemma_weighted_lerp_endpoints(points[0].1, points[1].1, weights[0], weights[1], den);
        assert(r[0] == points[0]);
        lemma_weighted_curve_point_at_start(r, weights, den);
    }
}

/// Weighted de Casteljau evaluation at `t == 1` returns the last
/// control point, for any positive weights.
pub proof fn lemma_weighted_curve_point_at_end(
    points: Seq<(int, int)>, weights: Seq<int>, den: int,
)
    requires
        points.len() >= 1,
        weights.len() >= points.len(),
        1 <= den,
        forall|i: int| 0 <= i < weights.len() ==> 1 <= #[trigger] weights[i],
    ensures
        weighted_curve_point_at(points, weights, den, den) == Some(points.last()),
    decreases points.len(),
{
    if points.len() > 1 {
        let r = weighted_reduce_once(points, weights, den, den);
        lemma_weighted_lerp_endpoints(points[points.len() - 2].0, points[points.len() - 1].0,
            weights[points.len() - 2], weights[points.len() - 1], den);
        lemma_weighted_lerp_endpoints(points[points.len() - 2].1, points[points.len() - 1].1,
            weights[points.len() - 2], weights[points.len() - 1], den);
        assert(r.last() == points.last());
        lemma_weighted_curve_point_at_end(r, weights, den);
    }
}

/// Evaluates the Bézier curve over `points` at `t = t_num / t_den` by
/// repeated truncating interpolation of consecutive pairs; `None` for
/// an empty control polygon.
pub fn draw_curve_point(points: &Vec<Point>, t_num: i64, t_den: i64) -> (r: Option<Point>)
    requires
        1 <= t_den <= COORD_LIMIT,
        0 <= t_num <= t_den,
        points_bounded(points_view(points@), COORD_LIMIT as int),
    ensures
        r matches Some(p) ==> curve_point_at(points_view(points@), t_num as int, t_den as int)
            == Some((p.0 as int, p.1 as int))
            && abs(p.0 as int) <= COORD_LIMIT && abs(p.1 as int) <= COORD_LIMIT,
        r is None <==> points@.len() == 0,
    decreases points@.len(),
{
    if points.len() == 0 {
        return None;
    }
    if points.len() == 1 {
        proof {
            assert(points_view(points@)[0] == (points@[0].0 as int, points@[0].1 as int));
        }
        return Some(points[0]);
    }
    let mut new_points: Vec<Point> = Vec::new();
    let mut i: usize = 0;
    while i < points.len() - 1
        invariant
            1 <= t_den <= COORD_LIMIT,
            0 <= t_num <= t_den,
            points@.len() >= 2,
            points_bounded(points_view(points@), COORD_LIMIT as int),
            i <= points@.len() - 1,
            new_points@.len() == i,
            points_view(new_points@)
                =~= reduce_once(points_view(points@), t_num as int, t_den as int)
                    .take(i as int),
            points_bounded(points_view(new_points@), COORD_LIMIT as int),
        decreases points@.len() - 1 - i,
    {
        let p1 = points[i];
        let p2 = points[i + 1];
        proof {
            assert(points_view(points@)[i as int] == (p1.0 as int, p1.1 as int));
            assert(points_view(points@)[i as int + 1] == (p2.0 as int, p2.1 as int));
            lemma_abs_mul_le(t_den as int - t_num as int, p1.0 as int,
                1int * 0x10_0000, 1int * 0x10_0000);
            lemma_abs_mul_le(t_num as int, p2.0 as int, 1int * 0x10_0000, 1int * 0x10_0000);
            lemma_abs_mul_le(t_den as int - t_num as int, p1.1 as int,
                1int * 0x10_0000, 1int * 0x10_0000);
            lemma_abs_mul_le(t_num as int, p2.1 as int, 1int * 0x10_0000, 1int * 0x10_0000);
            lemma_lerp_bounded(p1.0 as int, p2.0 as int, t_num as int, t_den as int,
                COORD_LIMIT as int);
            lemma_lerp_bounded(p1.1 as int, p2.1 as int, t_num as int, t_den as int,
                COORD_LIMIT as int);
        }
        let x = crate::line::div_trunc((t_den - t_num) * p1.0 + t_num * p2.0, t_den);
        let y = crate::line::div_trunc((t_den - t_num) * p1.1 + t_num * p2.1, t_den);
        new_points.push((x, y));
        proof {
            assert(points_view(new_points@)
                =~= reduce_once(points_view(points@), t_num as int, t_den as int)
                    .take(i as int + 1));
        }
        i += 1;
    }
    proof {
        assert(points_view(new_points@)
            =~= reduce_once(points_view(points@), t_num as int, t_den as int));
    }
    draw_curve_point(&new_points, t_num, t_den)
}

/// Evaluates the rational (weighted) Bézier curve over `points` at
/// `t = t_num / t_den`: each interpolation weights its endpoints with
/// the matching entries of `weights`, and each reduction level drops
/// the last weight.  `None` for an empty control polygon.
pub fn draw_weighted_curve_point(
    points: &Vec<Point>, weights: &Vec<i64>, t_num: i64, t_den: i64,
) -> (r: Option<Point>)
    requires
        1 <= t_den <= 0x400,
        0 <= t_num <= t_den,
        weights@.len() >= points@.len(),
        forall|i: int| 0 <= i < weights@.len() ==> 1 <= #[trigger] weights@[i] <= 0x400,
        points_bounded(points_view(points@), COORD_LIMIT as int),
    ensures
        r is None <==> points@.len() == 0,
        r matches Some(p) ==> weighted_curve_point_at(points_view(points@),
                weights_view(weights@), t_num as int, t_den as int)
                == Some((p.0 as int, p.1 as int))
            && abs(p.0 as int) <= COORD_LIMIT && abs(p.1 as int) <= COORD_LIMIT,
    decreases points@.len(),
{
    if points.len() == 0 {
        return None;
    }
    if points.len() == 1 {
        proof {
            assert(points_view(points@)[0] == (points@[0].0 as int, points@[0].1 as int));
        }
        return Some(points[0]);
    }
    let mut new_points: Vec<Point> = Vec::new();
    let mut i: usize = 0;
    while i < points.len() - 1
        invariant
            1 <= t_den <= 0x400,
            0 <= t_num <= t_den,
            points@.len() >= 2,
            weights@.len() >= points@.len(),
            forall|j: int| 0 <= j < weights@.len() ==> 1 <= #[trigger] weights@[j] <= 0x400,
            points_bounded(points_view(points@), COORD_LIMIT as int),
            i <= points@.len() - 1,
            new_points@.len() == i,
            points_view(new_points@)
                =~= weighted_reduce_once(points_view(points@), weights_view(weights@),
                    t_num as int, t_den as int).take(i as int),
            forall|k: int| 0 <= k < new_points@.len()
                ==> abs((#[trigger] new_points@[k]).0 as int) <= COORD_LIMIT
                    && abs(new_points@[k].1 as int) <= COORD_LIMIT,
        decreases points@.len() - 1 - i,
    {
        let p1 = points[i];
        let p2 = points[i + 1];
        let w1 = weights[i];
        let w2 = weights[i + 1];
        proof {
            assert(points_view(points@)[i as int] == (p1.0 as int, p1.1 as int));
            assert(points_view(points@)[i as int + 1] == (p2.0 as int, p2.1 as int));
            lemma_abs_mul_le(w1 as int, t_den as int - t_num as int, 0x400, 0x400);
            lemma_abs_mul_le(w2 as int, t_num as int, 0x400, 0x400);
        }
        let wa = w1 * (t_den - t_num);
        let wb = w2 * t_num;
        let den = wa + wb;
        proof {
            assert(den >= 1) by (nonlinear_arith)
                requires wa == w1 * (t_den - t_num) && wb == w2 * t_num
                    && 1 <= w1 && 1 <= w2 && 0 <= t_num <= t_den && 1 <= t_den
                    && den == wa + wb;
            lemma_abs_mul_le(wa as int, p1.0 as int, 0x10_0000, 1int * 0x10_0000);
            lemma_abs_mul_le(wb as int, p2.0 as int, 0x10_0000, 1int * 0x10_0000);
            lemma_abs_mul_le(wa as int, p1.1 as int, 0x10_0000, 1int * 0x10_0000);
            lemma_abs_mul_le(wb as int, p2.1 as int, 0x10_0000, 1int * 0x10_0000);
            lemma_weighted_bounded(p1.0 as int, p2.0 as int, wa as int, wb as int,
                COORD_LIMIT as int);
            lemma_weighted_bounded(p1.1 as int, p2.1 as int, wa as int, wb as int,
                COORD_LIMIT as int);
        }
        let x = crate::line::div_trunc(wa * p1.0 + wb * p2.0, den);
        let y = crate::line::div_trunc(wa * p1.1 + wb * p2.1, den);
        new_points.push((x, y));
        proof {
            assert(weights_view(weights@)[i as int] == w1 as int
                && weights_view(weights@)[i as int + 1] == w2 as int);
            assert(points_view(new_points@)
                =~= weighted_reduce_once(points_view(points@), weights_view(weights@),
                    t_num as int, t_den as int).take(i as int + 1));
        }
        i += 1;
    }
    proof {
        assert(points_view(new_points@)
            =~= weighted_reduce_once(points_view(points@), weights_view(weights@),
                t_num as int, t_den as int));
        assert forall|k: int| 0 <= k < points_view(new_points@).len()
            implies abs((#[trigger] points_view(new_points@)[k]).0) <= COORD_LIMIT
                && abs(points_view(new_points@)[k].1) <= COORD_LIMIT by {
            assert(points_view(new_points@)[k]
                == (new_points@[k].0 as int, new_points@[k].1 as int));
        }
    }
    draw_weighted_curve_point(&new_points, weights, t_num, t_den)
}

/// A weighted truncating average never leaves the coordinate bound of
/// its endpoints.
proof fn lemma_weighted_bounded(a: int, b: int, wa: int, wb: int, bound: int)
    requires
        0 <= wa,
        0 <= wb,
        1 <= wa + wb,
        0 <= bound,
        abs(a) <= bound,
        abs(b) <= bound,
    ensures
        abs(tdiv(wa * a + wb * b, wa + wb)) <= bound,
{
    let den = wa + wb;
    let s = wa * a + wb * b;
    assert(-(den * bound) <= s <= den * bound) by (nonlinear_arith)
        requires 0 <= wa && 0 <= wb && den == wa + wb && -bound <= a <= bound
            && -bound <= b <= bound && 0 <= bound && s == wa * a + wb * b;
    assert(abs(s) <= den * bound);
    vstd::arithmetic::div_mod::lemma_div_is_ordered(abs(s) as int, den * bound, den);
    vstd::arithmetic::div_mod::lemma_div_multiples_vanish(bound, den);
    assert(abs(tdiv(s, den)) == abs(s) as int / den);
}

} // verus!
