//! Analytic helpers on implicit-form lines `a*x + b*y + c == 0`.
//!
//! Only the purely integer construction lives here; helpers that need
//! real square roots (point-to-line distance, foot of the
//! perpendicular) belong to the unverified shell around the engine.

use vstd::prelude::*;
use vstd::math::abs;

use crate::line::COORD_LIMIT;
use crate::{Line, Point};

verus! {

/// The line through `p` perpendicular to `(a, b, c)`: swaps the normal
/// vector's components with one sign flip and passes through `p`.
pub fn perpendicular(l: Line, p: Point) -> (r: Line)
    requires
        abs(l.0 as int) <= COORD_LIMIT,
        abs(l.1 as int) <= COORD_LIMIT,
        abs(p.0 as int) <= COORD_LIMIT,
        abs(p.1 as int) <= COORD_LIMIT,
    ensures
        r.0 == l.1,
        r.1 == -l.0,
        r.2 == l.0 * p.1 - l.1 * p.0,
        r.0 * p.0 + r.1 * p.1 + r.2 == 0,
{
    let (a, b, _c) = l;
    proof {
        crate::line::lemma_abs_mul_le(a as int, p.1 as int, 1int * 0x10_0000, 1int * 0x10_0000);
        crate::line::lemma_abs_mul_le(b as int, p.0 as int, 1int * 0x10_0000, 1int * 0x10_0000);
        crate::line::lemma_abs_mul_le(b as int, p.0 as int + p.0 as int,
            1int * 0x10_0000, 2int * 0x10_0000);
        crate::line::lemma_abs_mul_le(-(a as int), p.1 as int,
            1int * 0x10_0000, 1int * 0x10_0000);
    }
    proof {
        assert(b as int * p.0 + (-(a as int)) * p.1 + (a as int * p.1 - b as int * p.0) == 0)
            by (nonlinear_arith);
    }
    (b, -a, a * p.1 - b * p.0)
}

} // verus!
