//! Scanline flood fill: an explicit work queue of seed points, never
//! recursion.  A popped seed's row run of background pixels is filled
//! left to right, and each newly discovered background run in the rows
//! above and below contributes one new seed (tracked by span flags so a
//! run is queued only once).
//!
//! Off-buffer reads count as walls: the fill can never escape the
//! buffer or mistake the outside for background.  The fill colors
//! exactly the 4-connected background component of the seed
//! ([`reaches`]): soundness holds pixel by pixel, and completeness is
//! carried by a frontier invariant — every still-background pixel of
//! the component stays reachable from some queued seed.

use vstd::prelude::*;
use vstd::math::abs;

use std::collections::VecDeque;

use crate::color::{BLACK, WHITE};
use crate::image::Image;

verus! {

/// 4-connectivity: `a` and `b` share a horizontal or vertical edge.
pub open spec fn adjacent4(a: (int, int), b: (int, int)) -> bool {
    ||| (a.0 == b.0 && (a.1 == b.1 + 1 || a.1 == b.1 - 1))
    ||| (a.1 == b.1 && (a.0 == b.0 + 1 || a.0 == b.0 - 1))
}

/// A chain of in-bounds background pixels, each 4-adjacent to the next.
pub open spec fn white_path(img: Image, p: Seq<(int, int)>) -> bool {
    &&& forall|i: int| 0 <= i < p.len()
        ==> img.in_bounds((#[trigger] p[i]).0, p[i].1) && img.pixel(p[i].0, p[i].1) == WHITE
    &&& forall|i: int| 0 <= i < p.len() - 1 ==> adjacent4(#[trigger] p[i], p[i + 1])
}

/// Whether `(px, py)` is 4-connected to `(sx, sy)` through background
/// pixels of `img` (both endpoints included).
#[verifier::opaque]
pub open spec fn reaches(img: Image, sx: int, sy: int, px: int, py: int) -> bool {
    exists|p: Seq<(int, int)>|
        white_path(img, p) && p.len() > 0 && p.first() == (sx, sy) && p.last() == (px, py)
}

/// All pixels of row `y` between columns `a` and `b` (inclusive, in
/// either order) are in-bounds background pixels.
#[verifier::opaque]
pub open spec fn row_white_between(img: Image, y: int, a: int, b: int) -> bool {
    forall|t: int|
        #![trigger img.pixel(t, y)]
        (a <= t <= b || b <= t <= a) ==> (img.pixel(t, y) == WHITE && img.in_bounds(t, y))
}

/// Instantiates a row-whiteness fact at one column.
proof fn lemma_rwb_at(img: Image, y: int, a: int, b: int, t: int)
    requires
        row_white_between(img, y, a, b),
        a <= t <= b || b <= t <= a,
    ensures
        img.pixel(t, y) == WHITE,
        img.in_bounds(t, y),
{
    reveal(row_white_between);
    assert(img.pixel(t, y) == WHITE && img.in_bounds(t, y));
}

/// A background pixel reaches itself.
proof fn lemma_reaches_self(img: Image, sx: int, sy: int)
    requires
        img.in_bounds(sx, sy),
        img.pixel(sx, sy) == WHITE,
    ensures
        reaches(img, sx, sy, sx, sy),
{
    reveal(reaches);
    let p: Seq<(int, int)> = seq![(sx, sy)];
    assert(white_path(img, p) && p.len() > 0 && p.first() == (sx, sy) && p.last() == (sx, sy));
}

/// Reachability extends across one 4-adjacent background pixel.
proof fn lemma_reaches_step(img: Image, sx: int, sy: int, px: int, py: int, qx: int, qy: int)
    requires
        reaches(img, sx, sy, px, py),
        adjacent4((px, py), (qx, qy)),
        img.in_bounds(qx, qy),
        img.pixel(qx, qy) == WHITE,
    ensures
        reaches(img, sx, sy, qx, qy),
{
    reveal(reaches);
    let p = choose|p: Seq<(int, int)>|
        white_path(img, p) && p.len() > 0 && p.first() == (sx, sy) && p.last() == (px, py);
    let q = p.push((qx, qy));
    assert forall|i: int| 0 <= i < q.len() - 1 implies adjacent4(#[trigger] q[i], q[i + 1]) by {
        if i < p.len() - 1 {
            assert(q[i] == p[i] && q[i + 1] == p[i + 1]);
        } else {
            assert(q[i] == (px, py) && q[i + 1] == (qx, qy));
        }
    }
    assert(white_path(img, q) && q.len() > 0 && q.first() == (sx, sy) && q.last() == (qx, qy));
}

/// Reachability extends leftward along a run of background pixels in
/// one row.
proof fn lemma_reaches_run_left(img: Image, sx: int, sy: int, x: int, y: int, a: int)
    requires
        reaches(img, sx, sy, x, y),
        a <= x,
        forall|c: int| a <= c <= x ==> img.in_bounds(c, y) && img.pixel(c, y) == WHITE,
    ensures
        forall|c: int| a <= c <= x ==> reaches(img, sx, sy, c, y),
    decreases x - a,
{
    if a < x {
        lemma_reaches_step(img, sx, sy, x, y, x - 1, y);
        lemma_reaches_run_left(img, sx, sy, x - 1, y, a);
    }
}

/// A background pixel reaches every pixel row-connected to it through
/// background pixels.
proof fn lemma_reaches_row(img: Image, sx: int, y: int, c: int)
    requires
        row_white_between(img, y, sx, c),
    ensures
        reaches(img, sx, y, c, y),
    decreases abs(c - sx),
{
    lemma_rwb_at(img, y, sx, c, sx);
    if c == sx {
        lemma_reaches_self(img, sx, y);
    } else if c > sx {
        reveal(row_white_between);
        lemma_reaches_row(img, sx, y, c - 1);
        lemma_rwb_at(img, y, sx, c, c);
        lemma_reaches_step(img, sx, y, c - 1, y, c, y);
    } else {
        reveal(row_white_between);
        lemma_reaches_row(img, sx, y, c + 1);
        lemma_rwb_at(img, y, sx, c, c);
        lemma_reaches_step(img, sx, y, c + 1, y, c, y);
    }
}

/// Reachability extends along a background path suffix.
proof fn lemma_reaches_suffix(img: Image, sx: int, sy: int, p: Seq<(int, int)>, k: int)
    requires
        0 <= k < p.len(),
        reaches(img, sx, sy, p[k].0, p[k].1),
        forall|t: int| k <= t < p.len()
            ==> img.in_bounds((#[trigger] p[t]).0, p[t].1)
                && img.pixel(p[t].0, p[t].1) == WHITE,
        forall|t: int| k <= t < p.len() - 1 ==> adjacent4(#[trigger] p[t], p[t + 1]),
    ensures
        reaches(img, sx, sy, p.last().0, p.last().1),
    decreases p.len() - k,
{
    if k == p.len() - 1 {
    } else {
        lemma_reaches_step(img, sx, sy, p[k].0, p[k].1, p[k + 1].0, p[k + 1].1);
        lemma_reaches_suffix(img, sx, sy, p, k + 1);
    }
}

/// A path that meets a row segment has a last meeting point.
proof fn lemma_last_contact(p: Seq<(int, int)>, cy: int, lo: int, hi: int, j: int)
    requires
        0 <= j < p.len(),
        exists|t: int| 0 <= t <= j
            && (#[trigger] p[t]).1 == cy && lo <= p[t].0 < hi,
    ensures
        exists|m: int| 0 <= m <= j
            && (#[trigger] p[m]).1 == cy && lo <= p[m].0 < hi
            && (forall|t: int| m < t <= j
                ==> !((#[trigger] p[t]).1 == cy && lo <= p[t].0 < hi)),
    decreases j,
{
    if p[j].1 == cy && lo <= p[j].0 < hi {
        assert(forall|t: int| j < t <= j
            ==> !((#[trigger] p[t]).1 == cy && lo <= p[t].0 < hi));
    } else {
        lemma_last_contact(p, cy, lo, hi, j - 1);
        let m = choose|m: int| 0 <= m <= j - 1
            && (#[trigger] p[m]).1 == cy && lo <= p[m].0 < hi
            && (forall|t: int| m < t <= j - 1
                ==> !((#[trigger] p[t]).1 == cy && lo <= p[t].0 < hi));
        assert(forall|t: int| m < t <= j
            ==> !((#[trigger] p[t]).1 == cy && lo <= p[t].0 < hi));
    }
}

/// Background runs in one row are row-connected around any member.
proof fn lemma_rwb_extend(img: Image, y: int, a: int, c: int)
    requires
        row_white_between(img, y, a, c - 1) || (c == a),
        a <= c,
        img.in_bounds(c, y),
        img.pixel(c, y) == WHITE,
    ensures
        row_white_between(img, y, a, c),
{
    reveal(row_white_between);
}

/// A single background pixel is row-connected to itself.
proof fn lemma_rwb_single(img: Image, y: int, c: int)
    requires
        img.in_bounds(c, y),
        img.pixel(c, y) == WHITE,
    ensures
        row_white_between(img, y, c, c),
{
    reveal(row_white_between);
}

/// A reachability witness starts at a background pixel.
proof fn lemma_reaches_start_white(img: Image, sx: int, sy: int, px: int, py: int)
    requires
        reaches(img, sx, sy, px, py),
    ensures
        img.in_bounds(sx, sy),
        img.pixel(sx, sy) == WHITE,
{
    reveal(reaches);
    let p = choose|p: Seq<(int, int)>|
        white_path(img, p) && p.len() > 0 && p.first() == (sx, sy) && p.last() == (px, py);
    assert(p[0] == (sx, sy));
}

/// One pass of the scanline fill preserves frontier coverage: after a
/// popped seed's whole background run `[x1s, xe)` of row `cy` has been
/// filled (summarized by the `pre`-to-`cur` frame facts below) and one
/// seed has been queued into every background run of the adjacent rows
/// that touches it, every still-background pixel reachable from the
/// fill's seed is still reachable from some queued seed.  Any witness
/// path either avoids the filled run — then it survives unchanged — or
/// it leaves the run for the last time vertically into a queued run.
#[verifier::rlimit(100)]
#[verifier::spinoff_prover]
proof fn restore_coverage(
    orig: Image, pre: Image, cur: Image, q0: Seq<(i64, i64)>, q: Seq<(i64, i64)>,
    sx: i64, sy: i64, cx: i64, cy: i64, x1s: int, xe: int, w: i64, h: i64,
    seed_white: bool,
)
    requires
        orig.wf(),
        pre.wf(),
        cur.wf(),
        pre.same_shape(orig),
        cur.same_shape(orig),
        w == orig.width,
        h == orig.height,
        orig.in_bounds(cx as int, cy as int),
        forall|px: int, py: int|
            #![trigger pre.pixel(px, py)]
            orig.in_bounds(px, py) && pre.pixel(px, py) == WHITE
                && reaches(orig, sx as int, sy as int, px, py)
                ==> exists|i: int| 0 <= i < q0.len()
                    && reaches(pre, (#[trigger] q0[i]).0 as int, q0[i].1 as int, px, py),
        q0.len() >= 1,
        q.len() >= q0.len() - 1,
        forall|i: int| 0 <= i < q0.len() - 1 ==> q[i] == q0[i],
        q0[q0.len() - 1] == (cx, cy),
        0 <= x1s <= xe <= w,
        seed_white ==> x1s <= cx
            && (forall|c: int| x1s <= c <= cx
                ==> orig.in_bounds(c, cy as int) && pre.pixel(c, cy as int) == WHITE),
        !seed_white ==> x1s == cx + 1 && pre.pixel(cx as int, cy as int) == BLACK,
        x1s == 0 || !(orig.in_bounds(x1s - 1, cy as int)
            && pre.pixel(x1s - 1, cy as int) == WHITE),
        xe == w || !(orig.in_bounds(xe, cy as int) && cur.pixel(xe, cy as int) == WHITE),
        forall|px: int, py: int|
            #![trigger cur.pixel(px, py)]
            orig.in_bounds(px, py) && (py != cy as int || px < x1s || px >= xe)
                ==> cur.pixel(px, py) == pre.pixel(px, py),
        forall|c: int|
            #![trigger cur.pixel(c, cy as int)]
            x1s <= c < xe ==> cur.pixel(c, cy as int) == BLACK,
        forall|c: int|
            #![trigger pre.pixel(c, cy as int)]
            x1s <= c < xe ==> orig.in_bounds(c, cy as int)
                && pre.pixel(c, cy as int) == WHITE,
        cy >= 1 ==> (forall|c: int|
            #![trigger pre.pixel(c, cy as int - 1)]
            x1s <= c < xe && orig.in_bounds(c, cy as int - 1)
                && pre.pixel(c, cy as int - 1) == WHITE
                ==> exists|i: int| 0 <= i < q.len()
                    && (#[trigger] q[i]).1 == cy - 1
                    && row_white_between(pre, cy as int - 1, q[i].0 as int, c)),
        cy < h - 1 ==> (forall|c: int|
            #![trigger pre.pixel(c, cy as int + 1)]
            x1s <= c < xe && orig.in_bounds(c, cy as int + 1)
                && pre.pixel(c, cy as int + 1) == WHITE
                ==> exists|i: int| 0 <= i < q.len()
                    && (#[trigger] q[i]).1 == cy + 1
                    && row_white_between(pre, cy as int + 1, q[i].0 as int, c)),
    ensures
        forall|px: int, py: int|
            #![trigger cur.pixel(px, py)]
            orig.in_bounds(px, py) && cur.pixel(px, py) == WHITE
                && reaches(orig, sx as int, sy as int, px, py)
                ==> exists|i: int| 0 <= i < q.len()
                    && reaches(cur, (#[trigger] q[i]).0 as int, q[i].1 as int, px, py),
{
    // when the popped seed was still background, the scan passed it
    if seed_white {
        assert(cx < xe) by {
            if xe <= cx {
                assert(pre.pixel(xe, cy as int) == WHITE
                    && orig.in_bounds(xe, cy as int));
                assert(cur.pixel(xe, cy as int) == pre.pixel(xe, cy as int));
            }
        }
    }
    assert forall|px: int, py: int|
        orig.in_bounds(px, py) && #[trigger] cur.pixel(px, py) == WHITE
            && reaches(orig, sx as int, sy as int, px, py)
        implies exists|i: int| 0 <= i < q.len()
            && reaches(cur, (#[trigger] q[i]).0 as int, q[i].1 as int, px, py) by {
        // the pixel is outside the filled run, so it was background before
        assert(!(py == cy as int && x1s <= px < xe));
        assert(pre.pixel(px, py) == WHITE);
        let ki = choose|i: int| 0 <= i < q0.len()
            && reaches(pre, (#[trigger] q0[i]).0 as int, q0[i].1 as int, px, py);
        reveal(reaches);
        let p = choose|p: Seq<(int, int)>|
            white_path(pre, p) && p.len() > 0
                && p.first() == (q0[ki].0 as int, q0[ki].1 as int)
                && p.last() == (px, py);
        if exists|t: int| 0 <= t < p.len()
            && (#[trigger] p[t]).1 == cy && x1s <= p[t].0 < xe {
            // the witness path meets the filled run: follow it to the
            // last contact and re-enter from the adjacent queued run
            lemma_last_contact(p, cy as int, x1s, xe, p.len() - 1);
            let m = choose|m: int| 0 <= m <= p.len() - 1
                && (#[trigger] p[m]).1 == cy && x1s <= p[m].0 < xe
                && (forall|t: int| m < t <= p.len() - 1
                    ==> !((#[trigger] p[t]).1 == cy && x1s <= p[t].0 < xe));
            assert(p[p.len() - 1] == (px, py));
            assert(m < p.len() - 1);
            let u = p[m];
            let v = p[m + 1];
            assert(adjacent4(u, v));
            assert(pre.in_bounds(v.0, v.1) && pre.pixel(v.0, v.1) == WHITE);
            if v.1 == cy {
                // a horizontal exit is blocked by the run's boundaries
                if v.0 == u.0 + 1 {
                    assert(v.0 == xe);
                    assert(cur.pixel(xe, cy as int) == pre.pixel(xe, cy as int));
                    assert(false);
                } else {
                    assert(v.0 == x1s - 1);
                    assert(false);
                }
            } else {
                let vy: int = v.1;
                assert(vy == cy - 1 || vy == cy + 1);
                assert(0 <= vy < h);
                let wi = choose|i: int| 0 <= i < q.len()
                    && (#[trigger] q[i]).1 == (if vy == cy - 1 { cy - 1 } else { cy + 1 })
                    && row_white_between(pre, vy, q[i].0 as int, u.0);
                let swx: int = q[wi].0 as int;
                // the adjacent row is untouched, so the queued run is
                // still background
                assert(row_white_between(cur, vy, swx, u.0)) by {
                    reveal(row_white_between);
                    assert forall|t: int| swx <= t <= u.0 || u.0 <= t <= swx
                        implies cur.pixel(t, vy) == WHITE && cur.in_bounds(t, vy) by {
                        lemma_rwb_at(pre, vy, swx, u.0, t);
                    }
                }
                lemma_reaches_row(cur, swx, vy, u.0);
                assert(reaches(cur, swx, vy, v.0, v.1));
                assert forall|t: int| m + 1 <= t < p.len()
                    implies cur.in_bounds((#[trigger] p[t]).0, p[t].1)
                        && cur.pixel(p[t].0, p[t].1) == WHITE by {
                    assert(cur.pixel(p[t].0, p[t].1) == pre.pixel(p[t].0, p[t].1));
                }
                lemma_reaches_suffix(cur, swx, vy, p, m + 1);
            }
        } else {
            // the witness path avoids the filled run entirely, so it is
            // still a background path; its seed cannot be the popped one
            assert(ki < q0.len() - 1) by {
                if ki == q0.len() - 1 {
                    assert(p[0] == (cx as int, cy as int));
                    assert(pre.pixel(cx as int, cy as int) == WHITE);
                    assert(x1s <= cx < xe);
                    assert(false);
                }
            }
            assert(q[ki] == q0[ki]);
            assert forall|t: int| 0 <= t < p.len()
                implies cur.in_bounds((#[trigger] p[t]).0, p[t].1)
                    && cur.pixel(p[t].0, p[t].1) == WHITE by {
                assert(cur.pixel(p[t].0, p[t].1) == pre.pixel(p[t].0, p[t].1));
            }
            assert(white_path(cur, p));
        }
    }
}

/// How many pixels of the store still hold the background sentinel.
pub closed spec fn count_white(s: Seq<u32>) -> nat
    decreases s.len(),
{
    if s.len() == 0 {
        0
    } else {
        count_white(s.drop_last()) + (if s.last() == WHITE { 1nat } else { 0nat })
    }
}

/// Overwriting a background pixel with anything else lowers the
/// background count by one.
proof fn lemma_count_white_update(s: Seq<u32>, i: int, v: u32)
    requires
        0 <= i < s.len(),
        s[i] == WHITE,
        v != WHITE,
    ensures
        count_white(s.update(i, v)) + 1 == count_white(s),
    decreases s.len(),
{
    let t = s.update(i, v);
    if i == s.len() - 1 {
        assert(t.drop_last() =~= s.drop_last());
    } else {
        assert(t.drop_last() =~= s.drop_last().update(i, v));
        lemma_count_white_update(s.drop_last(), i, v);
        assert(t.last() == s.last());
    }
}

impl Image {
    /// Whether `(x, y)` is an in-bounds background pixel.
    fn is_white(&self, x: i64, y: i64) -> (r: bool)
        requires
            self.wf(),
        ensures
            r == (self.in_bounds(x as int, y as int)
                && self.pixel(x as int, y as int) == WHITE),
    {
        match self.get(x, y) {
            Some(c) => c == WHITE,
            None => false,
        }
    }

    /// Flood-fills with the foreground sentinel, starting at `(x, y)`.
    ///
    /// A seed that is not an in-bounds background pixel leaves the
    /// buffer untouched (filling an already-filled region is a no-op).
    /// Otherwise the fill colors exactly the 4-connected background
    /// region of the seed: every changed pixel was a background pixel
    /// reachable from the seed through background pixels, and every
    /// such reachable pixel is foreground afterwards.
    #[verifier::rlimit(100)]
    #[verifier::spinoff_prover]
    pub fn flood_fill(&mut self, x: i64, y: i64)
        requires
            old(self).wf(),
        ensures
            final(self).wf(),
            final(self).same_shape(*old(self)),
            !(old(self).in_bounds(x as int, y as int)
                && old(self).pixel(x as int, y as int) == WHITE)
                ==> *final(self) == *old(self),
            old(self).in_bounds(x as int, y as int)
                && old(self).pixel(x as int, y as int) == WHITE
                ==> final(self).pixel(x as int, y as int) == BLACK,
            forall|px: int, py: int| old(self).in_bounds(px, py)
                ==> final(self).pixel(px, py) == old(self).pixel(px, py)
                    || (old(self).pixel(px, py) == WHITE
                        && final(self).pixel(px, py) == BLACK
                        && reaches(*old(self), x as int, y as int, px, py)),
            forall|px: int, py: int|
                #![trigger final(self).pixel(px, py)]
                old(self).in_bounds(px, py) && old(self).pixel(px, py) == WHITE
                    && reaches(*old(self), x as int, y as int, px, py)
                    ==> final(self).pixel(px, py) == BLACK,
            forall|c: int|
                #![trigger final(self).pixel(c, y as int)]
                row_white_between(*old(self), y as int, x as int, c)
                    ==> final(self).pixel(c, y as int) == BLACK,
    {
        if !self.is_white(x, y) {
            proof {
                assert forall|px: int, py: int|
                    #![trigger self.pixel(px, py)]
                    old(self).in_bounds(px, py) && old(self).pixel(px, py) == WHITE
                        && reaches(*old(self), x as int, y as int, px, py)
                    implies self.pixel(px, py) == BLACK by {
                    lemma_reaches_start_white(*old(self), x as int, y as int, px, py);
                    assert(false);
                }
                assert forall|c: int|
                    #![trigger self.pixel(c, y as int)]
                    row_white_between(*old(self), y as int, x as int, c)
                    implies self.pixel(c, y as int) == BLACK by {
                    lemma_rwb_at(*old(self), y as int, x as int, c, x as int);
                    assert(false);
                }
            }
            return;
        }

        let w = self.width as i64;
        let h = self.height as i64;
        let mut span_above: bool;
        let mut span_below: bool;

        let mut s: VecDeque<(i64, i64)> = VecDeque::new();
        s.push_back((x, y));
        proof {
            lemma_reaches_self(*old(self), x as int, y as int);
            assert(s@.len() == 1 && s@[0] == (x, y));
        }
        while s.len() > 0
            invariant
                self.wf(),
                old(self).wf(),
                self.same_shape(*old(self)),
                w == self.width,
                h == self.height,
                old(self).in_bounds(x as int, y as int),
                old(self).pixel(x as int, y as int) == WHITE,
                forall|px: int, py: int| old(self).in_bounds(px, py)
                    ==> self.pixel(px, py) == old(self).pixel(px, py)
                        || (old(self).pixel(px, py) == WHITE
                            && self.pixel(px, py) == BLACK
                            && reaches(*old(self), x as int, y as int, px, py)),
                forall|i: int| 0 <= i < s@.len()
                    ==> old(self).in_bounds((#[trigger] s@[i]).0 as int, s@[i].1 as int)
                        && old(self).pixel(s@[i].0 as int, s@[i].1 as int) == WHITE
                        && reaches(*old(self), x as int, y as int,
                            s@[i].0 as int, s@[i].1 as int),
                forall|px: int, py: int|
                    #![trigger self.pixel(px, py)]
                    old(self).in_bounds(px, py) && self.pixel(px, py) == WHITE
                        && reaches(*old(self), x as int, y as int, px, py)
                        ==> exists|i: int| 0 <= i < s@.len()
                            && reaches(*self, (#[trigger] s@[i]).0 as int,
                                s@[i].1 as int, px, py),
            decreases 3 * count_white(self.bytes@) + s@.len(),
        {
            let ghost q0: Seq<(i64, i64)> = s@;
            let (cx, cy) = s.pop_back().unwrap();
            let ghost m0: int = 3 * count_white(self.bytes@) as int + s@.len();
            let ghost seed_white = self.pixel(cx as int, cy as int) == WHITE;
            let ghost pre: Image = *self;
            proof {
                if !seed_white {
                    assert(self.pixel(cx as int, cy as int) == BLACK);
                }
            }
            let mut x1 = cx;
            while x1 >= 0 && self.is_white(x1, cy)
                invariant
                    self.wf(),
                    old(self).in_bounds(cx as int, cy as int),
                    -1 <= x1 <= cx,
                    seed_white == (self.pixel(cx as int, cy as int) == WHITE),
                    forall|c: int| x1 < c <= cx
                        ==> self.in_bounds(c, cy as int) && self.pixel(c, cy as int) == WHITE,
                    !seed_white ==> x1 == cx,
                decreases x1 + 1,
            {
                x1 -= 1;
            }
            x1 += 1;
            proof {
                // the left scan did not touch the buffer
                assert(*self == pre);
                assert(x1 == 0 || !(old(self).in_bounds(x1 as int - 1, cy as int)
                    && pre.pixel(x1 as int - 1, cy as int) == WHITE));
                if seed_white {
                    assert(forall|c: int| x1 <= c <= cx
                        ==> old(self).in_bounds(c, cy as int)
                            && pre.pixel(c, cy as int) == WHITE);
                } else {
                    assert(x1 == cx + 1);
                }
            }
            span_above = false;
            span_below = false;
            let ghost x1s: int = x1 as int;
            let ghost mut sa_x: int = 0;
            let ghost mut sb_x: int = 0;
            while x1 < w && self.is_white(x1, cy)
                invariant
                    self.wf(),
                    self.same_shape(*old(self)),
                    pre.wf(),
                    pre.same_shape(*old(self)),
                    w == self.width,
                    h == self.height,
                    old(self).in_bounds(x as int, y as int),
                    old(self).pixel(x as int, y as int) == WHITE,
                    old(self).in_bounds(cx as int, cy as int),
                    old(self).pixel(cx as int, cy as int) == WHITE,
                    reaches(*old(self), x as int, y as int, cx as int, cy as int),
                    x1s <= x1 <= w,
                    0 <= x1s,
                    x1 > x1s ==> reaches(*old(self), x as int, y as int,
                        x1 as int - 1, cy as int),
                    x1 == x1s ==> x1s == cx + 1
                        || (seed_white && forall|c: int| x1s <= c <= cx
                            ==> self.in_bounds(c, cy as int)
                                && self.pixel(c, cy as int) == WHITE),
                    x1s == cx + 1 || x1s <= cx,
                    seed_white || x1s == cx + 1,
                    forall|px: int, py: int| old(self).in_bounds(px, py)
                        ==> self.pixel(px, py) == old(self).pixel(px, py)
                            || (old(self).pixel(px, py) == WHITE
                                && self.pixel(px, py) == BLACK
                                && reaches(*old(self), x as int, y as int, px, py)),
                    forall|i: int| 0 <= i < s@.len()
                        ==> old(self).in_bounds((#[trigger] s@[i]).0 as int, s@[i].1 as int)
                            && old(self).pixel(s@[i].0 as int, s@[i].1 as int) == WHITE
                            && reaches(*old(self), x as int, y as int,
                                s@[i].0 as int, s@[i].1 as int),
                    q0.len() >= 1,
                    s@.len() >= q0.len() - 1,
                    forall|i: int| 0 <= i < q0.len() - 1 ==> s@[i] == q0[i],
                    forall|px: int, py: int|
                        #![trigger self.pixel(px, py)]
                        old(self).in_bounds(px, py)
                            && (py != cy as int || px < x1s || px >= x1)
                            ==> self.pixel(px, py) == pre.pixel(px, py),
                    forall|c: int|
                        #![trigger self.pixel(c, cy as int)]
                        x1s <= c < x1 ==> self.pixel(c, cy as int) == BLACK,
                    forall|c: int|
                        #![trigger pre.pixel(c, cy as int)]
                        x1s <= c < x1 ==> old(self).in_bounds(c, cy as int)
                            && pre.pixel(c, cy as int) == WHITE,
                    cy >= 1 ==> (forall|c: int|
                        #![trigger pre.pixel(c, cy as int - 1)]
                        x1s <= c < x1 && old(self).in_bounds(c, cy as int - 1)
                            && pre.pixel(c, cy as int - 1) == WHITE
                            ==> exists|i: int| 0 <= i < s@.len()
                                && (#[trigger] s@[i]).1 == cy - 1
                                && row_white_between(pre, cy as int - 1,
                                    s@[i].0 as int, c)),
                    cy < h - 1 ==> (forall|c: int|
                        #![trigger pre.pixel(c, cy as int + 1)]
                        x1s <= c < x1 && old(self).in_bounds(c, cy as int + 1)
                            && pre.pixel(c, cy as int + 1) == WHITE
                            ==> exists|i: int| 0 <= i < s@.len()
                                && (#[trigger] s@[i]).1 == cy + 1
                                && row_white_between(pre, cy as int + 1,
                                    s@[i].0 as int, c)),
                    span_above ==> cy >= 1 && x1 > x1s && x1s <= sa_x && sa_x < x1
                        && (exists|i: int| 0 <= i < s@.len()
                            && (#[trigger] s@[i]).0 as int == sa_x && s@[i].1 == cy - 1)
                        && row_white_between(pre, cy as int - 1, sa_x, x1 as int - 1),
                    span_below ==> cy < h - 1 && x1 > x1s && x1s <= sb_x && sb_x < x1
                        && (exists|i: int| 0 <= i < s@.len()
                            && (#[trigger] s@[i]).0 as int == sb_x && s@[i].1 == cy + 1)
                        && row_white_between(pre, cy as int + 1, sb_x, x1 as int - 1),
                    3 * count_white(self.bytes@) as int + s@.len() <= m0
                        - (if x1 > x1s { 1int } else { 0int }),
                decreases w - x1,
            {
                let ghost qh: Seq<(i64, i64)> = s@;
                let ghost spanh_a: bool = span_above;
                let ghost spanh_b: bool = span_below;
                proof {
                    // the pixel about to be filled is background now, hence
                    // background originally, and reachable from the seed
                    if x1 == x1s {
                        if x1s == cx + 1 {
                            lemma_reaches_step(*old(self), x as int, y as int,
                                cx as int, cy as int, x1 as int, cy as int);
                        } else {
                            lemma_reaches_run_left(*old(self), x as int, y as int,
                                cx as int, cy as int, x1s);
                        }
                    } else {
                        lemma_reaches_step(*old(self), x as int, y as int,
                            x1 as int - 1, cy as int, x1 as int, cy as int);
                    }
                    assert(reaches(*old(self), x as int, y as int, x1 as int, cy as int));
                    assert(self.pixel(x1 as int, cy as int)
                        == pre.pixel(x1 as int, cy as int));
                    crate::image::lemma_rowmajor_in_range(self.width as int,
                        self.height as int, x1 as int, cy as int);
                    lemma_count_white_update(self.bytes@,
                        cy as int * self.width + x1 as int, BLACK);
                }
                self.plot(x1, cy);
                if cy > 0 && !span_above && self.is_white(x1, cy - 1) {
                    proof {
                        lemma_reaches_step(*old(self), x as int, y as int,
                            x1 as int, cy as int, x1 as int, cy as int - 1);
                        assert(self.pixel(x1 as int, cy as int - 1)
                            == pre.pixel(x1 as int, cy as int - 1));
                    }
                    s.push_back((x1, cy - 1));
                    span_above = true;
                    proof {
                        sa_x = x1 as int;
                        assert(s@[s@.len() - 1].0 == x1 && s@[s@.len() - 1].1 == cy - 1);
                        lemma_rwb_single(pre, cy as int - 1, x1 as int);
                    }
                } else if cy > 0 && span_above && !self.is_white(x1, cy - 1) {
                    span_above = false;
                }
                let ghost qa: Seq<(i64, i64)> = s@;
                if cy < h - 1 && !span_below && self.is_white(x1, cy + 1) {
                    proof {
                        lemma_reaches_step(*old(self), x as int, y as int,
                            x1 as int, cy as int, x1 as int, cy as int + 1);
                        assert(self.pixel(x1 as int, cy as int + 1)
                            == pre.pixel(x1 as int, cy as int + 1));
                    }
                    s.push_back((x1, cy + 1));
                    span_below = true;
                    proof {
                        sb_x = x1 as int;
                        assert(s@[s@.len() - 1].0 == x1 && s@[s@.len() - 1].1 == cy + 1);
                        lemma_rwb_single(pre, cy as int + 1, x1 as int);
                    }
                } else if cy < h - 1 && span_below && !self.is_white(x1, cy + 1) {
                    span_below = false;
                }
                x1 += 1;
                proof {
                    let cc: int = x1 as int - 1;
                    // the span seeds are still queued: appends leave every
                    // existing element in place
                    if span_above {
                        assert(self.pixel(cc, cy as int - 1)
                            == pre.pixel(cc, cy as int - 1));
                        if spanh_a {
                            let wi = choose|i: int| 0 <= i < qh.len()
                                && (#[trigger] qh[i]).0 as int == sa_x
                                && qh[i].1 == cy - 1;
                            assert(qa[wi] == qh[wi]);
                            assert(s@[wi] == qa[wi]);
                        } else {
                            let wi = choose|i: int| 0 <= i < qa.len()
                                && (#[trigger] qa[i]).0 as int == sa_x
                                && qa[i].1 == cy - 1;
                            assert(s@[wi] == qa[wi]);
                        }
                        assert(exists|i: int| 0 <= i < s@.len()
                            && (#[trigger] s@[i]).0 as int == sa_x && s@[i].1 == cy - 1);
                        lemma_rwb_extend(pre, cy as int - 1, sa_x, cc);
                    }
                    if span_below {
                        assert(self.pixel(cc, cy as int + 1)
                            == pre.pixel(cc, cy as int + 1));
                        if spanh_b {
                            let wi = choose|i: int| 0 <= i < qh.len()
                                && (#[trigger] qh[i]).0 as int == sb_x
                                && qh[i].1 == cy + 1;
                            assert(qa[wi] == qh[wi]);
                            assert(s@[wi] == qa[wi]);
                        }
                        assert(exists|i: int| 0 <= i < s@.len()
                            && (#[trigger] s@[i]).0 as int == sb_x && s@[i].1 == cy + 1);
                        lemma_rwb_extend(pre, cy as int + 1, sb_x, cc);
                    }
                    if cy >= 1 {
                        assert forall|c: int|
                            x1s <= c < x1 && old(self).in_bounds(c, cy as int - 1)
                                && #[trigger] pre.pixel(c, cy as int - 1) == WHITE
                            implies exists|i: int| 0 <= i < s@.len()
                                && (#[trigger] s@[i]).1 == cy - 1
                                && row_white_between(pre, cy as int - 1,
                                    s@[i].0 as int, c) by {
                            if c == cc {
                                assert(self.pixel(cc, cy as int - 1)
                                    == pre.pixel(cc, cy as int - 1));
                                assert(span_above);
                            } else {
                                let wi = choose|i: int| 0 <= i < qh.len()
                                    && (#[trigger] qh[i]).1 == cy - 1
                                    && row_white_between(pre, cy as int - 1,
                                        qh[i].0 as int, c);
                                assert(qa[wi] == qh[wi]);
                                assert(s@[wi] == qa[wi]);
                            }
                        }
                    }
                    if cy < h - 1 {
                        assert forall|c: int|
                            x1s <= c < x1 && old(self).in_bounds(c, cy as int + 1)
                                && #[trigger] pre.pixel(c, cy as int + 1) == WHITE
                            implies exists|i: int| 0 <= i < s@.len()
                                && (#[trigger] s@[i]).1 == cy + 1
                                && row_white_between(pre, cy as int + 1,
                                    s@[i].0 as int, c) by {
                            if c == cc {
                                assert(self.pixel(cc, cy as int + 1)
                                    == pre.pixel(cc, cy as int + 1));
                                assert(span_below);
                            } else {
                                let wi = choose|i: int| 0 <= i < qh.len()
                                    && (#[trigger] qh[i]).1 == cy + 1
                                    && row_white_between(pre, cy as int + 1,
                                        qh[i].0 as int, c);
                                assert(qa[wi] == qh[wi]);
                                assert(s@[wi] == qa[wi]);
                            }
                        }
                    }
                }
            }
            proof {
                restore_coverage(*old(self), pre, *self, q0, s@, x, y,
                    cx, cy, x1s, x1 as int, w, h, seed_white);
            }
        }
        proof {
            assert forall|px: int, py: int|
                #![trigger self.pixel(px, py)]
                old(self).in_bounds(px, py) && old(self).pixel(px, py) == WHITE
                    && reaches(*old(self), x as int, y as int, px, py)
                implies self.pixel(px, py) == BLACK by {
                if self.pixel(px, py) != BLACK {
                    assert(self.pixel(px, py) == WHITE);
                }
            }
            assert forall|c: int|
                #![trigger self.pixel(c, y as int)]
                row_white_between(*old(self), y as int, x as int, c)
                implies self.pixel(c, y as int) == BLACK by {
                lemma_rwb_at(*old(self), y as int, x as int, c, c);
                lemma_reaches_row(*old(self), x as int, y as int, c);
            }
            lemma_rwb_single(*old(self), y as int, x as int);
        }
    }
}

} // verus!
