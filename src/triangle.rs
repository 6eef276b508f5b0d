//! Triangle scan conversion: the grid points of a bounding box, scanned row by
//! row, that the triangle covers by their barycentric weights.

use vstd::prelude::*;

use crate::math::{Vec2, Extent2, keep, min3, max3};
use crate::barycentric::{Barycentric, barycentric, bary_weights, covers};

verus! {

/// The grid points of the box with columns `min_x..=max_x` and rows up to
/// `max_y`, from `(x, y)` on, in row-major order (x fastest).
pub open spec fn scan_from(x: int, y: int, min_x: int, max_x: int, max_y: int) -> Seq<(int, int)>
    decreases max_y - y + 1, max_x - x + 1,
{
    if y > max_y || min_x > max_x {
        Seq::empty()
    } else if x > max_x {
        scan_from(min_x, y + 1, min_x, max_x, max_y)
    } else {
        seq![(x, y)] + scan_from(x + 1, y, min_x, max_x, max_y)
    }
}

/// Whether the triangle `pts` covers grid point `q` (boundary included).
pub open spec fn covered_by(pts: [Vec2; 3]) -> spec_fn((int, int)) -> bool {
    |q: (int, int)| covers(bary_weights(q, pts[0]@, pts[1]@, pts[2]@))
}

/// Lower end of the scanned range along one axis: the least vertex coordinate,
/// clamped to `0..=last`.
pub open spec fn box_lo(a: int, b: int, c: int, last: int) -> int {
    let m = if min3(a, b, c) < last {
        min3(a, b, c)
    } else {
        last
    };
    if m < 0 {
        0
    } else {
        m
    }
}

/// Upper end of the scanned range along one axis: the greatest vertex
/// coordinate, clamped to `0..=last`.
pub open spec fn box_hi(a: int, b: int, c: int, last: int) -> int {
    let m = if max3(a, b, c) > 0 {
        max3(a, b, c)
    } else {
        0
    };
    if m < last {
        m
    } else {
        last
    }
}

/// The grid points that the rasterizer yields for triangle `pts` on a
/// `size.w` by `size.h` grid: the points of the triangle's bounding box, clipped
/// to the grid, that the triangle covers, in row-major order.
pub open spec fn raster_points(pts: [Vec2; 3], size: Extent2) -> Seq<(int, int)> {
    let lx = box_lo(pts[0].x as int, pts[1].x as int, pts[2].x as int, size.w - 1);
    let hx = box_hi(pts[0].x as int, pts[1].x as int, pts[2].x as int, size.w - 1);
    let ly = box_lo(pts[0].y as int, pts[1].y as int, pts[2].y as int, size.h - 1);
    let hy = box_hi(pts[0].y as int, pts[1].y as int, pts[2].y as int, size.h - 1);
    keep(scan_from(lx, ly, lx, hx, hy), covered_by(pts))
}

/// The grid points that the unbounded rasterizer yields for triangle `pts`:
/// the points of the corners' bounding box that the triangle covers, in
/// row-major order.
pub open spec fn triangle_points(pts: [Vec2; 3]) -> Seq<(int, int)> {
    let lx = min3(pts[0].x as int, pts[1].x as int, pts[2].x as int);
    let hx = max3(pts[0].x as int, pts[1].x as int, pts[2].x as int);
    let ly = min3(pts[0].y as int, pts[1].y as int, pts[2].y as int);
    let hy = max3(pts[0].y as int, pts[1].y as int, pts[2].y as int);
    keep(scan_from(lx, ly, lx, hx, hy), covered_by(pts))
}

/// Row-major order on grid points: `p` comes strictly before `q`.
pub open spec fn scan_before(p: (int, int), q: (int, int)) -> bool {
    p.1 < q.1 || (p.1 == q.1 && p.0 < q.0)
}

/// A box scan holds exactly the points of the box from `(x, y)` on, each once.
proof fn lemma_scan_from(x: int, y: int, min_x: int, max_x: int, max_y: int, q: (int, int))
    requires
        min_x <= x <= max_x + 1,
    ensures
        scan_from(x, y, min_x, max_x, max_y).contains(q) <==> (min_x <= q.0 <= max_x && q.1
            <= max_y && !scan_before(q, (x, y))),
        scan_from(x, y, min_x, max_x, max_y).no_duplicates(),
    decreases max_y - y + 1, max_x - x + 1,
{
    let s = scan_from(x, y, min_x, max_x, max_y);
    if y > max_y || min_x > max_x {
    } else if x > max_x {
        lemma_scan_from(min_x, y + 1, min_x, max_x, max_y, q);
    } else {
        let t = scan_from(x + 1, y, min_x, max_x, max_y);
        lemma_scan_from(x + 1, y, min_x, max_x, max_y, q);
        lemma_scan_from(x + 1, y, min_x, max_x, max_y, (x, y));
        assert(s.drop_first() =~= t);
        crate::math::lemma_contains_split(s, q);
        assert forall|i: int, j: int| 0 <= i < s.len() && 0 <= j < s.len() && i != j implies s[i]
            != s[j] by {
            if i == 0 {
                assert(s[j] == t[j - 1]);
            } else if j == 0 {
                assert(s[i] == t[i - 1]);
            } else {
                assert(s[i] == t[i - 1] && s[j] == t[j - 1]);
            }
        }
    }
}

/// A weighted average of three values with non-negative weights lies between
/// their least and greatest: `den * min3 <= u a + v b + w c <= den * max3`.
proof fn lemma_average_between(u: int, v: int, w: int, den: int, a: int, b: int, c: int, t: int)
    requires
        u >= 0,
        v >= 0,
        w >= 0,
        den > 0,
        u + v + w == den,
        den * t == u * a + v * b + w * c,
    ensures
        min3(a, b, c) <= t <= max3(a, b, c),
{
    let lo = min3(a, b, c);
    let hi = max3(a, b, c);
    assert(den * lo <= den * t <= den * hi) by (nonlinear_arith)
        requires
            u >= 0,
            v >= 0,
            w >= 0,
            u + v + w == den,
            den * t == u * a + v * b + w * c,
            lo <= a,
            lo <= b,
            lo <= c,
            a <= hi,
            b <= hi,
            c <= hi,
    ;
    assert(lo <= t <= hi) by (nonlinear_arith)
        requires
            den > 0,
            den * lo <= den * t <= den * hi,
    ;
}

/// The rasterizer yields each point at most once, and yields exactly the points
/// of the grid that the triangle covers.
pub proof fn lemma_raster_points(pts: [Vec2; 3], size: Extent2, q: (int, int))
    ensures
        raster_points(pts, size).no_duplicates(),
        raster_points(pts, size).contains(q) <==> (size.contains(q) && covered_by(pts)(q)),
{
    let (ax, bx, cx) = (pts[0].x as int, pts[1].x as int, pts[2].x as int);
    let (ay, by, cy) = (pts[0].y as int, pts[1].y as int, pts[2].y as int);
    let lx = box_lo(ax, bx, cx, size.w - 1);
    let hx = box_hi(ax, bx, cx, size.w - 1);
    let ly = box_lo(ay, by, cy, size.h - 1);
    let hy = box_hi(ay, by, cy, size.h - 1);
    let s = scan_from(lx, ly, lx, hx, hy);
    let f = covered_by(pts);
    if lx <= hx {
        lemma_scan_from(lx, ly, lx, hx, hy, q);
    }
    crate::math::lemma_keep_no_duplicates(s, f);
    crate::math::lemma_keep_contains(s, f, q);
    if f(q) {
        let wt = bary_weights(q, pts[0]@, pts[1]@, pts[2]@);
        crate::barycentric::lemma_weights_locate(q, pts[0]@, pts[1]@, pts[2]@);
        lemma_average_between(wt.0, wt.1, wt.2, wt.3, ax, bx, cx, q.0);
        lemma_average_between(wt.0, wt.1, wt.2, wt.3, ay, by, cy, q.1);
    }
}

/// The unbounded rasterizer yields each point at most once, and yields exactly
/// the grid points that the triangle covers.
pub proof fn lemma_triangle_points(pts: [Vec2; 3], q: (int, int))
    ensures
        triangle_points(pts).no_duplicates(),
        triangle_points(pts).contains(q) <==> covered_by(pts)(q),
{
    let (ax, bx, cx) = (pts[0].x as int, pts[1].x as int, pts[2].x as int);
    let (ay, by, cy) = (pts[0].y as int, pts[1].y as int, pts[2].y as int);
    let lx = min3(ax, bx, cx);
    let hx = max3(ax, bx, cx);
    let ly = min3(ay, by, cy);
    let hy = max3(ay, by, cy);
    let s = scan_from(lx, ly, lx, hx, hy);
    let f = covered_by(pts);
    lemma_scan_from(lx, ly, lx, hx, hy, q);
    crate::math::lemma_keep_no_duplicates(s, f);
    crate::math::lemma_keep_contains(s, f, q);
    if f(q) {
        let wt = bary_weights(q, pts[0]@, pts[1]@, pts[2]@);
        crate::barycentric::lemma_weights_locate(q, pts[0]@, pts[1]@, pts[2]@);
        lemma_average_between(wt.0, wt.1, wt.2, wt.3, ax, bx, cx, q.0);
        lemma_average_between(wt.0, wt.1, wt.2, wt.3, ay, by, cy, q.1);
    }
}

/// Yields the grid points covered by a triangle, each with its barycentric
/// weights, scanning the triangle's bounding box row by row.
pub struct Triangle {
    cur_x: i64,
    cur_y: i64,
    /// the triangle's corners
    pts: [Vec2; 3],
    /// the box to scan, inclusive
    min_x: i64,
    min_y: i64,
    max_x: i64,
    max_y: i64,
}

/// The lowest of three coordinates, clamped to `0..=last`.
fn clamp_lo(a: i32, b: i32, c: i32, last: i64) -> (r: i64)
    requires
        last <= i32::MAX,
    ensures
        r == box_lo(a as int, b as int, c as int, last as int),
{
    let mut m = a as i64;
    if (b as i64) < m {
        m = b as i64;
    }
    if (c as i64) < m {
        m = c as i64;
    }
    if last < m {
        m = last;
    }
    if m < 0 {
        0
    } else {
        m
    }
}

/// The highest of three coordinates, clamped to `0..=last`.
fn clamp_hi(a: i32, b: i32, c: i32, last: i64) -> (r: i64)
    requires
        last <= i32::MAX,
    ensures
        r == box_hi(a as int, b as int, c as int, last as int),
{
    let mut m = a as i64;
    if (b as i64) > m {
        m = b as i64;
    }
    if (c as i64) > m {
        m = c as i64;
    }
    if m < 0 {
        m = 0;
    }
    if m < last {
        m
    } else {
        last
    }
}

/// The least of three coordinates.
fn least(a: i32, b: i32, c: i32) -> (r: i64)
    ensures
        r == min3(a as int, b as int, c as int),
{
    let mut m = a as i64;
    if (b as i64) < m {
        m = b as i64;
    }
    if (c as i64) < m {
        m = c as i64;
    }
    m
}

/// The greatest of three coordinates.
fn greatest(a: i32, b: i32, c: i32) -> (r: i64)
    ensures
        r == max3(a as int, b as int, c as int),
{
    let mut m = a as i64;
    if (b as i64) > m {
        m = b as i64;
    }
    if (c as i64) > m {
        m = c as i64;
    }
    m
}

/// The last usable grid coordinate along an axis of `n` points. Coordinates of
/// an `i32` point never exceed `i32::MAX`, so larger grids behave alike.
fn last_index(n: usize) -> (r: i64)
    ensures
        r <= i32::MAX,
        r == n - 1 || (n - 1 > i32::MAX && r == i32::MAX),
{
    if n > 0x8000_0000usize {
        0x7fff_ffff
    } else {
        n as i64 - 1
    }
}

impl Triangle {
    /// The internal state is consistent.
    pub closed spec fn wf(&self) -> bool {
        &&& i32::MIN <= self.min_x
        &&& self.max_x <= i32::MAX
        &&& i32::MIN <= self.min_y
        &&& self.max_y <= i32::MAX
        &&& self.cur_y <= self.max_y + 1
        &&& self.cur_y <= self.max_y ==> self.min_x <= self.cur_x <= self.max_x && self.min_y
            <= self.cur_y
    }

    /// The triangle's corners.
    pub closed spec fn corners(&self) -> [Vec2; 3] {
        self.pts
    }

    /// The points that the remaining calls of `next` yield, in order.
    pub closed spec fn remaining(&self) -> Seq<(int, int)> {
        keep(
            scan_from(
                self.cur_x as int,
                self.cur_y as int,
                self.min_x as int,
                self.max_x as int,
                self.max_y as int,
            ),
            covered_by(self.pts),
        )
    }

    /// The points of the grid `size` (anchored at the origin, `size` exclusive)
    /// that the triangle `pts` covers, in row-major order.
    pub fn new_bounded(pts: [Vec2; 3], size: Extent2) -> (r: Triangle)
        ensures
            r.wf(),
            r.corners() == pts,
            r.remaining() == raster_points(pts, size),
    {
        let lw = last_index(size.w);
        let lh = last_index(size.h);
        let min_x = clamp_lo(pts[0].x, pts[1].x, pts[2].x, lw);
        let max_x = clamp_hi(pts[0].x, pts[1].x, pts[2].x, lw);
        let min_y = clamp_lo(pts[0].y, pts[1].y, pts[2].y, lh);
        let max_y = clamp_hi(pts[0].y, pts[1].y, pts[2].y, lh);
        proof {
            let (ax, bx, cx) = (pts[0].x as int, pts[1].x as int, pts[2].x as int);
            let (ay, by, cy) = (pts[0].y as int, pts[1].y as int, pts[2].y as int);
            assert(box_lo(ax, bx, cx, lw as int) == box_lo(ax, bx, cx, size.w - 1));
            assert(box_hi(ax, bx, cx, lw as int) == box_hi(ax, bx, cx, size.w - 1));
            assert(box_lo(ay, by, cy, lh as int) == box_lo(ay, by, cy, size.h - 1));
            assert(box_hi(ay, by, cy, lh as int) == box_hi(ay, by, cy, size.h - 1));
        }
        // an empty column range leaves nothing to scan
        let cur_y = if min_x > max_x {
            max_y + 1
        } else {
            min_y
        };
        Triangle { cur_x: min_x, cur_y, pts, min_x, min_y, max_x, max_y }
    }

    /// Every grid point that the triangle `pts` covers, in row-major order,
    /// scanning the corners' whole bounding box.
    pub fn new(pts: [Vec2; 3]) -> (r: Triangle)
        ensures
            r.wf(),
            r.corners() == pts,
            r.remaining() == triangle_points(pts),
    {
        let min_x = least(pts[0].x, pts[1].x, pts[2].x);
        let max_x = greatest(pts[0].x, pts[1].x, pts[2].x);
        let min_y = least(pts[0].y, pts[1].y, pts[2].y);
        let max_y = greatest(pts[0].y, pts[1].y, pts[2].y);
        Triangle { cur_x: min_x, cur_y: min_y, pts, min_x, min_y, max_x, max_y }
    }

    /// The next covered point with its barycentric weights, or `None` once the
    /// box has been scanned.
    pub fn next(&mut self) -> (r: Option<(Vec2, Barycentric)>)
        requires
            old(self).wf(),
        ensures
            final(self).wf(),
            final(self).corners() == old(self).corners(),
            old(self).remaining().len() == 0 ==> r.is_none() && final(self).remaining().len() == 0,
            old(self).remaining().len() > 0 ==> r.is_some() && r.unwrap().0@
                == old(self).remaining()[0] && r.unwrap().1@ == bary_weights(
                r.unwrap().0@,
                old(self).corners()[0]@,
                old(self).corners()[1]@,
                old(self).corners()[2]@,
            ) && final(self).remaining() == old(self).remaining().drop_first(),
    {
        while self.cur_y <= self.max_y
            invariant
                self.wf(),
                self.pts == old(self).pts,
                self.remaining() == old(self).remaining(),
            decreases self.max_y - self.cur_y + 1, self.max_x - self.cur_x + 1,
        {
            let p = Vec2 { x: self.cur_x as i32, y: self.cur_y as i32 };
            let b = barycentric(p, self.pts);
            let ghost s = scan_from(
                self.cur_x as int,
                self.cur_y as int,
                self.min_x as int,
                self.max_x as int,
                self.max_y as int,
            );
            let ghost t = scan_from(
                self.cur_x + 1,
                self.cur_y as int,
                self.min_x as int,
                self.max_x as int,
                self.max_y as int,
            );
            assert(s == seq![p@] + t);
            assert(s.drop_first() =~= t);
            self.cur_x = self.cur_x + 1;
            if self.cur_x > self.max_x {
                self.cur_x = self.min_x;
                self.cur_y = self.cur_y + 1;
            }
            assert(self.remaining() == keep(t, covered_by(self.pts)));
            if b.is_inside() {
                return Some((p, b));
            }
        }
        None
    }
}

} // verus!
