//! Integer line tracing with Bresenham's error-accumulation algorithm.

use vstd::prelude::*;
use vstd::arithmetic::div_mod::lemma_fundamental_div_mod;

use crate::math::{Vec2, Extent2, iabs, isign, keep, lemma_div_between};

verus! {

/// Whether the segment from `a` to `b` is steep: its vertical extent is the larger.
pub open spec fn is_steep(a: (int, int), b: (int, int)) -> bool {
    iabs(a.0 - b.0) < iabs(a.1 - b.1)
}

/// Swaps the two coordinates of `p` when `steep` holds; the tracer works in the
/// frame where the first coordinate is the major axis.
pub open spec fn to_major(p: (int, int), steep: bool) -> (int, int) {
    if steep {
        (p.1, p.0)
    } else {
        p
    }
}

/// How far the minor coordinate has moved after `i` major steps, on a segment
/// that covers `m` minor units over `n` major units: `m * i / n` rounded to the
/// nearest integer, with halves rounded down.
pub open spec fn minor_steps(m: int, n: int, i: int) -> int {
    if n <= 0 {
        0
    } else {
        (2 * m * i + n - 1) / (2 * n)
    }
}

/// The points of the traced segment from `a` to `b`, in the order the tracer
/// yields them: one point per unit of the major axis, from the endpoint with the
/// lower major coordinate to the other.
pub open spec fn line_points(a: Vec2, b: Vec2) -> Seq<(int, int)> {
    let steep = is_steep(a@, b@);
    let p = to_major(a@, steep);
    let q = to_major(b@, steep);
    let s = if p.0 > q.0 {
        q
    } else {
        p
    };
    let t = if p.0 > q.0 {
        p
    } else {
        q
    };
    let n = t.0 - s.0;
    let m = t.1 - s.1;
    Seq::new(
        (n + 1) as nat,
        |i: int| to_major((s.0 + i, s.1 + isign(m) * minor_steps(iabs(m), n, i)), steep),
    )
}

/// The points of `s` that lie inside `size`, in order.
pub open spec fn clip(s: Seq<(int, int)>, size: Extent2) -> Seq<(int, int)> {
    keep(s, |p: (int, int)| size.contains(p))
}

/// One step of the error accumulator: after `i` steps the error term is
/// `2 m i - 2 n k` with `k = minor_steps(m, n, i)`; it lies in `(-n, n]`, and the
/// next step moves the minor coordinate exactly when the error plus `2 m`
/// exceeds `n`.
proof fn lemma_minor_step(m: int, n: int, i: int)
    requires
        0 <= m <= n,
        n > 0,
        0 <= i,
    ensures
        -n < 2 * m * i - 2 * n * minor_steps(m, n, i) <= n,
        minor_steps(m, n, i + 1) == if 2 * m * i - 2 * n * minor_steps(m, n, i) + 2 * m > n {
            minor_steps(m, n, i) + 1
        } else {
            minor_steps(m, n, i)
        },
{
    let x = 2 * m * i + n - 1;
    let d = 2 * n;
    let k = minor_steps(m, n, i);
    lemma_fundamental_div_mod(x, d);
    assert(x == d * k + x % d);
    let r = x % d;
    assert(2 * m * i - 2 * n * k == r - n + 1) by (nonlinear_arith)
        requires
            x == d * k + r,
            x == 2 * m * i + n - 1,
            d == 2 * n,
    ;
    assert(2 * m * (i + 1) + n - 1 == x + 2 * m) by (nonlinear_arith)
        requires
            x == 2 * m * i + n - 1,
    ;
    if r + 2 * m >= d {
        assert((k + 1) * d == d * k + d) by (nonlinear_arith);
        lemma_div_between(x + 2 * m, d, k + 1);
    } else {
        assert(k * d == d * k) by (nonlinear_arith);
        lemma_div_between(x + 2 * m, d, k);
    }
}

/// The minor coordinate stays between the two endpoints.
proof fn lemma_minor_steps_range(m: int, n: int, i: int)
    requires
        0 <= m <= n,
        0 <= i <= n,
    ensures
        0 <= minor_steps(m, n, i) <= m,
        i == 0 ==> minor_steps(m, n, i) == 0,
        i == n ==> minor_steps(m, n, i) == m,
{
    if n > 0 {
        let x = 2 * m * i + n - 1;
        assert(0 <= x) by (nonlinear_arith)
            requires
                0 <= m,
                0 <= i,
                n > 0,
                x == 2 * m * i + n - 1,
        ;
        assert(x < (m + 1) * (2 * n)) by (nonlinear_arith)
            requires
                0 <= m,
                0 <= i <= n,
                n > 0,
                x == 2 * m * i + n - 1,
        ;
        lemma_fundamental_div_mod(x, 2 * n);
        let k = x / (2 * n);
        assert(0 <= k <= m) by (nonlinear_arith)
            requires
                x == (2 * n) * k + x % (2 * n),
                0 <= x % (2 * n) < 2 * n,
                0 <= x < (m + 1) * (2 * n),
                n > 0,
        ;
        if i == 0 {
            lemma_div_between(x, 2 * n, 0);
        }
        if i == n {
            assert(m * (2 * n) <= x < m * (2 * n) + 2 * n) by (nonlinear_arith)
                requires
                    x == 2 * m * i + n - 1,
                    i == n,
                    n > 0,
            ;
            lemma_div_between(x, 2 * n, m);
        }
    }
}

/// Two grid points are equal or 8-connected neighbours.
pub open spec fn touching(p: (int, int), q: (int, int)) -> bool {
    iabs(p.0 - q.0) <= 1 && iabs(p.1 - q.1) <= 1
}

/// The traced segment from `a` to `b` holds both endpoints, has one point per
/// unit of its larger extent (`max(|dx|, |dy|) + 1` points), moves by at most one
/// unit in each coordinate from one point to the next, and visits no point twice.
pub proof fn lemma_line_points(a: Vec2, b: Vec2)
    ensures
        line_points(a, b).contains(a@),
        line_points(a, b).contains(b@),
        line_points(a, b).len() == if iabs(a.x - b.x) >= iabs(a.y - b.y) {
            iabs(a.x - b.x) + 1
        } else {
            iabs(a.y - b.y) + 1
        },
        forall|i: int|
            0 <= i < line_points(a, b).len() - 1 ==> touching(
                #[trigger] line_points(a, b)[i],
                line_points(a, b)[i + 1],
            ),
        line_points(a, b).no_duplicates(),
{
    let l = line_points(a, b);
    let steep = is_steep(a@, b@);
    let p = to_major(a@, steep);
    let q = to_major(b@, steep);
    let s = if p.0 > q.0 {
        q
    } else {
        p
    };
    let t = if p.0 > q.0 {
        p
    } else {
        q
    };
    let n = t.0 - s.0;
    let m = t.1 - s.1;
    let am = iabs(m);
    let sg = isign(m);
    assert(0 <= am <= n);
    assert(sg * am == m) by (nonlinear_arith)
        requires
            sg == isign(m),
            am == iabs(m),
    ;
    lemma_minor_steps_range(am, n, 0);
    lemma_minor_steps_range(am, n, n);
    assert(sg * 0 == 0) by (nonlinear_arith);
    assert(l[0] == to_major(s, steep));
    assert(l[n] == to_major(t, steep));
    assert(to_major(p, steep) == a@ && to_major(q, steep) == b@);
    if p.0 > q.0 {
        assert(l[n] == a@ && l[0] == b@);
    } else {
        assert(l[0] == a@ && l[n] == b@);
    }
    assert forall|i: int| 0 <= i < l.len() - 1 implies touching(#[trigger] l[i], l[i + 1]) by {
        lemma_minor_step(am, n, i);
        let k0 = minor_steps(am, n, i);
        let k1 = minor_steps(am, n, i + 1);
        assert(iabs(sg * k1 - sg * k0) <= 1) by (nonlinear_arith)
            requires
                k1 == k0 || k1 == k0 + 1,
                sg == -1 || sg == 0 || sg == 1,
        ;
    }
    assert forall|i: int, j: int| 0 <= i < l.len() && 0 <= j < l.len() && i != j implies l[i]
        != l[j] by {
        if steep {
            assert(l[i].1 == s.0 + i && l[j].1 == s.0 + j);
        } else {
            assert(l[i].0 == s.0 + i && l[j].0 == s.0 + j);
        }
    }
}

/// Traces the grid points of a line segment, one call of `next` at a time.
///
/// Works in the frame where the first coordinate is the major axis (the axis of
/// the larger extent) and the walk runs from lower to higher major coordinate.
pub struct Bresenham {
    /// current position, in the major-axis frame
    cur_x: i64,
    cur_y: i64,
    /// major extent
    dx: i64,
    /// sign of the minor step
    dy: i64,
    /// accumulated error
    e: i64,
    /// error increment: twice the minor extent
    de: i64,
    /// whether the frame swaps x and y
    steep: bool,
    /// last major coordinate, inclusive
    end: i64,
    /// when present, points outside these bounds are skipped
    bounds: Option<Extent2>,
    /// starting point, in the major-axis frame
    x0: Ghost<int>,
    y0: Ghost<int>,
}

impl Bresenham {
    /// The internal state is consistent.
    pub closed spec fn wf(&self) -> bool {
        let n = self.dx as int;
        let m = self.de / 2;
        let i = self.cur_x - self.x0@;
        &&& 0 <= n
        &&& self.de % 2 == 0
        &&& 0 <= m <= n
        &&& self.dy == -1 || self.dy == 0 || self.dy == 1
        &&& self.end == self.x0@ + n
        &&& 0 <= i <= n + 1
        &&& i <= n ==> self.cur_y == self.y0@ + self.dy * minor_steps(m, n, i)
        &&& i <= n ==> self.e == 2 * m * i - 2 * n * minor_steps(m, n, i)
        &&& i32::MIN <= self.x0@ && self.end <= i32::MAX
        &&& i32::MIN <= self.y0@ <= i32::MAX
        &&& i32::MIN <= self.y0@ + self.dy * m <= i32::MAX
    }

    /// The points still to be traced, before any bounds are applied.
    pub closed spec fn trace(&self) -> Seq<(int, int)> {
        let n = self.dx as int;
        let m = self.de / 2;
        let i = self.cur_x - self.x0@;
        Seq::new(
            (self.end - self.cur_x + 1) as nat,
            |j: int|
                to_major(
                    (self.cur_x + j, self.y0@ + self.dy * minor_steps(m, n, i + j)),
                    self.steep,
                ),
        )
    }

    /// The bounds that traced points are clipped to, if any.
    pub closed spec fn bounds(&self) -> Option<Extent2> {
        self.bounds
    }

    /// The points that the remaining calls of `next` yield, in order.
    pub open spec fn remaining(&self) -> Seq<(int, int)> {
        match self.bounds() {
            Some(size) => clip(self.trace(), size),
            None => self.trace(),
        }
    }

    /// A tracer that yields every point of the segment from `a` to `b`.
    pub fn new(a: Vec2, b: Vec2) -> (r: Bresenham)
        ensures
            r.wf(),
            r.remaining() == line_points(a, b),
            r.bounds().is_none(),
    {
        let ax = a.x as i64;
        let ay = a.y as i64;
        let bx = b.x as i64;
        let by = b.y as i64;
        let adx = if ax < bx {
            bx - ax
        } else {
            ax - bx
        };
        let ady = if ay < by {
            by - ay
        } else {
            ay - by
        };
        // work along the axis of the larger extent
        let steep = adx < ady;
        let (px, py, qx, qy) = if steep {
            (ay, ax, by, bx)
        } else {
            (ax, ay, bx, by)
        };
        // always walk from the lower major coordinate
        let (sx, sy, tx, ty) = if px > qx {
            (qx, qy, px, py)
        } else {
            (px, py, qx, qy)
        };
        let n = tx - sx;
        let dm = ty - sy;
        let dy: i64 = if dm < 0 {
            -1
        } else if dm > 0 {
            1
        } else {
            0
        };
        let am = if dm < 0 {
            -dm
        } else {
            dm
        };
        let r = Bresenham {
            cur_x: sx,
            cur_y: sy,
            dx: n,
            dy,
            e: 0,
            de: am * 2,
            steep,
            end: tx,
            bounds: None,
            x0: Ghost(sx as int),
            y0: Ghost(sy as int),
        };
        proof {
            lemma_minor_steps_range(am as int, n as int, 0);
            assert(dy * am == dm) by (nonlinear_arith)
                requires
                    (dm < 0 && dy == -1 && am == -dm) || (dm > 0 && dy == 1 && am == dm) || (dm == 0
                        && dy == 0 && am == 0),
            ;
            assert(r.de / 2 == am);
            assert(r.trace() =~= line_points(a, b));
        }
        r
    }

    /// A tracer over the same points as [`Bresenham::new`], skipping those that
    /// fall outside a `size.w` by `size.h` grid anchored at the origin.
    pub fn new_bounded(a: Vec2, b: Vec2, size: Extent2) -> (r: Bresenham)
        ensures
            r.wf(),
            r.remaining() == clip(line_points(a, b), size),
            r.bounds() == Some(size),
    {
        let mut r = Bresenham::new(a, b);
        r.bounds = Some(size);
        r
    }

    /// Advances one point along the segment, ignoring bounds.
    fn step(&mut self) -> (r: Option<Vec2>)
        requires
            old(self).wf(),
        ensures
            final(self).wf(),
            final(self).bounds() == old(self).bounds(),
            old(self).trace().len() == 0 ==> r.is_none() && final(self).trace() == old(self).trace(),
            old(self).trace().len() > 0 ==> r.is_some() && r.unwrap()@ == old(self).trace()[0]
                && final(self).trace() == old(self).trace().drop_first(),
    {
        if self.cur_x > self.end {
            return None;
        }
        let ghost n = self.dx as int;
        let ghost m = self.de / 2;
        let ghost i = self.cur_x - self.x0@;
        proof {
            lemma_minor_steps_range(m, n, i);
            let k = minor_steps(m, n, i);
            if self.dy == 1 {
                let dy = self.dy as int;
                assert(dy * k == k && dy * m == m) by (nonlinear_arith)
                    requires
                        dy == 1,
                ;
            } else if self.dy == -1 {
                let dy = self.dy as int;
                assert(dy * k == -k && dy * m == -m) by (nonlinear_arith)
                    requires
                        dy == -1,
                ;
            } else {
                let dy = self.dy as int;
                assert(dy * k == 0 && dy * m == 0) by (nonlinear_arith)
                    requires
                        dy == 0,
                ;
            }
        }
        let out = if self.steep {
            Vec2 { x: self.cur_y as i32, y: self.cur_x as i32 }
        } else {
            Vec2 { x: self.cur_x as i32, y: self.cur_y as i32 }
        };
        let ghost before = self.trace();
        assert(out@ == before[0]);
        if self.dx > 0 {
            proof {
                lemma_minor_step(m, n, i);
                let k = minor_steps(m, n, i);
                assert(2 * m * (i + 1) == 2 * m * i + 2 * m) by (nonlinear_arith);
                assert(2 * n * (k + 1) == 2 * n * k + 2 * n) by (nonlinear_arith);
            }
            self.e = self.e + self.de;
            if self.e > self.dx {
                self.cur_y = self.cur_y + self.dy;
                self.e = self.e - self.dx * 2;
            }
            self.cur_x = self.cur_x + 1;
            proof {
                if i + 1 <= n {
                    assert(self.dy * minor_steps(m, n, i + 1) == self.dy * minor_steps(m, n, i)
                        + if minor_steps(m, n, i + 1) == minor_steps(m, n, i) {
                        0
                    } else {
                        self.dy as int
                    }) by (nonlinear_arith)
                        requires
                            minor_steps(m, n, i + 1) == minor_steps(m, n, i)
                                || minor_steps(m, n, i + 1) == minor_steps(m, n, i) + 1,
                    ;
                }
                assert(self.trace() =~= before.drop_first());
            }
        } else {
            self.cur_x = self.cur_x + 1;
            proof {
                assert(self.trace() =~= before.drop_first());
            }
        }
        Some(out)
    }

    /// The next point of the segment (inside the bounds, if there are any), or
    /// `None` once every point has been yielded.
    pub fn next(&mut self) -> (r: Option<Vec2>)
        requires
            old(self).wf(),
        ensures
            final(self).wf(),
            final(self).bounds() == old(self).bounds(),
            old(self).remaining().len() == 0 ==> r.is_none() && final(self).remaining().len() == 0,
            old(self).remaining().len() > 0 ==> r.is_some() && r.unwrap()@
                == old(self).remaining()[0] && final(self).remaining()
                == old(self).remaining().drop_first(),
    {
        loop
            invariant
                self.wf(),
                self.bounds() == old(self).bounds(),
                self.remaining() == old(self).remaining(),
            decreases self.trace().len(),
        {
            let ghost before = self.trace();
            match self.step() {
                None => {
                    return None;
                },
                Some(p) => {
                    match self.bounds {
                        None => {
                            return Some(p);
                        },
                        Some(size) => {
                            let inside = p.x >= 0 && p.y >= 0 && (p.x as usize) < size.w
                                && (p.y as usize) < size.h;
                            assert(inside == size.contains(before[0]));
                            if inside {
                                return Some(p);
                            }
                        },
                    }
                },
            }
        }
    }
}

} // verus!
