//! Barycentric coordinates of grid points with respect to a triangle, computed
//! exactly as integer ratios over a common denominator.

use vstd::prelude::*;

use crate::math::Vec2;

verus! {

/// `p - q`.
pub open spec fn diff(p: (int, int), q: (int, int)) -> (int, int) {
    (p.0 - q.0, p.1 - q.1)
}

/// The dot product of `p` and `q`.
pub open spec fn dot(p: (int, int), q: (int, int)) -> int {
    p.0 * q.0 + p.1 * q.1
}

/// The 2D cross product (perp-dot product) of `p` and `q`.
pub open spec fn cross(p: (int, int), q: (int, int)) -> int {
    p.0 * q.1 - p.1 * q.0
}

/// Twice the signed area of the triangle `a, b, c`; zero exactly when the
/// triangle is degenerate.
pub open spec fn area2(a: (int, int), b: (int, int), c: (int, int)) -> int {
    cross(diff(b, a), diff(c, a))
}

/// The barycentric weights `(u, v, w, den)` of `p` with respect to the triangle
/// `a, b, c`: `p` has coordinates `(u / den, v / den, w / den)`, with `den`
/// the absolute value of `area2(a, b, c)`. The weights come from Cramer's rule on
/// `p - a = v' (b - a) + w' (c - a)`; their signs are normalised so that `den`
/// is not negative. A degenerate triangle gives `den == 0`.
pub open spec fn bary_weights(p: (int, int), a: (int, int), b: (int, int), c: (int, int)) -> (
    int,
    int,
    int,
    int,
) {
    let d = area2(a, b, c);
    let v = cross(diff(p, a), diff(c, a));
    let w = cross(diff(b, a), diff(p, a));
    if d < 0 {
        (-(d - v - w), -v, -w, -d)
    } else {
        (d - v - w, v, w, d)
    }
}

/// Whether weights `(u, v, w, den)` place the point in the closed triangle:
/// the triangle is not degenerate and no weight is negative.
pub open spec fn covers(wt: (int, int, int, int)) -> bool {
    wt.3 > 0 && wt.0 >= 0 && wt.1 >= 0 && wt.2 >= 0
}

/// Barycentric coordinates as exact ratios: the point they describe is
/// `(u a + v b + w c) / den`, and `u + v + w == den`.
#[derive(Clone, Copy, Debug, PartialEq, Eq, Structural)]
pub struct Barycentric {
    pub u: i128,
    pub v: i128,
    pub w: i128,
    pub den: i128,
}

impl View for Barycentric {
    type V = (int, int, int, int);

    open spec fn view(&self) -> (int, int, int, int) {
        (self.u as int, self.v as int, self.w as int, self.den as int)
    }
}

impl Barycentric {
    /// Whether the point lies in the closed, non-degenerate triangle.
    pub fn is_inside(&self) -> (r: bool)
        ensures
            r == covers(self@),
    {
        self.den > 0 && self.u >= 0 && self.v >= 0 && self.w >= 0
    }
}

/// Cramer's rule: `den * p == u a + v b + w c` and `u + v + w == den`.
pub proof fn lemma_weights_locate(p: (int, int), a: (int, int), b: (int, int), c: (int, int))
    ensures
        ({
            let wt = bary_weights(p, a, b, c);
            &&& wt.0 + wt.1 + wt.2 == wt.3
            &&& wt.3 >= 0
            &&& wt.3 * p.0 == wt.0 * a.0 + wt.1 * b.0 + wt.2 * c.0
            &&& wt.3 * p.1 == wt.0 * a.1 + wt.1 * b.1 + wt.2 * c.1
        }),
{
    let (x1, y1) = diff(b, a);
    let (x2, y2) = diff(c, a);
    let (x, y) = diff(p, a);
    let d = area2(a, b, c);
    let v = cross(diff(p, a), diff(c, a));
    let w = cross(diff(b, a), diff(p, a));
    lemma_cramer_component(x1, y1, x2, y2, x, y);
    lemma_cramer_component(y2, x2, y1, x1, y, x);
    assert(d * y == v * y1 + w * y2);
    lemma_recombine(d, v, w, a.0, b.0, c.0, p.0);
    lemma_recombine(d, v, w, a.1, b.1, c.1, p.1);
    lemma_recombine(-d, -v, -w, a.0, b.0, c.0, p.0);
    lemma_recombine(-d, -v, -w, a.1, b.1, c.1, p.1);
}

/// `(x1 y2 - y1 x2) x == (x y2 - y x2) x1 + (x1 y - y1 x) x2`.
proof fn lemma_cramer_component(x1: int, y1: int, x2: int, y2: int, x: int, y: int)
    ensures
        (x1 * y2 - y1 * x2) * x == (x * y2 - y * x2) * x1 + (x1 * y - y1 * x) * x2,
{
    assert((x1 * y2 - y1 * x2) * x == x1 * y2 * x - y1 * x2 * x) by (nonlinear_arith);
    assert((x * y2 - y * x2) * x1 == x * y2 * x1 - y * x2 * x1) by (nonlinear_arith);
    assert((x1 * y - y1 * x) * x2 == x1 * y * x2 - y1 * x * x2) by (nonlinear_arith);
    assert(x1 * y2 * x == x * y2 * x1) by (nonlinear_arith);
    assert(y1 * x2 * x == y1 * x * x2) by (nonlinear_arith);
    assert(y * x2 * x1 == x1 * y * x2) by (nonlinear_arith);
}

/// If `d (p - a) == v (b - a) + w (c - a)` then
/// `d p == (d - v - w) a + v b + w c`.
proof fn lemma_recombine(d: int, v: int, w: int, a: int, b: int, c: int, p: int)
    requires
        d * (p - a) == v * (b - a) + w * (c - a) || -d * (p - a) == -v * (b - a) + -w * (c - a),
    ensures
        d * p == (d - v - w) * a + v * b + w * c,
{
    assert(d * (p - a) == d * p - d * a) by (nonlinear_arith);
    assert(-d * (p - a) == -(d * p - d * a)) by (nonlinear_arith);
    assert(v * (b - a) == v * b - v * a) by (nonlinear_arith);
    assert(-v * (b - a) == -(v * b - v * a)) by (nonlinear_arith);
    assert(w * (c - a) == w * c - w * a) by (nonlinear_arith);
    assert(-w * (c - a) == -(w * c - w * a)) by (nonlinear_arith);
    assert((d - v - w) * a == d * a - v * a - w * a) by (nonlinear_arith);
}

/// `n p == k0 a + k1 b + k2 c` with `k0 + k1 + k2 == n`: `p` is the weighted
/// average of the corners with weights `k0 / n`, `k1 / n`, `k2 / n`.
pub open spec fn weighted_average(
    p: (int, int),
    a: (int, int),
    b: (int, int),
    c: (int, int),
    k0: int,
    k1: int,
    k2: int,
    n: int,
) -> bool {
    &&& n > 0
    &&& k0 + k1 + k2 == n
    &&& n * p.0 == k0 * a.0 + k1 * b.0 + k2 * c.0
    &&& n * p.1 == k0 * a.1 + k1 * b.1 + k2 * c.1
}

/// `p` lies strictly inside the triangle: it is an average of the corners with
/// every weight positive.
pub open spec fn strictly_inside(p: (int, int), a: (int, int), b: (int, int), c: (int, int)) -> bool {
    exists|k0: int, k1: int, k2: int, n: int|
        k0 > 0 && k1 > 0 && k2 > 0 && #[trigger] weighted_average(p, a, b, c, k0, k1, k2, n)
}

/// `p` lies in the closed triangle: it is an average of the corners with no
/// weight negative.
pub open spec fn in_closed_triangle(p: (int, int), a: (int, int), b: (int, int), c: (int, int)) -> bool {
    exists|k0: int, k1: int, k2: int, n: int|
        k0 >= 0 && k1 >= 0 && k2 >= 0 && #[trigger] weighted_average(p, a, b, c, k0, k1, k2, n)
}

/// For a point written as an average of the corners, each barycentric weight is
/// the matching average weight scaled by `den / n`.
proof fn lemma_weights_of_average(
    p: (int, int),
    a: (int, int),
    b: (int, int),
    c: (int, int),
    k0: int,
    k1: int,
    k2: int,
    n: int,
)
    requires
        weighted_average(p, a, b, c, k0, k1, k2, n),
    ensures
        ({
            let wt = bary_weights(p, a, b, c);
            &&& n * wt.0 == k0 * wt.3
            &&& n * wt.1 == k1 * wt.3
            &&& n * wt.2 == k2 * wt.3
        }),
{
    let (x1, y1) = diff(b, a);
    let (x2, y2) = diff(c, a);
    let (x, y) = diff(p, a);
    let d = area2(a, b, c);
    let v = cross(diff(p, a), diff(c, a));
    let w = cross(diff(b, a), diff(p, a));
    // n (p - a) == k1 (b - a) + k2 (c - a)
    assert(n * x == k1 * x1 + k2 * x2) by (nonlinear_arith)
        requires
            n * p.0 == k0 * a.0 + k1 * b.0 + k2 * c.0,
            k0 + k1 + k2 == n,
            x == p.0 - a.0,
            x1 == b.0 - a.0,
            x2 == c.0 - a.0,
    ;
    assert(n * y == k1 * y1 + k2 * y2) by (nonlinear_arith)
        requires
            n * p.1 == k0 * a.1 + k1 * b.1 + k2 * c.1,
            k0 + k1 + k2 == n,
            y == p.1 - a.1,
            y1 == b.1 - a.1,
            y2 == c.1 - a.1,
    ;
    lemma_scaled_cross(n, x, y, x2, y2, k1, k2, x1, y1);
    assert(n * v == k1 * d);
    lemma_scaled_cross(n, y, x, y1, x1, k2, k1, y2, x2);
    assert(n * w == k2 * d);
    assert(n * (d - v - w) == k0 * d) by (nonlinear_arith)
        requires
            n * v == k1 * d,
            n * w == k2 * d,
            k0 + k1 + k2 == n,
    ;
    assert(n * -(d - v - w) == k0 * -d && n * -v == k1 * -d && n * -w == k2 * -d)
        by (nonlinear_arith)
        requires
            n * v == k1 * d,
            n * w == k2 * d,
            n * (d - v - w) == k0 * d,
    ;
}

/// For a non-degenerate triangle the weights of any point sum to `den`, which is
/// positive; a point strictly inside gets only positive weights, and a point
/// outside the closed triangle gets at least one negative weight.
pub proof fn lemma_barycentric_partition(
    p: (int, int),
    a: (int, int),
    b: (int, int),
    c: (int, int),
)
    requires
        area2(a, b, c) != 0,
    ensures
        ({
            let wt = bary_weights(p, a, b, c);
            &&& wt.0 + wt.1 + wt.2 == wt.3
            &&& wt.3 > 0
            &&& strictly_inside(p, a, b, c) ==> wt.0 > 0 && wt.1 > 0 && wt.2 > 0
            &&& !in_closed_triangle(p, a, b, c) ==> wt.0 < 0 || wt.1 < 0 || wt.2 < 0
        }),
{
    let wt = bary_weights(p, a, b, c);
    lemma_weights_locate(p, a, b, c);
    if strictly_inside(p, a, b, c) {
        let (k0, k1, k2, n) = choose|k0: int, k1: int, k2: int, n: int|
            k0 > 0 && k1 > 0 && k2 > 0 && #[trigger] weighted_average(p, a, b, c, k0, k1, k2, n);
        lemma_weights_of_average(p, a, b, c, k0, k1, k2, n);
        assert(wt.0 > 0 && wt.1 > 0 && wt.2 > 0) by (nonlinear_arith)
            requires
                n > 0,
                k0 > 0,
                k1 > 0,
                k2 > 0,
                wt.3 > 0,
                n * wt.0 == k0 * wt.3,
                n * wt.1 == k1 * wt.3,
                n * wt.2 == k2 * wt.3,
        ;
    }
    if wt.0 >= 0 && wt.1 >= 0 && wt.2 >= 0 {
        assert(weighted_average(p, a, b, c, wt.0, wt.1, wt.2, wt.3));
    }
}

/// The weights agree with Cramer's rule written over dot products, with
/// `d00 = ba.ba`, `d01 = ba.ca`, `d11 = ca.ca`, `d20 = pa.ba`, `d21 = pa.ca` and
/// `dd = d00 d11 - d01 d01`: `v / den == (d11 d20 - d01 d21) / dd`,
/// `w / den == (d00 d21 - d01 d20) / dd`, hence `u / den == 1 - v / den - w / den`;
/// and `dd == den * den`, so that formula is defined exactly when `den != 0`.
pub proof fn lemma_dot_product_form(
    p: (int, int),
    a: (int, int),
    b: (int, int),
    c: (int, int),
)
    ensures
        ({
            let wt = bary_weights(p, a, b, c);
            let ba = diff(b, a);
            let ca = diff(c, a);
            let pa = diff(p, a);
            let dd = dot(ba, ba) * dot(ca, ca) - dot(ba, ca) * dot(ba, ca);
            &&& dd == wt.3 * wt.3
            &&& wt.1 * dd == (dot(ca, ca) * dot(pa, ba) - dot(ba, ca) * dot(pa, ca)) * wt.3
            &&& wt.2 * dd == (dot(ba, ba) * dot(pa, ca) - dot(ba, ca) * dot(pa, ba)) * wt.3
        }),
{
    let wt = bary_weights(p, a, b, c);
    let (x1, y1) = diff(b, a);
    let (x2, y2) = diff(c, a);
    let (x, y) = diff(p, a);
    let d = area2(a, b, c);
    let v = cross(diff(p, a), diff(c, a));
    let w = cross(diff(b, a), diff(p, a));
    let d00 = x1 * x1 + y1 * y1;
    let d01 = x1 * x2 + y1 * y2;
    let d11 = x2 * x2 + y2 * y2;
    let d20 = x * x1 + y * y1;
    let d21 = x * x2 + y * y2;
    lemma_lagrange(x1, y1, x2, y2, x1, y1, x2, y2);
    assert(x2 * x1 + y2 * y1 == d01) by (nonlinear_arith)
        requires
            d01 == x1 * x2 + y1 * y2,
    ;
    let dd = d00 * d11 - d01 * d01;
    assert(dd == d * d);
    assert(wt.3 * wt.3 == d * d) by (nonlinear_arith)
        requires
            wt.3 == d || wt.3 == -d,
    ;
    lemma_lagrange(x, y, x2, y2, x1, y1, x2, y2);
    let nv = d11 * d20 - d01 * d21;
    assert(d20 * d11 - d21 * (x2 * x1 + y2 * y1) == v * d);
    assert(nv == d20 * d11 - d21 * d01) by (nonlinear_arith)
        requires
            nv == d11 * d20 - d01 * d21,
    ;
    assert(nv == v * d);
    lemma_lagrange(x1, y1, x, y, x1, y1, x2, y2);
    let nw = d00 * d21 - d01 * d20;
    assert(d00 * d21 - d01 * (x * x1 + y * y1) == w * d);
    assert(nw == w * d);
    assert(wt.1 * dd == nv * wt.3 && wt.2 * dd == nw * wt.3) by (nonlinear_arith)
        requires
            dd == d * d,
            nv == v * d,
            nw == w * d,
            (wt.1 == v && wt.2 == w && wt.3 == d) || (wt.1 == -v && wt.2 == -w && wt.3 == -d),
    ;
}

/// If `n x == k1 x1 + k2 x2` and `n y == k1 y1 + k2 y2`, then
/// `n (x y2 - y x2) == k1 (x1 y2 - y1 x2)`.
proof fn lemma_scaled_cross(n: int, x: int, y: int, x2: int, y2: int, k1: int, k2: int, x1: int, y1: int)
    requires
        n * x == k1 * x1 + k2 * x2,
        n * y == k1 * y1 + k2 * y2,
    ensures
        n * (x * y2 - y * x2) == k1 * (x1 * y2 - y1 * x2),
{
    assert(n * (x * y2 - y * x2) == (n * x) * y2 - (n * y) * x2) by (nonlinear_arith);
    assert((k1 * x1 + k2 * x2) * y2 == k1 * (x1 * y2) + k2 * (x2 * y2)) by (nonlinear_arith);
    assert((k1 * y1 + k2 * y2) * x2 == k1 * (y1 * x2) + k2 * (x2 * y2)) by (nonlinear_arith);
    assert(k1 * (x1 * y2) - k1 * (y1 * x2) == k1 * (x1 * y2 - y1 * x2)) by (nonlinear_arith);
}

/// `(a + b) (c + d) == a c + a d + b c + b d`.
proof fn lemma_expand(a: int, b: int, c: int, d: int)
    ensures
        (a + b) * (c + d) == a * c + a * d + b * c + b * d,
{
    assert((a + b) * (c + d) == a * c + a * d + b * c + b * d) by (nonlinear_arith);
}

/// `(a - b) (c - d) == a c - a d - b c + b d`.
proof fn lemma_expand_diff(a: int, b: int, c: int, d: int)
    ensures
        (a - b) * (c - d) == a * c - a * d - b * c + b * d,
{
    assert((a - b) * (c - d) == a * c - a * d - b * c + b * d) by (nonlinear_arith);
}

/// `(a b) (c d) == (a c) (b d) == (a d) (c b)`.
proof fn lemma_regroup(a: int, b: int, c: int, d: int)
    ensures
        (a * b) * (c * d) == (a * c) * (b * d),
        (a * b) * (c * d) == (a * d) * (c * b),
{
    assert((a * b) * (c * d) == (a * c) * (b * d)) by (nonlinear_arith);
    assert((a * b) * (c * d) == (a * d) * (c * b)) by (nonlinear_arith);
}

/// Lagrange's identity in the plane:
/// `(p.r)(q.s) - (p.s)(q.r) == cross(p, q) cross(r, s)`.
proof fn lemma_lagrange(px: int, py: int, qx: int, qy: int, rx: int, ry: int, sx: int, sy: int)
    ensures
        (px * rx + py * ry) * (qx * sx + qy * sy) - (px * sx + py * sy) * (qx * rx + qy * ry) == (px
            * qy - py * qx) * (rx * sy - ry * sx),
{
    lemma_expand(px * rx, py * ry, qx * sx, qy * sy);
    lemma_expand(px * sx, py * sy, qx * rx, qy * ry);
    lemma_expand_diff(px * qy, py * qx, rx * sy, ry * sx);
    // the squared terms cancel
    lemma_regroup(px, rx, qx, sx);
    lemma_regroup(px, sx, qx, rx);
    lemma_regroup(py, ry, qy, sy);
    lemma_regroup(py, sy, qy, ry);
    // the mixed terms pair up
    lemma_regroup(px, rx, qy, sy);
    lemma_regroup(py, ry, qx, sx);
    lemma_regroup(px, sx, qy, ry);
    lemma_regroup(py, sy, qx, rx);
    lemma_regroup(px, qy, rx, sy);
    lemma_regroup(px, qy, ry, sx);
    lemma_regroup(py, qx, rx, sy);
    lemma_regroup(py, qx, ry, sx);
}

/// The barycentric weights of `p` with respect to the triangle `pts`.
pub fn barycentric(p: Vec2, pts: [Vec2; 3]) -> (r: Barycentric)
    ensures
        r@ == bary_weights(p@, pts[0]@, pts[1]@, pts[2]@),
        r.u + r.v + r.w == r.den,
        r.den >= 0,
        r.den <= 0x4_0000_0000_0000_0000,
        r.den * p.x == r.u * pts[0].x + r.v * pts[1].x + r.w * pts[2].x,
        r.den * p.y == r.u * pts[0].y + r.v * pts[1].y + r.w * pts[2].y,
{
    let a = pts[0];
    let b = pts[1];
    let c = pts[2];
    // edge vectors, each coordinate within 2^32
    let x1 = b.x as i64 - a.x as i64;
    let y1 = b.y as i64 - a.y as i64;
    let x2 = c.x as i64 - a.x as i64;
    let y2 = c.y as i64 - a.y as i64;
    let x = p.x as i64 - a.x as i64;
    let y = p.y as i64 - a.y as i64;
    proof {
        lemma_mul_bound(x1 as int, y2 as int);
        lemma_mul_bound(y1 as int, x2 as int);
        lemma_mul_bound(x as int, y2 as int);
        lemma_mul_bound(y as int, x2 as int);
        lemma_mul_bound(x1 as int, y as int);
        lemma_mul_bound(y1 as int, x as int);
    }
    let d = (x1 as i128) * (y2 as i128) - (y1 as i128) * (x2 as i128);
    let v = (x as i128) * (y2 as i128) - (y as i128) * (x2 as i128);
    let w = (x1 as i128) * (y as i128) - (y1 as i128) * (x as i128);
    proof {
        lemma_weights_locate(p@, a@, b@, c@);
        lemma_weights_bounded(p, pts);
    }
    if d < 0 {
        Barycentric { u: -(d - v - w), v: -v, w: -w, den: -d }
    } else {
        Barycentric { u: d - v - w, v, w, den: d }
    }
}

/// For corners and points with `i32` coordinates, `den <= 2^66`.
pub proof fn lemma_weights_bounded(p: Vec2, pts: [Vec2; 3])
    ensures
        bary_weights(p@, pts[0]@, pts[1]@, pts[2]@).3 <= 0x4_0000_0000_0000_0000,
{
    let a = pts[0]@;
    let b = pts[1]@;
    let c = pts[2]@;
    lemma_mul_bound(b.0 - a.0, c.1 - a.1);
    lemma_mul_bound(b.1 - a.1, c.0 - a.0);
}

/// Products of two coordinate differences stay within `2^64`.
proof fn lemma_mul_bound(s: int, t: int)
    requires
        -0x1_0000_0000 <= s <= 0x1_0000_0000,
        -0x1_0000_0000 <= t <= 0x1_0000_0000,
    ensures
        -0x1_0000_0000_0000_0000 <= s * t <= 0x1_0000_0000_0000_0000,
{
    assert(-0x1_0000_0000_0000_0000 <= s * t <= 0x1_0000_0000_0000_0000) by (nonlinear_arith)
        requires
            -0x1_0000_0000 <= s <= 0x1_0000_0000,
            -0x1_0000_0000 <= t <= 0x1_0000_0000,
    ;
}

} // verus!
