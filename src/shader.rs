//! Per-vertex attributes ("varyings") and their interpolation across a
//! triangle by barycentric weights.

use vstd::prelude::*;
use vstd::arithmetic::div_mod::lemma_fundamental_div_mod;

use crate::math::{Rgba, Rgb, lemma_div_between, min3, max3};
use crate::barycentric::{Barycentric, covers};

verus! {

/// Weights that interpolation accepts: they place the point in a
/// non-degenerate triangle, and `den` is small enough (at most `2^95`) for the
/// weighted sums of 32-bit values to be computed exactly.
pub open spec fn usable(wt: (int, int, int, int)) -> bool {
    covers(wt) && wt.0 + wt.1 + wt.2 == wt.3 && wt.3 <= 0x8000_0000_0000_0000_0000_0000
}

/// The weighted average `(a u + b v + c w) / den`, rounded down.
pub open spec fn lerp(a: int, b: int, c: int, wt: (int, int, int, int)) -> int {
    (a * wt.0 + b * wt.1 + c * wt.2) / wt.3
}

/// `n / d` rounded down, for `n` possibly negative.
fn floor_div(n: i128, d: i128) -> (r: i128)
    requires
        d > 0,
        n > i128::MIN + d,
    ensures
        r == n / d,
{
    if n >= 0 {
        ((n as u128) / (d as u128)) as i128
    } else {
        let m = (-n + d - 1) as u128;
        let q = m / (d as u128);
        proof {
            let mi = m as int;
            let di = d as int;
            let qi = q as int;
            lemma_fundamental_div_mod(mi, di);
            assert(mi == di * qi + mi % di);
            assert((-qi) * di <= n < (-qi) * di + di) by (nonlinear_arith)
                requires
                    mi == -n + di - 1,
                    mi == di * qi + mi % di,
                    0 <= mi % di < di,
            ;
            lemma_div_between(n as int, di, -qi);
        }
        -(q as i128)
    }
}

/// The weighted average of three 32-bit values at usable weights, rounded down.
/// It lies between the least and the greatest of them, and at the weights of a
/// corner it is that corner's value.
pub fn lerp3(a: i64, b: i64, c: i64, bar: &Barycentric) -> (r: i64)
    requires
        usable(bar@),
        i32::MIN <= a <= i32::MAX,
        i32::MIN <= b <= i32::MAX,
        i32::MIN <= c <= i32::MAX,
    ensures
        r == lerp(a as int, b as int, c as int, bar@),
        min3(a as int, b as int, c as int) <= r <= max3(a as int, b as int, c as int),
        bar.u == bar.den ==> r == a,
        bar.v == bar.den ==> r == b,
        bar.w == bar.den ==> r == c,
{
    let ghost (u, v, w, den) = bar@;
    let ghost lo = min3(a as int, b as int, c as int);
    let ghost hi = max3(a as int, b as int, c as int);
    proof {
        assert(lo * den <= a * u + b * v + c * w <= hi * den) by (nonlinear_arith)
            requires
                u >= 0,
                v >= 0,
                w >= 0,
                u + v + w == den,
                lo <= a,
                lo <= b,
                lo <= c,
                a <= hi,
                b <= hi,
                c <= hi,
        ;
        assert(-0x8000_0000 * den <= lo * den && hi * den <= 0x8000_0000 * den) by (nonlinear_arith)
            requires
                -0x8000_0000 <= lo,
                hi <= 0x8000_0000,
                den > 0,
        ;
        assert(-0x8000_0000 * u <= a * u <= 0x8000_0000 * u) by (nonlinear_arith)
            requires
                -0x8000_0000 <= a <= 0x8000_0000,
                u >= 0,
        ;
        assert(-0x8000_0000 * v <= b * v <= 0x8000_0000 * v) by (nonlinear_arith)
            requires
                -0x8000_0000 <= b <= 0x8000_0000,
                v >= 0,
        ;
        assert(-0x8000_0000 * w <= c * w <= 0x8000_0000 * w) by (nonlinear_arith)
            requires
                -0x8000_0000 <= c <= 0x8000_0000,
                w >= 0,
        ;
    }
    let n = (a as i128) * bar.u + (b as i128) * bar.v + (c as i128) * bar.w;
    let q = floor_div(n, bar.den);
    proof {
        let ni = n as int;
        lemma_fundamental_div_mod(ni, den);
        let qi = q as int;
        assert(lo <= qi <= hi) by (nonlinear_arith)
            requires
                ni == den * qi + ni % den,
                0 <= ni % den < den,
                lo * den <= ni <= hi * den,
                den > 0,
        ;
        if u == den {
            assert(n == a * den) by (nonlinear_arith)
                requires
                    v == 0,
                    w == 0,
                    u == den,
                    n == a * u + b * v + c * w,
            ;
            lemma_div_between(n as int, den, a as int);
        }
        if v == den {
            assert(n == b * den) by (nonlinear_arith)
                requires
                    u == 0,
                    w == 0,
                    v == den,
                    n == a * u + b * v + c * w,
            ;
            lemma_div_between(n as int, den, b as int);
        }
        if w == den {
            assert(n == c * den) by (nonlinear_arith)
                requires
                    u == 0,
                    v == 0,
                    w == den,
                    n == a * u + b * v + c * w,
            ;
            lemma_div_between(n as int, den, c as int);
        }
    }
    q as i64
}

/// A per-vertex attribute that can be interpolated across a triangle from its
/// values at the three corners.
pub trait Varying: Sized + Copy {
    /// The value at barycentric weights `bar` between the corner values `a`, `b`, `c`.
    spec fn interpolated(a: Self, b: Self, c: Self, bar: (int, int, int, int)) -> Self;

    /// Interpolates the corner values `tri` at weights `bar`; at the weights of a
    /// corner the result is that corner's value.
    fn interpolate(tri: [Self; 3], bar: &Barycentric) -> (r: Self)
        requires
            usable(bar@),
        ensures
            r == Self::interpolated(tri[0], tri[1], tri[2], bar@),
            bar.u == bar.den ==> r == tri[0],
            bar.v == bar.den ==> r == tri[1],
            bar.w == bar.den ==> r == tri[2],
    ;
}

/// A scalar such as a depth interpolates as a weighted average, rounded down.
impl Varying for i32 {
    open spec fn interpolated(a: i32, b: i32, c: i32, bar: (int, int, int, int)) -> i32 {
        lerp(a as int, b as int, c as int, bar) as i32
    }

    fn interpolate(tri: [i32; 3], bar: &Barycentric) -> (r: i32) {
        lerp3(tri[0] as i64, tri[1] as i64, tri[2] as i64, bar) as i32
    }
}

/// A colour interpolates channel by channel, each rounded down.
impl Varying for Rgba {
    open spec fn interpolated(a: Rgba, b: Rgba, c: Rgba, bar: (int, int, int, int)) -> Rgba {
        Rgba {
            r: lerp(a.r as int, b.r as int, c.r as int, bar) as u8,
            g: lerp(a.g as int, b.g as int, c.g as int, bar) as u8,
            b: lerp(a.b as int, b.b as int, c.b as int, bar) as u8,
            a: lerp(a.a as int, b.a as int, c.a as int, bar) as u8,
        }
    }

    fn interpolate(tri: [Rgba; 3], bar: &Barycentric) -> (r: Rgba) {
        let r = lerp3(tri[0].r as i64, tri[1].r as i64, tri[2].r as i64, bar);
        let g = lerp3(tri[0].g as i64, tri[1].g as i64, tri[2].g as i64, bar);
        let b = lerp3(tri[0].b as i64, tri[1].b as i64, tri[2].b as i64, bar);
        let a = lerp3(tri[0].a as i64, tri[1].a as i64, tri[2].a as i64, bar);
        Rgba { r: r as u8, g: g as u8, b: b as u8, a: a as u8 }
    }
}

/// A colour interpolates channel by channel, each rounded down.
impl Varying for Rgb {
    open spec fn interpolated(a: Rgb, b: Rgb, c: Rgb, bar: (int, int, int, int)) -> Rgb {
        Rgb {
            r: lerp(a.r as int, b.r as int, c.r as int, bar) as u8,
            g: lerp(a.g as int, b.g as int, c.g as int, bar) as u8,
            b: lerp(a.b as int, b.b as int, c.b as int, bar) as u8,
        }
    }

    fn interpolate(tri: [Rgb; 3], bar: &Barycentric) -> (r: Rgb) {
        let r = lerp3(tri[0].r as i64, tri[1].r as i64, tri[2].r as i64, bar);
        let g = lerp3(tri[0].g as i64, tri[1].g as i64, tri[2].g as i64, bar);
        let b = lerp3(tri[0].b as i64, tri[1].b as i64, tri[2].b as i64, bar);
        Rgb { r: r as u8, g: g as u8, b: b as u8 }
    }
}

} // verus!
