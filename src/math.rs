//! Value types shared by the rasterizer: grid points, extents and colours.

use vstd::prelude::*;
use vstd::arithmetic::div_mod::lemma_fundamental_div_mod;

verus! {

/// A point (or offset) on the integer pixel grid.
#[derive(Clone, Copy, Debug, PartialEq, Eq, Structural)]
pub struct Vec2 {
    pub x: i32,
    pub y: i32,
}

impl View for Vec2 {
    type V = (int, int);

    open spec fn view(&self) -> (int, int) {
        (self.x as int, self.y as int)
    }
}

impl Vec2 {
    pub fn new(x: i32, y: i32) -> (r: Vec2)
        ensures
            r.x == x,
            r.y == y,
    {
        Vec2 { x, y }
    }
}

/// A triangle corner in screen space: a grid position and a depth, where a
/// larger depth is closer to the viewer.
#[derive(Clone, Copy, Debug, PartialEq, Eq, Structural)]
pub struct Vec3 {
    pub x: i32,
    pub y: i32,
    pub z: i32,
}

impl Vec3 {
    pub fn new(x: i32, y: i32, z: i32) -> (r: Vec3)
        ensures
            r.x == x,
            r.y == y,
            r.z == z,
    {
        Vec3 { x, y, z }
    }

    /// The grid position, without the depth.
    pub fn xy(self) -> (r: Vec2)
        ensures
            r == self.spec_xy(),
    {
        Vec2 { x: self.x, y: self.y }
    }

    pub open spec fn spec_xy(self) -> Vec2 {
        Vec2 { x: self.x, y: self.y }
    }
}

/// The width and height, in pixels, of a pixel grid.
#[derive(Clone, Copy, Debug, PartialEq, Eq, Structural)]
pub struct Extent2 {
    pub w: usize,
    pub h: usize,
}

impl Extent2 {
    pub fn new(w: usize, h: usize) -> (r: Extent2)
        ensures
            r.w == w,
            r.h == h,
    {
        Extent2 { w, h }
    }

    /// Whether the grid point `p` lies inside a `w` by `h` grid anchored at the origin.
    pub open spec fn contains(self, p: (int, int)) -> bool {
        0 <= p.0 < self.w && 0 <= p.1 < self.h
    }
}

/// An RGBA colour with one byte per channel, laid out in memory as R, G, B, A.
#[derive(Clone, Copy, Debug, PartialEq, Eq, Structural)]
pub struct Rgba {
    pub r: u8,
    pub g: u8,
    pub b: u8,
    pub a: u8,
}

impl Rgba {
    pub fn new(r: u8, g: u8, b: u8, a: u8) -> (c: Rgba)
        ensures
            c == (Rgba { r, g, b, a }),
    {
        Rgba { r, g, b, a }
    }

    pub fn black() -> (c: Rgba)
        ensures
            c == (Rgba { r: 0, g: 0, b: 0, a: 255 }),
    {
        Rgba { r: 0, g: 0, b: 0, a: 255 }
    }

    pub fn white() -> (c: Rgba)
        ensures
            c == (Rgba { r: 255, g: 255, b: 255, a: 255 }),
    {
        Rgba { r: 255, g: 255, b: 255, a: 255 }
    }
}

/// An opaque RGB colour with one byte per channel.
#[derive(Clone, Copy, Debug, PartialEq, Eq, Structural)]
pub struct Rgb {
    pub r: u8,
    pub g: u8,
    pub b: u8,
}

impl Rgb {
    pub fn new(r: u8, g: u8, b: u8) -> (c: Rgb)
        ensures
            c == (Rgb { r, g, b }),
    {
        Rgb { r, g, b }
    }

    /// The same colour, fully opaque.
    pub fn to_rgba(self) -> (c: Rgba)
        ensures
            c == (Rgba { r: self.r, g: self.g, b: self.b, a: 255 }),
    {
        Rgba { r: self.r, g: self.g, b: self.b, a: 255 }
    }
}

/// If `q * d <= x < (q + 1) * d` then `x / d == q`.
pub proof fn lemma_div_between(x: int, d: int, q: int)
    requires
        d > 0,
        q * d <= x,
        x < q * d + d,
    ensures
        x / d == q,
{
    lemma_fundamental_div_mod(x, d);
    let r = x / d;
    assert(r == q) by (nonlinear_arith)
        requires
            x == d * r + x % d,
            0 <= x % d < d,
            q * d <= x,
            x < q * d + d,
            d > 0,
    ;
}

/// The least of three values.
pub open spec fn min3(a: int, b: int, c: int) -> int {
    if a <= b && a <= c {
        a
    } else if b <= c {
        b
    } else {
        c
    }
}

/// The greatest of three values.
pub open spec fn max3(a: int, b: int, c: int) -> int {
    if a >= b && a >= c {
        a
    } else if b >= c {
        b
    } else {
        c
    }
}

/// Absolute value.
pub open spec fn iabs(v: int) -> int {
    if v < 0 {
        -v
    } else {
        v
    }
}

/// Sign: -1, 0 or 1.
pub open spec fn isign(v: int) -> int {
    if v < 0 {
        -1
    } else if v > 0 {
        1
    } else {
        0
    }
}

/// The elements of `s` for which `f` holds, in their order in `s`.
pub open spec fn keep<A>(s: Seq<A>, f: spec_fn(A) -> bool) -> Seq<A>
    decreases s.len(),
{
    if s.len() == 0 {
        Seq::empty()
    } else if f(s[0]) {
        seq![s[0]] + keep(s.drop_first(), f)
    } else {
        keep(s.drop_first(), f)
    }
}

/// A non-empty sequence holds its first element and what follows it.
pub proof fn lemma_contains_split<A>(s: Seq<A>, a: A)
    requires
        s.len() > 0,
    ensures
        s.contains(a) <==> (s[0] == a || s.drop_first().contains(a)),
{
    if s.contains(a) {
        let j = choose|j: int| 0 <= j < s.len() && s[j] == a;
        if j > 0 {
            assert(s.drop_first()[j - 1] == a);
        }
    }
    if s.drop_first().contains(a) {
        let j = choose|j: int| 0 <= j < s.drop_first().len() && s.drop_first()[j] == a;
        assert(s[j + 1] == a);
    }
    assert(s.contains(s[0]));
}

/// Appending `b` adds exactly `b` to what a sequence contains.
pub proof fn lemma_push_contains<A>(s: Seq<A>, b: A, a: A)
    ensures
        s.push(b).contains(a) <==> (s.contains(a) || a == b),
{
    if s.contains(a) {
        let j = choose|j: int| 0 <= j < s.len() && s[j] == a;
        assert(s.push(b)[j] == a);
    }
    assert(s.push(b)[s.len() as int] == b);
    if s.push(b).contains(a) {
        let j = choose|j: int| 0 <= j < s.push(b).len() && s.push(b)[j] == a;
        if j < s.len() {
            assert(s[j] == a);
        }
    }
}

/// An element is kept exactly when it occurs in `s` and passes `f`.
pub proof fn lemma_keep_contains<A>(s: Seq<A>, f: spec_fn(A) -> bool, a: A)
    ensures
        keep(s, f).contains(a) <==> (s.contains(a) && f(a)),
    decreases s.len(),
{
    if s.len() > 0 {
        let t = s.drop_first();
        lemma_keep_contains(t, f, a);
        lemma_contains_split(s, a);
        if f(s[0]) {
            let r = seq![s[0]] + keep(t, f);
            assert(keep(s, f) == r);
            assert(r.drop_first() =~= keep(t, f));
            lemma_contains_split(r, a);
        }
    }
}

/// Keeping the elements of a duplicate-free sequence leaves no duplicates.
pub proof fn lemma_keep_no_duplicates<A>(s: Seq<A>, f: spec_fn(A) -> bool)
    requires
        s.no_duplicates(),
    ensures
        keep(s, f).no_duplicates(),
    decreases s.len(),
{
    if s.len() > 0 {
        let t = s.drop_first();
        assert(t.no_duplicates()) by {
            assert forall|i: int, j: int| 0 <= i < t.len() && 0 <= j < t.len() && i != j implies t[i]
                != t[j] by {
                assert(t[i] == s[i + 1] && t[j] == s[j + 1]);
            }
        }
        lemma_keep_no_duplicates(t, f);
        if f(s[0]) {
            let k = keep(t, f);
            lemma_keep_contains(t, f, s[0]);
            assert(!t.contains(s[0])) by {
                if t.contains(s[0]) {
                    let j = choose|j: int| 0 <= j < t.len() && t[j] == s[0];
                    assert(s[j + 1] == s[0]);
                }
            }
            let r = seq![s[0]] + k;
            assert forall|i: int, j: int| 0 <= i < r.len() && 0 <= j < r.len() && i != j implies r[i]
                != r[j] by {
                if i == 0 {
                    assert(r[j] == k[j - 1]);
                } else if j == 0 {
                    assert(r[i] == k[i - 1]);
                } else {
                    assert(r[i] == k[i - 1] && r[j] == k[j - 1]);
                }
            }
        }
    }
}

} // verus!
