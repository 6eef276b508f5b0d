//! A width/height-tagged RGBA byte buffer: per-pixel access, bulk fills,
//! clipped blits, and line and triangle drawing.

use vstd::prelude::*;

use crate::math::{Vec2, Extent2, Rgba, lemma_push_contains};
use crate::bresenham::{Bresenham, line_points};
use crate::triangle::{Triangle, raster_points, covered_by, lemma_raster_points};

verus! {

/// The colour stored for pixel number `k` of a byte buffer: bytes `4k` to
/// `4k + 3`, in the order R, G, B, A.
pub open spec fn rgba_at(bytes: Seq<u8>, k: int) -> Rgba {
    Rgba { r: bytes[4 * k], g: bytes[4 * k + 1], b: bytes[4 * k + 2], a: bytes[4 * k + 3] }
}

/// For `x2 < w` and `x0 <= x1 <= w`, the linear index `y2 w + x2` falls in
/// `[y w + x0, y w + x1)` exactly when it is on row `y` between `x0` and `x1`.
pub proof fn lemma_row_span(w: int, y: int, x0: int, x1: int, y2: int, x2: int)
    requires
        0 <= x0 <= x1 <= w,
        0 <= x2 < w,
        0 <= y,
        0 <= y2,
    ensures
        (y * w + x0 <= y2 * w + x2 < y * w + x1) <==> (y2 == y && x0 <= x2 < x1),
{
    if y2 < y {
        assert(y2 * w + w <= y * w) by (nonlinear_arith)
            requires
                y2 < y,
                0 <= w,
        ;
    } else if y2 > y {
        assert(y * w + w <= y2 * w) by (nonlinear_arith)
            requires
                y2 > y,
                0 <= w,
        ;
    }
}

/// A pixel inside a `w` by `h` grid has linear index below `w h`.
pub proof fn lemma_index_in_grid(w: int, h: int, x: int, y: int)
    requires
        0 <= x < w,
        0 <= y < h,
    ensures
        0 <= y * w + x < w * h,
        0 <= y * w,
{
    assert(0 <= y * w && y * w + w <= w * h) by (nonlinear_arith)
        requires
            0 <= x < w,
            0 <= y < h,
    ;
}

/// Row `y` of a `w`-wide grid ends no later than the grid does.
pub proof fn lemma_row_end(w: int, h: int, y: int)
    requires
        0 <= w,
        0 <= y < h,
    ensures
        0 <= y * w,
        y * w + w <= w * h,
{
    assert(0 <= y * w && y * w + w <= w * h) by (nonlinear_arith)
        requires
            0 <= w,
            0 <= y < h,
    ;
}

/// Pasting a bitmap that lies wholly outside the destination changes nothing.
pub proof fn lemma_blit_outside(old: Bitmap, src: Bitmap, pos: Vec2, new: Bitmap)
    requires
        Bitmap::blitted(old, src, pos, new),
        pos.x + src.w() <= 0 || pos.x >= old.w() || pos.y + src.h() <= 0 || pos.y >= old.h(),
    ensures
        new.same_pixels(&old),
{
}

/// Pasting a bitmap of the destination's own size at the origin reproduces it.
pub proof fn lemma_blit_identity(old: Bitmap, src: Bitmap, new: Bitmap)
    requires
        Bitmap::blitted(old, src, Vec2 { x: 0, y: 0 }, new),
        src.w() == old.w(),
        src.h() == old.h(),
    ensures
        new.same_pixels(&src),
{
}

/// A pixel buffer of `width * height` RGBA pixels, row-major, four bytes each.
pub struct Bitmap {
    inner: Vec<u8>,
    size: Extent2,
}

impl Bitmap {
    /// Width in pixels.
    pub closed spec fn w(&self) -> nat {
        self.size.w as nat
    }

    /// Height in pixels.
    pub closed spec fn h(&self) -> nat {
        self.size.h as nat
    }

    /// The raw bytes.
    pub closed spec fn bytes(&self) -> Seq<u8> {
        self.inner@
    }

    /// The buffer holds exactly four bytes per pixel.
    pub open spec fn wf(&self) -> bool {
        &&& self.bytes().len() == self.w() * self.h() * 4
        &&& self.w() * self.h() * 4 <= usize::MAX
    }

    pub open spec fn in_bounds(&self, x: int, y: int) -> bool {
        0 <= x < self.w() && 0 <= y < self.h()
    }

    /// The colour of pixel `(x, y)`, at bytes `4 (y w + x)` onward.
    pub open spec fn pixel(&self, x: int, y: int) -> Rgba {
        rgba_at(self.bytes(), y * self.w() + x)
    }

    /// The two bitmaps have the same dimensions and the same pixels.
    pub open spec fn same_pixels(&self, other: &Bitmap) -> bool {
        &&& self.w() == other.w()
        &&& self.h() == other.h()
        &&& forall|x: int, y: int| #[trigger]
            self.in_bounds(x, y) ==> self.pixel(x, y) == other.pixel(x, y)
    }

    /// Wraps a byte buffer of `size.w * size.h * 4` bytes.
    pub fn new(inner: Vec<u8>, size: Extent2) -> (r: Bitmap)
        requires
            inner@.len() == size.w * size.h * 4,
        ensures
            r.wf(),
            r.w() == size.w,
            r.h() == size.h,
            r.bytes() == inner@,
    {
        // a vector's length is a `usize`, so the byte count fits one
        let n = inner.len();
        assert(n == size.w * size.h * 4);
        Bitmap { inner, size }
    }

    /// A bitmap of the given size with every byte zero.
    pub fn with_size(size: Extent2) -> (r: Bitmap)
        requires
            size.w * size.h * 4 <= usize::MAX,
        ensures
            r.wf(),
            r.w() == size.w,
            r.h() == size.h,
            forall|i: int| 0 <= i < r.bytes().len() ==> r.bytes()[i] == 0,
    {
        proof {
            assert(0 <= size.w * size.h) by (nonlinear_arith);
        }
        let n = size.w * size.h * 4;
        let inner = vec![0u8; n];
        Bitmap { inner, size }
    }

    /// Width and height in pixels.
    pub fn size(&self) -> (r: Extent2)
        ensures
            r.w == self.w(),
            r.h == self.h(),
    {
        self.size
    }

    pub fn width(&self) -> (r: usize)
        ensures
            r == self.w(),
    {
        self.size.w
    }

    pub fn height(&self) -> (r: usize)
        ensures
            r == self.h(),
    {
        self.size.h
    }

    /// The number of pixels, `width * height`.
    pub fn area(&self) -> (r: usize)
        requires
            self.wf(),
        ensures
            r == self.w() * self.h(),
    {
        proof {
            assert(0 <= self.w() * self.h()) by (nonlinear_arith);
        }
        self.size.w * self.size.h
    }

    /// The raw bytes, `width * height * 4` of them.
    pub fn raw_pixels(&self) -> (r: &[u8])
        ensures
            r@ == self.bytes(),
    {
        self.inner.as_slice()
    }

    /// The raw bytes, mutably. The slice cannot change length, so the bitmap
    /// keeps four bytes per pixel; whatever is written through it becomes the
    /// bitmap's contents.
    pub fn raw_pixels_mut(&mut self) -> (r: &mut [u8])
        ensures
            r@ == old(self).bytes(),
            final(self).bytes() == final(r)@,
            final(self).w() == old(self).w(),
            final(self).h() == old(self).h(),
    {
        self.inner.as_mut_slice()
    }

    /// Gives up the bitmap, returning its raw bytes.
    pub fn into_raw(self) -> (r: Vec<u8>)
        ensures
            r@ == self.bytes(),
    {
        self.inner
    }

    /// Writes the colour of pixel number `k` (row-major).
    fn put(&mut self, k: usize, col: Rgba)
        requires
            old(self).wf(),
            k < old(self).w() * old(self).h(),
        ensures
            final(self).wf(),
            final(self).w() == old(self).w(),
            final(self).h() == old(self).h(),
            rgba_at(final(self).bytes(), k as int) == col,
            forall|j: int|
                0 <= j < final(self).bytes().len() && (j < 4 * k || j >= 4 * k + 4)
                    ==> #[trigger] final(self).bytes()[j] == old(self).bytes()[j],
    {
        let i = k * 4;
        self.inner.set(i, col.r);
        self.inner.set(i + 1, col.g);
        self.inner.set(i + 2, col.b);
        self.inner.set(i + 3, col.a);
    }

    /// Sets pixel `(x, y)` to `col`, leaving every other pixel as it was.
    fn write_pixel(&mut self, x: usize, y: usize, col: Rgba)
        requires
            old(self).wf(),
            old(self).in_bounds(x as int, y as int),
        ensures
            final(self).wf(),
            final(self).w() == old(self).w(),
            final(self).h() == old(self).h(),
            forall|x2: int, y2: int| #[trigger]
                final(self).in_bounds(x2, y2) ==> final(self).pixel(x2, y2) == if x2 == x && y2 == y {
                    col
                } else {
                    old(self).pixel(x2, y2)
                },
    {
        let w = self.size.w;
        proof {
            lemma_index_in_grid(w as int, self.h() as int, x as int, y as int);
        }
        let k = y * w + x;
        self.put(k, col);
        proof {
            assert forall|x2: int, y2: int| #[trigger]
                self.in_bounds(x2, y2) implies self.pixel(x2, y2) == if x2 == x && y2 == y {
                col
            } else {
                old(self).pixel(x2, y2)
            } by {
                lemma_row_span(w as int, y as int, x as int, x + 1, y2, x2);
                lemma_index_in_grid(w as int, self.h() as int, x2, y2);
                let k2 = y2 * w + x2;
                if !(x2 == x && y2 == y) {
                    assert(self.bytes()[4 * k2] == old(self).bytes()[4 * k2]);
                    assert(self.bytes()[4 * k2 + 1] == old(self).bytes()[4 * k2 + 1]);
                    assert(self.bytes()[4 * k2 + 2] == old(self).bytes()[4 * k2 + 2]);
                    assert(self.bytes()[4 * k2 + 3] == old(self).bytes()[4 * k2 + 3]);
                }
            }
        }
    }

    /// The colour of pixel `(x, y)`.
    pub fn pixel_at(&self, x: usize, y: usize) -> (r: Rgba)
        requires
            self.wf(),
            self.in_bounds(x as int, y as int),
        ensures
            r == self.pixel(x as int, y as int),
    {
        proof {
            lemma_index_in_grid(self.w() as int, self.h() as int, x as int, y as int);
        }
        let i = (y * self.size.w + x) * 4;
        Rgba { r: self.inner[i], g: self.inner[i + 1], b: self.inner[i + 2], a: self.inner[i + 3] }
    }

    /// Sets the pixel at `pos`, which must lie inside the bitmap, to `col`.
    pub fn draw_pixel(&mut self, pos: Vec2, col: Rgba)
        requires
            old(self).wf(),
            old(self).in_bounds(pos.x as int, pos.y as int),
        ensures
            final(self).wf(),
            final(self).w() == old(self).w(),
            final(self).h() == old(self).h(),
            forall|x: int, y: int| #[trigger]
                final(self).in_bounds(x, y) ==> final(self).pixel(x, y) == if (x, y) == pos@ {
                    col
                } else {
                    old(self).pixel(x, y)
                },
    {
        self.write_pixel(pos.x as usize, pos.y as usize, col);
    }

    /// Sets every pixel to `col`.
    pub fn clear(&mut self, col: Rgba)
        requires
            old(self).wf(),
        ensures
            final(self).wf(),
            final(self).w() == old(self).w(),
            final(self).h() == old(self).h(),
            forall|x: int, y: int| #[trigger] final(self).in_bounds(x, y) ==> final(self).pixel(x, y) == col,
    {
        let n = self.area();
        let mut k: usize = 0;
        while k < n
            invariant
                self.wf(),
                self.w() == old(self).w(),
                self.h() == old(self).h(),
                n == self.w() * self.h(),
                k <= n,
                forall|k2: int| 0 <= k2 < k ==> #[trigger] rgba_at(self.bytes(), k2) == col,
            decreases n - k,
        {
            let ghost before = self.bytes();
            self.put(k, col);
            proof {
                assert forall|k2: int| 0 <= k2 < k + 1 implies #[trigger] rgba_at(self.bytes(), k2)
                    == col by {
                    if k2 < k {
                        assert(rgba_at(before, k2) == col);
                        assert(self.bytes()[4 * k2] == before[4 * k2]);
                        assert(self.bytes()[4 * k2 + 1] == before[4 * k2 + 1]);
                        assert(self.bytes()[4 * k2 + 2] == before[4 * k2 + 2]);
                        assert(self.bytes()[4 * k2 + 3] == before[4 * k2 + 3]);
                    }
                }
            }
            k = k + 1;
        }
        proof {
            assert forall|x: int, y: int| #[trigger] self.in_bounds(x, y) implies self.pixel(x, y)
                == col by {
                lemma_index_in_grid(self.w() as int, self.h() as int, x, y);
                assert(rgba_at(self.bytes(), y * self.w() + x) == col);
            }
        }
    }

    /// The pixels in row-major order (x fastest): pixel `(x, y)` is entry
    /// `y * width + x`.
    pub fn pixels(&self) -> (r: Vec<Rgba>)
        requires
            self.wf(),
        ensures
            r@.len() == self.w() * self.h(),
            forall|x: int, y: int| #[trigger]
                self.in_bounds(x, y) ==> r@[y * self.w() + x] == self.pixel(x, y),
    {
        let n = self.area();
        let mut r: Vec<Rgba> = Vec::new();
        let mut k: usize = 0;
        while k < n
            invariant
                self.wf(),
                n == self.w() * self.h(),
                k <= n,
                r@.len() == k,
                forall|k2: int| 0 <= k2 < k ==> #[trigger] r@[k2] == rgba_at(self.bytes(), k2),
            decreases n - k,
        {
            let i = k * 4;
            r.push(
                Rgba {
                    r: self.inner[i],
                    g: self.inner[i + 1],
                    b: self.inner[i + 2],
                    a: self.inner[i + 3],
                },
            );
            k = k + 1;
        }
        proof {
            assert forall|x: int, y: int| #[trigger] self.in_bounds(x, y) implies r@[y * self.w() + x]
                == self.pixel(x, y) by {
                lemma_index_in_grid(self.w() as int, self.h() as int, x, y);
            }
        }
        r
    }

    /// Every pixel with its position, in row-major order (x fastest): entry
    /// `y * width + x` is `(x, y, colour)`.
    pub fn iter_pixels(&self) -> (r: Vec<(usize, usize, Rgba)>)
        requires
            self.wf(),
        ensures
            r@.len() == self.w() * self.h(),
            forall|x: int, y: int| #[trigger]
                self.in_bounds(x, y) ==> r@[y * self.w() + x] == (x as usize, y as usize, self.pixel(
                    x,
                    y,
                )),
    {
        let w = self.size.w;
        let h = self.size.h;
        let mut r: Vec<(usize, usize, Rgba)> = Vec::new();
        let mut y: usize = 0;
        while y < h
            invariant
                self.wf(),
                w == self.w(),
                h == self.h(),
                y <= h,
                r@.len() == y * w,
                forall|x2: int, y2: int|
                    0 <= x2 < w && 0 <= y2 < y ==> #[trigger] r@[y2 * w + x2] == (
                        x2 as usize,
                        y2 as usize,
                        self.pixel(x2, y2),
                    ),
            decreases h - y,
        {
            let mut x: usize = 0;
            while x < w
                invariant
                    self.wf(),
                    w == self.w(),
                    h == self.h(),
                    y < h,
                    x <= w,
                    r@.len() == y * w + x,
                    forall|x2: int, y2: int|
                        0 <= x2 < w && 0 <= y2 < y ==> #[trigger] r@[y2 * w + x2] == (
                            x2 as usize,
                            y2 as usize,
                            self.pixel(x2, y2),
                        ),
                    forall|x2: int| 0 <= x2 < x ==> #[trigger] r@[y * w + x2] == (
                        x2 as usize,
                        y as usize,
                        self.pixel(x2, y as int),
                    ),
                decreases w - x,
            {
                let c = self.pixel_at(x, y);
                let ghost before = r@;
                r.push((x, y, c));
                proof {
                    assert forall|x2: int, y2: int|
                        0 <= x2 < w && 0 <= y2 < y implies #[trigger] r@[y2 * w + x2] == (
                        x2 as usize,
                        y2 as usize,
                        self.pixel(x2, y2),
                    ) by {
                        lemma_row_span(w as int, y as int, 0, x as int, y2, x2);
                        lemma_row_span(w as int, y2, 0, w as int, y2, x2);
                        assert(y2 * w + w <= y * w) by (nonlinear_arith)
                            requires
                                y2 < y,
                                0 <= w,
                        ;
                        assert(r@[y2 * w + x2] == before[y2 * w + x2]);
                    }
                    assert forall|x2: int| 0 <= x2 < x + 1 implies #[trigger] r@[y * w + x2] == (
                        x2 as usize,
                        y as usize,
                        self.pixel(x2, y as int),
                    ) by {
                        if x2 < x {
                            assert(r@[y * w + x2] == before[y * w + x2]);
                        }
                    }
                }
                x = x + 1;
            }
            proof {
                assert((y + 1) * w == y * w + w) by (nonlinear_arith);
                assert forall|x2: int, y2: int|
                    0 <= x2 < w && 0 <= y2 < y + 1 implies #[trigger] r@[y2 * w + x2] == (
                    x2 as usize,
                    y2 as usize,
                    self.pixel(x2, y2),
                ) by {
                    if y2 == y {
                        assert(r@[y * w + x2] == (x2 as usize, y as usize, self.pixel(x2, y as int)));
                    }
                }
            }
            y = y + 1;
        }
        proof {
            assert(h * w == w * h) by (nonlinear_arith);
        }
        r
    }

    /// Copies `n` pixels of row `sy` of `src`, from column `sx0` on, onto row `dy`
    /// of this bitmap from column `dx0` on, as one run of bytes.
    fn copy_row(&mut self, src: &Bitmap, sy: usize, sx0: usize, dy: usize, dx0: usize, n: usize)
        requires
            old(self).wf(),
            src.wf(),
            sy < src.h(),
            sx0 + n <= src.w(),
            dy < old(self).h(),
            dx0 + n <= old(self).w(),
        ensures
            final(self).wf(),
            final(self).w() == old(self).w(),
            final(self).h() == old(self).h(),
            forall|x: int, y: int| #[trigger]
                final(self).in_bounds(x, y) ==> final(self).pixel(x, y) == if y == dy && dx0 <= x
                    < dx0 + n {
                    src.pixel(sx0 + x - dx0, sy as int)
                } else {
                    old(self).pixel(x, y)
                },
    {
        let w = self.size.w;
        let sw = src.size.w;
        proof {
            lemma_row_end(w as int, self.h() as int, dy as int);
            lemma_row_end(sw as int, src.h() as int, sy as int);
        }
        let d0 = (dy * w + dx0) * 4;
        let s0 = (sy * sw + sx0) * 4;
        let len = n * 4;
        let mut k: usize = 0;
        while k < len
            invariant
                self.wf(),
                self.w() == old(self).w(),
                self.h() == old(self).h(),
                src.wf(),
                d0 + len <= self.bytes().len(),
                s0 + len <= src.bytes().len(),
                k <= len,
                forall|j: int|
                    0 <= j < self.bytes().len() ==> #[trigger] self.bytes()[j] == if d0 <= j < d0 + k {
                        src.bytes()[s0 + j - d0]
                    } else {
                        old(self).bytes()[j]
                    },
            decreases len - k,
        {
            let b = src.inner[s0 + k];
            self.inner.set(d0 + k, b);
            k = k + 1;
        }
        proof {
            assert forall|x: int, y: int| #[trigger] self.in_bounds(x, y) implies self.pixel(x, y)
                == if y == dy && dx0 <= x < dx0 + n {
                src.pixel(sx0 + x - dx0, sy as int)
            } else {
                old(self).pixel(x, y)
            } by {
                lemma_row_span(w as int, dy as int, dx0 as int, dx0 + n, y, x);
                lemma_index_in_grid(w as int, self.h() as int, x, y);
                let kk = y * w + x;
                let sk = sy * sw + sx0 + x - dx0;
                assert(self.bytes()[4 * kk] == if d0 <= 4 * kk < d0 + len {
                    src.bytes()[s0 + 4 * kk - d0]
                } else {
                    old(self).bytes()[4 * kk]
                });
                assert(self.bytes()[4 * kk + 1] == if d0 <= 4 * kk + 1 < d0 + len {
                    src.bytes()[s0 + 4 * kk + 1 - d0]
                } else {
                    old(self).bytes()[4 * kk + 1]
                });
                assert(self.bytes()[4 * kk + 2] == if d0 <= 4 * kk + 2 < d0 + len {
                    src.bytes()[s0 + 4 * kk + 2 - d0]
                } else {
                    old(self).bytes()[4 * kk + 2]
                });
                assert(self.bytes()[4 * kk + 3] == if d0 <= 4 * kk + 3 < d0 + len {
                    src.bytes()[s0 + 4 * kk + 3 - d0]
                } else {
                    old(self).bytes()[4 * kk + 3]
                });
                if y == dy && dx0 <= x < dx0 + n {
                    assert(s0 + 4 * kk - d0 == 4 * sk);
                }
            }
        }
    }

    /// `new` is `old` with `src` pasted at `pos`, clipped to `old`'s bounds.
    pub open spec fn blitted(old: Bitmap, src: Bitmap, pos: Vec2, new: Bitmap) -> bool {
        &&& new.wf()
        &&& new.w() == old.w()
        &&& new.h() == old.h()
        &&& forall|x: int, y: int| #[trigger]
            new.in_bounds(x, y) ==> new.pixel(x, y) == if src.in_bounds(x - pos.x, y - pos.y) {
                src.pixel(x - pos.x, y - pos.y)
            } else {
                old.pixel(x, y)
            }
    }

    /// Pastes `src` onto this bitmap with its top-left corner at `pos`: every
    /// pixel of this bitmap that some pixel of `src` lands on takes that pixel's
    /// colour; the parts of `src` that fall outside are clipped. `src` is not
    /// changed.
    pub fn draw_bitmap(&mut self, src: &Bitmap, pos: Vec2)
        requires
            old(self).wf(),
            src.wf(),
        ensures
            Bitmap::blitted(*old(self), *src, pos, *final(self)),
    {
        let ox = pos.x as i128;
        let oy = pos.y as i128;
        let dw = self.size.w as i128;
        let dh = self.size.h as i128;
        let sw = src.size.w as i128;
        let sh = src.size.h as i128;
        // the part of src that lands inside this bitmap, in src's coordinates
        let sx0 = if ox < 0 {
            -ox
        } else {
            0
        };
        let sx1 = if dw - ox < sw {
            dw - ox
        } else {
            sw
        };
        let sy0 = if oy < 0 {
            -oy
        } else {
            0
        };
        let sy1 = if dh - oy < sh {
            dh - oy
        } else {
            sh
        };
        if sx0 >= sx1 || sy0 >= sy1 {
            // nothing to copy
            return;
        }
        let n = (sx1 - sx0) as usize;
        let dx0 = (sx0 + ox) as usize;
        let mut sy = sy0;
        while sy < sy1
            invariant
                self.wf(),
                self.w() == old(self).w(),
                self.h() == old(self).h(),
                src.wf(),
                dw == self.w(),
                dh == self.h(),
                sw == src.w(),
                sh == src.h(),
                0 <= sx0 < sx1 <= sw,
                sx1 <= dw - ox,
                sx0 + ox >= 0,
                0 <= sy0 <= sy <= sy1,
                sy1 <= sh,
                sy1 <= dh - oy,
                sy0 + oy >= 0,
                n == sx1 - sx0,
                dx0 == sx0 + ox,
                forall|x: int, y: int| #[trigger]
                    self.in_bounds(x, y) ==> self.pixel(x, y) == if sy0 <= y - oy < sy && sx0 <= x
                        - ox < sx1 {
                        src.pixel(x - ox, y - oy)
                    } else {
                        old(self).pixel(x, y)
                    },
            decreases sy1 - sy,
        {
            let dy = (sy + oy) as usize;
            let ghost before = *self;
            self.copy_row(src, sy as usize, sx0 as usize, dy, dx0, n);
            proof {
                assert forall|x: int, y: int| #[trigger] self.in_bounds(x, y) implies self.pixel(x, y)
                    == if sy0 <= y - oy < sy + 1 && sx0 <= x - ox < sx1 {
                    src.pixel(x - ox, y - oy)
                } else {
                    old(self).pixel(x, y)
                } by {
                    assert(before.in_bounds(x, y));
                    assert(self.pixel(x, y) == if y == dy && dx0 <= x < dx0 + n {
                        src.pixel(sx0 + x - dx0, sy as int)
                    } else {
                        before.pixel(x, y)
                    });
                }
            }
            sy = sy + 1;
        }
    }

    /// Draws the segment from `a` to `b` in `col`; points of the segment
    /// outside the bitmap are skipped.
    pub fn draw_line(&mut self, a: Vec2, b: Vec2, col: Rgba)
        requires
            old(self).wf(),
        ensures
            final(self).wf(),
            final(self).w() == old(self).w(),
            final(self).h() == old(self).h(),
            forall|x: int, y: int| #[trigger]
                final(self).in_bounds(x, y) ==> final(self).pixel(x, y) == if line_points(
                    a,
                    b,
                ).contains((x, y)) {
                    col
                } else {
                    old(self).pixel(x, y)
                },
    {
        let w = self.size.w;
        let h = self.size.h;
        let mut it = Bresenham::new(a, b);
        let ghost all = line_points(a, b);
        let ghost mut done: Seq<(int, int)> = Seq::empty();
        loop
            invariant
                it.wf(),
                it.bounds().is_none(),
                done + it.remaining() == all,
                self.wf(),
                self.w() == old(self).w(),
                self.h() == old(self).h(),
                w == self.w(),
                h == self.h(),
                forall|x: int, y: int| #[trigger]
                    self.in_bounds(x, y) ==> self.pixel(x, y) == if done.contains((x, y)) {
                        col
                    } else {
                        old(self).pixel(x, y)
                    },
            ensures
                done == all,
            decreases it.remaining().len(),
        {
            let ghost rest = it.remaining();
            match it.next() {
                None => {
                    assert(done =~= all);
                    break ;
                },
                Some(p) => {
                    let ghost before = *self;
                    if p.x >= 0 && p.y >= 0 && (p.x as usize) < w && (p.y as usize) < h {
                        self.write_pixel(p.x as usize, p.y as usize, col);
                    }
                    proof {
                        assert forall|x: int, y: int| #[trigger]
                            self.in_bounds(x, y) implies self.pixel(x, y) == if done.push(
                            p@,
                        ).contains((x, y)) {
                            col
                        } else {
                            old(self).pixel(x, y)
                        } by {
                            lemma_push_contains(done, p@, (x, y));
                            assert(before.in_bounds(x, y));
                            if (x, y) != p@ {
                                assert(self.pixel(x, y) == before.pixel(x, y));
                            }
                        }
                        assert(done.push(p@) + it.remaining() =~= all) by {
                            assert(rest =~= seq![p@] + rest.drop_first());
                        }
                        done = done.push(p@);
                    }
                },
            }
        }
    }

    /// Fills the triangle `a, b, c` (boundary included) in `col`, inside the
    /// bitmap's bounds.
    pub fn draw_triangle(&mut self, a: Vec2, b: Vec2, c: Vec2, col: Rgba)
        requires
            old(self).wf(),
        ensures
            final(self).wf(),
            final(self).w() == old(self).w(),
            final(self).h() == old(self).h(),
            forall|x: int, y: int| #[trigger]
                final(self).in_bounds(x, y) ==> final(self).pixel(x, y) == if covered_by([a, b, c])(
                    (x, y),
                ) {
                    col
                } else {
                    old(self).pixel(x, y)
                },
    {
        let pts = [a, b, c];
        let size = self.size;
        let mut it = Triangle::new_bounded(pts, size);
        let ghost all = raster_points(pts, size);
        let ghost mut done: Seq<(int, int)> = Seq::empty();
        loop
            invariant
                it.wf(),
                done + it.remaining() == all,
                all == raster_points(pts, size),
                self.wf(),
                self.w() == old(self).w(),
                self.h() == old(self).h(),
                size.w == self.w(),
                size.h == self.h(),
                forall|x: int, y: int| #[trigger]
                    self.in_bounds(x, y) ==> self.pixel(x, y) == if done.contains((x, y)) {
                        col
                    } else {
                        old(self).pixel(x, y)
                    },
            ensures
                done == all,
            decreases it.remaining().len(),
        {
            let ghost rest = it.remaining();
            match it.next() {
                None => {
                    assert(done =~= all);
                    break ;
                },
                Some((p, _)) => {
                    proof {
                        assert(all[done.len() as int] == p@);
                        lemma_raster_points(pts, size, p@);
                    }
                    let ghost before = *self;
                    self.write_pixel(p.x as usize, p.y as usize, col);
                    proof {
                        assert forall|x: int, y: int| #[trigger]
                            self.in_bounds(x, y) implies self.pixel(x, y) == if done.push(
                            p@,
                        ).contains((x, y)) {
                            col
                        } else {
                            old(self).pixel(x, y)
                        } by {
                            lemma_push_contains(done, p@, (x, y));
                            assert(before.in_bounds(x, y));
                            if (x, y) != p@ {
                                assert(self.pixel(x, y) == before.pixel(x, y));
                            }
                        }
                        assert(done.push(p@) + it.remaining() =~= all) by {
                            assert(rest =~= seq![p@] + rest.drop_first());
                        }
                        done = done.push(p@);
                    }
                },
            }
        }
        proof {
            assert forall|x: int, y: int| #[trigger] self.in_bounds(x, y) implies self.pixel(x, y)
                == if covered_by([a, b, c])((x, y)) {
                col
            } else {
                old(self).pixel(x, y)
            } by {
                lemma_raster_points(pts, size, (x, y));
            }
        }
    }
}

} // verus!
