//! Drawing onto a bitmap with clipping: lines, and triangles resolved against
//! a depth buffer.

use vstd::prelude::*;
use vstd::arithmetic::div_mod::lemma_fundamental_div_mod;

use crate::math::{Vec2, Vec3, Rgba, lemma_push_contains};
use crate::barycentric::{bary_weights, lemma_weights_bounded};
use crate::bresenham::{Bresenham, line_points, clip};
use crate::triangle::{Triangle, raster_points, covered_by, lemma_raster_points};
use crate::bitmap::{Bitmap, lemma_index_in_grid};
use crate::shader::{lerp, lerp3};

verus! {

/// The depth value that marks a depth-buffer entry as empty: farther than
/// any fragment.
pub const FAR: i64 = i64::MIN;

/// The triangle's corners on the grid, without depth.
pub open spec fn corners(tri: [Vec3; 3]) -> [Vec2; 3] {
    [tri[0].spec_xy(), tri[1].spec_xy(), tri[2].spec_xy()]
}

/// The triangle's depth at grid point `q`: the corner depths interpolated by
/// `q`'s barycentric weights, rounded down.
pub open spec fn fragment_depth(tri: [Vec3; 3], q: (int, int)) -> int {
    lerp(
        tri[0].z as int,
        tri[1].z as int,
        tri[2].z as int,
        bary_weights(q, tri[0].spec_xy()@, tri[1].spec_xy()@, tri[2].spec_xy()@),
    )
}

/// Whether the triangle covers `q` with a fragment closer than depth `d`.
pub open spec fn passes(tri: [Vec3; 3], q: (int, int), d: int) -> bool {
    covered_by(corners(tri))(q) && fragment_depth(tri, q) > d
}

/// `(new_f, new_d)` is what drawing triangle `tri` in `col` makes of the
/// bitmap `old_f` and depth buffer `old_d` (entry `y * w + x` for pixel
/// `(x, y)`): at every pixel the triangle covers with a fragment strictly closer
/// than the stored depth, the depth becomes the fragment's and the pixel becomes
/// `col`; everything else, including depth entries past the last pixel, is
/// unchanged.
pub open spec fn triangle_drawn(
    old_f: Bitmap,
    old_d: Seq<i64>,
    new_f: Bitmap,
    new_d: Seq<i64>,
    tri: [Vec3; 3],
    col: Rgba,
) -> bool {
    &&& new_f.wf()
    &&& new_f.w() == old_f.w()
    &&& new_f.h() == old_f.h()
    &&& new_d.len() == old_d.len()
    &&& forall|k: int|
        new_f.w() * new_f.h() <= k < new_d.len() ==> #[trigger] new_d[k] == old_d[k]
    &&& forall|x: int, y: int| #[trigger]
        new_f.in_bounds(x, y) ==> {
            let k = y * new_f.w() + x;
            if passes(tri, (x, y), old_d[k] as int) {
                new_d[k] == fragment_depth(tri, (x, y)) && new_f.pixel(x, y) == col
            } else {
                new_d[k] == old_d[k] && new_f.pixel(x, y) == old_f.pixel(x, y)
            }
        }
}

/// Drawing the same triangle a second time changes nothing: its fragments are
/// no closer than the depths its first drawing left.
pub proof fn lemma_draw_twice(
    f0: Bitmap,
    d0: Seq<i64>,
    f1: Bitmap,
    d1: Seq<i64>,
    f2: Bitmap,
    d2: Seq<i64>,
    tri: [Vec3; 3],
    col: Rgba,
)
    requires
        f0.wf(),
        d0.len() >= f0.w() * f0.h(),
        triangle_drawn(f0, d0, f1, d1, tri, col),
        triangle_drawn(f1, d1, f2, d2, tri, col),
    ensures
        f2.same_pixels(&f1),
        d2 == d1,
{
    let w = f0.w() as int;
    let h = f0.h() as int;
    assert forall|k: int| 0 <= k < d1.len() implies d2[k] == d1[k] by {
        if k >= w * h {
            assert(d2[k] == d1[k]);
        } else {
            lemma_div_within(k, w, h);
            assert(f2.in_bounds(k % w, k / w));
            assert(f1.in_bounds(k % w, k / w));
        }
    }
    assert(d2 =~= d1);
    assert forall|x: int, y: int| #[trigger] f2.in_bounds(x, y) implies f2.pixel(x, y) == f1.pixel(
        x,
        y,
    ) by {
        assert(f1.in_bounds(x, y));
    }
}

/// Every index of a `w` by `h` grid is `y * w + x` for some pixel `(x, y)` of it.
proof fn lemma_div_within(k: int, w: int, h: int)
    requires
        0 <= k < w * h,
        0 <= w,
    ensures
        0 <= k % w < w,
        0 <= k / w < h,
        k == (k / w) * w + k % w,
{
    if w == 0 {
        assert(w * h == 0);
    } else {
        lemma_fundamental_div_mod(k, w);
        let x = k % w;
        let y = k / w;
        assert(0 <= y < h) by (nonlinear_arith)
            requires
                k == w * y + x,
                0 <= x < w,
                0 <= k < w * h,
        ;
        assert(k == y * w + x) by (nonlinear_arith)
            requires
                k == w * y + x,
        ;
    }
}

/// Occlusion does not depend on drawing order: where triangle `tb` covers a
/// pixel closer than the depth stored there, and closer than triangle `ta`
/// wherever `ta` covers it too, the pixel ends up in `tb`'s colour whether `ta`
/// is drawn first (`fa`, then `fab`) or second (`fb`, then `fba`).
pub proof fn lemma_occlusion(
    f0: Bitmap,
    d0: Seq<i64>,
    ta: [Vec3; 3],
    ca: Rgba,
    tb: [Vec3; 3],
    cb: Rgba,
    fa: Bitmap,
    da: Seq<i64>,
    fab: Bitmap,
    dab: Seq<i64>,
    fb: Bitmap,
    db: Seq<i64>,
    fba: Bitmap,
    dba: Seq<i64>,
    x: int,
    y: int,
)
    requires
        triangle_drawn(f0, d0, fa, da, ta, ca),
        triangle_drawn(fa, da, fab, dab, tb, cb),
        triangle_drawn(f0, d0, fb, db, tb, cb),
        triangle_drawn(fb, db, fba, dba, ta, ca),
        f0.in_bounds(x, y),
        passes(tb, (x, y), d0[y * f0.w() + x] as int),
        covered_by(corners(ta))((x, y)) ==> fragment_depth(tb, (x, y)) > fragment_depth(
            ta,
            (x, y),
        ),
    ensures
        fab.pixel(x, y) == cb,
        fba.pixel(x, y) == cb,
{
    assert(fa.in_bounds(x, y));
    assert(fab.in_bounds(x, y));
    assert(fb.in_bounds(x, y));
    assert(fba.in_bounds(x, y));
}

/// Draws the segment from `a` to `b` in `col`, skipping the points that fall
/// outside the bitmap.
pub fn line(frame: &mut Bitmap, a: Vec2, b: Vec2, col: Rgba)
    requires
        old(frame).wf(),
    ensures
        final(frame).wf(),
        final(frame).w() == old(frame).w(),
        final(frame).h() == old(frame).h(),
        forall|x: int, y: int| #[trigger]
            final(frame).in_bounds(x, y) ==> final(frame).pixel(x, y) == if line_points(
                a,
                b,
            ).contains((x, y)) {
                col
            } else {
                old(frame).pixel(x, y)
            },
{
    let size = frame.size();
    let mut it = Bresenham::new_bounded(a, b, size);
    let ghost all = clip(line_points(a, b), size);
    let ghost mut done: Seq<(int, int)> = Seq::empty();
    loop
        invariant
            it.wf(),
            it.bounds() == Some(size),
            done + it.remaining() == all,
            all == clip(line_points(a, b), size),
            frame.wf(),
            frame.w() == old(frame).w(),
            frame.h() == old(frame).h(),
            size.w == frame.w(),
            size.h == frame.h(),
            forall|x: int, y: int| #[trigger]
                frame.in_bounds(x, y) ==> frame.pixel(x, y) == if done.contains((x, y)) {
                    col
                } else {
                    old(frame).pixel(x, y)
                },
        ensures
            done == all,
        decreases it.remaining().len(),
    {
        let ghost rest = it.remaining();
        match it.next() {
            None => {
                assert(done =~= all);
                break ;
            },
            Some(p) => {
                proof {
                    assert(all[done.len() as int] == p@);
                    crate::math::lemma_keep_contains(
                        line_points(a, b),
                        |q: (int, int)| size.contains(q),
                        p@,
                    );
                }
                let ghost before = *frame;
                frame.draw_pixel(p, col);
                proof {
                    assert forall|x: int, y: int| #[trigger]
                        frame.in_bounds(x, y) implies frame.pixel(x, y) == if done.push(
                        p@,
                    ).contains((x, y)) {
                        col
                    } else {
                        old(frame).pixel(x, y)
                    } by {
                        lemma_push_contains(done, p@, (x, y));
                        assert(before.in_bounds(x, y));
                    }
                    assert(done.push(p@) + it.remaining() =~= all) by {
                        assert(rest =~= seq![p@] + rest.drop_first());
                    }
                    done = done.push(p@);
                }
            },
        }
    }
    proof {
        assert forall|x: int, y: int| #[trigger] frame.in_bounds(x, y) implies frame.pixel(x, y)
            == if line_points(a, b).contains((x, y)) {
            col
        } else {
            old(frame).pixel(x, y)
        } by {
            crate::math::lemma_keep_contains(
                line_points(a, b),
                |q: (int, int)| size.contains(q),
                (x, y),
            );
        }
    }
}

/// Draws triangle `tri` in `col` against the depth buffer `depth` (at least
/// one entry per pixel, row-major): a covered pixel is painted, and its depth entry
/// replaced, only where the triangle's interpolated depth there is strictly
/// greater (closer) than the entry. Pixels outside the bitmap are skipped.
pub fn triangle(frame: &mut Bitmap, depth: &mut Vec<i64>, tri: [Vec3; 3], col: Rgba)
    requires
        old(frame).wf(),
        old(depth)@.len() >= old(frame).w() * old(frame).h(),
    ensures
        triangle_drawn(*old(frame), old(depth)@, *final(frame), final(depth)@, tri, col),
{
    let size = frame.size();
    let w = size.w;
    let pts = [tri[0].xy(), tri[1].xy(), tri[2].xy()];
    let zs = [tri[0].z, tri[1].z, tri[2].z];
    let mut it = Triangle::new_bounded(pts, size);
    let ghost all = raster_points(pts, size);
    let ghost mut done: Seq<(int, int)> = Seq::empty();
    proof {
        assert(pts == corners(tri));
        lemma_raster_points(pts, size, (0, 0));
    }
    loop
        invariant
            it.wf(),
            it.corners() == pts,
            pts == corners(tri),
            zs@ == seq![tri[0].z, tri[1].z, tri[2].z],
            done + it.remaining() == all,
            all == raster_points(pts, size),
            all.no_duplicates(),
            frame.wf(),
            frame.w() == old(frame).w(),
            frame.h() == old(frame).h(),
            size.w == frame.w(),
            size.h == frame.h(),
            w == size.w,
            depth@.len() == old(depth)@.len(),
            old(depth)@.len() >= old(frame).w() * old(frame).h(),
            forall|k: int|
                frame.w() * frame.h() <= k < depth@.len() ==> #[trigger] depth@[k] == old(
                    depth,
                )@[k],
            forall|x: int, y: int| #[trigger]
                frame.in_bounds(x, y) ==> {
                    let k = y * w + x;
                    if done.contains((x, y)) && passes(tri, (x, y), old(depth)@[k] as int) {
                        depth@[k] == fragment_depth(tri, (x, y)) && frame.pixel(x, y) == col
                    } else {
                        depth@[k] == old(depth)@[k] && frame.pixel(x, y) == old(frame).pixel(x, y)
                    }
                },
        ensures
            done == all,
        decreases it.remaining().len(),
    {
        let ghost rest = it.remaining();
        match it.next() {
            None => {
                assert(done =~= all);
                break ;
            },
            Some((p, bar)) => {
                let ghost j = done.len() as int;
                proof {
                    assert(all[j] == p@);
                    lemma_raster_points(pts, size, p@);
                    lemma_weights_bounded(p, pts);
                    assert(!done.contains(p@)) by {
                        if done.contains(p@) {
                            let i = choose|i: int| 0 <= i < done.len() && done[i] == p@;
                            assert(all[i] == p@);
                        }
                    }
                    lemma_index_in_grid(w as int, size.h as int, p.x as int, p.y as int);
                    crate::barycentric::lemma_weights_locate(p@, pts[0]@, pts[1]@, pts[2]@);
                }
                let z = lerp3(zs[0] as i64, zs[1] as i64, zs[2] as i64, &bar);
                assert(z == fragment_depth(tri, p@));
                let k = p.y as usize * w + p.x as usize;
                let ghost before = *frame;
                let ghost before_d = depth@;
                if depth[k] < z {
                    depth.set(k, z);
                    frame.draw_pixel(p, col);
                }
                proof {
                    assert forall|x: int, y: int| #[trigger] frame.in_bounds(x, y) implies {
                        let k2 = y * w + x;
                        if done.push(p@).contains((x, y)) && passes(
                            tri,
                            (x, y),
                            old(depth)@[k2] as int,
                        ) {
                            depth@[k2] == fragment_depth(tri, (x, y)) && frame.pixel(x, y) == col
                        } else {
                            depth@[k2] == old(depth)@[k2] && frame.pixel(x, y) == old(
                                frame,
                            ).pixel(x, y)
                        }
                    } by {
                        lemma_push_contains(done, p@, (x, y));
                        assert(before.in_bounds(x, y));
                        lemma_index_in_grid(w as int, size.h as int, x, y);
                        crate::bitmap::lemma_row_span(
                            w as int,
                            p.y as int,
                            p.x as int,
                            p.x + 1,
                            y,
                            x,
                        );
                        let k2 = y * w + x;
                        if (x, y) == p@ {
                            assert(k2 == k);
                            assert(before_d[k2] == old(depth)@[k2] && before.pixel(x, y) == old(
                                frame,
                            ).pixel(x, y));
                        } else {
                            assert(k2 != k);
                            assert(depth@[k2] == before_d[k2]);
                            assert(frame.pixel(x, y) == before.pixel(x, y));
                        }
                    }
                    assert(done.push(p@) + it.remaining() =~= all) by {
                        assert(rest =~= seq![p@] + rest.drop_first());
                    }
                    done = done.push(p@);
                }
            },
        }
    }
    proof {
        assert forall|x: int, y: int| #[trigger] frame.in_bounds(x, y) implies {
            let k = y * frame.w() + x;
            if passes(tri, (x, y), old(depth)@[k] as int) {
                depth@[k] == fragment_depth(tri, (x, y)) && frame.pixel(x, y) == col
            } else {
                depth@[k] == old(depth)@[k] && frame.pixel(x, y) == old(frame).pixel(x, y)
            }
        } by {
            lemma_raster_points(pts, size, (x, y));
        }
    }
}

/// At grid point `q`, after drawing the first `n` of `tris` onto an empty
/// depth buffer: the depth stored there and the index of the triangle whose
/// colour the pixel holds (-1 when none reached it). A later triangle replaces
/// an earlier one only where it is strictly closer, so on ties the first one
/// drawn stays.
pub open spec fn front(tris: Seq<[Vec3; 3]>, n: int, q: (int, int)) -> (int, int)
    decreases n,
{
    if n <= 0 {
        (FAR as int, -1)
    } else {
        let before = front(tris, n - 1, q);
        if passes(tris[n - 1], q, before.0) {
            (fragment_depth(tris[n - 1], q), n - 1)
        } else {
            before
        }
    }
}

/// Renders one frame: fills `frame` with `background`, starts a fresh depth
/// buffer, and draws each triangle of `tris` in its colour from `cols`, in
/// order. Each pixel ends up in the colour of the frontmost triangle covering
/// it (the first drawn among equally close ones), or in `background`.
pub fn render_faces(frame: &mut Bitmap, tris: &Vec<[Vec3; 3]>, cols: &Vec<Rgba>, background: Rgba)
    requires
        old(frame).wf(),
        tris@.len() == cols@.len(),
    ensures
        final(frame).wf(),
        final(frame).w() == old(frame).w(),
        final(frame).h() == old(frame).h(),
        forall|x: int, y: int| #[trigger]
            final(frame).in_bounds(x, y) ==> final(frame).pixel(x, y) == if front(
                tris@,
                tris@.len() as int,
                (x, y),
            ).1 >= 0 {
                cols@[front(tris@, tris@.len() as int, (x, y)).1]
            } else {
                background
            },
{
    frame.clear(background);
    let n = frame.area();
    let mut depth: Vec<i64> = vec![FAR; n];
    let w = frame.width();
    proof {
        assert forall|x: int, y: int| #[trigger] frame.in_bounds(x, y) implies {
            let f = front(tris@, 0, (x, y));
            &&& depth@[y * w + x] == f.0
            &&& -1 <= f.1 < 0
            &&& frame.pixel(x, y) == background
        } by {
            lemma_index_in_grid(w as int, frame.h() as int, x, y);
        }
    }
    let mut i: usize = 0;
    while i < tris.len()
        invariant
            frame.wf(),
            frame.w() == old(frame).w(),
            frame.h() == old(frame).h(),
            w == frame.w(),
            depth@.len() == frame.w() * frame.h(),
            tris@.len() == cols@.len(),
            i <= tris@.len(),
            forall|x: int, y: int| #[trigger]
                frame.in_bounds(x, y) ==> {
                    let f = front(tris@, i as int, (x, y));
                    &&& depth@[y * w + x] == f.0
                    &&& -1 <= f.1 < i
                    &&& frame.pixel(x, y) == if f.1 >= 0 {
                        cols@[f.1]
                    } else {
                        background
                    }
                },
        decreases tris@.len() - i,
    {
        let ghost before = *frame;
        let ghost before_d = depth@;
        triangle(frame, &mut depth, tris[i], cols[i]);
        proof {
            assert forall|x: int, y: int| #[trigger] frame.in_bounds(x, y) implies {
                let f = front(tris@, i + 1, (x, y));
                &&& depth@[y * w + x] == f.0
                &&& -1 <= f.1 < i + 1
                &&& frame.pixel(x, y) == if f.1 >= 0 {
                    cols@[f.1]
                } else {
                    background
                }
            } by {
                assert(before.in_bounds(x, y));
                assert(front(tris@, i + 1, (x, y)) == {
                    let b = front(tris@, i as int, (x, y));
                    if passes(tris@[i as int], (x, y), b.0) {
                        (fragment_depth(tris@[i as int], (x, y)), i as int)
                    } else {
                        b
                    }
                });
            }
        }
        i = i + 1;
    }
    proof {
        assert forall|x: int, y: int| #[trigger] frame.in_bounds(x, y) implies frame.pixel(x, y)
            == if front(tris@, tris@.len() as int, (x, y)).1 >= 0 {
            cols@[front(tris@, tris@.len() as int, (x, y)).1]
        } else {
            background
        } by {
            assert(frame.in_bounds(x, y));
        }
    }
}

} // verus!
