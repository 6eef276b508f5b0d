use rasterizer::barycentric::{barycentric, Barycentric};
use rasterizer::bitmap::Bitmap;
use rasterizer::math::{Extent2, Rgba, Vec2};
use rasterizer::triangle::Triangle;

fn v(x: i32, y: i32) -> Vec2 {
    Vec2::new(x, y)
}

fn weights(b: Barycentric) -> (i128, i128, i128, i128) {
    (b.u, b.v, b.w, b.den)
}

#[test]
fn barycentric_inside_point() {
    let b = barycentric(v(1, 1), [v(0, 0), v(4, 0), v(0, 4)]);
    assert_eq!(weights(b), (8, 4, 4, 16));
    assert!(b.is_inside());
}

#[test]
fn barycentric_clockwise_triangle_has_positive_denominator() {
    let b = barycentric(v(1, 1), [v(0, 0), v(0, 4), v(4, 0)]);
    assert_eq!(weights(b), (8, 4, 4, 16));
}

#[test]
fn barycentric_outside_point() {
    let b = barycentric(v(5, 5), [v(0, 0), v(4, 0), v(0, 4)]);
    assert_eq!(weights(b), (-24, 20, 20, 16));
    assert!(!b.is_inside());
}

#[test]
fn barycentric_at_corners() {
    let pts = [v(-3, 2), v(7, 5), v(1, -9)];
    let d = barycentric(pts[0], pts).den;
    assert!(d > 0);
    assert_eq!(weights(barycentric(pts[0], pts)), (d, 0, 0, d));
    assert_eq!(weights(barycentric(pts[1], pts)), (0, d, 0, d));
    assert_eq!(weights(barycentric(pts[2], pts)), (0, 0, d, d));
}

#[test]
fn barycentric_degenerate_triangle() {
    let b = barycentric(v(1, 0), [v(0, 0), v(1, 1), v(2, 2)]);
    assert_eq!(weights(b), (-1, 2, -1, 0));
    assert!(!b.is_inside());
}

#[test]
fn barycentric_partition_on_a_grid() {
    let pts = [v(2, 1), v(11, 4), v(5, 9)];
    for y in -2..12 {
        for x in -2..14 {
            let b = barycentric(v(x, y), pts);
            assert_eq!(b.u + b.v + b.w, b.den);
            assert_eq!(b.den * x as i128, b.u * 2 + b.v * 11 + b.w * 5);
            assert_eq!(b.den * y as i128, b.u * 1 + b.v * 4 + b.w * 9);
        }
    }
}

fn collect(mut t: Triangle) -> Vec<(i32, i32)> {
    let mut out = Vec::new();
    while let Some((p, b)) = t.next() {
        assert!(b.is_inside());
        out.push((p.x, p.y));
    }
    out
}

#[test]
fn triangle_points_in_row_major_order() {
    let pts = collect(Triangle::new([v(0, 0), v(4, 0), v(0, 4)]));
    let mut expected = Vec::new();
    for y in 0..=4 {
        for x in 0..=4 - y {
            expected.push((x, y));
        }
    }
    assert_eq!(pts.len(), 15);
    assert_eq!(pts, expected);
}

#[test]
fn bounded_triangle_is_clipped() {
    let pts = collect(Triangle::new_bounded([v(0, 0), v(4, 0), v(0, 4)], Extent2::new(3, 3)));
    let mut expected = Vec::new();
    for y in 0..3 {
        for x in 0..3 {
            expected.push((x, y));
        }
    }
    assert_eq!(pts, expected);
}

#[test]
fn triangle_off_grid_yields_nothing() {
    assert!(collect(Triangle::new_bounded([v(-9, -9), v(-1, -9), v(-9, -1)], Extent2::new(5, 5))).is_empty());
    assert!(collect(Triangle::new_bounded([v(20, 0), v(30, 0), v(20, 5)], Extent2::new(5, 5))).is_empty());
    assert!(collect(Triangle::new_bounded([v(0, 0), v(3, 0), v(0, 3)], Extent2::new(0, 4))).is_empty());
}

#[test]
fn degenerate_triangle_yields_nothing() {
    assert!(collect(Triangle::new([v(0, 0), v(2, 2), v(4, 4)])).is_empty());
}

#[test]
fn triangle_weights_match_barycentric() {
    let corners = [v(1, 0), v(6, 2), v(2, 5)];
    let mut t = Triangle::new(corners);
    let mut n = 0;
    while let Some((p, b)) = t.next() {
        assert_eq!(b, barycentric(p, corners));
        n += 1;
    }
    assert!(n > 0);
}

#[test]
fn flat_fill_paints_covered_pixels() {
    let mut frame = Bitmap::with_size(Extent2::new(6, 6));
    let red = Rgba::new(255, 0, 0, 255);
    frame.draw_triangle(v(0, 0), v(4, 0), v(0, 4), red);
    for y in 0..6usize {
        for x in 0..6usize {
            let inside = x + y <= 4;
            let expected = if inside { red } else { Rgba::new(0, 0, 0, 0) };
            assert_eq!(frame.pixel_at(x, y), expected);
        }
    }
}

#[test]
fn unbounded_triangle_reaches_negative_coordinates() {
    let corners = [v(-2, -2), v(2, -2), v(-2, 2)];
    let mut t = Triangle::new(corners);
    let mut pts = Vec::new();
    while let Some((p, b)) = t.next() {
        assert_eq!(b, barycentric(p, corners));
        if (p.x, p.y) == (-1, -1) {
            assert_eq!(weights(b), (8, 4, 4, 16));
        }
        pts.push((p.x, p.y));
    }
    let mut expected = Vec::new();
    for y in -2..=2 {
        for x in -2..=-y {
            expected.push((x, y));
        }
    }
    assert_eq!(pts.len(), 15);
    assert_eq!(pts, expected);
}

#[test]
fn unbounded_triangle_reaches_largest_coordinate() {
    let m = i32::MAX;
    let pts = collect(Triangle::new([v(m - 1, m - 1), v(m, m - 1), v(m - 1, m)]));
    assert_eq!(pts, vec![(m - 1, m - 1), (m, m - 1), (m - 1, m)]);
}
