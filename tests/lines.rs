use rasterizer::bitmap::Bitmap;
use rasterizer::bresenham::Bresenham;
use rasterizer::draw;
use rasterizer::math::{Extent2, Rgba, Vec2};

fn collect(mut it: Bresenham) -> Vec<(i32, i32)> {
    let mut out = Vec::new();
    while let Some(p) = it.next() {
        out.push((p.x, p.y));
    }
    out
}

#[test]
fn shallow_line_points() {
    let pts = collect(Bresenham::new(Vec2::new(0, 0), Vec2::new(5, 2)));
    assert_eq!(pts, vec![(0, 0), (1, 0), (2, 1), (3, 1), (4, 2), (5, 2)]);
}

#[test]
fn reversed_line_walks_from_lower_x() {
    let pts = collect(Bresenham::new(Vec2::new(5, 2), Vec2::new(0, 0)));
    assert_eq!(pts, vec![(0, 0), (1, 0), (2, 1), (3, 1), (4, 2), (5, 2)]);
}

#[test]
fn steep_line_points() {
    let pts = collect(Bresenham::new(Vec2::new(0, 0), Vec2::new(1, 3)));
    assert_eq!(pts, vec![(0, 0), (0, 1), (1, 2), (1, 3)]);
}

#[test]
fn descending_line_points() {
    let pts = collect(Bresenham::new(Vec2::new(0, 0), Vec2::new(4, -2)));
    assert_eq!(pts, vec![(0, 0), (1, 0), (2, -1), (3, -1), (4, -2)]);
}

#[test]
fn single_point_line() {
    let pts = collect(Bresenham::new(Vec2::new(3, -7), Vec2::new(3, -7)));
    assert_eq!(pts, vec![(3, -7)]);
}

#[test]
fn line_has_endpoints_length_and_no_gaps() {
    let cases = [((0, 0), (7, 3)), ((-4, 9), (2, -11)), ((10, 10), (-3, 10)), ((1, 1), (1, -6))];
    for ((ax, ay), (bx, by)) in cases {
        let pts = collect(Bresenham::new(Vec2::new(ax, ay), Vec2::new(bx, by)));
        let n = std::cmp::max((ax - bx).abs(), (ay - by).abs()) as usize + 1;
        assert_eq!(pts.len(), n);
        assert!(pts.contains(&(ax, ay)));
        assert!(pts.contains(&(bx, by)));
        for w in pts.windows(2) {
            assert!((w[0].0 - w[1].0).abs() <= 1 && (w[0].1 - w[1].1).abs() <= 1);
        }
        for i in 0..pts.len() {
            for j in i + 1..pts.len() {
                assert_ne!(pts[i], pts[j]);
            }
        }
    }
}

#[test]
fn extreme_coordinates_do_not_overflow() {
    let it = Bresenham::new(Vec2::new(i32::MIN, i32::MIN), Vec2::new(i32::MAX, i32::MIN + 1));
    let mut it = it;
    let first = it.next().unwrap();
    assert_eq!((first.x, first.y), (i32::MIN, i32::MIN));
}

#[test]
fn bounded_tracer_clips_to_grid() {
    let pts = collect(Bresenham::new_bounded(
        Vec2::new(-5, -5),
        Vec2::new(5, 5),
        Extent2::new(10, 10),
    ));
    assert_eq!(pts, vec![(0, 0), (1, 1), (2, 2), (3, 3), (4, 4), (5, 5)]);
    assert!(pts.iter().all(|&(x, y)| (0..=9).contains(&x) && (0..=9).contains(&y)));
}

#[test]
fn clipped_line_draws_only_inside() {
    let mut frame = Bitmap::with_size(Extent2::new(10, 10));
    let white = Rgba::white();
    draw::line(&mut frame, Vec2::new(-5, -5), Vec2::new(5, 5), white);
    for y in 0..10 {
        for x in 0..10 {
            let expected = if x == y && x <= 5 { white } else { Rgba::new(0, 0, 0, 0) };
            assert_eq!(frame.pixel_at(x, y), expected);
        }
    }
}

#[test]
fn bitmap_draw_line_matches_clipped_line() {
    let mut a = Bitmap::with_size(Extent2::new(8, 6));
    let mut b = Bitmap::with_size(Extent2::new(8, 6));
    let col = Rgba::new(1, 2, 3, 4);
    a.draw_line(Vec2::new(-3, 7), Vec2::new(12, -2), col);
    draw::line(&mut b, Vec2::new(-3, 7), Vec2::new(12, -2), col);
    assert_eq!(a.raw_pixels(), b.raw_pixels());
    assert!(a.raw_pixels().iter().any(|&v| v != 0));
}
