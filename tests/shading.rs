use rasterizer::barycentric::Barycentric;
use rasterizer::bitmap::Bitmap;
use rasterizer::draw;
use rasterizer::math::{Extent2, Rgb, Rgba, Vec3};
use rasterizer::shader::{lerp3, Varying};

fn bar(u: i128, v: i128, w: i128) -> Barycentric {
    Barycentric { u, v, w, den: u + v + w }
}

#[test]
fn scalar_interpolation_rounds_down() {
    assert_eq!(<i32 as Varying>::interpolate([10, 20, 30], &bar(8, 4, 4)), 17);
    assert_eq!(<i32 as Varying>::interpolate([-10, -20, -30], &bar(8, 4, 4)), -18);
    assert_eq!(lerp3(0, 0, 9, &bar(1, 1, 1)), 3);
}

#[test]
fn interpolation_at_corners_reproduces_vertices() {
    let zs = [i32::MIN, 0, i32::MAX];
    assert_eq!(<i32 as Varying>::interpolate(zs, &bar(5, 0, 0)), i32::MIN);
    assert_eq!(<i32 as Varying>::interpolate(zs, &bar(0, 5, 0)), 0);
    assert_eq!(<i32 as Varying>::interpolate(zs, &bar(0, 0, 5)), i32::MAX);
    let cols = [Rgba::new(255, 0, 0, 255), Rgba::new(0, 255, 0, 128), Rgba::new(1, 2, 3, 4)];
    assert_eq!(Rgba::interpolate(cols, &bar(3, 0, 0)), cols[0]);
    assert_eq!(Rgba::interpolate(cols, &bar(0, 3, 0)), cols[1]);
    assert_eq!(Rgba::interpolate(cols, &bar(0, 0, 3)), cols[2]);
    let rgb = [Rgb::new(9, 8, 7), Rgb::new(6, 5, 4), Rgb::new(3, 2, 1)];
    assert_eq!(Rgb::interpolate(rgb, &bar(1, 0, 0)), rgb[0]);
    assert_eq!(Rgb::interpolate(rgb, &bar(0, 1, 0)), rgb[1]);
    assert_eq!(Rgb::interpolate(rgb, &bar(0, 0, 1)), rgb[2]);
}

#[test]
fn colour_interpolation_per_channel() {
    let cols = [Rgba::new(255, 0, 0, 255), Rgba::new(0, 255, 0, 255), Rgba::new(0, 0, 255, 255)];
    assert_eq!(Rgba::interpolate(cols, &bar(8, 4, 4)), Rgba::new(127, 63, 63, 255));
    let rgb = [Rgb::new(200, 0, 10), Rgb::new(100, 50, 20), Rgb::new(0, 100, 30)];
    assert_eq!(Rgb::interpolate(rgb, &bar(1, 1, 1)), Rgb::new(100, 50, 20));
}

fn frame_and_depth(w: usize, h: usize) -> (Bitmap, Vec<i64>) {
    let mut f = Bitmap::with_size(Extent2::new(w, h));
    f.clear(Rgba::black());
    (f, vec![draw::FAR; w * h])
}

fn tri(a: (i32, i32), b: (i32, i32), c: (i32, i32), z: i32) -> [Vec3; 3] {
    [Vec3::new(a.0, a.1, z), Vec3::new(b.0, b.1, z), Vec3::new(c.0, c.1, z)]
}

#[test]
fn depth_test_is_idempotent() {
    let (mut f, mut d) = frame_and_depth(12, 12);
    let t = [Vec3::new(0, 0, 3), Vec3::new(11, 2, 9), Vec3::new(4, 11, -6)];
    let red = Rgba::new(255, 0, 0, 255);
    draw::triangle(&mut f, &mut d, t, red);
    let once = f.raw_pixels().to_vec();
    let once_depth = d.clone();
    assert!(once_depth.iter().any(|&z| z != draw::FAR));
    draw::triangle(&mut f, &mut d, t, Rgba::white());
    assert_eq!(f.raw_pixels(), &once[..]);
    assert_eq!(d, once_depth);
}

#[test]
fn equal_depth_keeps_first_drawn() {
    let (mut f, mut d) = frame_and_depth(8, 8);
    let t = tri((0, 0), (7, 0), (0, 7), 4);
    draw::triangle(&mut f, &mut d, t, Rgba::new(255, 0, 0, 255));
    draw::triangle(&mut f, &mut d, t, Rgba::new(0, 0, 255, 255));
    assert_eq!(f.pixel_at(1, 1), Rgba::new(255, 0, 0, 255));
    assert_eq!(d[1 * 8 + 1], 4);
}

#[test]
fn interpolated_depth_is_stored() {
    let (mut f, mut d) = frame_and_depth(5, 5);
    let t = [Vec3::new(0, 0, 0), Vec3::new(4, 0, 40), Vec3::new(0, 4, 80)];
    draw::triangle(&mut f, &mut d, t, Rgba::white());
    // at (1, 1) the weights are (8, 4, 4) / 16
    assert_eq!(d[1 * 5 + 1], 30);
    assert_eq!(d[4], 40);
    assert_eq!(d[4 * 5], 80);
    assert_eq!(d[4 * 5 + 4], draw::FAR);
    assert_eq!(f.pixel_at(4, 4), Rgba::black());
}

#[test]
fn occlusion_is_order_independent() {
    let red = Rgba::new(255, 0, 0, 255);
    let blue = Rgba::new(0, 0, 255, 255);
    let a = tri((0, 0), (20, 0), (0, 20), 5);
    let b = tri((15, 15), (-5, 15), (15, -5), 10);

    let (mut f1, mut d1) = frame_and_depth(20, 20);
    draw::triangle(&mut f1, &mut d1, a, red);
    draw::triangle(&mut f1, &mut d1, b, blue);

    let (mut f2, mut d2) = frame_and_depth(20, 20);
    draw::triangle(&mut f2, &mut d2, b, blue);
    draw::triangle(&mut f2, &mut d2, a, red);

    for f in [&f1, &f2] {
        assert_eq!(f.pixel_at(7, 7), blue);
        assert_eq!(f.pixel_at(2, 2), red);
        assert_eq!(f.pixel_at(12, 12), blue);
        assert_eq!(f.pixel_at(19, 19), Rgba::black());
    }
    assert_eq!(f1.raw_pixels(), f2.raw_pixels());
    assert_eq!(d1, d2);
}

#[test]
fn triangle_off_frame_draws_nothing() {
    let (mut f, mut d) = frame_and_depth(4, 4);
    draw::triangle(&mut f, &mut d, tri((-10, -10), (-5, -10), (-10, -5), 1), Rgba::white());
    assert!(d.iter().all(|&z| z == draw::FAR));
    assert!(f.pixels().iter().all(|&p| p == Rgba::black()));
}

#[test]
fn longer_depth_buffer_keeps_its_tail() {
    let mut f = Bitmap::with_size(Extent2::new(4, 4));
    let mut d = vec![draw::FAR; 20];
    d[18] = 42;
    draw::triangle(&mut f, &mut d, tri((0, 0), (3, 0), (0, 3), 7), Rgba::white());
    assert_eq!(d[0], 7);
    assert_eq!(&d[16..], &[draw::FAR, draw::FAR, 42, draw::FAR]);
}

#[test]
fn render_faces_keeps_the_frontmost() {
    let red = Rgba::new(255, 0, 0, 255);
    let blue = Rgba::new(0, 0, 255, 255);
    let grey = Rgba::new(9, 9, 9, 255);
    let a = tri((0, 0), (20, 0), (0, 20), 5);
    let b = tri((15, 15), (-5, 15), (15, -5), 10);
    let mut f1 = Bitmap::with_size(Extent2::new(20, 20));
    draw::render_faces(&mut f1, &vec![a, b], &vec![red, blue], grey);
    let mut f2 = Bitmap::with_size(Extent2::new(20, 20));
    f2.clear(Rgba::white());
    draw::render_faces(&mut f2, &vec![b, a], &vec![blue, red], grey);
    for f in [&f1, &f2] {
        assert_eq!(f.pixel_at(7, 7), blue);
        assert_eq!(f.pixel_at(2, 2), red);
        assert_eq!(f.pixel_at(12, 12), blue);
        assert_eq!(f.pixel_at(19, 19), grey);
    }
    // equal depths: the first drawn stays
    let mut f3 = Bitmap::with_size(Extent2::new(8, 8));
    let t = tri((0, 0), (7, 0), (0, 7), 3);
    draw::render_faces(&mut f3, &vec![t, t], &vec![red, blue], grey);
    assert_eq!(f3.pixel_at(1, 1), red);
    let mut f4 = Bitmap::with_size(Extent2::new(3, 3));
    draw::render_faces(&mut f4, &vec![], &vec![], grey);
    assert!(f4.pixels().iter().all(|&p| p == grey));
}
