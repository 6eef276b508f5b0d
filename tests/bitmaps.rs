use rasterizer::bitmap::Bitmap;
use rasterizer::math::{Extent2, Rgb, Rgba, Vec2};

fn gradient(w: usize, h: usize) -> Bitmap {
    let mut b = Bitmap::with_size(Extent2::new(w, h));
    for y in 0..h {
        for x in 0..w {
            b.draw_pixel(Vec2::new(x as i32, y as i32), Rgba::new(x as u8, y as u8, 7, 255));
        }
    }
    b
}

#[test]
fn new_wraps_bytes() {
    let bytes: Vec<u8> = (0..24).collect();
    let b = Bitmap::new(bytes.clone(), Extent2::new(3, 2));
    assert_eq!(b.width(), 3);
    assert_eq!(b.height(), 2);
    assert_eq!(b.size(), Extent2::new(3, 2));
    assert_eq!(b.area(), 6);
    assert_eq!(b.raw_pixels(), &bytes[..]);
    assert_eq!(b.pixel_at(1, 1), Rgba::new(16, 17, 18, 19));
    assert_eq!(b.into_raw(), bytes);
}

#[test]
fn draw_pixel_writes_four_bytes() {
    let mut b = Bitmap::with_size(Extent2::new(3, 2));
    b.draw_pixel(Vec2::new(1, 1), Rgba::new(9, 8, 7, 6));
    let raw = b.raw_pixels();
    assert_eq!(&raw[16..20], &[9, 8, 7, 6]);
    assert_eq!(raw.iter().filter(|&&v| v != 0).count(), 4);
}

#[test]
fn clear_fills_every_pixel() {
    let mut b = gradient(4, 3);
    b.clear(Rgba::black());
    assert!(b.pixels().iter().all(|&p| p == Rgba::new(0, 0, 0, 255)));
    assert_eq!(b.pixels().len(), 12);
}

#[test]
fn pixels_are_row_major() {
    let b = gradient(4, 3);
    let px = b.pixels();
    assert_eq!(px[2 * 4 + 1], Rgba::new(1, 2, 7, 255));
    let all = b.iter_pixels();
    assert_eq!(all.len(), 12);
    assert_eq!(all[5], (1, 1, Rgba::new(1, 1, 7, 255)));
    assert_eq!(all[11], (3, 2, Rgba::new(3, 2, 7, 255)));
}

#[test]
fn blit_far_outside_changes_nothing() {
    let mut dst = gradient(10, 10);
    let before = dst.raw_pixels().to_vec();
    let src = gradient(10, 10);
    let mut other = Bitmap::with_size(Extent2::new(10, 10));
    other.clear(Rgba::white());
    dst.draw_bitmap(&other, Vec2::new(-1000, -1000));
    dst.draw_bitmap(&src, Vec2::new(1000, 3));
    dst.draw_bitmap(&other, Vec2::new(0, 10));
    assert_eq!(dst.raw_pixels(), &before[..]);
}

#[test]
fn blit_at_origin_reproduces_source() {
    let mut dst = Bitmap::with_size(Extent2::new(10, 10));
    dst.clear(Rgba::white());
    let src = gradient(10, 10);
    dst.draw_bitmap(&src, Vec2::new(0, 0));
    assert_eq!(dst.raw_pixels(), src.raw_pixels());
}

#[test]
fn blit_partially_outside_copies_overlap_only() {
    let mut dst = Bitmap::with_size(Extent2::new(10, 10));
    let src = gradient(3, 3);
    dst.draw_bitmap(&src, Vec2::new(-1, 8));
    assert_eq!(dst.pixel_at(0, 8), Rgba::new(1, 0, 7, 255));
    assert_eq!(dst.pixel_at(1, 8), Rgba::new(2, 0, 7, 255));
    assert_eq!(dst.pixel_at(0, 9), Rgba::new(1, 1, 7, 255));
    assert_eq!(dst.pixel_at(1, 9), Rgba::new(2, 1, 7, 255));
    let changed = dst.pixels().iter().filter(|&&p| p != Rgba::new(0, 0, 0, 0)).count();
    assert_eq!(changed, 4);
}

#[test]
fn blit_inside_offset() {
    let mut dst = Bitmap::with_size(Extent2::new(6, 5));
    let src = gradient(2, 2);
    dst.draw_bitmap(&src, Vec2::new(3, 2));
    assert_eq!(dst.pixel_at(3, 2), Rgba::new(0, 0, 7, 255));
    assert_eq!(dst.pixel_at(4, 3), Rgba::new(1, 1, 7, 255));
    assert_eq!(dst.pixel_at(2, 2), Rgba::new(0, 0, 0, 0));
    assert_eq!(dst.pixel_at(5, 4), Rgba::new(0, 0, 0, 0));
}

#[test]
fn rgb_becomes_opaque_rgba() {
    assert_eq!(Rgb::new(1, 2, 3).to_rgba(), Rgba::new(1, 2, 3, 255));
}

#[test]
fn raw_pixels_mut_writes_through() {
    let mut b = Bitmap::with_size(Extent2::new(2, 2));
    b.raw_pixels_mut()[4..8].copy_from_slice(&[1, 2, 3, 4]);
    assert_eq!(b.pixel_at(1, 0), Rgba::new(1, 2, 3, 4));
    assert_eq!(b.raw_pixels().len(), 16);
}
