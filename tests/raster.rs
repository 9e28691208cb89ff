use softrender::color::Color;
use softrender::raster::{interpolate_color, rasterize_triangle, Coverage, ScreenPoint, SUBPIXEL_SCALE};

fn p(x: i32, y: i32) -> ScreenPoint {
    ScreenPoint { x: x * SUBPIXEL_SCALE, y: y * SUBPIXEL_SCALE }
}

fn pixels(frags: &[Coverage]) -> Vec<(usize, usize)> {
    frags.iter().map(|c| (c.x, c.y)).collect()
}

fn corner_triangle_pixels() -> Vec<(usize, usize)> {
    let mut v = Vec::new();
    for y in 0..4usize {
        for x in 0..4usize {
            if x + y <= 3 {
                v.push((x, y));
            }
        }
    }
    v
}

#[test]
fn corner_triangle_covers_exact_pixel_set() {
    let frags = rasterize_triangle(p(0, 0), p(4, 0), p(0, 4), 10, 10);
    assert_eq!(frags.len(), 10);
    assert_eq!(pixels(&frags), corner_triangle_pixels());
}

#[test]
fn winding_does_not_change_coverage() {
    let ccw = rasterize_triangle(p(0, 0), p(0, 4), p(4, 0), 10, 10);
    assert_eq!(pixels(&ccw), corner_triangle_pixels());
    for c in &ccw {
        assert!(c.area > 0 && c.w0 >= 0 && c.w1 >= 0 && c.w2 >= 0);
        assert_eq!(c.w0 + c.w1 + c.w2, c.area);
    }
}

#[test]
fn weights_of_first_pixel() {
    let frags = rasterize_triangle(p(0, 0), p(4, 0), p(0, 4), 10, 10);
    assert_eq!(
        frags[0],
        Coverage { x: 0, y: 0, w0: 786432, w1: 131072, w2: 131072, area: 1048576 }
    );
}

#[test]
fn collinear_points_give_no_fragments() {
    assert!(rasterize_triangle(p(0, 0), p(2, 2), p(4, 4), 10, 10).is_empty());
    assert!(rasterize_triangle(p(1, 5), p(3, 5), p(8, 5), 10, 10).is_empty());
}

#[test]
fn coincident_points_give_no_fragments() {
    assert!(rasterize_triangle(p(3, 3), p(3, 3), p(3, 3), 10, 10).is_empty());
    assert!(rasterize_triangle(p(3, 3), p(3, 3), p(5, 1), 10, 10).is_empty());
}

#[test]
fn coverage_is_clamped_to_the_target() {
    let frags = rasterize_triangle(p(-4, -4), p(8, -4), p(-4, 8), 3, 2);
    assert_eq!(pixels(&frags), vec![(0, 0), (1, 0), (2, 0), (0, 1), (1, 1), (2, 1)]);
    assert!(rasterize_triangle(p(-9, -9), p(-5, -9), p(-9, -5), 10, 10).is_empty());
    assert!(rasterize_triangle(p(0, 0), p(4, 0), p(0, 4), 0, 0).is_empty());
}

#[test]
fn vertex_colors_are_averaged_by_weight() {
    let frags = rasterize_triangle(p(0, 0), p(4, 0), p(0, 4), 10, 10);
    let c = interpolate_color(&frags[0], Color::new(255, 0, 0), Color::new(0, 255, 0), Color::new(0, 0, 255));
    assert_eq!(c, Color::new(191, 31, 31));
    let same = interpolate_color(&frags[5], Color::new(9, 8, 7), Color::new(9, 8, 7), Color::new(9, 8, 7));
    assert_eq!(same, Color::new(9, 8, 7));
}
