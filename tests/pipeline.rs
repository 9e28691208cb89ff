use softrender::color::Color;
use softrender::depth::depth_key;
use softrender::framebuffer::{Framebuffer, PixelWrite};
use softrender::raster::{rasterize_triangle, ScreenPoint};

#[test]
fn unit_triangle_draws_inside_its_box_only() {
    let background = 0x000011;
    let hull = Color::from_hex(0x8090A0).to_hex();
    let mut fb = Framebuffer::new(16, 16);
    fb.set_background_color(background);
    fb.clear();
    let (v0, v1, v2) = (
        ScreenPoint { x: 2 * 256, y: 2 * 256 },
        ScreenPoint { x: 10 * 256, y: 2 * 256 },
        ScreenPoint { x: 2 * 256, y: 10 * 256 },
    );
    let depths = [0.5f32, 0.5, 0.5];
    let frags = rasterize_triangle(v0, v1, v2, 16, 16);
    let writes: Vec<PixelWrite> = frags
        .iter()
        .map(|c| {
            let z = (c.w0 as f32 * depths[0] + c.w1 as f32 * depths[1] + c.w2 as f32 * depths[2]) / c.area as f32;
            PixelWrite { x: c.x, y: c.y, depth: depth_key(z.to_bits()), color: hull }
        })
        .collect();
    fb.plot_all(&writes);
    let (cx, cy) = ((2 + 10 + 2) / 3, (2 + 2 + 10) / 3);
    assert_eq!(fb.get_pixel(cx, cy), hull);
    for y in 0..16 {
        for x in 0..16 {
            if !(2..=10).contains(&x) || !(2..=10).contains(&y) {
                assert_eq!(fb.get_pixel(x, y), background);
            }
        }
    }
    let again = rasterize_triangle(v0, v1, v2, 16, 16);
    assert_eq!(frags, again);
}
