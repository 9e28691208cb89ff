use softrender::framebuffer::{Framebuffer, PixelWrite, FAR_DEPTH};

fn snapshot(fb: &Framebuffer) -> (Vec<u32>, Vec<u32>) {
    let mut depths = Vec::new();
    for y in 0..fb.height() {
        for x in 0..fb.width() {
            depths.push(fb.get_depth(x, y));
        }
    }
    (fb.pixels().clone(), depths)
}

#[test]
fn new_buffer_is_cleared() {
    let fb = Framebuffer::new(4, 3);
    assert_eq!(fb.width(), 4);
    assert_eq!(fb.height(), 3);
    assert_eq!(fb.pixels().len(), 12);
    for y in 0..3 {
        for x in 0..4 {
            assert_eq!(fb.get_pixel(x, y), 0);
            assert_eq!(fb.get_depth(x, y), FAR_DEPTH);
        }
    }
}

#[test]
fn point_keeps_the_nearest_write() {
    let mut fb = Framebuffer::new(4, 3);
    fb.set_current_color(0x112233);
    fb.point(2, 1, 500);
    assert_eq!(fb.get_pixel(2, 1), 0x112233);
    assert_eq!(fb.get_depth(2, 1), 500);
    assert_eq!(fb.pixels()[1 * 4 + 2], 0x112233);
    fb.set_current_color(0x445566);
    fb.point(2, 1, 700);
    assert_eq!(fb.get_pixel(2, 1), 0x112233);
    fb.point(2, 1, 500);
    assert_eq!(fb.get_pixel(2, 1), 0x112233);
    fb.point(2, 1, 499);
    assert_eq!(fb.get_pixel(2, 1), 0x445566);
    assert_eq!(fb.get_depth(2, 1), 499);
    assert_eq!(fb.get_pixel(1, 2), 0);
}

#[test]
fn far_depth_never_writes() {
    let mut fb = Framebuffer::new(2, 2);
    fb.set_current_color(0xFFFFFF);
    fb.point(0, 0, FAR_DEPTH);
    assert_eq!(fb.get_pixel(0, 0), 0);
    fb.point(0, 0, FAR_DEPTH - 1);
    assert_eq!(fb.get_pixel(0, 0), 0xFFFFFF);
}

#[test]
fn clear_twice_equals_clear_once() {
    let mut fb = Framebuffer::new(3, 3);
    fb.set_background_color(0x000011);
    fb.set_current_color(0xABCDEF);
    fb.point(1, 1, 10);
    fb.point(0, 2, 20);
    fb.clear();
    let once = snapshot(&fb);
    fb.clear();
    let twice = snapshot(&fb);
    assert_eq!(once, twice);
    assert!(once.0.iter().all(|&c| c == 0x000011));
    assert!(once.1.iter().all(|&d| d == FAR_DEPTH));
    for d in [0u32, 1, 0x8000_0000, FAR_DEPTH - 1] {
        assert!(once.1.iter().all(|&z| d < z));
    }
}

#[test]
fn write_order_does_not_matter() {
    let writes = vec![
        PixelWrite { x: 0, y: 0, depth: 30, color: 0x0000AA },
        PixelWrite { x: 0, y: 0, depth: 10, color: 0x00BB00 },
        PixelWrite { x: 0, y: 0, depth: 20, color: 0xCC0000 },
        PixelWrite { x: 1, y: 1, depth: 5, color: 0x123456 },
        PixelWrite { x: 2, y: 1, depth: 7, color: 0x654321 },
        PixelWrite { x: 2, y: 1, depth: 3, color: 0x111111 },
        PixelWrite { x: 9, y: 9, depth: 1, color: 0xFFFFFF },
    ];
    let mut reference = Framebuffer::new(3, 2);
    reference.plot_all(&writes);
    let expected = snapshot(&reference);
    assert_eq!(reference.get_pixel(0, 0), 0x00BB00);
    assert_eq!(reference.get_depth(0, 0), 10);
    assert_eq!(reference.get_pixel(2, 1), 0x111111);
    let n = writes.len();
    for rot in 0..n {
        for rev in [false, true] {
            let mut order: Vec<PixelWrite> = writes[rot..].iter().chain(writes[..rot].iter()).cloned().collect();
            if rev {
                order.reverse();
            }
            let mut fb = Framebuffer::new(3, 2);
            fb.plot_all(&order);
            assert_eq!(snapshot(&fb), expected);
            let mut by_point = Framebuffer::new(3, 2);
            for w in &order {
                if w.x < by_point.width() && w.y < by_point.height() {
                    by_point.set_current_color(w.color);
                    by_point.point(w.x, w.y, w.depth);
                }
            }
            assert_eq!(snapshot(&by_point), expected);
        }
    }
}

#[test]
fn plot_all_drops_out_of_bounds_writes() {
    let mut fb = Framebuffer::new(2, 2);
    fb.set_current_color(0x777777);
    fb.plot_all(&vec![
        PixelWrite { x: 2, y: 0, depth: 1, color: 0xFF0000 },
        PixelWrite { x: 0, y: 2, depth: 1, color: 0xFF0000 },
    ]);
    assert!(fb.pixels().iter().all(|&c| c == 0));
    fb.point(1, 1, 3);
    assert_eq!(fb.get_pixel(1, 1), 0x777777);
}
