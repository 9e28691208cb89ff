use softrender::framebuffer::Framebuffer;

fn lit(fb: &Framebuffer, color: u32) -> Vec<(usize, usize)> {
    let mut v = Vec::new();
    for y in 0..fb.height() {
        for x in 0..fb.width() {
            if fb.get_pixel(x, y) == color {
                v.push((x, y));
            }
        }
    }
    v
}

#[test]
fn shallow_line_steps_once_in_y() {
    let mut fb = Framebuffer::new(5, 3);
    fb.set_current_color(0x404080);
    fb.draw_line(0, 0, 3, 1, 100);
    assert_eq!(lit(&fb, 0x404080), vec![(0, 0), (1, 0), (2, 1), (3, 1)]);
    assert_eq!(fb.get_depth(2, 1), 100);
}

#[test]
fn reversed_line_walks_from_its_start() {
    let mut fb = Framebuffer::new(5, 3);
    fb.set_current_color(0x404080);
    fb.draw_line(3, 1, 0, 0, 100);
    assert_eq!(lit(&fb, 0x404080), vec![(0, 0), (1, 0), (2, 1), (3, 1)]);
}

#[test]
fn diagonal_and_vertical_lines() {
    let mut fb = Framebuffer::new(4, 4);
    fb.set_current_color(1);
    fb.draw_line(0, 0, 3, 3, 5);
    assert_eq!(lit(&fb, 1), vec![(0, 0), (1, 1), (2, 2), (3, 3)]);
    fb.set_current_color(2);
    fb.draw_line(1, 3, 1, 0, 4);
    assert_eq!(lit(&fb, 2), vec![(1, 0), (1, 1), (1, 2), (1, 3)]);
}

#[test]
fn line_pixels_off_the_buffer_are_skipped() {
    let mut fb = Framebuffer::new(3, 2);
    fb.set_current_color(7);
    fb.draw_line(-2, 0, 2, 0, 9);
    assert_eq!(lit(&fb, 7), vec![(0, 0), (1, 0), (2, 0)]);
    fb.draw_line(i32::MIN, i32::MIN, i32::MIN + 3, i32::MIN, 9);
    assert_eq!(lit(&fb, 7), vec![(0, 0), (1, 0), (2, 0)]);
}

#[test]
fn single_point_line() {
    let mut fb = Framebuffer::new(2, 2);
    fb.set_current_color(3);
    fb.draw_line(1, 1, 1, 1, 0);
    assert_eq!(lit(&fb, 3), vec![(1, 1)]);
}

#[test]
fn farther_line_is_hidden() {
    let mut fb = Framebuffer::new(3, 1);
    fb.set_current_color(10);
    fb.draw_line(0, 0, 2, 0, 50);
    fb.set_current_color(20);
    fb.draw_line(0, 0, 2, 0, 60);
    assert_eq!(lit(&fb, 10), vec![(0, 0), (1, 0), (2, 0)]);
}
