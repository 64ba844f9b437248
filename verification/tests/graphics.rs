use wasabi::graphics::{draw_point, fill_rect, VramBufferInfo};

fn frame(width: i64, height: i64, pixels_per_line: i64) -> VramBufferInfo {
    VramBufferInfo::new(width, height, pixels_per_line).unwrap()
}

fn at(buf: &VramBufferInfo, x: i64, y: i64) -> u32 {
    buf.pixels()[(y * buf.pixels_per_line() + x) as usize]
}

#[test]
fn new_frame_is_black() {
    let buf = frame(4, 3, 5);
    assert_eq!(buf.width(), 4);
    assert_eq!(buf.height(), 3);
    assert_eq!(buf.pixels_per_line(), 5);
    assert_eq!(buf.bytes_per_pixel(), 4);
    assert_eq!(buf.pixels(), &[0u32; 15][..]);
}

#[test]
fn new_frame_rejects_negative_sizes() {
    assert!(VramBufferInfo::new(-1, 3, 5).is_none());
    assert!(VramBufferInfo::new(4, -1, 5).is_none());
    assert!(VramBufferInfo::new(4, 3, -1).is_none());
    assert!(VramBufferInfo::new(0, 0, 0).is_some());
    assert!(VramBufferInfo::new(i64::MAX, 0, i64::MAX).is_some());
    assert!(VramBufferInfo::new(4, i64::MAX, i64::MAX).is_none());
}

#[test]
fn x_range_is_limited_by_width_and_line_length() {
    let buf = frame(4, 3, 5);
    assert!(buf.is_in_x_range(0));
    assert!(buf.is_in_x_range(3));
    assert!(!buf.is_in_x_range(4));
    assert!(!buf.is_in_x_range(-1));
    let buf = frame(6, 3, 5);
    assert!(buf.is_in_x_range(4));
    assert!(!buf.is_in_x_range(5));
}

#[test]
fn y_range_is_limited_by_height() {
    let buf = frame(4, 3, 5);
    assert!(buf.is_in_y_range(0));
    assert!(buf.is_in_y_range(2));
    assert!(!buf.is_in_y_range(3));
    assert!(!buf.is_in_y_range(-1));
}

#[test]
fn draw_point_sets_one_pixel() {
    let mut buf = frame(4, 3, 5);
    assert_eq!(draw_point(&mut buf, 0xff0000, 2, 1), Ok(()));
    let mut expected = [0u32; 15];
    expected[1 * 5 + 2] = 0xff0000;
    assert_eq!(buf.pixels(), &expected[..]);
    assert_eq!(buf.pixel_at(2, 1), Some(0xff0000));
    assert_eq!(buf.pixel_at(1, 2), Some(0));
}

#[test]
fn draw_point_out_of_range_draws_nothing() {
    let mut buf = frame(4, 3, 5);
    assert_eq!(draw_point(&mut buf, 1, 4, 0), Err("Out of range"));
    assert_eq!(draw_point(&mut buf, 1, 0, 3), Err("Out of range"));
    assert_eq!(draw_point(&mut buf, 1, -1, 0), Err("Out of range"));
    assert_eq!(draw_point(&mut buf, 1, 0, -1), Err("Out of range"));
    assert_eq!(buf.pixels(), &[0u32; 15][..]);
    assert_eq!(buf.pixel_at(4, 0), None);
    assert_eq!(buf.pixel_at(0, 3), None);
}

#[test]
fn fill_rect_sets_the_rectangle_and_nothing_else() {
    let mut buf = frame(4, 3, 5);
    assert_eq!(fill_rect(&mut buf, 7, 1, 1, 2, 2), Ok(()));
    let expected = [
        0, 0, 0, 0, 0,
        0, 7, 7, 0, 0,
        0, 7, 7, 0, 0,
    ];
    assert_eq!(buf.pixels(), &expected[..]);
}

#[test]
fn fill_rect_covers_the_whole_frame() {
    let mut buf = frame(4, 3, 5);
    assert_eq!(fill_rect(&mut buf, 9, 0, 0, 4, 3), Ok(()));
    let expected = [
        9, 9, 9, 9, 0,
        9, 9, 9, 9, 0,
        9, 9, 9, 9, 0,
    ];
    assert_eq!(buf.pixels(), &expected[..]);
}

#[test]
fn fill_rect_out_of_range_draws_nothing() {
    let mut buf = frame(4, 3, 5);
    assert_eq!(fill_rect(&mut buf, 9, 0, 0, 5, 3), Err("Out of range"));
    assert_eq!(fill_rect(&mut buf, 9, 0, 0, 4, 4), Err("Out of range"));
    assert_eq!(fill_rect(&mut buf, 9, 4, 0, 1, 1), Err("Out of range"));
    assert_eq!(fill_rect(&mut buf, 9, 0, 3, 1, 1), Err("Out of range"));
    assert_eq!(fill_rect(&mut buf, 9, -1, 0, 2, 2), Err("Out of range"));
    assert_eq!(fill_rect(&mut buf, 9, 0, 0, 0, 1), Err("Out of range"));
    assert_eq!(fill_rect(&mut buf, 9, 0, 0, 1, 0), Err("Out of range"));
    assert_eq!(fill_rect(&mut buf, 9, 1, 1, i64::MAX, 1), Err("Out of range"));
    assert_eq!(fill_rect(&mut buf, 9, 1, 1, 1, i64::MAX), Err("Out of range"));
    assert_eq!(fill_rect(&mut buf, 9, 0, 0, i64::MIN, 1), Err("Out of range"));
    assert_eq!(buf.pixels(), &[0u32; 15][..]);
}

#[test]
fn fill_rect_of_no_width_or_height_draws_nothing() {
    let mut buf = frame(4, 3, 5);
    // The last corner, one left of or above the first, is still in range.
    assert_eq!(fill_rect(&mut buf, 9, 1, 1, 0, 2), Ok(()));
    assert_eq!(fill_rect(&mut buf, 9, 1, 1, 2, 0), Ok(()));
    assert_eq!(fill_rect(&mut buf, 9, 2, 2, -1, -1), Ok(()));
    assert_eq!(buf.pixels(), &[0u32; 15][..]);
}

#[test]
fn boot_screen_shows_three_squares_and_a_diagonal() {
    let mut vram = frame(640, 480, 640);
    let vw = vram.width();
    let vh = vram.height();
    fill_rect(&mut vram, 0x000000, 0, 0, vw, vh).expect("Failed to fill rect");
    fill_rect(&mut vram, 0xff0000, 32, 32, 32, 32).expect("Failed to fill rect");
    fill_rect(&mut vram, 0x00ff00, 64, 64, 64, 64).expect("Failed to fill rect");
    fill_rect(&mut vram, 0x0000ff, 128, 128, 128, 128).expect("Failed to fill rect");
    for i in 0..256 {
        let _ = draw_point(&mut vram, 0x010101 * i as u32, i, i);
    }
    assert_eq!(at(&vram, 0, 0), 0);
    assert_eq!(at(&vram, 1, 0), 0);
    assert_eq!(at(&vram, 40, 33), 0xff0000);
    assert_eq!(at(&vram, 33, 33), 0x212121);
    assert_eq!(at(&vram, 63, 63), 0x3f3f3f);
    assert_eq!(at(&vram, 64, 100), 0x00ff00);
    assert_eq!(at(&vram, 127, 127), 0x7f7f7f);
    assert_eq!(at(&vram, 255, 128), 0x0000ff);
    assert_eq!(at(&vram, 255, 255), 0xffffff);
    assert_eq!(at(&vram, 256, 256), 0);
    assert_eq!(at(&vram, 639, 479), 0);
}

#[test]
fn rectangle_of_one_pixel_is_a_point() {
    let mut a = frame(4, 3, 5);
    let mut b = frame(4, 3, 5);
    for (x, y) in [(0i64, 0i64), (3, 0), (0, 2), (3, 2), (2, 1)] {
        assert_eq!(fill_rect(&mut a, 5, x, y, 1, 1), Ok(()));
        assert_eq!(draw_point(&mut b, 5, x, y), Ok(()));
        assert_eq!(a.pixels(), b.pixels());
    }
}
