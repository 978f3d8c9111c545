use duckforge::canvas::Canvas;
use duckforge::color::Color;

#[test]
fn set_and_get_pixel() {
    let (width, x, y) = (4, 2, 1);
    let mut canvas = Canvas::new(width, 3);
    canvas.set_pixel(x as i32, y as i32, Color::RED());
    assert_eq!(canvas.get_pixel(2, 1), Some(Color::RED()));
    assert_eq!(canvas.pixels()[y * width + x], Color::RED().to_u32());
    assert_eq!(canvas.get_pixel(0, 0), Some(Color::BLACK()));
    assert_eq!(canvas.get_pixel(4, 0), None);
    assert_eq!(canvas.get_pixel(-1, 0), None);
}

#[test]
fn fill_rect_is_clipped() {
    // The rectangle at (-5, -5), 7 x 7 pixels: columns and rows -5..2.
    let mut canvas = Canvas::new(10, 10);
    canvas.fill_rect(-5, -5, 2, 2, Color::GREEN());
    assert_eq!(canvas.get_pixel(0, 0), Some(Color::GREEN()));
    assert_eq!(canvas.get_pixel(1, 1), Some(Color::GREEN()));
    assert_eq!(canvas.get_pixel(2, 2), Some(Color::BLACK()));
}

#[test]
fn drawing_off_canvas_does_not_panic() {
    let mut canvas = Canvas::new(10, 10);
    canvas.set_pixel(-5, 100, Color::WHITE());
    canvas.fill_rect(-50, -50, -30, -30, Color::WHITE());
    canvas.fill_rect(5, 5, 2, 7, Color::WHITE());
    canvas.draw_line(-20, -20, 30, 30, Color::WHITE());
    assert_eq!(canvas.get_pixel(9, 9), Some(Color::WHITE()));
    assert_eq!(canvas.get_pixel(9, 8), Some(Color::BLACK()));
}

#[test]
fn horizontal_line_covers_the_row() {
    let mut canvas = Canvas::new(20, 20);
    canvas.draw_line(0, 19, 19, 19, Color::RED());
    assert!((0..20).all(|x| canvas.get_pixel(x, 19) == Some(Color::RED())));
    assert_eq!(canvas.get_pixel(0, 18), Some(Color::BLACK()));
}

#[test]
fn steep_line_has_one_pixel_per_row() {
    let mut canvas = Canvas::new(8, 8);
    canvas.draw_line(1, 0, 3, 7, Color::BLUE());
    for y in 0..8 {
        let lit = (0..8).filter(|&x| canvas.get_pixel(x, y) == Some(Color::BLUE())).count();
        assert_eq!(lit, 1, "row {y}");
    }
    assert_eq!(canvas.get_pixel(1, 0), Some(Color::BLUE()));
    assert_eq!(canvas.get_pixel(3, 7), Some(Color::BLUE()));
}

#[test]
fn single_point_line() {
    let mut canvas = Canvas::new(3, 3);
    canvas.draw_line(1, 1, 1, 1, Color::YELLOW());
    assert_eq!(canvas.pixels().iter().filter(|&&p| p != 0).count(), 1);
    assert_eq!(canvas.get_pixel(1, 1), Some(Color::YELLOW()));
}

#[test]
fn clear_fills_everything() {
    let mut canvas = Canvas::new(3, 2);
    canvas.clear(Color::from_hex(0x20_30_40));
    assert!(canvas.pixels().iter().all(|&p| p == 0x20_30_40));
    assert_eq!((canvas.width(), canvas.height()), (3, 2));
}

#[test]
fn bmp_has_header_and_pixels() {
    let mut canvas = Canvas::new(3, 2);
    canvas.set_pixel(0, 0, Color::rgb(1, 2, 3));
    let mut bytes: Vec<u8> = Vec::new();
    canvas.write_bmp(&mut bytes);

    assert_eq!(bytes.len(), 54 + 3 * 2 * 4);
    assert_eq!(&bytes[0..2], b"BM");
    assert_eq!(&bytes[54..58], &[3, 2, 1, 0xFF]); // blue, green, red, alpha
}

#[test]
fn bmp_header_fields() {
    let canvas = Canvas::new(3, 2);
    let mut bytes: Vec<u8> = vec![7];
    canvas.write_bmp(&mut bytes);
    assert_eq!(bytes[0], 7); // appended, not replaced
    let b = &bytes[1..];
    assert_eq!(&b[2..6], &(54u32 + 24).to_le_bytes());
    assert_eq!(&b[10..14], &54u32.to_le_bytes());
    assert_eq!(&b[18..22], &3i32.to_le_bytes());
    assert_eq!(&b[22..26], &(-2i32).to_le_bytes());
    assert_eq!(&b[28..30], &32u16.to_le_bytes());
    assert_eq!(&b[34..38], &24u32.to_le_bytes());
    assert_eq!(&b[58..62], &[0, 0, 0, 0xFF]);
}

#[test]
fn text_width_matches_font() {
    assert_eq!(Canvas::text_width("", 1), 0);
    assert_eq!(Canvas::text_width("A", 1), 3);
    assert_eq!(Canvas::text_width("AB", 1), 7);
    assert_eq!(Canvas::text_width("AB", 2), 14);
    assert_eq!(Canvas::text_width("A\nABC", 1), 11);
}

#[test]
fn text_width_line_endings() {
    assert_eq!(Canvas::text_width("AB\r\nC", 1), 7);
    assert_eq!(Canvas::text_width("ABC\n", 1), 11);
    assert_eq!(Canvas::text_width("A\r", 1), 7);
    assert_eq!(Canvas::text_width("\n\n", 3), 0);
    assert_eq!(Canvas::text_width("ABC", 0), 0);
}

#[test]
fn draw_text_lights_the_font_pixels() {
    let mut canvas = Canvas::new(12, 8);
    canvas.draw_text("A", 1, 1, 1, Color::WHITE());
    // The top row of 'A' is . # .
    assert_eq!(canvas.get_pixel(1, 1), Some(Color::BLACK()));
    assert_eq!(canvas.get_pixel(2, 1), Some(Color::WHITE()));
    assert_eq!(canvas.get_pixel(3, 1), Some(Color::BLACK()));
    // The middle row is # # #
    assert!((1..4).all(|x| canvas.get_pixel(x, 3) == Some(Color::WHITE())));
    let lit = canvas.pixels().iter().filter(|&&p| p != 0).count();
    assert_eq!(lit, 10);
}

#[test]
fn draw_text_scales_and_breaks_lines() {
    let mut canvas = Canvas::new(20, 20);
    canvas.draw_text("I\nI", 0, 0, 2, Color::RED());
    // Each font pixel is 2x2; the second line starts 14 pixels down.
    assert_eq!(canvas.get_pixel(0, 0), Some(Color::RED()));
    assert_eq!(canvas.get_pixel(5, 1), Some(Color::RED()));
    assert_eq!(canvas.get_pixel(6, 0), Some(Color::BLACK()));
    assert_eq!(canvas.get_pixel(2, 14), Some(Color::RED()));
    assert_eq!(canvas.get_pixel(0, 16), Some(Color::BLACK()));
    canvas.draw_text("OFF SCREEN", 8, 8, 4, Color::WHITE());
}

#[test]
fn copy_bgra_rows_skips_row_padding() {
    let mut canvas = Canvas::new(2, 2);
    let bytes = [
        1, 2, 3, 9, 4, 5, 6, 9, 77, 77, // row 0 and 2 bytes of padding
        7, 8, 9, 9, 10, 11, 12, 9,
    ];
    canvas.copy_bgra_rows(&bytes, 10);
    assert_eq!(canvas.pixels(), &[0x03_02_01, 0x06_05_04, 0x09_08_07, 0x0C_0B_0A]);
    assert_eq!(canvas.get_pixel(1, 1), Some(Color::rgb(12, 11, 10)));
}

#[test]
fn text_width_up_to_the_largest_scale() {
    // One character is 3 pixels wide, so this scale makes it exactly u32::MAX wide.
    assert_eq!(Canvas::text_width("A", 1_431_655_765), u32::MAX);
}

#[test]
fn set_pixel_leaves_other_pixels() {
    let mut canvas = Canvas::new(4, 3);
    canvas.clear(Color::BLUE());
    let before = canvas.pixels().to_vec();
    canvas.set_pixel(3, 2, Color::RED());
    for (i, (&now, &then)) in canvas.pixels().iter().zip(&before).enumerate() {
        if i == 2 * 4 + 3 {
            assert_eq!(now, Color::RED().to_u32());
        } else {
            assert_eq!(now, then);
        }
    }
    assert_eq!(canvas.get_pixel(3, 2), Some(Color::RED()));
}
