use duckforge::font::{glyph, is_lit, unknown_glyph, ADVANCE, GLYPH_HEIGHT, GLYPH_WIDTH, LINE_HEIGHT};

#[test]
fn letters_and_digits_have_real_glyphs() {
    for c in ('A'..='Z').chain('0'..='9') {
        assert_ne!(glyph(c), unknown_glyph(), "missing glyph for {c:?}");
    }
}

#[test]
fn lowercase_maps_to_uppercase() {
    assert_eq!(glyph('a'), glyph('A'));
}

#[test]
fn reads_bits_left_to_right() {
    let a = glyph('A');
    assert!(!is_lit(&a, 0, 0));
    assert!(is_lit(&a, 1, 0));
    assert!(is_lit(&a, 0, 1));
    assert!(!is_lit(&a, 1, 1));
}

#[test]
fn unknown_characters_draw_a_question_mark() {
    assert_eq!(glyph('~'), glyph('?'));
    assert_eq!(glyph('é'), unknown_glyph());
    assert_eq!(glyph(' '), [0, 0, 0, 0, 0]);
    assert_eq!(glyph('z'), [0b111, 0b001, 0b010, 0b100, 0b111]);
}

#[test]
fn font_metrics() {
    assert_eq!((GLYPH_WIDTH, GLYPH_HEIGHT, ADVANCE, LINE_HEIGHT), (3, 5, 4, 7));
    // The right column of the bottom row of 'A' is lit, the middle one is not.
    let a = glyph('A');
    assert!(is_lit(&a, 2, 4));
    assert!(!is_lit(&a, 1, 4));
}
