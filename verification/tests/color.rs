use duckforge::color::Color;

#[test]
fn hex_round_trip() {
    let c = Color::from_hex(0x12_34_56);
    assert_eq!(c, Color::rgb(0x12, 0x34, 0x56));
    assert_eq!(c.to_u32(), 0x12_34_56);
}

#[test]
fn from_hex_ignores_the_top_byte() {
    let c = Color::from_hex(0xAB_FF_80_01);
    assert_eq!(c, Color::rgb(0xFF, 0x80, 0x01));
    assert_eq!(c.to_u32(), 0x00_FF_80_01);
}

#[test]
fn named_colors_pack_as_expected() {
    assert_eq!(Color::BLACK().to_u32(), 0);
    assert_eq!(Color::WHITE().to_u32(), 0xFF_FF_FF);
    assert_eq!(Color::RED(), Color::rgb(230, 60, 60));
    assert_eq!(Color::from_hex(Color::PURPLE().to_u32()), Color::PURPLE());
}
