//! Colors.
use vstd::prelude::*;

verus! {

/// An RGB color, one byte (0-255) per channel.
#[derive(Debug, Clone, Copy, PartialEq, Eq, Structural)]
pub struct Color {
    pub r: u8,
    pub g: u8,
    pub b: u8,
}

/// The number `0x00RRGGBB` that packs the three channels of a color.
pub open spec fn packed(r: u8, g: u8, b: u8) -> u32 {
    (r as int * 0x1_0000 + g as int * 0x100 + b as int) as u32
}

/// The color whose channels are bits 16-23 (red), 8-15 (green) and 0-7
/// (blue) of `hex`.
pub open spec fn color_of_hex(hex: u32) -> Color {
    Color {
        r: ((hex / 0x1_0000) % 0x100) as u8,
        g: ((hex / 0x100) % 0x100) as u8,
        b: (hex % 0x100) as u8,
    }
}

impl Color {
    // The named colors of the palette.
    #[allow(non_snake_case)]
    pub fn BLACK() -> (c: Color)
        ensures
            c == (Color { r: 0, g: 0, b: 0 }),
    {
        Color { r: 0, g: 0, b: 0 }
    }

    #[allow(non_snake_case)]
    pub fn WHITE() -> (c: Color)
        ensures
            c == (Color { r: 255, g: 255, b: 255 }),
    {
        Color { r: 255, g: 255, b: 255 }
    }

    #[allow(non_snake_case)]
    pub fn GRAY() -> (c: Color)
        ensures
            c == (Color { r: 128, g: 128, b: 128 }),
    {
        Color { r: 128, g: 128, b: 128 }
    }

    #[allow(non_snake_case)]
    pub fn RED() -> (c: Color)
        ensures
            c == (Color { r: 230, g: 60, b: 60 }),
    {
        Color { r: 230, g: 60, b: 60 }
    }

    #[allow(non_snake_case)]
    pub fn ORANGE() -> (c: Color)
        ensures
            c == (Color { r: 245, g: 150, b: 50 }),
    {
        Color { r: 245, g: 150, b: 50 }
    }

    #[allow(non_snake_case)]
    pub fn YELLOW() -> (c: Color)
        ensures
            c == (Color { r: 245, g: 220, b: 70 }),
    {
        Color { r: 245, g: 220, b: 70 }
    }

    #[allow(non_snake_case)]
    pub fn GREEN() -> (c: Color)
        ensures
            c == (Color { r: 80, g: 200, b: 100 }),
    {
        Color { r: 80, g: 200, b: 100 }
    }

    #[allow(non_snake_case)]
    pub fn BLUE() -> (c: Color)
        ensures
            c == (Color { r: 70, g: 130, b: 230 }),
    {
        Color { r: 70, g: 130, b: 230 }
    }

    #[allow(non_snake_case)]
    pub fn PURPLE() -> (c: Color)
        ensures
            c == (Color { r: 160, g: 90, b: 220 }),
    {
        Color { r: 160, g: 90, b: 220 }
    }

    /// A color from its red, green and blue channels.
    pub fn rgb(r: u8, g: u8, b: u8) -> (c: Self)
        ensures
            c == (Color { r, g, b }),
    {
        Color { r, g, b }
    }

    /// Builds a color from a hex number like `0xFF8800`: bits 16-23 are red,
    /// 8-15 green and 0-7 blue; higher bits are ignored.
    pub fn from_hex(hex: u32) -> (c: Self)
        ensures
            c == color_of_hex(hex),
            c.r == (hex / 0x1_0000) % 0x100,
            c.g == (hex / 0x100) % 0x100,
            c.b == hex % 0x100,
    {
        proof {
            assert((hex >> 16u32) as u8 == (hex / 0x1_0000) % 0x100) by (bit_vector);
            assert((hex >> 8u32) as u8 == (hex / 0x100) % 0x100) by (bit_vector);
            assert(hex as u8 == hex % 0x100) by (bit_vector);
            assert((hex >> 16u32) as u8 == ((hex / 0x1_0000) % 0x100) as u8) by (bit_vector);
            assert((hex >> 8u32) as u8 == ((hex / 0x100) % 0x100) as u8) by (bit_vector);
            assert(hex as u8 == (hex % 0x100) as u8) by (bit_vector);
        }
        Color::rgb((hex >> 16u32) as u8, (hex >> 8u32) as u8, hex as u8)
    }

    /// Packs the color into the `0x00RRGGBB` format used by the pixel buffer.
    pub fn to_u32(self) -> (v: u32)
        ensures
            v == packed(self.r, self.g, self.b),
            v < 0x100_0000,
    {
        let r = self.r;
        let g = self.g;
        let b = self.b;
        proof {
            assert(((r as u32) << 16u32) | ((g as u32) << 8u32) | (b as u32)
                == r as u32 * 0x1_0000 + g as u32 * 0x100 + b as u32) by (bit_vector);
        }
        ((r as u32) << 16u32) | ((g as u32) << 8u32) | (b as u32)
    }
}

/// Unpacking a packed color gives the color back.
pub proof fn lemma_from_hex_of_packed(r: u8, g: u8, b: u8)
    ensures
        (packed(r, g, b) / 0x1_0000) % 0x100 == r,
        (packed(r, g, b) / 0x100) % 0x100 == g,
        packed(r, g, b) % 0x100 == b,
{
    let p = packed(r, g, b);
    assert(p == r as int * 0x1_0000 + g as int * 0x100 + b as int);
    assert((r as int * 0x1_0000 + g as int * 0x100 + b as int) / 0x1_0000 == r) by (nonlinear_arith)
        requires 0 <= r < 256, 0 <= g < 256, 0 <= b < 256;
    assert((r as int * 0x1_0000 + g as int * 0x100 + b as int) / 0x100 == r as int * 0x100 + g) by (nonlinear_arith)
        requires 0 <= r < 256, 0 <= g < 256, 0 <= b < 256;
    assert((r as int * 0x100 + g) % 0x100 == g) by (nonlinear_arith)
        requires 0 <= r < 256, 0 <= g < 256;
    assert((r as int * 0x1_0000 + g as int * 0x100 + b as int) % 0x100 == b) by (nonlinear_arith)
        requires 0 <= r < 256, 0 <= g < 256, 0 <= b < 256;
}

/// `from_hex` undoes `to_u32`: packing a color and reading it back gives the same color.
pub proof fn law_hex_round_trip(c: Color)
    ensures
        color_of_hex(packed(c.r, c.g, c.b)) == c,
{
    lemma_from_hex_of_packed(c.r, c.g, c.b);
}

/// `to_u32` undoes `from_hex` up to the ignored top byte: the channels read
/// from `hex` pack back into `hex` with bits 24-31 cleared.
pub proof fn law_packed_of_hex(hex: u32)
    ensures
        packed(color_of_hex(hex).r, color_of_hex(hex).g, color_of_hex(hex).b) == hex % 0x100_0000,
{
    let r = (hex / 0x1_0000) % 0x100;
    let g = (hex / 0x100) % 0x100;
    let b = hex % 0x100;
    assert(r * 0x1_0000 + g * 0x100 + b == hex % 0x100_0000) by (bit_vector)
        requires r == (hex / 0x1_0000) % 0x100, g == (hex / 0x100) % 0x100, b == hex % 0x100;
}

} // verus!
