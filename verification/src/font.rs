//! A tiny built-in bitmap font, so games can draw text without loading files.
//!
//! Every character is 3 pixels wide and 5 pixels tall. A glyph is stored as
//! five rows; in each row the three lowest bits say which pixels are lit,
//! left to right. For example the letter `A`:
//!
//! ```text
//! 0b010   . # .
//! 0b101   # . #
//! 0b111   # # #
//! 0b101   # . #
//! 0b101   # . #
//! ```
use vstd::prelude::*;

verus! {

pub const GLYPH_WIDTH: usize = 3;

pub const GLYPH_HEIGHT: usize = 5;

/// Pixels from the start of one character to the start of the next (glyph + 1 px gap).
pub const ADVANCE: usize = GLYPH_WIDTH + 1;

/// Pixels from the top of one line of text to the top of the next.
pub const LINE_HEIGHT: usize = GLYPH_HEIGHT + 2;

/// The rows of the glyph drawn for characters the font does not have: a `?`.
pub open spec fn unknown_rows() -> Seq<u8> {
    seq![0b111, 0b001, 0b010, 0b000, 0b010]
}

/// The character with ASCII lowercase letters turned into uppercase.
pub open spec fn ascii_upper(c: char) -> char {
    if 'a' <= c && c <= 'z' {
        ((c as u32) - 32) as char
    } else {
        c
    }
}

/// The five rows of the glyph the font holds for `c` (uppercase letters,
/// digits and a few signs), or the `?` glyph for any other character.
pub open spec fn glyph_rows(c: char) -> Seq<u8> {
    match c {
        'A' => seq![0b010, 0b101, 0b111, 0b101, 0b101],
        'B' => seq![0b110, 0b101, 0b110, 0b101, 0b110],
        'C' => seq![0b011, 0b100, 0b100, 0b100, 0b011],
        'D' => seq![0b110, 0b101, 0b101, 0b101, 0b110],
        'E' => seq![0b111, 0b100, 0b110, 0b100, 0b111],
        'F' => seq![0b111, 0b100, 0b110, 0b100, 0b100],
        'G' => seq![0b011, 0b100, 0b101, 0b101, 0b011],
        'H' => seq![0b101, 0b101, 0b111, 0b101, 0b101],
        'I' => seq![0b111, 0b010, 0b010, 0b010, 0b111],
        'J' => seq![0b001, 0b001, 0b001, 0b101, 0b010],
        'K' => seq![0b101, 0b101, 0b110, 0b101, 0b101],
        'L' => seq![0b100, 0b100, 0b100, 0b100, 0b111],
        'M' => seq![0b101, 0b111, 0b111, 0b101, 0b101],
        'N' => seq![0b110, 0b101, 0b101, 0b101, 0b101],
        'O' => seq![0b010, 0b101, 0b101, 0b101, 0b010],
        'P' => seq![0b110, 0b101, 0b110, 0b100, 0b100],
        'Q' => seq![0b010, 0b101, 0b101, 0b110, 0b011],
        'R' => seq![0b110, 0b101, 0b110, 0b101, 0b101],
        'S' => seq![0b011, 0b100, 0b010, 0b001, 0b110],
        'T' => seq![0b111, 0b010, 0b010, 0b010, 0b010],
        'U' => seq![0b101, 0b101, 0b101, 0b101, 0b111],
        'V' => seq![0b101, 0b101, 0b101, 0b101, 0b010],
        'W' => seq![0b101, 0b101, 0b111, 0b111, 0b101],
        'X' => seq![0b101, 0b101, 0b010, 0b101, 0b101],
        'Y' => seq![0b101, 0b101, 0b010, 0b010, 0b010],
        'Z' => seq![0b111, 0b001, 0b010, 0b100, 0b111],
        '0' => seq![0b111, 0b101, 0b101, 0b101, 0b111],
        '1' => seq![0b010, 0b110, 0b010, 0b010, 0b111],
        '2' => seq![0b111, 0b001, 0b111, 0b100, 0b111],
        '3' => seq![0b111, 0b001, 0b111, 0b001, 0b111],
        '4' => seq![0b101, 0b101, 0b111, 0b001, 0b001],
        '5' => seq![0b111, 0b100, 0b111, 0b001, 0b111],
        '6' => seq![0b111, 0b100, 0b111, 0b101, 0b111],
        '7' => seq![0b111, 0b001, 0b001, 0b010, 0b010],
        '8' => seq![0b111, 0b101, 0b111, 0b101, 0b111],
        '9' => seq![0b111, 0b101, 0b111, 0b001, 0b111],
        ' ' => seq![0b000, 0b000, 0b000, 0b000, 0b000],
        '.' => seq![0b000, 0b000, 0b000, 0b000, 0b010],
        ',' => seq![0b000, 0b000, 0b000, 0b010, 0b100],
        ':' => seq![0b000, 0b010, 0b000, 0b010, 0b000],
        '!' => seq![0b010, 0b010, 0b010, 0b000, 0b010],
        '-' => seq![0b000, 0b000, 0b111, 0b000, 0b000],
        '+' => seq![0b000, 0b010, 0b111, 0b010, 0b000],
        '=' => seq![0b000, 0b111, 0b000, 0b111, 0b000],
        '/' => seq![0b001, 0b001, 0b010, 0b100, 0b100],
        '(' => seq![0b001, 0b010, 0b010, 0b010, 0b001],
        ')' => seq![0b100, 0b010, 0b010, 0b010, 0b100],
        '\'' => seq![0b010, 0b010, 0b000, 0b000, 0b000],
        _ => unknown_rows(),
    }
}

/// The glyph drawn for characters the font does not have: a `?`.
pub fn unknown_glyph() -> (g: [u8; 5])
    ensures
        g@ == unknown_rows(),
{
    [0b111, 0b001, 0b010, 0b000, 0b010]
}

/// Looks up the bitmap for a character. Lowercase letters are drawn as uppercase.
pub fn glyph(c: char) -> (g: [u8; 5])
    ensures
        g@ == glyph_rows(ascii_upper(c)),
{
    match c {
        'A' | 'a' => [0b010, 0b101, 0b111, 0b101, 0b101],
        'B' | 'b' => [0b110, 0b101, 0b110, 0b101, 0b110],
        'C' | 'c' => [0b011, 0b100, 0b100, 0b100, 0b011],
        'D' | 'd' => [0b110, 0b101, 0b101, 0b101, 0b110],
        'E' | 'e' => [0b111, 0b100, 0b110, 0b100, 0b111],
        'F' | 'f' => [0b111, 0b100, 0b110, 0b100, 0b100],
        'G' | 'g' => [0b011, 0b100, 0b101, 0b101, 0b011],
        'H' | 'h' => [0b101, 0b101, 0b111, 0b101, 0b101],
        'I' | 'i' => [0b111, 0b010, 0b010, 0b010, 0b111],
        'J' | 'j' => [0b001, 0b001, 0b001, 0b101, 0b010],
        'K' | 'k' => [0b101, 0b101, 0b110, 0b101, 0b101],
        'L' | 'l' => [0b100, 0b100, 0b100, 0b100, 0b111],
        'M' | 'm' => [0b101, 0b111, 0b111, 0b101, 0b101],
        'N' | 'n' => [0b110, 0b101, 0b101, 0b101, 0b101],
        'O' | 'o' => [0b010, 0b101, 0b101, 0b101, 0b010],
        'P' | 'p' => [0b110, 0b101, 0b110, 0b100, 0b100],
        'Q' | 'q' => [0b010, 0b101, 0b101, 0b110, 0b011],
        'R' | 'r' => [0b110, 0b101, 0b110, 0b101, 0b101],
        'S' | 's' => [0b011, 0b100, 0b010, 0b001, 0b110],
        'T' | 't' => [0b111, 0b010, 0b010, 0b010, 0b010],
        'U' | 'u' => [0b101, 0b101, 0b101, 0b101, 0b111],
        'V' | 'v' => [0b101, 0b101, 0b101, 0b101, 0b010],
        'W' | 'w' => [0b101, 0b101, 0b111, 0b111, 0b101],
        'X' | 'x' => [0b101, 0b101, 0b010, 0b101, 0b101],
        'Y' | 'y' => [0b101, 0b101, 0b010, 0b010, 0b010],
        'Z' | 'z' => [0b111, 0b001, 0b010, 0b100, 0b111],
        '0' => [0b111, 0b101, 0b101, 0b101, 0b111],
        '1' => [0b010, 0b110, 0b010, 0b010, 0b111],
        '2' => [0b111, 0b001, 0b111, 0b100, 0b111],
        '3' => [0b111, 0b001, 0b111, 0b001, 0b111],
        '4' => [0b101, 0b101, 0b111, 0b001, 0b001],
        '5' => [0b111, 0b100, 0b111, 0b001, 0b111],
        '6' => [0b111, 0b100, 0b111, 0b101, 0b111],
        '7' => [0b111, 0b001, 0b001, 0b010, 0b010],
        '8' => [0b111, 0b101, 0b111, 0b101, 0b111],
        '9' => [0b111, 0b101, 0b111, 0b001, 0b111],
        ' ' => [0b000, 0b000, 0b000, 0b000, 0b000],
        '.' => [0b000, 0b000, 0b000, 0b000, 0b010],
        ',' => [0b000, 0b000, 0b000, 0b010, 0b100],
        ':' => [0b000, 0b010, 0b000, 0b010, 0b000],
        '!' => [0b010, 0b010, 0b010, 0b000, 0b010],
        '-' => [0b000, 0b000, 0b111, 0b000, 0b000],
        '+' => [0b000, 0b010, 0b111, 0b010, 0b000],
        '=' => [0b000, 0b111, 0b000, 0b111, 0b000],
        '/' => [0b001, 0b001, 0b010, 0b100, 0b100],
        '(' => [0b001, 0b010, 0b010, 0b010, 0b001],
        ')' => [0b100, 0b010, 0b010, 0b010, 0b100],
        '\'' => [0b010, 0b010, 0b000, 0b000, 0b000],
        _ => unknown_glyph(),
    }
}


/// How much a glyph row's value changes when the pixel in column `col` is
/// lit: the leftmost of the three columns is the highest of the three bits.
pub open spec fn column_weight(col: int) -> int {
    if col == 0 {
        4
    } else if col == 1 {
        2
    } else {
        1
    }
}

/// Is the pixel in column `col` (0 is the left one) lit in a glyph row?
pub open spec fn pixel_lit(row_bits: u8, col: int) -> bool {
    (row_bits as int / column_weight(col)) % 2 == 1
}

/// Is the pixel at (`col`, `row`) of this glyph lit? `col` 0 is the left column.
pub fn is_lit(glyph: &[u8; 5], col: usize, row: usize) -> (lit: bool)
    requires
        col < GLYPH_WIDTH,
        row < GLYPH_HEIGHT,
    ensures
        lit == pixel_lit(glyph@[row as int], col as int),
{
    let bit: usize = GLYPH_WIDTH - 1 - col;
    let v: u8 = glyph[row];
    proof {
        assert((v >> 0usize) & 1 == v % 2) by (bit_vector);
        assert((v >> 1usize) & 1 == (v / 2) % 2) by (bit_vector);
        assert((v >> 2usize) & 1 == (v / 4) % 2) by (bit_vector);
    }
    (v >> bit) & 1 == 1
}

/// Lowercase letters are drawn with the same glyph as their uppercase letter.
pub proof fn law_lowercase_drawn_as_uppercase(c: char)
    requires
        'a' <= c <= 'z',
    ensures
        glyph_rows(ascii_upper(c)) == glyph_rows(ascii_upper(((c as u32) - 32) as char)),
{
}

/// Every letter and digit has a glyph of its own, not the `?` shown for
/// characters the font lacks.
pub proof fn law_letters_and_digits_have_glyphs(c: char)
    requires
        ('A' <= c <= 'Z') || ('0' <= c <= '9'),
    ensures
        glyph_rows(c) != unknown_rows(),
{
    if c == 'A' {
        assert(glyph_rows(c)[0] != unknown_rows()[0]);
    } else if c == 'B' {
        assert(glyph_rows(c)[0] != unknown_rows()[0]);
    } else if c == 'C' {
        assert(glyph_rows(c)[0] != unknown_rows()[0]);
    } else if c == 'D' {
        assert(glyph_rows(c)[0] != unknown_rows()[0]);
    } else if c == 'E' {
        assert(glyph_rows(c)[1] != unknown_rows()[1]);
    } else if c == 'F' {
        assert(glyph_rows(c)[1] != unknown_rows()[1]);
    } else if c == 'G' {
        assert(glyph_rows(c)[0] != unknown_rows()[0]);
    } else if c == 'H' {
        assert(glyph_rows(c)[0] != unknown_rows()[0]);
    } else if c == 'I' {
        assert(glyph_rows(c)[1] != unknown_rows()[1]);
    } else if c == 'J' {
        assert(glyph_rows(c)[0] != unknown_rows()[0]);
    } else if c == 'K' {
        assert(glyph_rows(c)[0] != unknown_rows()[0]);
    } else if c == 'L' {
        assert(glyph_rows(c)[0] != unknown_rows()[0]);
    } else if c == 'M' {
        assert(glyph_rows(c)[0] != unknown_rows()[0]);
    } else if c == 'N' {
        assert(glyph_rows(c)[0] != unknown_rows()[0]);
    } else if c == 'O' {
        assert(glyph_rows(c)[0] != unknown_rows()[0]);
    } else if c == 'P' {
        assert(glyph_rows(c)[0] != unknown_rows()[0]);
    } else if c == 'Q' {
        assert(glyph_rows(c)[0] != unknown_rows()[0]);
    } else if c == 'R' {
        assert(glyph_rows(c)[0] != unknown_rows()[0]);
    } else if c == 'S' {
        assert(glyph_rows(c)[0] != unknown_rows()[0]);
    } else if c == 'T' {
        assert(glyph_rows(c)[1] != unknown_rows()[1]);
    } else if c == 'U' {
        assert(glyph_rows(c)[0] != unknown_rows()[0]);
    } else if c == 'V' {
        assert(glyph_rows(c)[0] != unknown_rows()[0]);
    } else if c == 'W' {
        assert(glyph_rows(c)[0] != unknown_rows()[0]);
    } else if c == 'X' {
        assert(glyph_rows(c)[0] != unknown_rows()[0]);
    } else if c == 'Y' {
        assert(glyph_rows(c)[0] != unknown_rows()[0]);
    } else if c == 'Z' {
        assert(glyph_rows(c)[3] != unknown_rows()[3]);
    } else if c == '0' {
        assert(glyph_rows(c)[1] != unknown_rows()[1]);
    } else if c == '1' {
        assert(glyph_rows(c)[0] != unknown_rows()[0]);
    } else if c == '2' {
        assert(glyph_rows(c)[2] != unknown_rows()[2]);
    } else if c == '3' {
        assert(glyph_rows(c)[2] != unknown_rows()[2]);
    } else if c == '4' {
        assert(glyph_rows(c)[0] != unknown_rows()[0]);
    } else if c == '5' {
        assert(glyph_rows(c)[1] != unknown_rows()[1]);
    } else if c == '6' {
        assert(glyph_rows(c)[1] != unknown_rows()[1]);
    } else if c == '7' {
        assert(glyph_rows(c)[2] != unknown_rows()[2]);
    } else if c == '8' {
        assert(glyph_rows(c)[1] != unknown_rows()[1]);
    } else if c == '9' {
        assert(glyph_rows(c)[1] != unknown_rows()[1]);
    }
}

} // verus!
