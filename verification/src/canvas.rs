//! The canvas: a block of pixels in memory that games draw into.
//!
//! Pixels are stored row by row in one flat `Vec`, so the pixel at `(x, y)`
//! lives at index `y * width + x`. Each pixel is a color in the
//! `0x00RRGGBB` format.
use vstd::prelude::*;
use crate::color::{Color, color_of_hex, packed};
use crate::font::{ascii_upper, glyph_rows, pixel_lit};
use vstd::seq_lib::lemma_concat_associative;

verus! {

/// What a canvas holds: its size and its pixels, row by row.
pub struct CanvasView {
    pub width: nat,
    pub height: nat,
    pub pixels: Seq<u32>,
}

/// The position in the pixel list of the pixel at `(x, y)`, or `None` if
/// `(x, y)` is off a `width` x `height` canvas.
pub open spec fn pixel_index(width: nat, height: nat, x: int, y: int) -> Option<int> {
    if 0 <= x < width && 0 <= y < height {
        Some(y * width + x)
    } else {
        None
    }
}

/// `v` moved into `0..=hi`.
pub open spec fn clamp_to(v: int, hi: int) -> int {
    if v < 0 {
        0
    } else if v > hi {
        hi
    } else {
        v
    }
}

/// Is the pixel at list position `i` of a canvas `width` wide inside the
/// block of columns `x0..x1` and rows `y0..y1`?
pub open spec fn in_block(width: nat, i: int, x0: int, x1: int, y0: int, y1: int) -> bool {
    width > 0 && x0 <= i % (width as int) < x1 && y0 <= i / (width as int) < y1
}

/// The four bytes of `v` (taken modulo 2^32), lowest first.
pub open spec fn le_u32(v: int) -> Seq<u8> {
    seq![(v % 0x100) as u8, ((v / 0x100) % 0x100) as u8, ((v / 0x1_0000) % 0x100) as u8, ((v / 0x100_0000) % 0x100) as u8]
}

/// The two bytes of `v` (taken modulo 2^16), lowest first.
pub open spec fn le_u16(v: int) -> Seq<u8> {
    seq![(v % 0x100) as u8, ((v / 0x100) % 0x100) as u8]
}

/// The 54-byte header of a 32-bit BMP image `width` x `height` pixels whose
/// rows go from top to bottom: the file header, then the info header.
pub open spec fn bmp_header(width: nat, height: nat) -> Seq<u8> {
    let image_size: int = (width * height * 4) as int;
    seq![0x42u8, 0x4Du8]  // "BM"
        + le_u32(54 + image_size)  // file size
        + le_u32(0)  // reserved
        + le_u32(54)  // where the pixels start
        + le_u32(40)  // size of the info header
        + le_u32(width as int)
        + le_u32(0x1_0000_0000 - height)  // the height, negated: rows go top to bottom
        + le_u16(1)  // color planes
        + le_u16(32)  // bits per pixel
        + le_u32(0)  // no compression
        + le_u32(image_size)
        + le_u32(2835)  // horizontal resolution (72 DPI)
        + le_u32(2835)  // vertical resolution
        + le_u32(0)  // colors in palette
        + le_u32(0)  // "important" colors
}

/// The pixels as BMP stores them: for each pixel the bytes blue, green,
/// red and an opaque alpha of 0xFF.
pub open spec fn bmp_pixels(pixels: Seq<u32>) -> Seq<u8>
    decreases pixels.len(),
{
    if pixels.len() == 0 {
        Seq::empty()
    } else {
        bmp_pixels(pixels.drop_last()) + le_u32((pixels.last() | 0xFF00_0000u32) as int)
    }
}

/// A whole BMP file holding the canvas.
pub open spec fn bmp_file(canvas: CanvasView) -> Seq<u8> {
    bmp_header(canvas.width, canvas.height) + bmp_pixels(canvas.pixels)
}

/// Appends the four bytes of `v`, lowest first.
fn push_u32_le(out: &mut Vec<u8>, v: u32)
    ensures
        final(out)@ == old(out)@ + le_u32(v as int),
{
    out.push((v % 0x100) as u8);
    out.push(((v / 0x100) % 0x100) as u8);
    out.push(((v / 0x1_0000) % 0x100) as u8);
    out.push(((v / 0x100_0000) % 0x100) as u8);
    assert(final(out)@ =~= old(out)@ + le_u32(v as int));
}

/// Appends the two bytes of `v`, lowest first.
fn push_u16_le(out: &mut Vec<u8>, v: u16)
    ensures
        final(out)@ == old(out)@ + le_u16(v as int),
{
    out.push((v % 0x100) as u8);
    out.push(((v / 0x100) % 0x100) as u8);
    assert(final(out)@ =~= old(out)@ + le_u16(v as int));
}

/// Appends the BMP header of an image `width` x `height` pixels whose pixel
/// data takes `image_size` bytes.
fn push_bmp_header(out: &mut Vec<u8>, width: u32, height: u32, image_size: u32)
    requires
        width <= i32::MAX,
        height <= i32::MAX,
        image_size == width * height * 4,
        54 + image_size <= u32::MAX,
    ensures
        final(out)@ == old(out)@ + bmp_header(width as nat, height as nat),
{
    let header_size: u32 = 14 + 40;
    let negated_height: u32 = if height == 0 { 0 } else { (0x1_0000_0000u64 - height as u64) as u32 };
    proof {
        assert(le_u32(0) =~= le_u32(0x1_0000_0000));
    }
    let ghost start = out@;
    // The header written so far.
    let ghost mut written: Seq<u8> = seq![0x42u8, 0x4Du8];
    out.push(0x42u8);  // "BM"
    out.push(0x4Du8);
    assert(out@ =~= start + written);
    push_u32_le(out, header_size + image_size);  // file size
    proof {
        lemma_concat_associative(start, written, le_u32(54 + (width * height * 4) as int));
        written = written + le_u32(54 + (width * height * 4) as int);
    }
    push_u32_le(out, 0);  // reserved
    proof {
        lemma_concat_associative(start, written, le_u32(0));
        written = written + le_u32(0);
    }
    push_u32_le(out, header_size);  // where the pixels start
    proof {
        lemma_concat_associative(start, written, le_u32(54));
        written = written + le_u32(54);
    }
    push_u32_le(out, 40);  // size of the info header ("BITMAPINFOHEADER")
    proof {
        lemma_concat_associative(start, written, le_u32(40));
        written = written + le_u32(40);
    }
    push_u32_le(out, width);
    proof {
        lemma_concat_associative(start, written, le_u32(width as nat as int));
        written = written + le_u32(width as nat as int);
    }
    push_u32_le(out, negated_height);  // negative height: rows go top to bottom
    proof {
        lemma_concat_associative(start, written, le_u32(0x1_0000_0000 - height as nat));
        written = written + le_u32(0x1_0000_0000 - height as nat);
    }
    push_u16_le(out, 1);  // color planes (always 1)
    proof {
        lemma_concat_associative(start, written, le_u16(1));
        written = written + le_u16(1);
    }
    push_u16_le(out, 32);  // bits per pixel
    proof {
        lemma_concat_associative(start, written, le_u16(32));
        written = written + le_u16(32);
    }
    push_u32_le(out, 0);  // no compression
    proof {
        lemma_concat_associative(start, written, le_u32(0));
        written = written + le_u32(0);
    }
    push_u32_le(out, image_size);
    proof {
        lemma_concat_associative(start, written, le_u32((width * height * 4) as int));
        written = written + le_u32((width * height * 4) as int);
    }
    push_u32_le(out, 2835);  // horizontal resolution (72 DPI)
    proof {
        lemma_concat_associative(start, written, le_u32(2835));
        written = written + le_u32(2835);
    }
    push_u32_le(out, 2835);  // vertical resolution
    proof {
        lemma_concat_associative(start, written, le_u32(2835));
        written = written + le_u32(2835);
    }
    push_u32_le(out, 0);  // colors in palette (none)
    proof {
        lemma_concat_associative(start, written, le_u32(0));
        written = written + le_u32(0);
    }
    push_u32_le(out, 0);  // "important" colors (all)
    proof {
        lemma_concat_associative(start, written, le_u32(0));
        written = written + le_u32(0);
    }
}

/// One point of a line drawn with Bresenham's algorithm from `(x0, y0)`:
/// `a` steps taken along x and `b` along y, in directions `sx` and `sy`.
pub open spec fn line_point(x0: int, y0: int, sx: int, sy: int, a: int, b: int) -> (int, int) {
    (x0 + sx * a, y0 + sy * b)
}

/// Bresenham's error term after `a` steps along x and `b` along y, for a
/// line that spans `dx` columns and `dy` rows: how far the drawn pixels are
/// from the ideal line, scaled to stay a whole number.
pub open spec fn line_error(dx: int, dy: int, a: int, b: int) -> int {
    dx * (1 + b) - dy * (1 + a)
}

/// The pixels of a line drawn with Bresenham's algorithm from the point
/// reached after `a` steps along x and `b` along y, in drawing order. Each
/// step moves along x when twice the error is at least `-dy`, and along y
/// when it is at most `dx` (or both); the line ends once `dx` steps along x
/// and `dy` along y are taken.
pub open spec fn line_from(x0: int, y0: int, sx: int, sy: int, dx: int, dy: int, a: int, b: int) -> Seq<(int, int)>
    decreases (dx - a) + (dy - b),
{
    let point = line_point(x0, y0, sx, sy, a, b);
    if a >= dx && b >= dy {
        seq![point]
    } else {
        let e2 = 2 * line_error(dx, dy, a, b);
        let a2 = if e2 >= -dy { a + 1 } else { a };
        let b2 = if e2 <= dx { b + 1 } else { b };
        if 0 <= a <= a2 <= dx && 0 <= b <= b2 <= dy && (a2 > a || b2 > b) {
            seq![point] + line_from(x0, y0, sx, sy, dx, dy, a2, b2)
        } else {
            seq![point]
        }
    }
}

/// The direction, 1 or -1, in which a line from `from` to `to` steps.
pub open spec fn step_toward(from: int, to: int) -> int {
    if from < to {
        1
    } else {
        -1
    }
}

/// The absolute value of `v`.
pub open spec fn abs(v: int) -> int {
    if v < 0 {
        -v
    } else {
        v
    }
}

/// The pixels of the line from `(x0, y0)` to `(x1, y1)` that Bresenham's
/// algorithm draws, in drawing order.
pub open spec fn line_points(x0: int, y0: int, x1: int, y1: int) -> Seq<(int, int)> {
    line_from(x0, y0, step_toward(x0, x1), step_toward(y0, y1), abs(x1 - x0), abs(y1 - y0), 0, 0)
}

/// The pixel list of a `width` x `height` canvas after setting the pixel at
/// `point` to `value`; a point off the canvas changes nothing.
pub open spec fn plot(width: nat, height: nat, pixels: Seq<u32>, point: (int, int), value: u32) -> Seq<u32> {
    match pixel_index(width, height, point.0, point.1) {
        Some(j) => pixels.update(j, value),
        None => pixels,
    }
}

/// The pixel list after setting each of `points` to `value`, in order.
pub open spec fn plot_all(width: nat, height: nat, pixels: Seq<u32>, points: Seq<(int, int)>, value: u32) -> Seq<u32>
    decreases points.len(),
{
    if points.len() == 0 {
        pixels
    } else {
        plot_all(width, height, plot(width, height, pixels, points[0], value), points.drop_first(), value)
    }
}

/// The number of characters since the last newline in `s`.
pub open spec fn current_run(s: Seq<char>) -> nat
    decreases s.len(),
{
    if s.len() == 0 {
        0
    } else if s.last() == '\n' {
        0
    } else {
        current_run(s.drop_last()) + 1
    }
}

/// The length of the line that a newline after `t` ends: the characters
/// since the previous newline, not counting a carriage return just before
/// the newline (a `"\r\n"` line ending).
pub open spec fn ended_line(t: Seq<char>) -> nat {
    if t.len() > 0 && t.last() == '\r' {
        (current_run(t) - 1) as nat
    } else {
        current_run(t)
    }
}

/// The length of the longest line of `s` that a newline ends.
pub open spec fn longest_ended_line(s: Seq<char>) -> nat
    decreases s.len(),
{
    if s.len() == 0 {
        0
    } else if s.last() == '\n' {
        let prev = longest_ended_line(s.drop_last());
        let line = ended_line(s.drop_last());
        if line > prev {
            line
        } else {
            prev
        }
    } else {
        longest_ended_line(s.drop_last())
    }
}

/// The number of characters in the longest line of `s`, with lines split
/// as `str::lines` splits them: at `"\n"` and `"\r\n"`.
pub open spec fn longest_line(s: Seq<char>) -> nat {
    if current_run(s) > longest_ended_line(s) {
        current_run(s)
    } else {
        longest_ended_line(s)
    }
}

/// How many pixels wide text whose longest line has `longest` characters is
/// at `scale`: each character takes 4 font pixels (3 plus a gap), but there
/// is no gap after the last one.
pub open spec fn text_width_of(longest: nat, scale: nat) -> nat {
    if longest == 0 {
        0
    } else {
        ((longest * 4 - 1) * scale) as nat
    }
}

/// Where character `k` of `text` is drawn when the text starts at `(x, y)`
/// with font pixels `scale` pixels big: each character moves the cursor
/// right by 4 font pixels (3 plus a gap), and a newline moves it back to
/// `x` and down by 7 (5 plus a gap of 2).
pub open spec fn cursor(text: Seq<char>, x: int, y: int, scale: int, k: int) -> (int, int)
    decreases k,
{
    if k <= 0 {
        (x, y)
    } else {
        let p = cursor(text, x, y, scale, k - 1);
        if text[k - 1] == '\n' {
            (x, p.1 + 7 * scale)
        } else {
            (p.0 + 4 * scale, p.1)
        }
    }
}

/// Does font cell `cell` (row `cell / 3`, column `cell % 3`) of a glyph
/// drawn at `(cx, cy)` with `scale`-pixel font pixels cover the pixel `(px, py)`?
pub open spec fn cell_covers(cx: int, cy: int, scale: int, cell: int, px: int, py: int) -> bool {
    let row = cell / 3;
    let col = cell % 3;
    cx + col * scale <= px < cx + col * scale + scale && cy + row * scale <= py < cy + row * scale + scale
}

/// Does one of the lit cells among the first `cells` cells of a glyph with
/// rows `rows`, drawn at `(cx, cy)`, cover the pixel `(px, py)`?
pub open spec fn glyph_covers(rows: Seq<u8>, cx: int, cy: int, scale: int, cells: int, px: int, py: int) -> bool {
    exists|cell: int|
        0 <= cell < cells && pixel_lit(rows[cell / 3], cell % 3) && #[trigger] cell_covers(cx, cy, scale, cell, px, py)
}

/// Does the glyph of one of the first `n` characters of `text`, drawn from
/// `(x, y)` at `scale`, cover the pixel `(px, py)`?
pub open spec fn text_covers(text: Seq<char>, x: int, y: int, scale: int, n: int, px: int, py: int) -> bool {
    exists|k: int|
        0 <= k < n && text[k] != '\n' && #[trigger] glyph_covers(glyph_rows(ascii_upper(text[k])),
            cursor(text, x, y, scale, k).0, cursor(text, x, y, scale, k).1, scale, 15, px, py)
}

/// The pixel value whose blue, green and red bytes are `bytes[k]`,
/// `bytes[k + 1]` and `bytes[k + 2]`.
pub open spec fn bgr_at(bytes: Seq<u8>, k: int) -> u32 {
    (bytes[k] + bytes[k + 1] * 0x100 + bytes[k + 2] * 0x1_0000) as u32
}

/// A 2D grid of pixels.
pub struct Canvas {
    width: usize,
    height: usize,
    pixels: Vec<u32>,
}

impl View for Canvas {
    type V = CanvasView;

    closed spec fn view(&self) -> CanvasView {
        CanvasView { width: self.width as nat, height: self.height as nat, pixels: self.pixels@ }
    }
}

impl Canvas {
    /// There is one pixel per position, `width * height` of them, and every
    /// pixel is a packed color.
    pub open spec fn wf(&self) -> bool {
        &&& self@.pixels.len() == self@.width * self@.height
        &&& forall|i: int| 0 <= i < self@.pixels.len() ==> #[trigger] self@.pixels[i] < 0x100_0000
    }

    /// Creates a black canvas.
    pub fn new(width: usize, height: usize) -> (canvas: Self)
        requires
            width * height <= usize::MAX,
        ensures
            canvas.wf(),
            canvas@.width == width,
            canvas@.height == height,
            canvas@.pixels == Seq::new((width * height) as nat, |i: int| 0u32),
    {
        let n: usize = width * height;
        let mut pixels: Vec<u32> = Vec::new();
        while pixels.len() < n
            invariant
                pixels.len() <= n,
                forall|i: int| 0 <= i < pixels.len() ==> pixels@[i] == 0,
            decreases n - pixels.len(),
        {
            pixels.push(0);
        }
        let canvas = Canvas { width, height, pixels };
        assert(canvas.pixels@ =~= Seq::new((width * height) as nat, |i: int| 0u32));
        canvas
    }

    pub fn width(&self) -> (w: usize)
        ensures
            w == self@.width,
    {
        self.width
    }

    pub fn height(&self) -> (h: usize)
        ensures
            h == self@.height,
    {
        self.height
    }

    /// The raw pixels, row by row, each in `0x00RRGGBB` format.
    pub fn pixels(&self) -> (p: &[u32])
        ensures
            p@ == self@.pixels,
    {
        self.pixels.as_slice()
    }

    /// Fills the whole canvas with one color.
    pub fn clear(&mut self, color: Color)
        requires
            old(self).wf(),
        ensures
            final(self).wf(),
            final(self)@.width == old(self)@.width,
            final(self)@.height == old(self)@.height,
            final(self)@.pixels == Seq::new(old(self)@.pixels.len(), |i: int| packed(color.r, color.g, color.b)),
    {
        let c = color.to_u32();
        let n = self.pixels.len();
        let mut i: usize = 0;
        while i < n
            invariant
                n == self.pixels@.len(),
                n == old(self)@.pixels.len(),
                self.width == old(self)@.width,
                self.height == old(self)@.height,
                c == packed(color.r, color.g, color.b),
                c < 0x100_0000,
                i <= n,
                forall|j: int| 0 <= j < i ==> self.pixels@[j] == c,
                forall|j: int| i <= j < n ==> self.pixels@[j] == old(self)@.pixels[j],
                old(self).wf(),
            decreases n - i,
        {
            self.pixels.set(i, c);
            i += 1;
        }
        assert(self.pixels@ =~= Seq::new(old(self)@.pixels.len(), |i: int| packed(color.r, color.g, color.b)));
    }

    /// Draws a 1-pixel line from `(x0, y0)` to `(x1, y1)` using
    /// Bresenham's algorithm, which steps pixel by pixel using only integer
    /// math. Pixels off the canvas are skipped.
    pub fn draw_line(&mut self, x0: i32, y0: i32, x1: i32, y1: i32, color: Color)
        requires
            old(self).wf(),
        ensures
            final(self).wf(),
            final(self)@.width == old(self)@.width,
            final(self)@.height == old(self)@.height,
            final(self)@.pixels == plot_all(old(self)@.width, old(self)@.height, old(self)@.pixels,
                line_points(x0 as int, y0 as int, x1 as int, y1 as int), packed(color.r, color.g, color.b)),
    {
        let dx: i64 = if x1 >= x0 { x1 as i64 - x0 as i64 } else { x0 as i64 - x1 as i64 };
        let dy: i64 = if y1 >= y0 { y1 as i64 - y0 as i64 } else { y0 as i64 - y1 as i64 };
        let step_x: i64 = if x0 < x1 { 1 } else { -1 };
        let step_y: i64 = if y0 < y1 { 1 } else { -1 };
        let mut x: i64 = x0 as i64;
        let mut y: i64 = y0 as i64;
        // The error term, dx * (1 + b) - dy * (1 + a) after a steps along x
        // and b along y.
        let mut error: i128 = dx as i128 - dy as i128;
        let ghost mut a: int = 0;
        let ghost mut b: int = 0;
        let ghost (w, h) = (old(self)@.width, old(self)@.height);
        let ghost c = packed(color.r, color.g, color.b);
        let ghost (sx, sy) = (step_x as int, step_y as int);
        let ghost goal = plot_all(w, h, old(self)@.pixels, line_points(x0 as int, y0 as int, x1 as int, y1 as int), c);
        proof {
            assert(sx * 0 == 0 && sy * 0 == 0);
            assert(line_error(dx as int, dy as int, 0, 0) == dx - dy) by (nonlinear_arith);
        }
        loop
            invariant_except_break
                0 <= a <= dx,
                0 <= b <= dy,
                x == x0 + sx * a,
                y == y0 + sy * b,
                error == line_error(dx as int, dy as int, a, b),
                plot_all(w, h, self@.pixels, line_from(x0 as int, y0 as int, sx, sy, dx as int, dy as int, a, b), c) == goal,
            invariant
                self.wf(),
                self@.width == w,
                self@.height == h,
                dx == abs(x1 - x0),
                dy == abs(y1 - y0),
                sx == step_toward(x0 as int, x1 as int),
                sy == step_toward(y0 as int, y1 as int),
                sx == step_x,
                sy == step_y,
                c == packed(color.r, color.g, color.b),
                0 <= dx <= 0x1_0000_0000,
                0 <= dy <= 0x1_0000_0000,
            ensures
                self@.pixels == goal,
            decreases (dx - a) + (dy - b),
        {
            proof {
                lemma_line_stays_between(x0 as int, x1 as int, sx, dx as int, a);
                lemma_line_stays_between(y0 as int, y1 as int, sy, dy as int, b);
            }
            let ghost before = self@.pixels;
            let ghost point = line_point(x0 as int, y0 as int, sx, sy, a, b);
            self.set_pixel(x as i32, y as i32, color);
            let ghost rest = line_from(x0 as int, y0 as int, sx, sy, dx as int, dy as int, a, b);
            assert(self@.pixels == plot(w, h, before, point, c));
            if x == x1 as i64 && y == y1 as i64 {
                proof {
                    lemma_at_end(x0 as int, x1 as int, sx, dx as int, a);
                    lemma_at_end(y0 as int, y1 as int, sy, dy as int, b);
                    assert(rest == seq![point]);
                    assert(rest.drop_first() =~= Seq::<(int, int)>::empty());
                    assert(plot_all(w, h, self@.pixels, rest.drop_first(), c) == self@.pixels);
                }
                break;
            }
            proof {
                lemma_not_at_end(x0 as int, x1 as int, sx, dx as int, a, y0 as int, y1 as int, sy, dy as int, b,
                    x as int, y as int);
                lemma_bresenham_step(dx as int, dy as int, a, b);
            }
            proof {
                let (ee, dd, ee2, aa, bb) = (error as int, dx as int, dy as int, a, b);
                assert(-0x3_0000_0000_0000_0000 <= ee <= 0x3_0000_0000_0000_0000) by (nonlinear_arith)
                    requires ee == dd * (1 + bb) - ee2 * (1 + aa), 0 <= aa <= dd <= 0x1_0000_0000,
                        0 <= bb <= ee2 <= 0x1_0000_0000;
            }
            let e2: i128 = 2 * error;
            let ghost (a0, b0) = (a, b);
            assert(i32::MIN <= x <= i32::MAX && i32::MIN <= y <= i32::MAX);
            proof {
                assert(x + sx == x0 + sx * (a0 + 1) && y + sy == y0 + sy * (b0 + 1)) by (nonlinear_arith)
                    requires x == x0 + sx * a0, y == y0 + sy * b0;
            }
            if e2 >= -(dy as i128) {
                error = error - dy as i128;
                x = x + step_x;
                proof {
                    a = a + 1;
                }
            }
            if e2 <= dx as i128 {
                error = error + dx as i128;
                y = y + step_y;
                proof {
                    b = b + 1;
                }
            }
            proof {
                assert(error == line_error(dx as int, dy as int, a, b)) by (nonlinear_arith)
                    requires
                        error == (if e2 >= -dy { if e2 <= dx { line_error(dx as int, dy as int, a0, b0) - dy + dx }
                            else { line_error(dx as int, dy as int, a0, b0) - dy } }
                            else { if e2 <= dx { line_error(dx as int, dy as int, a0, b0) + dx }
                            else { line_error(dx as int, dy as int, a0, b0) } }),
                        a == (if e2 >= -dy { a0 + 1 } else { a0 }),
                        b == (if e2 <= dx { b0 + 1 } else { b0 });
                assert(rest == seq![line_point(x0 as int, y0 as int, sx, sy, a0, b0)]
                    + line_from(x0 as int, y0 as int, sx, sy, dx as int, dy as int, a, b));
                assert(rest.drop_first() =~= line_from(x0 as int, y0 as int, sx, sy, dx as int, dy as int, a, b));
            }
        }
    }

    /// How many pixels wide `text` is when drawn at `scale` (its widest line).
    pub fn text_width(text: &str, scale: u32) -> (w: u32)
        requires
            text@.len() <= usize::MAX,
            text_width_of(longest_line(text@), scale as nat) <= u32::MAX,
        ensures
            w == text_width_of(longest_line(text@), scale as nat),
    {
        let mut longest: usize = 0;
        let mut current: usize = 0;
        let mut after_cr = false;
        for c in it: text.chars()
            invariant
                it.seq() == text@,
                text@.len() <= usize::MAX,
                current == current_run(text@.subrange(0, it.index() as int)),
                current <= it.index(),
                longest == longest_ended_line(text@.subrange(0, it.index() as int)),
                after_cr == (it.index() > 0 && text@[it.index() - 1] == '\r'),
        {
            let ghost before = text@.subrange(0, it.index() as int);
            let ghost after = text@.subrange(0, it.index() + 1);
            proof {
                assert(after.drop_last() =~= before);
                assert(after.last() == c);
            }
            if c == '\n' {
                let line = if after_cr { current - 1 } else { current };
                if line > longest {
                    longest = line;
                }
                current = 0;
            } else {
                current += 1;
            }
            after_cr = c == '\r';
        }
        proof {
            assert(text@.subrange(0, text@.len() as int) =~= text@);
        }
        if current > longest {
            longest = current;
        }
        if longest == 0 || scale == 0 {
            return 0;
        }
        // Every character takes ADVANCE pixels, but there is no gap after the last one.
        proof {
            assert(longest * 4 - 1 <= (longest * 4 - 1) * scale) by (nonlinear_arith)
                requires longest >= 1, scale >= 1;
        }
        let row: u64 = longest as u64 * crate::font::ADVANCE as u64 - 1;
        (row as u32) * scale
    }

    /// Draws text with the built-in 3x5 pixel font. `(x, y)` is the top-left
    /// corner; `scale` makes each font pixel a `scale` x `scale` square.
    /// A `'\n'` starts a new line. Parts off the canvas are clipped away.
    pub fn draw_text(&mut self, text: &str, x: i32, y: i32, scale: u32, color: Color)
        requires
            old(self).wf(),
            text@.len() <= usize::MAX,
        ensures
            final(self).wf(),
            final(self)@.width == old(self)@.width,
            final(self)@.height == old(self)@.height,
            final(self)@.pixels == Seq::new(old(self)@.pixels.len(), |i: int|
                if text_covers(text@, x as int, y as int, scale as int, text@.len() as int,
                    i % (old(self)@.width as int), i / (old(self)@.width as int)) {
                    packed(color.r, color.g, color.b)
                } else {
                    old(self)@.pixels[i]
                }),
    {
        let ghost (w, h, old_pixels) = (old(self)@.width, old(self)@.height, old(self)@.pixels);
        let ghost c = packed(color.r, color.g, color.b);
        let ghost (xi, yi) = (x as int, y as int);
        let s: i128 = scale as i128;
        let mut cx: i128 = x as i128;
        let mut cy: i128 = y as i128;
        proof {
            assert(Seq::new(old_pixels.len(), |i: int| if text_covers(text@, xi, yi, s as int, 0, i % (w as int), i / (w as int)) { c } else { old_pixels[i] })
                =~= old_pixels);
        }
        for ch in it: text.chars()
            invariant
                it.seq() == text@,
                text@.len() <= usize::MAX,
                self.wf(),
                self@.width == w,
                self@.height == h,
                old_pixels.len() == w * h,
                c == packed(color.r, color.g, color.b),
                s == scale,
                0 <= s <= u32::MAX,
                cursor(text@, xi, yi, s as int, it.index() as int) == (cx as int, cy as int),
                xi == x,
                yi == y,
                i32::MIN <= cx <= i32::MAX + 4 * s * it.index(),
                i32::MIN <= cy <= i32::MAX + 7 * s * it.index(),
                self@.pixels == Seq::new(old_pixels.len(), |i: int|
                    if text_covers(text@, xi, yi, s as int, it.index() as int, i % (w as int), i / (w as int)) { c } else { old_pixels[i] }),
        {
            let ghost k = it.index() as int;
            let ghost before = self@.pixels;
            proof {
                assert(k < text@.len() && text@[k] == ch);
                assert(4 * s * k <= 4 * 0x1_0000_0000 * 0x1_0000_0000_0000_0000) by (nonlinear_arith)
                    requires 0 <= s <= u32::MAX, 0 <= k <= usize::MAX;
                assert(7 * s * k <= 7 * 0x1_0000_0000 * 0x1_0000_0000_0000_0000) by (nonlinear_arith)
                    requires 0 <= s <= u32::MAX, 0 <= k <= usize::MAX;
                assert(4 * s * (k + 1) == 4 * s * k + 4 * s && 7 * s * (k + 1) == 7 * s * k + 7 * s) by (nonlinear_arith);
            }
            if ch == '\n' {
                cx = x as i128;
                cy = cy + 7 * s;
                proof {
                    assert forall|i: int| #![trigger self@.pixels[i]] 0 <= i < old_pixels.len() implies
                        text_covers(text@, xi, yi, s as int, k + 1, i % (w as int), i / (w as int))
                        == text_covers(text@, xi, yi, s as int, k, i % (w as int), i / (w as int)) by {
                        lemma_text_covers_step(text@, xi, yi, s as int, k, i % (w as int), i / (w as int));
                    }
                    assert(self@.pixels =~= Seq::new(old_pixels.len(), |i: int|
                        if text_covers(text@, xi, yi, s as int, k + 1, i % (w as int), i / (w as int)) { c } else { old_pixels[i] }));
                }
            } else {
                let glyph = crate::font::glyph(ch);
                let ghost rows = glyph@;
                let mut cell: usize = 0;
                while cell < 15
                    invariant
                        cell <= 15,
                        self.wf(),
                        self@.width == w,
                        self@.height == h,
                        old_pixels.len() == w * h,
                        rows == glyph@,
                        rows == glyph_rows(ascii_upper(ch)),
                        c == packed(color.r, color.g, color.b),
                        s == scale,
                        0 <= s <= u32::MAX,
                        i32::MIN <= cx <= i32::MAX + 4 * 0x1_0000_0000 * 0x1_0000_0000_0000_0000,
                        i32::MIN <= cy <= i32::MAX + 7 * 0x1_0000_0000 * 0x1_0000_0000_0000_0000,
                        self@.pixels == Seq::new(old_pixels.len(), |i: int|
                            if text_covers(text@, xi, yi, s as int, k, i % (w as int), i / (w as int))
                                || glyph_covers(rows, cx as int, cy as int, s as int, cell as int, i % (w as int), i / (w as int)) {
                                c
                            } else {
                                old_pixels[i]
                            }),
                    decreases 15 - cell,
                {
                    let row: usize = cell / 3;
                    let col: usize = cell % 3;
                    let ghost prev = self@.pixels;
                    proof {
                        assert(0 <= col * s <= 2 * 0x1_0000_0000 && 0 <= row * s <= 4 * 0x1_0000_0000) by (nonlinear_arith)
                            requires col < 3, row < 5, 0 <= s <= u32::MAX;
                    }
                    if crate::font::is_lit(&glyph, col, row) {
                        let left: i128 = cx + col as i128 * s;
                        let top: i128 = cy + row as i128 * s;
                        self.fill_block(left, top, left + s, top + s, color);
                        proof {
                            assert forall|i: int| #![trigger self@.pixels[i]] 0 <= i < old_pixels.len() implies
                                self@.pixels[i] == (if text_covers(text@, xi, yi, s as int, k, i % (w as int), i / (w as int))
                                    || glyph_covers(rows, cx as int, cy as int, s as int, cell + 1, i % (w as int), i / (w as int)) {
                                    c
                                } else {
                                    old_pixels[i]
                                }) by {
                                lemma_clamped_block(w, h, i, left as int, (left + s) as int, top as int, (top + s) as int);
                                lemma_glyph_covers_step(rows, cx as int, cy as int, s as int, cell as int, i % (w as int), i / (w as int));
                            }
                        }
                    } else {
                        proof {
                            assert forall|i: int| #![trigger self@.pixels[i]] 0 <= i < old_pixels.len() implies
                                self@.pixels[i] == (if text_covers(text@, xi, yi, s as int, k, i % (w as int), i / (w as int))
                                    || glyph_covers(rows, cx as int, cy as int, s as int, cell + 1, i % (w as int), i / (w as int)) {
                                    c
                                } else {
                                    old_pixels[i]
                                }) by {
                                lemma_glyph_covers_step(rows, cx as int, cy as int, s as int, cell as int, i % (w as int), i / (w as int));
                            }
                        }
                    }
                    proof {
                        assert(self@.pixels =~= Seq::new(old_pixels.len(), |i: int|
                            if text_covers(text@, xi, yi, s as int, k, i % (w as int), i / (w as int))
                                || glyph_covers(rows, cx as int, cy as int, s as int, cell + 1, i % (w as int), i / (w as int)) {
                                c
                            } else {
                                old_pixels[i]
                            }));
                    }
                    cell += 1;
                }
                proof {
                    assert forall|i: int| #![trigger self@.pixels[i]] 0 <= i < old_pixels.len() implies
                        text_covers(text@, xi, yi, s as int, k + 1, i % (w as int), i / (w as int))
                        == (text_covers(text@, xi, yi, s as int, k, i % (w as int), i / (w as int))
                            || glyph_covers(rows, cx as int, cy as int, s as int, 15, i % (w as int), i / (w as int))) by {
                        lemma_text_covers_step(text@, xi, yi, s as int, k, i % (w as int), i / (w as int));
                    }
                    assert(self@.pixels =~= Seq::new(old_pixels.len(), |i: int|
                        if text_covers(text@, xi, yi, s as int, k + 1, i % (w as int), i / (w as int)) { c } else { old_pixels[i] }));
                }
                cx = cx + 4 * s;
            }
        }
    }

    /// Replaces the pixels with a picture read back from the graphics card:
    /// `height` rows of `bytes_per_row` bytes (rows can be padded), each
    /// pixel stored as the bytes blue, green, red and an ignored alpha.
    pub fn copy_bgra_rows(&mut self, bytes: &[u8], bytes_per_row: usize)
        requires
            old(self).wf(),
            bytes_per_row >= 4 * old(self)@.width,
            old(self)@.height == 0 || (old(self)@.height - 1) * bytes_per_row + 4 * old(self)@.width <= bytes@.len(),
        ensures
            final(self).wf(),
            final(self)@.width == old(self)@.width,
            final(self)@.height == old(self)@.height,
            final(self)@.pixels == Seq::new(old(self)@.pixels.len(), |i: int|
                bgr_at(bytes@, (i / (old(self)@.width as int)) * bytes_per_row + 4 * (i % (old(self)@.width as int)))),
    {
        let w = self.width;
        let h = self.height;
        let n = self.pixels.len();
        let blen = bytes.len();
        let ghost goal = Seq::new(old(self)@.pixels.len(), |i: int|
            bgr_at(bytes@, (i / (w as int)) * bytes_per_row + 4 * (i % (w as int))));
        let mut y: usize = 0;
        let mut row: usize = 0;
        while y < h
            invariant
                self.wf(),
                self.width == w,
                self.height == h,
                self@.pixels.len() == n,
                n == w * h,
                y <= h,
                row == y * w,
                bytes_per_row >= 4 * w,
                blen == bytes@.len(),
                h == 0 || (h - 1) * bytes_per_row + 4 * w <= bytes@.len(),
                goal.len() == n,
                forall|i: int| 0 <= i < n ==> #[trigger] goal[i] == bgr_at(bytes@, (i / (w as int)) * bytes_per_row + 4 * (i % (w as int))),
                forall|i: int| 0 <= i < row ==> #[trigger] self@.pixels[i] == goal[i],
            decreases h - y,
        {
            proof {
                assert(y * bytes_per_row + 4 * w <= bytes@.len()) by (nonlinear_arith)
                    requires y < h, (h - 1) * bytes_per_row + 4 * w <= bytes@.len();
                assert(row + w <= n) by (nonlinear_arith)
                    requires row == y * w, y < h, n == w * h;
            }
            let start: usize = y * bytes_per_row;
            let mut x: usize = 0;
            while x < w
                invariant
                    self.wf(),
                    self.width == w,
                    self.height == h,
                    self@.pixels.len() == n,
                    n == w * h,
                    x <= w,
                    y < h,
                    row == y * w,
                    row + w <= n,
                    start == y * bytes_per_row,
                    blen == bytes@.len(),
                    start + 4 * w <= bytes@.len(),
                    goal.len() == n,
                    forall|i: int| 0 <= i < n ==> #[trigger] goal[i] == bgr_at(bytes@, (i / (w as int)) * bytes_per_row + 4 * (i % (w as int))),
                    forall|i: int| 0 <= i < row + x ==> #[trigger] self@.pixels[i] == goal[i],
                decreases w - x,
            {
                let k = start + 4 * x;
                // Bytes B, G, R, A back into 0x00RRGGBB (dropping A).
                let pixel: u32 = bytes[k] as u32 + (bytes[k + 1] as u32) * 0x100 + (bytes[k + 2] as u32) * 0x1_0000;
                proof {
                    let i = row + x;
                    assert(i / (w as int) == y && i % (w as int) == x) by (nonlinear_arith)
                        requires i == y * w + x, 0 <= x < w;
                    assert(goal[i as int] == pixel);
                }
                self.pixels.set(row + x, pixel);
                x += 1;
            }
            proof {
                assert((y + 1) * w == row + w) by (nonlinear_arith)
                    requires row == y * w;
            }
            row = row + w;
            y += 1;
        }
        proof {
            assert(row == n) by (nonlinear_arith)
                requires row == y * w, y == h, n == w * h;
        }
        assert(self@.pixels =~= goal);
    }

    /// Writes a 32-bit BMP image of the canvas: a 54-byte header followed
    /// by the raw pixels, a format every image viewer can open.
    pub fn write_bmp(&self, out: &mut Vec<u8>)
        requires
            self.wf(),
            self@.width <= i32::MAX,
            self@.height <= i32::MAX,
            54 + self@.width * self@.height * 4 <= u32::MAX,
        ensures
            final(out)@ == old(out)@ + bmp_file(self@),
    {
        let header_size: u32 = 14 + 40;
        proof {
            let (w, h) = (self.width as int, self.height as int);
            assert(w * h * 4 == self.pixels@.len() * 4);
        }
        let image_size: u32 = (self.pixels.len() * 4) as u32;
        let ghost start = out@;
        push_bmp_header(out, self.width as u32, self.height as u32, image_size);

        // A pixel 0x00RRGGBB stored little-endian is the bytes B, G, R, 0,
        // which is exactly BMP's order. The last byte is set to 0xFF (opaque).
        let n = self.pixels.len();
        let mut i: usize = 0;
        while i < n
            invariant
                n == self.pixels@.len(),
                i <= n,
                out@ == start + bmp_header(self@.width, self@.height)
                    + bmp_pixels(self.pixels@.subrange(0, i as int)),
            decreases n - i,
        {
            let pixel = self.pixels[i];
            push_u32_le(out, pixel | 0xFF00_0000u32);
            proof {
                let before = self.pixels@.subrange(0, i as int);
                let after = self.pixels@.subrange(0, i + 1);
                assert(after.drop_last() =~= before);
                assert(after.last() == pixel);
            }
            i += 1;
        }
        assert(self.pixels@.subrange(0, n as int) =~= self.pixels@);
    }

    /// Converts `(x, y)` into an index into `pixels`, or `None` if it is off-canvas.
    fn index(&self, x: i32, y: i32) -> (i: Option<usize>)
        requires
            self.wf(),
        ensures
            match pixel_index(self@.width, self@.height, x as int, y as int) {
                Some(j) => i == Some(j as usize) && 0 <= j < self@.pixels.len() && j < usize::MAX,
                None => i is None,
            },
    {
        if x < 0 || y < 0 || x as usize >= self.width || y as usize >= self.height {
            return None;
        }
        let xu = x as usize;
        let yu = y as usize;
        let n = self.pixels.len();
        proof {
            let (w, h) = (self.width as int, self.height as int);
            assert(0 <= yu * w + xu < w * h) by (nonlinear_arith)
                requires 0 <= xu < w, 0 <= yu < h;
        }
        Some(yu * self.width + xu)
    }

    /// Sets one pixel. Pixels outside the canvas are silently ignored.
    pub fn set_pixel(&mut self, x: i32, y: i32, color: Color)
        requires
            old(self).wf(),
        ensures
            final(self).wf(),
            final(self)@.width == old(self)@.width,
            final(self)@.height == old(self)@.height,
            final(self)@.pixels == match pixel_index(old(self)@.width, old(self)@.height, x as int, y as int) {
                Some(j) => old(self)@.pixels.update(j, packed(color.r, color.g, color.b)),
                None => old(self)@.pixels,
            },
            pixel_index(old(self)@.width, old(self)@.height, x as int, y as int) matches Some(j)
                ==> 0 <= j < old(self)@.pixels.len(),
    {
        proof {
            law_pixel_index_in_range(self@.width, self@.height, x as int, y as int);
        }
        if let Some(i) = self.index(x, y) {
            let c = color.to_u32();
            self.pixels.set(i, c);
        }
    }

    /// Reads one pixel, or `None` if `(x, y)` is outside the canvas.
    pub fn get_pixel(&self, x: i32, y: i32) -> (c: Option<Color>)
        requires
            self.wf(),
        ensures
            match pixel_index(self@.width, self@.height, x as int, y as int) {
                Some(j) => c == Some(color_of_hex(self@.pixels[j])),
                None => c is None,
            },
            pixel_index(self@.width, self@.height, x as int, y as int) matches Some(j)
                ==> 0 <= j < self@.pixels.len(),
    {
        proof {
            law_pixel_index_in_range(self@.width, self@.height, x as int, y as int);
        }
        match self.index(x, y) {
            Some(i) => Some(Color::from_hex(self.pixels[i])),
            None => None,
        }
    }

    /// Fills the block of pixels from columns `left..right` and rows
    /// `top..bottom`, given in whole pixels. Parts outside the canvas are
    /// clipped away.
    pub fn fill_rect(&mut self, left: i32, top: i32, right: i32, bottom: i32, color: Color)
        requires
            old(self).wf(),
        ensures
            final(self).wf(),
            final(self)@.width == old(self)@.width,
            final(self)@.height == old(self)@.height,
            final(self)@.pixels == Seq::new(old(self)@.pixels.len(), |i: int|
                if in_block(old(self)@.width, i,
                    clamp_to(left as int, old(self)@.width as int), clamp_to(right as int, old(self)@.width as int),
                    clamp_to(top as int, old(self)@.height as int), clamp_to(bottom as int, old(self)@.height as int)) {
                    packed(color.r, color.g, color.b)
                } else {
                    old(self)@.pixels[i]
                }),
    {
        self.fill_block(left as i128, top as i128, right as i128, bottom as i128, color);
    }

    /// Fills the block of pixels from columns `left..right` and rows
    /// `top..bottom`, clipped to the canvas.
    fn fill_block(&mut self, left: i128, top: i128, right: i128, bottom: i128, color: Color)
        requires
            old(self).wf(),
        ensures
            final(self).wf(),
            final(self)@.width == old(self)@.width,
            final(self)@.height == old(self)@.height,
            final(self)@.pixels == Seq::new(old(self)@.pixels.len(), |i: int|
                if in_block(old(self)@.width, i,
                    clamp_to(left as int, old(self)@.width as int), clamp_to(right as int, old(self)@.width as int),
                    clamp_to(top as int, old(self)@.height as int), clamp_to(bottom as int, old(self)@.height as int)) {
                    packed(color.r, color.g, color.b)
                } else {
                    old(self)@.pixels[i]
                }),
    {
        let x0 = clamp_coordinate(left, self.width);
        let x1 = clamp_coordinate(right, self.width);
        let y0 = clamp_coordinate(top, self.height);
        let y1 = clamp_coordinate(bottom, self.height);
        let ghost goal = Seq::new(old(self)@.pixels.len(), |i: int|
                if in_block(old(self)@.width, i, x0 as int, x1 as int, y0 as int, y1 as int) {
                    packed(color.r, color.g, color.b)
                } else {
                    old(self)@.pixels[i]
                });
        if x0 >= x1 || y0 >= y1 {
            assert(self.pixels@ =~= goal);
            return;  // nothing visible
        }
        let c = color.to_u32();
        let w = self.width;
        let n = self.pixels.len();
        let mut y = y0;
        while y < y1
            invariant
                self.width == w,
                self.height == old(self)@.height,
                w == old(self)@.width,
                self.pixels@.len() == old(self)@.pixels.len(),
                self.pixels@.len() == w * self.height,
                self.pixels@.len() == n,
                x0 < x1 <= w,
                y0 <= y <= y1 <= self.height,
                old(self).wf(),
                c == packed(color.r, color.g, color.b),
                c < 0x100_0000,
                forall|i: int| 0 <= i < self.pixels@.len() ==> #[trigger] self.pixels@[i] ==
                    if in_block(w as nat, i, x0 as int, x1 as int, y0 as int, y as int) { c } else { old(self)@.pixels[i] },
            decreases y1 - y,
        {
            proof {
                let (yy, ww, hh) = (y as int, w as int, self.height as int);
                assert(yy * ww + ww <= ww * hh) by (nonlinear_arith)
                    requires yy < hh, ww >= 0;
            }
            let row = y * w;
            let mut x = x0;
            while x < x1
                invariant
                    self.width == w,
                    self.height == old(self)@.height,
                    w == old(self)@.width,
                    self.pixels@.len() == old(self)@.pixels.len(),
                    self.pixels@.len() == w * self.height,
                    self.pixels@.len() == n,
                    x0 <= x <= x1 <= w,
                    y0 <= y < y1 <= self.height,
                    row == y * w,
                    row + w <= self.pixels@.len(),
                    old(self).wf(),
                    c == packed(color.r, color.g, color.b),
                    c < 0x100_0000,
                    forall|i: int| 0 <= i < self.pixels@.len() ==> #[trigger] self.pixels@[i] ==
                        if in_block(w as nat, i, x0 as int, x1 as int, y0 as int, y as int)
                            || (row <= i < row + x && x0 <= i - row) { c } else { old(self)@.pixels[i] },
                decreases x1 - x,
            {
                self.pixels.set(row + x, c);
                x += 1;
            }
            proof {
                assert forall|i: int| 0 <= i < self.pixels@.len() implies #[trigger] self.pixels@[i] ==
                    if in_block(w as nat, i, x0 as int, x1 as int, y0 as int, y + 1) { c } else { old(self)@.pixels[i] } by {
                    lemma_block_row(w as nat, i, x0 as int, x1 as int, y0 as int, y as int);
                }
            }
            y += 1;
        }
        assert(self.pixels@ =~= goal);
    }
}

/// A coordinate `a` steps from `p0` toward `p1` (with `a` at most the
/// distance between them) lies between `p0` and `p1`, so it fits where
/// they do.
proof fn lemma_line_stays_between(p0: int, p1: int, s: int, d: int, a: int)
    requires
        s == step_toward(p0, p1),
        d == abs(p1 - p0),
        0 <= a <= d,
    ensures
        p0 <= p1 ==> p0 <= p0 + s * a <= p1,
        p1 < p0 ==> p1 <= p0 + s * a <= p0,
{
}

/// At the end point all the steps have been taken.
proof fn lemma_at_end(p0: int, p1: int, s: int, d: int, a: int)
    requires
        s == step_toward(p0, p1),
        d == abs(p1 - p0),
        0 <= a <= d,
        p0 + s * a == p1,
    ensures
        a == d,
{
}

/// Away from the end point, some step is still to be taken.
proof fn lemma_not_at_end(x0: int, x1: int, sx: int, dx: int, a: int, y0: int, y1: int, sy: int, dy: int, b: int,
    x: int, y: int)
    requires
        sx == step_toward(x0, x1),
        dx == abs(x1 - x0),
        0 <= a <= dx,
        x == x0 + sx * a,
        sy == step_toward(y0, y1),
        dy == abs(y1 - y0),
        0 <= b <= dy,
        y == y0 + sy * b,
        !(x == x1 && y == y1),
    ensures
        !(a >= dx && b >= dy),
{
    if a >= dx && b >= dy {
        assert(a == dx && b == dy);
    }
}

/// One step of Bresenham's algorithm away from the end moves along x or
/// along y (or both), and never past the end along either.
proof fn lemma_bresenham_step(dx: int, dy: int, a: int, b: int)
    requires
        0 <= a <= dx,
        0 <= b <= dy,
        !(a >= dx && b >= dy),
    ensures
        ({
            let e2 = 2 * line_error(dx, dy, a, b);
            let a2 = if e2 >= -dy { a + 1 } else { a };
            let b2 = if e2 <= dx { b + 1 } else { b };
            &&& a2 <= dx
            &&& b2 <= dy
            &&& (a2 > a || b2 > b)
        }),
{
    let e = line_error(dx, dy, a, b);
    if a == dx {
        // All x steps are taken, so b < dy: the error is at most -dy.
        assert(e <= -dy) by (nonlinear_arith)
            requires e == dx * (1 + b) - dy * (1 + a), a == dx, b < dy, dx >= 0;
    }
    if b == dy {
        // All y steps are taken, so a < dx: the error is at least dx.
        assert(e >= dx) by (nonlinear_arith)
            requires e == dx * (1 + b) - dy * (1 + a), b == dy, a < dx, dy >= 0;
    }
}

/// Two pixels that touch, side by side or diagonally, and are not the same.
pub open spec fn neighbors(p: (int, int), q: (int, int)) -> bool {
    abs(p.0 - q.0) <= 1 && abs(p.1 - q.1) <= 1 && p != q
}

/// The line from step `(a, b)` on starts at that step's point, ends at the
/// far end, and moves to a neighboring pixel at every step.
proof fn lemma_line_from_shape(x0: int, y0: int, sx: int, sy: int, dx: int, dy: int, a: int, b: int)
    requires
        0 <= a <= dx,
        0 <= b <= dy,
        sx == 1 || sx == -1,
        sy == 1 || sy == -1,
    ensures
        ({
            let pts = line_from(x0, y0, sx, sy, dx, dy, a, b);
            &&& pts.len() >= 1
            &&& pts[0] == line_point(x0, y0, sx, sy, a, b)
            &&& pts.last() == line_point(x0, y0, sx, sy, dx, dy)
            &&& forall|i: int| 0 <= i < pts.len() - 1 ==> #[trigger] neighbors(pts[i], pts[i + 1])
        }),
    decreases (dx - a) + (dy - b),
{
    let pts = line_from(x0, y0, sx, sy, dx, dy, a, b);
    let point = line_point(x0, y0, sx, sy, a, b);
    if a >= dx && b >= dy {
        assert(pts == seq![point]);
    } else {
        lemma_bresenham_step(dx, dy, a, b);
        let e2 = 2 * line_error(dx, dy, a, b);
        let a2 = if e2 >= -dy { a + 1 } else { a };
        let b2 = if e2 <= dx { b + 1 } else { b };
        let rest = line_from(x0, y0, sx, sy, dx, dy, a2, b2);
        lemma_line_from_shape(x0, y0, sx, sy, dx, dy, a2, b2);
        assert(pts == seq![point] + rest);
        let next = line_point(x0, y0, sx, sy, a2, b2);
        assert(next.0 - point.0 == sx * (a2 - a) && next.1 - point.1 == sy * (b2 - b)) by (nonlinear_arith)
            requires next == line_point(x0, y0, sx, sy, a2, b2), point == line_point(x0, y0, sx, sy, a, b);
        assert(neighbors(point, next));
        assert forall|i: int| 0 <= i < pts.len() - 1 implies #[trigger] neighbors(pts[i], pts[i + 1]) by {
            if i > 0 {
                assert(pts[i] == rest[i - 1] && pts[i + 1] == rest[i]);
                assert(neighbors(rest[i - 1], rest[(i - 1) + 1]));
            }
        }
    }
}

/// A line drawn from `(x0, y0)` to `(x1, y1)` starts at `(x0, y0)`, ends at
/// `(x1, y1)`, and each pixel touches the one before it: the line has no
/// gaps and never draws the same pixel twice in a row.
pub proof fn law_line_joins_its_ends(x0: int, y0: int, x1: int, y1: int)
    ensures
        ({
            let pts = line_points(x0, y0, x1, y1);
            &&& pts[0] == (x0, y0)
            &&& pts.last() == (x1, y1)
            &&& forall|i: int| 0 <= i < pts.len() - 1 ==> #[trigger] neighbors(pts[i], pts[i + 1])
        }),
{
    let (sx, sy) = (step_toward(x0, x1), step_toward(y0, y1));
    let (dx, dy) = (abs(x1 - x0), abs(y1 - y0));
    lemma_line_from_shape(x0, y0, sx, sy, dx, dy, 0, 0);
    assert(sx * 0 == 0 && sy * 0 == 0);
    assert(x0 + sx * dx == x1 && y0 + sy * dy == y1);
}

/// The position of a pixel on a `width` x `height` canvas lies within its
/// `width * height` pixels.
pub proof fn law_pixel_index_in_range(width: nat, height: nat, x: int, y: int)
    ensures
        pixel_index(width, height, x, y) matches Some(j) ==> 0 <= j < width * height,
{
    if pixel_index(width, height, x, y) is Some {
        let j = pixel_index(width, height, x, y)->0;
        assert(0 <= j < width * height) by (nonlinear_arith)
            requires j == y * width + x, 0 <= x < width, 0 <= y < height;
    }
}

/// Reading a pixel back gives the color just written there, and setting a
/// pixel leaves every other pixel as it was.
pub proof fn law_set_then_get(width: nat, height: nat, pixels: Seq<u32>, x: int, y: int, color: Color)
    requires
        pixels.len() == width * height,
        pixel_index(width, height, x, y) is Some,
    ensures
        ({
            let j = pixel_index(width, height, x, y)->0;
            let after = plot(width, height, pixels, (x, y), packed(color.r, color.g, color.b));
            &&& 0 <= j < pixels.len()
            &&& after.len() == pixels.len()
            &&& color_of_hex(after[j]) == color
            &&& forall|i: int| 0 <= i < pixels.len() && i != j ==> #[trigger] after[i] == pixels[i]
        }),
{
    law_pixel_index_in_range(width, height, x, y);
    crate::color::law_hex_round_trip(color);
}

/// A BMP file holds 54 header bytes and then 4 bytes per pixel.
pub proof fn law_bmp_size(canvas: CanvasView)
    ensures
        bmp_file(canvas).len() == 54 + 4 * canvas.pixels.len(),
{
    lemma_bmp_pixels_len(canvas.pixels);
}

proof fn lemma_bmp_pixels_len(pixels: Seq<u32>)
    ensures
        bmp_pixels(pixels).len() == 4 * pixels.len(),
    decreases pixels.len(),
{
    if pixels.len() > 0 {
        lemma_bmp_pixels_len(pixels.drop_last());
    }
}

/// For a pixel on a `width` x `height` canvas, being inside a block whose
/// edges were clamped to the canvas is being inside the block itself.
proof fn lemma_clamped_block(width: nat, height: nat, i: int, left: int, right: int, top: int, bottom: int)
    requires
        0 <= i < width * height,
    ensures
        in_block(width, i, clamp_to(left, width as int), clamp_to(right, width as int),
            clamp_to(top, height as int), clamp_to(bottom, height as int))
        <==> (left <= i % (width as int) < right && top <= i / (width as int) < bottom),
{
    assert(width > 0) by (nonlinear_arith)
        requires 0 <= i < width * height;
    let w = width as int;
    let px = i % w;
    let py = i / w;
    assert(0 <= px < w && 0 <= py < height) by (nonlinear_arith)
        requires w > 0, 0 <= i < w * height, px == i % w, py == i / w;
}

/// The first `cells + 1` cells of a glyph cover a pixel exactly when the
/// first `cells` do or cell `cells` is lit and covers it.
proof fn lemma_glyph_covers_step(rows: Seq<u8>, cx: int, cy: int, scale: int, cells: int, px: int, py: int)
    requires
        cells >= 0,
    ensures
        glyph_covers(rows, cx, cy, scale, cells + 1, px, py) == (glyph_covers(rows, cx, cy, scale, cells, px, py)
            || (pixel_lit(rows[cells / 3], cells % 3) && cell_covers(cx, cy, scale, cells, px, py))),
{
    if glyph_covers(rows, cx, cy, scale, cells + 1, px, py) {
        let cell = choose|cell: int|
            0 <= cell < cells + 1 && pixel_lit(rows[cell / 3], cell % 3) && #[trigger] cell_covers(cx, cy, scale, cell, px, py);
        if cell < cells {
            assert(glyph_covers(rows, cx, cy, scale, cells, px, py));
        }
    }
    if glyph_covers(rows, cx, cy, scale, cells, px, py) {
        let cell = choose|cell: int|
            0 <= cell < cells && pixel_lit(rows[cell / 3], cell % 3) && #[trigger] cell_covers(cx, cy, scale, cell, px, py);
        assert(glyph_covers(rows, cx, cy, scale, cells + 1, px, py));
    }
    if pixel_lit(rows[cells / 3], cells % 3) && cell_covers(cx, cy, scale, cells, px, py) {
        assert(glyph_covers(rows, cx, cy, scale, cells + 1, px, py));
    }
}

/// The first `k + 1` characters cover a pixel exactly when the first `k`
/// do or character `k`, if not a newline, does.
proof fn lemma_text_covers_step(text: Seq<char>, x: int, y: int, scale: int, k: int, px: int, py: int)
    requires
        0 <= k < text.len(),
    ensures
        text_covers(text, x, y, scale, k + 1, px, py) == (text_covers(text, x, y, scale, k, px, py)
            || (text[k] != '\n' && glyph_covers(glyph_rows(ascii_upper(text[k])),
                cursor(text, x, y, scale, k).0, cursor(text, x, y, scale, k).1, scale, 15, px, py))),
{
    if text_covers(text, x, y, scale, k + 1, px, py) {
        let j = choose|j: int|
            0 <= j < k + 1 && text[j] != '\n' && #[trigger] glyph_covers(glyph_rows(ascii_upper(text[j])),
                cursor(text, x, y, scale, j).0, cursor(text, x, y, scale, j).1, scale, 15, px, py);
        if j < k {
            assert(text_covers(text, x, y, scale, k, px, py));
        }
    }
    if text_covers(text, x, y, scale, k, px, py) {
        let j = choose|j: int|
            0 <= j < k && text[j] != '\n' && #[trigger] glyph_covers(glyph_rows(ascii_upper(text[j])),
                cursor(text, x, y, scale, j).0, cursor(text, x, y, scale, j).1, scale, 15, px, py);
        assert(text_covers(text, x, y, scale, k + 1, px, py));
    }
    if text[k] != '\n' && glyph_covers(glyph_rows(ascii_upper(text[k])),
        cursor(text, x, y, scale, k).0, cursor(text, x, y, scale, k).1, scale, 15, px, py) {
        assert(text_covers(text, x, y, scale, k + 1, px, py));
    }
}

/// `v` moved into `0..=max`, as a pixel position.
fn clamp_coordinate(v: i128, max: usize) -> (c: usize)
    ensures
        c == clamp_to(v as int, max as int),
{
    if v < 0 {
        0
    } else if v > max as i128 {
        max
    } else {
        v as usize
    }
}

/// Adding one more row to a block of rows: a position is in rows
/// `y0..y+1` exactly when it is in rows `y0..y` or in the columns
/// `x0..x1` of row `y`.
proof fn lemma_block_row(w: nat, i: int, x0: int, x1: int, y0: int, y: int)
    requires
        w > 0,
        x1 <= w,
        0 <= i,
        y0 <= y,
    ensures
        in_block(w, i, x0, x1, y0, y + 1) <==> (in_block(w, i, x0, x1, y0, y)
            || (y * w <= i < y * w + x1 && x0 <= i - y * w)),
{
    let wi = w as int;
    let q = i / wi;
    let r = i % wi;
    assert(i == q * wi + r && 0 <= r < wi) by (nonlinear_arith)
        requires wi > 0, q == i / wi, r == i % wi;
    if q < y {
        assert(i < y * wi) by (nonlinear_arith)
            requires i == q * wi + r, r < wi, q < y, wi > 0;
    } else if q == y {
        assert(i - y * wi == r) by (nonlinear_arith)
            requires i == q * wi + r, q == y;
    } else {
        assert(i >= y * wi + wi) by (nonlinear_arith)
            requires i == q * wi + r, r >= 0, q > y, wi > 0;
    }
}

/// Is `text[i..j]` one whole line of `text`, as `str::lines` splits text:
/// it starts at the beginning or just after a newline, ends at the end or
/// at a newline, and holds no newline.
pub open spec fn is_line(text: Seq<char>, i: int, j: int) -> bool {
    &&& 0 <= i <= j <= text.len()
    &&& (i == 0 || text[i - 1] == '\n')
    &&& (j == text.len() || text[j] == '\n')
    &&& forall|m: int| i <= m < j ==> text[m] != '\n'
}

/// How many characters the line `text[i..j]` has: a carriage return just
/// before its newline (a `"\r\n"` ending) does not count.
pub open spec fn line_length(text: Seq<char>, i: int, j: int) -> int {
    if i < j < text.len() && text[j - 1] == '\r' {
        j - i - 1
    } else {
        j - i
    }
}

/// The count `text_width` measures is that of the widest line: no line of
/// the text is longer, and some line is exactly that long. So the text is
/// as wide as its widest line drawn alone, and no line is wider.
pub proof fn law_text_width_is_widest_line(text: Seq<char>, scale: nat)
    ensures
        forall|i: int, j: int| #[trigger] is_line(text, i, j) ==> line_length(text, i, j) <= longest_line(text),
        exists|i: int, j: int| #[trigger] is_line(text, i, j) && line_length(text, i, j) == longest_line(text),
        forall|i: int, j: int| #[trigger] is_line(text, i, j) ==>
            text_width_of(line_length(text, i, j) as nat, scale) <= text_width_of(longest_line(text), scale),
{
    lemma_ended_lines_bounded(text);
    assert forall|i: int, j: int| #[trigger] is_line(text, i, j) implies line_length(text, i, j) <= longest_line(text) by {
        if j == text.len() {
            lemma_run_of_line(text, i);
        }
    }
    lemma_widest_line_exists(text);
    assert forall|i: int, j: int| #[trigger] is_line(text, i, j) implies
        text_width_of(line_length(text, i, j) as nat, scale) <= text_width_of(longest_line(text), scale) by {
        let a = line_length(text, i, j);
        let b = longest_line(text) as int;
        if a > 0 {
            assert((a * 4 - 1) * scale <= (b * 4 - 1) * scale) by (nonlinear_arith)
                requires 0 < a <= b, scale >= 0;
        }
    }
}

/// The characters since the start of a line that runs to the end of `t`
/// are the current run of `t`.
proof fn lemma_run_of_line(t: Seq<char>, i: int)
    requires
        0 <= i <= t.len(),
        i == 0 || t[i - 1] == '\n',
        forall|m: int| i <= m < t.len() ==> t[m] != '\n',
    ensures
        current_run(t) == t.len() - i,
    decreases t.len(),
{
    if t.len() > i {
        lemma_run_of_line(t.drop_last(), i);
    } else if t.len() > 0 {
        assert(t.last() == '\n');
    }
}

/// The last line of `t` starts `current_run(t)` characters before its end.
proof fn lemma_last_line_start(t: Seq<char>)
    ensures
        current_run(t) <= t.len(),
        is_line(t, t.len() - current_run(t), t.len() as int),
    decreases t.len(),
{
    if t.len() > 0 {
        lemma_last_line_start(t.drop_last());
        if t.last() != '\n' {
            let p = t.drop_last();
            let i = p.len() - current_run(p);
            assert(is_line(p, i, p.len() as int));
            assert forall|m: int| i <= m < t.len() implies t[m] != '\n' by {
                if m < p.len() {
                    assert(t[m] == p[m]);
                }
            }
            if i > 0 {
                assert(t[i - 1] == p[i - 1]);
            }
        }
    }
}

/// A line of `t` without its last character that a newline ends is a line
/// of `t` too, just as long.
proof fn lemma_line_of_prefix(t: Seq<char>, i: int, j: int)
    requires
        t.len() > 0,
        is_line(t.drop_last(), i, j),
        j < t.len() - 1,
    ensures
        is_line(t, i, j),
        line_length(t, i, j) == line_length(t.drop_last(), i, j),
{
    let p = t.drop_last();
    assert forall|m: int| i <= m < j implies t[m] != '\n' by {
        assert(t[m] == p[m]);
    }
    assert(t[j] == p[j]);
    if i > 0 {
        assert(t[i - 1] == p[i - 1]);
    }
    if j > 0 {
        assert(t[j - 1] == p[j - 1]);
    }
}

/// Every line that a newline ends is at most `longest_ended_line` long.
proof fn lemma_ended_lines_bounded(t: Seq<char>)
    ensures
        forall|i: int, j: int| #[trigger] is_line(t, i, j) && j < t.len() ==> line_length(t, i, j) <= longest_ended_line(t),
    decreases t.len(),
{
    if t.len() > 0 {
        let p = t.drop_last();
        lemma_ended_lines_bounded(p);
        assert forall|i: int, j: int| #[trigger] is_line(t, i, j) && j < t.len() implies line_length(t, i, j) <= longest_ended_line(t) by {
            if j < p.len() {
                assert forall|m: int| i <= m < j implies p[m] != '\n' by {
                    assert(t[m] == p[m]);
                }
                assert(t[j] == p[j]);
                if i > 0 {
                    assert(t[i - 1] == p[i - 1]);
                }
                if j > 0 {
                    assert(t[j - 1] == p[j - 1]);
                }
                assert(is_line(p, i, j));
            } else {
                assert(t.last() == '\n');
                assert(forall|m: int| i <= m < p.len() ==> p[m] != '\n');
                lemma_run_of_line(p, i);
            }
        }
    }
}

/// Some line of `t` is exactly `longest_line(t)` long.
proof fn lemma_widest_line_exists(t: Seq<char>)
    ensures
        exists|i: int, j: int| #[trigger] is_line(t, i, j) && line_length(t, i, j) == longest_line(t),
{
    lemma_last_line_start(t);
    let i0 = t.len() - current_run(t);
    if current_run(t) > longest_ended_line(t) {
        assert(is_line(t, i0, t.len() as int) && line_length(t, i0, t.len() as int) == longest_line(t));
    } else if longest_ended_line(t) == 0 {
        assert(is_line(t, i0, t.len() as int));
        assert(line_length(t, i0, t.len() as int) == 0);
    } else {
        lemma_longest_ended_line_exists(t);
    }
}

/// When some line ends in a newline, one of them is exactly
/// `longest_ended_line` long.
proof fn lemma_longest_ended_line_exists(t: Seq<char>)
    requires
        longest_ended_line(t) > 0,
    ensures
        exists|i: int, j: int| #[trigger] is_line(t, i, j) && j < t.len() && line_length(t, i, j) == longest_ended_line(t),
    decreases t.len(),
{
    let p = t.drop_last();
    if t.last() != '\n' {
        lemma_longest_ended_line_exists(p);
        let (i, j) = choose|i: int, j: int| #[trigger] is_line(p, i, j) && j < p.len() && line_length(p, i, j) == longest_ended_line(p);
        lemma_line_of_prefix(t, i, j);
        assert(is_line(t, i, j) && j < t.len() && line_length(t, i, j) == longest_ended_line(t));
    } else if ended_line(p) > longest_ended_line(p) {
        lemma_last_line_start(p);
        let i = p.len() - current_run(p);
        let j = p.len() as int;
        assert forall|m: int| i <= m < j implies t[m] != '\n' by {
            assert(t[m] == p[m]);
        }
        if i > 0 {
            assert(t[i - 1] == p[i - 1]);
        }
        if j > 0 {
            assert(t[j - 1] == p[j - 1]);
        }
        assert(is_line(t, i, j));
        assert(line_length(t, i, j) == longest_ended_line(t));
    } else {
        lemma_longest_ended_line_exists(p);
        let (i, j) = choose|i: int, j: int| #[trigger] is_line(p, i, j) && j < p.len() && line_length(p, i, j) == longest_ended_line(p);
        lemma_line_of_prefix(t, i, j);
        assert(is_line(t, i, j) && j < t.len() && line_length(t, i, j) == longest_ended_line(t));
    }
}

/// How many newlines `s` holds.
pub open spec fn line_breaks(s: Seq<char>) -> nat
    decreases s.len(),
{
    if s.len() == 0 {
        0
    } else {
        line_breaks(s.drop_last()) + if s.last() == '\n' { 1nat } else { 0nat }
    }
}

/// Where `draw_text` puts a character, in closed form: character `k` of a
/// text drawn from `(x, y)` at `scale` is drawn `4 * scale` pixels to the
/// right for every character before it on its line, and `7 * scale`
/// pixels down for every line before it.
pub proof fn law_text_cursor(text: Seq<char>, x: int, y: int, scale: int, k: int)
    requires
        0 <= k <= text.len(),
    ensures
        cursor(text, x, y, scale, k) == (
            x + 4 * scale * current_run(text.take(k)),
            y + 7 * scale * line_breaks(text.take(k)),
        ),
    decreases k,
{
    if k > 0 {
        law_text_cursor(text, x, y, scale, k - 1);
        assert(text.take(k).drop_last() =~= text.take(k - 1));
        assert(text.take(k).last() == text[k - 1]);
        let c = current_run(text.take(k - 1)) as int;
        let b = line_breaks(text.take(k - 1)) as int;
        if text[k - 1] == '\n' {
            assert(current_run(text.take(k)) == 0);
            assert(line_breaks(text.take(k)) == b + 1);
            assert(4 * scale * 0 == 0) by (nonlinear_arith);
            assert(7 * scale * (b + 1) == 7 * scale * b + 7 * scale) by (nonlinear_arith);
        } else {
            assert(current_run(text.take(k)) == c + 1);
            assert(line_breaks(text.take(k)) == b);
            assert(4 * scale * (c + 1) == 4 * scale * c + 4 * scale) by (nonlinear_arith);
        }
    } else {
        assert(text.take(0) =~= Seq::<char>::empty());
        assert(4 * scale * 0 == 0 && 7 * scale * 0 == 0) by (nonlinear_arith);
    }
}

/// Moving along a line: between characters `k1` and `k2` of the same line,
/// the count of characters since the line began grows by `k2 - k1`, and no
/// line is added.
proof fn lemma_same_line(text: Seq<char>, k1: int, k2: int)
    requires
        0 <= k1 <= k2 <= text.len(),
        forall|m: int| k1 <= m < k2 ==> text[m] != '\n',
    ensures
        current_run(text.take(k2)) == current_run(text.take(k1)) + (k2 - k1),
        line_breaks(text.take(k2)) == line_breaks(text.take(k1)),
    decreases k2 - k1,
{
    if k2 > k1 {
        lemma_same_line(text, k1, k2 - 1);
        assert(text.take(k2).drop_last() =~= text.take(k2 - 1));
        assert(text.take(k2).last() == text[k2 - 1]);
    }
}

/// A glyph drawn at `(cx, cy)` with `scale`-pixel font pixels lights only
/// pixels in its 3 x 5 box: `cx..cx + 3 * scale` across and
/// `cy..cy + 5 * scale` down.
pub proof fn law_glyph_box(rows: Seq<u8>, cx: int, cy: int, scale: int, px: int, py: int)
    requires
        scale >= 0,
        glyph_covers(rows, cx, cy, scale, 15, px, py),
    ensures
        cx <= px < cx + 3 * scale,
        cy <= py < cy + 5 * scale,
{
    let cell = choose|cell: int|
        0 <= cell < 15 && pixel_lit(rows[cell / 3], cell % 3) && #[trigger] cell_covers(cx, cy, scale, cell, px, py);
    let row = cell / 3;
    let col = cell % 3;
    assert(0 <= row < 5 && 0 <= col < 3);
    assert(0 <= col * scale && col * scale + scale <= 3 * scale) by (nonlinear_arith)
        requires 0 <= col < 3, scale >= 0;
    assert(0 <= row * scale && row * scale + scale <= 5 * scale) by (nonlinear_arith)
        requires 0 <= row < 5, scale >= 0;
}

/// The glyphs of two different characters on the same line of a text never
/// light the same pixel: each one starts `4 * scale` pixels to the right of
/// the one before, and a glyph is only `3 * scale` pixels wide.
pub proof fn law_glyphs_do_not_overlap(text: Seq<char>, x: int, y: int, scale: int, k1: int, k2: int, px: int, py: int)
    requires
        scale >= 0,
        0 <= k1 < k2 < text.len(),
        forall|m: int| k1 <= m < k2 ==> text[m] != '\n',
        glyph_covers(glyph_rows(ascii_upper(text[k1])), cursor(text, x, y, scale, k1).0,
            cursor(text, x, y, scale, k1).1, scale, 15, px, py),
    ensures
        !glyph_covers(glyph_rows(ascii_upper(text[k2])), cursor(text, x, y, scale, k2).0,
            cursor(text, x, y, scale, k2).1, scale, 15, px, py),
{
    law_text_cursor(text, x, y, scale, k1);
    law_text_cursor(text, x, y, scale, k2);
    lemma_same_line(text, k1, k2);
    law_glyph_box(glyph_rows(ascii_upper(text[k1])), cursor(text, x, y, scale, k1).0,
        cursor(text, x, y, scale, k1).1, scale, px, py);
    let c1 = current_run(text.take(k1)) as int;
    let c2 = current_run(text.take(k2)) as int;
    assert(4 * scale * c2 >= 4 * scale * c1 + 4 * scale) by (nonlinear_arith)
        requires c2 == c1 + (k2 - k1), k2 > k1, scale >= 0;
    if glyph_covers(glyph_rows(ascii_upper(text[k2])), cursor(text, x, y, scale, k2).0,
        cursor(text, x, y, scale, k2).1, scale, 15, px, py) {
        law_glyph_box(glyph_rows(ascii_upper(text[k2])), cursor(text, x, y, scale, k2).0,
            cursor(text, x, y, scale, k2).1, scale, px, py);
    }
}

/// Text of a single line lights only pixels within `text_width` of where
/// it starts: `x..x + text_width` across and `y..y + 5 * scale` down.
pub proof fn law_line_within_text_width(text: Seq<char>, x: int, y: int, scale: nat, px: int, py: int)
    requires
        forall|m: int| 0 <= m < text.len() ==> text[m] != '\n',
        text_covers(text, x, y, scale as int, text.len() as int, px, py),
    ensures
        x <= px < x + text_width_of(longest_line(text), scale),
        y <= py < y + 5 * scale,
{
    let k = choose|k: int|
        0 <= k < text.len() && text[k] != '\n' && #[trigger] glyph_covers(glyph_rows(ascii_upper(text[k])),
            cursor(text, x, y, scale as int, k).0, cursor(text, x, y, scale as int, k).1, scale as int, 15, px, py);
    law_text_cursor(text, x, y, scale as int, k);
    lemma_same_line(text, 0, k);
    assert(text.take(0) =~= Seq::<char>::empty());
    law_glyph_box(glyph_rows(ascii_upper(text[k])), cursor(text, x, y, scale as int, k).0,
        cursor(text, x, y, scale as int, k).1, scale as int, px, py);
    lemma_run_of_line(text, 0);
    lemma_no_ended_line(text);
    let n = text.len() as int;
    assert(4 * scale * k + 3 * scale <= (n * 4 - 1) * scale) by (nonlinear_arith)
        requires 0 <= k < n, scale >= 0;
    assert(7 * scale * 0 == 0) by (nonlinear_arith);
}

/// Text with no newline has no line that a newline ends.
proof fn lemma_no_ended_line(t: Seq<char>)
    requires
        forall|m: int| 0 <= m < t.len() ==> t[m] != '\n',
    ensures
        longest_ended_line(t) == 0,
    decreases t.len(),
{
    if t.len() > 0 {
        assert(t.last() == t[t.len() - 1]);
        lemma_no_ended_line(t.drop_last());
    }
}

} // verus!
