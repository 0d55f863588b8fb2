//! The framebuffer: turning pixels into something the hardware displays.
//!
//! The channel order and the bytes per pixel are what the bootloader
//! reported. Every primitive clips to the screen.
use vstd::prelude::*;
use crate::text::{chars_of, code_point};

verus! {

broadcast use vstd::slice::group_slice_axioms;

/// A colour, independent of how the hardware stores it.
#[derive(Debug, Clone, Copy, PartialEq, Eq, Structural)]
pub struct Colour {
    pub r: u8,
    pub g: u8,
    pub b: u8,
}

/// The value of a hexadecimal digit.
pub open spec fn digit_value(c: char) -> Option<int> {
    let n = c as int;
    if 0x30 <= n <= 0x39 {
        Some(n - 0x30)
    } else if 0x41 <= n <= 0x46 {
        Some(n - 0x37)
    } else if 0x61 <= n <= 0x66 {
        Some(n - 0x57)
    } else {
        None
    }
}

/// The channel that two digits spell.
pub open spec fn channel_value(high: char, low: char) -> Option<u8> {
    match (digit_value(high), digit_value(low)) {
        (Some(h), Some(l)) => Some((16 * h + l) as u8),
        _ => None,
    }
}

/// The colour that `#rrggbb` or `rrggbb` spells.
pub open spec fn colour_of(s: Seq<char>) -> Option<Colour> {
    let t = if s.len() > 0 && s[0] == '#' {
        s.skip(1)
    } else {
        s
    };
    if t.len() != 6 {
        None
    } else {
        match (channel_value(t[0], t[1]), channel_value(t[2], t[3]), channel_value(t[4], t[5])) {
            (Some(r), Some(g), Some(b)) => Some(Colour { r, g, b }),
            _ => None,
        }
    }
}

fn hex_digit(c: char) -> (d: Option<u8>)
    ensures
        match d {
            Some(v) => digit_value(c) == Some(v as int) && v < 16,
            None => digit_value(c) is None,
        },
{
    let n: u32 = code_point(c);
    if 0x30 <= n && n <= 0x39 {
        Some((n - 0x30) as u8)
    } else if 0x41 <= n && n <= 0x46 {
        Some((n - 0x37) as u8)
    } else if 0x61 <= n && n <= 0x66 {
        Some((n - 0x57) as u8)
    } else {
        None
    }
}

fn channel(high: char, low: char) -> (v: Option<u8>)
    ensures
        v == channel_value(high, low),
{
    match (hex_digit(high), hex_digit(low)) {
        (Some(h), Some(l)) => Some(16 * h + l),
        _ => None,
    }
}

/// One channel mixed: `amount` parts of `b` and the rest of `a`, out of
/// 255.
pub open spec fn mixed(a: u8, b: u8, amount: u8) -> int {
    (a * (255 - amount) + b * amount) / 255
}

fn mix(a: u8, b: u8, amount: u8) -> (v: u8)
    ensures
        v == mixed(a, b, amount),
{
    proof {
        lemma_mixed_bounds(a, b, amount);
    }
    (((a as u32) * (255 - amount as u32) + (b as u32) * (amount as u32)) / 255) as u8
}

proof fn lemma_mixed_bounds(a: u8, b: u8, amount: u8)
    ensures
        0 <= a * (255 - amount) <= 255 * 255,
        0 <= b * amount <= 255 * 255,
        0 <= a * (255 - amount) + b * amount <= 255 * 255,
{
    assert(0 <= a * (255 - amount) <= 255 * (255 - amount)) by (nonlinear_arith)
        requires
            0 <= a <= 255,
            0 <= amount <= 255,
    ;
    assert(0 <= b * amount <= 255 * amount) by (nonlinear_arith)
        requires
            0 <= b <= 255,
            0 <= amount,
    ;
}

impl Colour {
    /// The colour with these channels.
    pub fn rgb(r: u8, g: u8, b: u8) -> (c: Colour)
        ensures
            c == (Colour { r, g, b }),
    {
        Colour { r, g, b }
    }

    /// Parses `#rrggbb` or `rrggbb`. `None` for anything else.
    pub fn parse_hex(text: &str) -> (r: Option<Colour>)
        ensures
            r == colour_of(text@),
    {
        let s: Vec<char> = chars_of(text);
        let at: usize = if s.len() > 0 && s[0] == '#' {
            1
        } else {
            0
        };
        if s.len() - at != 6 {
            return None;
        }
        let r: Option<u8> = channel(s[at], s[at + 1]);
        let g: Option<u8> = channel(s[at + 2], s[at + 3]);
        let b: Option<u8> = channel(s[at + 4], s[at + 5]);
        match (r, g, b) {
            (Some(r), Some(g), Some(b)) => Some(Colour { r, g, b }),
            _ => None,
        }
    }

    /// Blends towards `other` by `amount` out of 255.
    pub fn blend(self, other: Colour, amount: u8) -> (c: Colour)
        ensures
            c.r == mixed(self.r, other.r, amount),
            c.g == mixed(self.g, other.g, amount),
            c.b == mixed(self.b, other.b, amount),
    {
        Colour {
            r: mix(self.r, other.r, amount),
            g: mix(self.g, other.g, amount),
            b: mix(self.b, other.b, amount),
        }
    }
}

/// Blending by nothing leaves a colour as it is, and blending all the way
/// gives the other one.
pub proof fn law_blend_ends(a: u8, b: u8)
    ensures
        mixed(a, b, 0) == a,
        mixed(a, b, 255) == b,
{
}

/// How the hardware stores a pixel.
#[derive(Debug, Clone, Copy, PartialEq, Eq, Structural)]
pub enum PixelFormat {
    /// Red, then green, then blue.
    Rgb,
    /// Blue, then green, then red.
    Bgr,
    /// One byte of grey.
    U8,
    /// A layout that is not recognized.
    Unknown,
}

/// How bright a colour is, by the weights of Rec. 601.
pub open spec fn luma(c: Colour) -> u8 {
    ((77 * c.r + 150 * c.g + 29 * c.b) / 256) as u8
}

/// Byte `k` of a pixel, or `None` if drawing leaves that byte alone. An
/// unrecognized layout gets the same visible value in every byte.
pub open spec fn pixel_byte(format: PixelFormat, c: Colour, k: int) -> Option<u8> {
    match format {
        PixelFormat::Rgb => if k == 0 {
            Some(c.r)
        } else if k == 1 {
            Some(c.g)
        } else if k == 2 {
            Some(c.b)
        } else {
            None
        },
        PixelFormat::Bgr => if k == 0 {
            Some(c.b)
        } else if k == 1 {
            Some(c.g)
        } else if k == 2 {
            Some(c.r)
        } else {
            None
        },
        PixelFormat::U8 => if k == 0 {
            Some(luma(c))
        } else {
            None
        },
        PixelFormat::Unknown => Some(c.g),
    }
}

/// Everything needed to write a pixel, captured once at boot.
#[derive(Debug, Clone, Copy, PartialEq, Eq, Structural)]
pub struct Framebuffer {
    pub base: u64,
    pub width: usize,
    pub height: usize,
    /// Bytes per row, which may be more than the pixels of a row take.
    pub stride: usize,
    pub bytes_per_pixel: usize,
    pub format: PixelFormat,
    pub len: usize,
}

/// What is to be drawn where: a colour, or nothing, for each position.
pub type Cells = spec_fn(int, int) -> Option<Colour>;

/// `g` on top of `f`.
pub open spec fn over(f: Cells, g: Cells) -> Cells {
    |x: int, y: int|
        match g(x, y) {
            Some(c) => Some(c),
            None => f(x, y),
        }
}

/// Nothing.
pub open spec fn nothing() -> Cells {
    |x: int, y: int| None
}

/// One pixel.
pub open spec fn dot(px: int, py: int, c: Colour) -> Cells {
    |x: int, y: int|
        if x == px && y == py {
            Some(c)
        } else {
            None
        }
}

/// A filled rectangle, from `(x0, y0)` on and up to but not including
/// `(x1, y1)`.
pub open spec fn block(x0: int, y0: int, x1: int, y1: int, c: Colour) -> Cells {
    |x: int, y: int|
        if x0 <= x < x1 && y0 <= y < y1 {
            Some(c)
        } else {
            None
        }
}

/// The outline of a rectangle.
pub open spec fn outline(x0: int, y0: int, x1: int, y1: int, c: Colour) -> Cells {
    |x: int, y: int|
        if x0 <= x < x1 && y0 <= y < y1 && (x == x0 || x == x1 - 1 || y == y0 || y == y1 - 1) {
            Some(c)
        } else {
            None
        }
}

impl Framebuffer {
    /// The geometry is one that hardware has: rows are as long as their
    /// pixels or longer, and every address can be computed.
    pub open spec fn wf(&self) -> bool {
        &&& 0 < self.bytes_per_pixel
        &&& 0 < self.stride
        &&& self.width * self.bytes_per_pixel <= self.stride
        &&& self.height * self.stride <= usize::MAX
    }

    /// Where the pixel's bytes start.
    pub open spec fn offset(&self, x: int, y: int) -> int {
        y * self.stride + x * self.bytes_per_pixel
    }

    /// The pixel is on the screen and its bytes are in the mapping.
    pub open spec fn visible(&self, x: int, y: int) -> bool {
        0 <= x < self.width && 0 <= y < self.height && self.offset(x, y) + self.bytes_per_pixel
            <= self.len
    }

    /// Byte `i` of the mapping after drawing `f` on what was there. Every
    /// byte belongs to at most one pixel.
    pub open spec fn drawn_byte(&self, mem: Seq<u8>, f: Cells, i: int) -> u8 {
        let y = i / self.stride as int;
        let x = i % self.stride as int / self.bytes_per_pixel as int;
        let k = i % self.stride as int % self.bytes_per_pixel as int;
        if self.visible(x, y) {
            match f(x, y) {
                Some(c) => match pixel_byte(self.format, c, k) {
                    Some(b) => b,
                    None => mem[i],
                },
                None => mem[i],
            }
        } else {
            mem[i]
        }
    }

    /// The mapping after drawing `f` on what was there.
    #[verifier::opaque]
    pub open spec fn drawn(&self, mem: Seq<u8>, f: Cells) -> Seq<u8> {
        Seq::new(mem.len(), |i: int| self.drawn_byte(mem, f, i))
    }

    /// The framebuffer that the bootloader mapped at `base`, with the
    /// geometry it reported.
    pub fn new(
        base: u64,
        len: usize,
        width: usize,
        height: usize,
        stride: usize,
        bytes_per_pixel: usize,
        format: PixelFormat,
    ) -> (r: Framebuffer)
        ensures
            r == (Framebuffer { base, width, height, stride, bytes_per_pixel, format, len }),
    {
        Framebuffer { base, width, height, stride, bytes_per_pixel, format, len }
    }

    /// Draws one pixel. Coordinates off the screen are ignored.
    pub fn set_pixel(&self, mem: &mut [u8], x: usize, y: usize, colour: Colour)
        requires
            self.wf(),
            old(mem)@.len() == self.len,
        ensures
            final(mem)@.len() == self.len,
            final(mem)@ == self.drawn(old(mem)@, dot(x as int, y as int, colour)),
    {
        let ghost before = mem@;
        let ghost f = dot(x as int, y as int, colour);
        if x >= self.width || y >= self.height {
            proof {
                reveal(Framebuffer::drawn);
                assert(mem@ =~= self.drawn(before, f));
            }
            return;
        }
        proof {
            lemma_row_fits(*self, x as int, y as int);
        }
        let offset: usize = y * self.stride + x * self.bytes_per_pixel;
        let size: usize = self.bytes_per_pixel;
        if offset > self.len || size > self.len - offset {
            proof {
                reveal(Framebuffer::drawn);
                assert(mem@ =~= self.drawn(before, f));
            }
            return;
        }
        let mut k: usize = 0;
        while k < size
            invariant
                k <= size,
                size == self.bytes_per_pixel,
                offset + size <= self.len,
                mem@.len() == self.len,
                mem@.len() == mem.len(),
                before.len() == self.len,
                forall|i: int|
                    0 <= i < self.len ==> #[trigger] mem@[i] == (if offset <= i < offset + k {
                        match pixel_byte(self.format, colour, i - offset) {
                            Some(b) => b,
                            None => before[i],
                        }
                    } else {
                        before[i]
                    }),
            decreases size - k,
        {
            match byte_to_write(self.format, colour, k) {
                Some(b) => {
                    mem[offset + k] = b;
                },
                None => {},
            }
            k += 1;
        }
        proof {
            reveal(Framebuffer::drawn);
            assert forall|i: int| 0 <= i < mem@.len() implies #[trigger] mem@[i]
                == self.drawn_byte(before, f, i) by {
                lemma_owner(*self, x as int, y as int, i);
            }
            assert(mem@ =~= self.drawn(before, f));
        }
    }

    /// Fills a rectangle.
    pub fn fill_rect(
        &self,
        mem: &mut [u8],
        x: usize,
        y: usize,
        width: usize,
        height: usize,
        colour: Colour,
    )
        requires
            self.wf(),
            old(mem)@.len() == self.len,
        ensures
            final(mem)@.len() == self.len,
            final(mem)@ == self.drawn(
                old(mem)@,
                block(x as int, y as int, x + width, y + height, colour),
            ),
    {
        let ghost before = mem@;
        let x_wanted: usize = x.saturating_add(width);
        let x_end: usize = if x_wanted < self.width {
            x_wanted
        } else {
            self.width
        };
        let y_wanted: usize = y.saturating_add(height);
        let y_end: usize = if y_wanted < self.height {
            y_wanted
        } else {
            self.height
        };
        let mut row: usize = y;
        proof {
            lemma_drawn_nothing(*self, before, block(x as int, y as int, x_end as int, y as int, colour));
        }
        while row < y_end
            invariant
                self.wf(),
                before.len() == self.len,
                mem@.len() == self.len,
                y <= row,
                row <= y_end || row == y,
                mem@ == self.drawn(
                    before,
                    block(x as int, y as int, x_end as int, row as int, colour),
                ),
            decreases y_end - row,
        {
            let mut column: usize = x;
            let ghost above = block(x as int, y as int, x_end as int, row as int, colour);
            proof {
                lemma_drawn_same(
                    *self,
                    before,
                    above,
                    over(above, block(x as int, row as int, x as int, row + 1, colour)),
                );
            }
            while column < x_end
                invariant
                    self.wf(),
                    before.len() == self.len,
                    mem@.len() == self.len,
                    x <= column,
                    column <= x_end || column == x,
                    mem@ == self.drawn(
                        before,
                        over(above, block(x as int, row as int, column as int, row + 1, colour)),
                    ),
                decreases x_end - column,
            {
                let ghost sofar = over(
                    above,
                    block(x as int, row as int, column as int, row + 1, colour),
                );
                self.set_pixel(mem, column, row, colour);
                proof {
                    let one = dot(column as int, row as int, colour);
                    lemma_drawn_over(*self, before, sofar, one);
                    lemma_drawn_same(
                        *self,
                        before,
                        over(sofar, one),
                        over(above, block(x as int, row as int, column + 1, row + 1, colour)),
                    );
                }
                column += 1;
            }
            proof {
                lemma_drawn_same(
                    *self,
                    before,
                    over(above, block(x as int, row as int, column as int, row + 1, colour)),
                    block(x as int, y as int, x_end as int, row + 1, colour),
                );
            }
            row += 1;
        }
        proof {
            lemma_drawn_same(
                *self,
                before,
                block(x as int, y as int, x_end as int, row as int, colour),
                block(x as int, y as int, x + width, y + height, colour),
            );
        }
    }

    /// Draws a one-pixel outline.
    pub fn stroke_rect(
        &self,
        mem: &mut [u8],
        x: usize,
        y: usize,
        width: usize,
        height: usize,
        colour: Colour,
    )
        requires
            self.wf(),
            old(mem)@.len() == self.len,
        ensures
            final(mem)@.len() == self.len,
            final(mem)@ == self.drawn(
                old(mem)@,
                outline(x as int, y as int, x + width, y + height, colour),
            ),
    {
        let ghost before = mem@;
        let ghost whole = outline(x as int, y as int, x + width, y + height, colour);
        if width == 0 || height == 0 {
            proof {
                lemma_drawn_nothing(*self, before, whole);
            }
            return;
        }
        let bottom: usize = y.saturating_add(height - 1);
        let right: usize = x.saturating_add(width - 1);
        self.fill_rect(mem, x, y, width, 1, colour);
        self.fill_rect(mem, x, bottom, width, 1, colour);
        self.fill_rect(mem, x, y, 1, height, colour);
        self.fill_rect(mem, right, y, 1, height, colour);
        proof {
            let a = block(x as int, y as int, x + width, y + 1, colour);
            let b = block(x as int, bottom as int, x + width, bottom + 1, colour);
            let c = block(x as int, y as int, x + 1, y + height, colour);
            let d = block(right as int, y as int, right + 1, y + height, colour);
            lemma_drawn_over(*self, before, a, b);
            lemma_drawn_over(*self, before, over(a, b), c);
            lemma_drawn_over(*self, before, over(over(a, b), c), d);
            lemma_drawn_same(*self, before, over(over(over(a, b), c), d), whole);
        }
    }

    /// Fills the whole screen.
    pub fn clear(&self, mem: &mut [u8], colour: Colour)
        requires
            self.wf(),
            old(mem)@.len() == self.len,
        ensures
            final(mem)@.len() == self.len,
            final(mem)@ == self.drawn(
                old(mem)@,
                block(0, 0, self.width as int, self.height as int, colour),
            ),
    {
        self.fill_rect(mem, 0, 0, self.width, self.height, colour);
    }

    /// How the hardware stores a pixel.
    pub fn format(&self) -> (format: PixelFormat)
        ensures
            format == self.format,
    {
        self.format
    }

    /// Where the framebuffer is mapped.
    pub fn base_address(&self) -> (base: u64)
        ensures
            base == self.base,
    {
        self.base
    }

    /// The first three bytes of a pixel, zero for those it does not have,
    /// in the order red, green, blue where the format has one.
    pub open spec fn shown(&self, mem: Seq<u8>, x: int, y: int) -> (u8, u8, u8) {
        let at = self.offset(x, y);
        let first = mem[at];
        let second = if self.bytes_per_pixel > 1 {
            mem[at + 1]
        } else {
            0
        };
        let third = if self.bytes_per_pixel > 2 {
            mem[at + 2]
        } else {
            0
        };
        if self.format == PixelFormat::Bgr {
            (third, second, first)
        } else {
            (first, second, third)
        }
    }

    /// The bytes that are read of a pixel: at least its first, and no more
    /// than three.
    pub open spec fn sampled(&self) -> int {
        if self.bytes_per_pixel > 2 {
            3
        } else if self.bytes_per_pixel > 1 {
            2
        } else {
            1
        }
    }

    /// A position is off the screen, or in `len` bytes of memory there is
    /// what is read of its pixel.
    pub open spec fn can_be_read(&self, len: nat, x: int, y: int) -> bool {
        x < self.width && y < self.height ==> self.offset(x, y) + self.sampled() <= len
    }

    /// Reads a pixel back. `None` off the screen.
    pub fn read_pixel(&self, mem: &[u8], x: usize, y: usize) -> (r: Option<(u8, u8, u8)>)
        requires
            self.can_be_read(mem@.len(), x as int, y as int),
        ensures
            r == (if x < self.width && y < self.height {
                Some(self.shown(mem@, x as int, y as int))
            } else {
                None
            }),
    {
        if x >= self.width || y >= self.height {
            return None;
        }
        assert(0 <= y * self.stride && 0 <= x * self.bytes_per_pixel) by (nonlinear_arith);
        assert(mem@.len() == mem.len());
        let offset: usize = y * self.stride + x * self.bytes_per_pixel;
        let first: u8 = mem[offset];
        let second: u8 = if self.bytes_per_pixel > 1 {
            mem[offset + 1]
        } else {
            0
        };
        let third: u8 = if self.bytes_per_pixel > 2 {
            mem[offset + 2]
        } else {
            0
        };
        Some(
            if self.format == PixelFormat::Bgr {
                (third, second, first)
            } else {
                (first, second, third)
            },
        )
    }
}

fn byte_to_write(format: PixelFormat, c: Colour, k: usize) -> (b: Option<u8>)
    ensures
        b == pixel_byte(format, c, k as int),
{
    match format {
        PixelFormat::Rgb => if k == 0 {
            Some(c.r)
        } else if k == 1 {
            Some(c.g)
        } else if k == 2 {
            Some(c.b)
        } else {
            None
        },
        PixelFormat::Bgr => if k == 0 {
            Some(c.b)
        } else if k == 1 {
            Some(c.g)
        } else if k == 2 {
            Some(c.r)
        } else {
            None
        },
        PixelFormat::U8 => if k == 0 {
            Some(((c.r as u32 * 77 + c.g as u32 * 150 + c.b as u32 * 29) / 256) as u8)
        } else {
            None
        },
        PixelFormat::Unknown => Some(c.g),
    }
}

// ---------------------------------------------------------------------
// About drawing
// ---------------------------------------------------------------------

/// A pixel's bytes lie in its row, and its row before the next.
pub proof fn lemma_row_fits(fb: Framebuffer, x: int, y: int)
    requires
        fb.wf(),
        0 <= x < fb.width,
        0 <= y < fb.height,
    ensures
        0 <= x * fb.bytes_per_pixel,
        x * fb.bytes_per_pixel + fb.bytes_per_pixel <= fb.stride,
        0 <= y * fb.stride,
        y * fb.stride + fb.stride <= fb.height * fb.stride,
{
    assert(x * fb.bytes_per_pixel + fb.bytes_per_pixel <= fb.width * fb.bytes_per_pixel) by (
    nonlinear_arith)
        requires
            x + 1 <= fb.width,
            0 < fb.bytes_per_pixel,
    ;
    assert(y * fb.stride + fb.stride <= fb.height * fb.stride) by (nonlinear_arith)
        requires
            y + 1 <= fb.height,
            0 < fb.stride,
    ;
    assert(0 <= x * fb.bytes_per_pixel) by (nonlinear_arith)
        requires
            0 <= x,
            0 < fb.bytes_per_pixel,
    ;
    assert(0 <= y * fb.stride) by (nonlinear_arith)
        requires
            0 <= y,
            0 < fb.stride,
    ;
}

/// Byte `i` belongs to pixel `(x, y)` exactly where it is one of the bytes
/// from the pixel's offset on.
pub proof fn lemma_owner(fb: Framebuffer, x: int, y: int, i: int)
    requires
        fb.wf(),
        0 <= x < fb.width,
        0 <= y < fb.height,
        0 <= i,
    ensures
        ({
            let row = i / fb.stride as int;
            let rest = i % fb.stride as int;
            let column = rest / fb.bytes_per_pixel as int;
            let k = rest % fb.bytes_per_pixel as int;
            &&& (row == y && column == x) <==> fb.offset(x, y) <= i < fb.offset(x, y)
                + fb.bytes_per_pixel
            &&& (row == y && column == x) ==> k == i - fb.offset(x, y)
        }),
{
    let stride = fb.stride as int;
    let size = fb.bytes_per_pixel as int;
    let row = i / stride;
    let rest = i % stride;
    lemma_row_fits(fb, x, y);
    vstd::arithmetic::div_mod::lemma_fundamental_div_mod(i, stride);
    vstd::arithmetic::div_mod::lemma_fundamental_div_mod(rest, size);
    assert(i == stride * row + rest);
    assert(rest == size * (rest / size) + rest % size);
    assert(stride * y == y * stride && size * x == x * size) by (nonlinear_arith);
    if fb.offset(x, y) <= i < fb.offset(x, y) + size {
        let inner = i - y * stride;
        vstd::arithmetic::div_mod::lemma_fundamental_div_mod_converse(i, stride, y, inner);
        vstd::arithmetic::div_mod::lemma_fundamental_div_mod_converse(inner, size, x, i - fb.offset(x, y));
    }
}

/// Drawing `g` on `f` is drawing both at once, `g` on top.
pub proof fn lemma_drawn_over(fb: Framebuffer, mem: Seq<u8>, f: Cells, g: Cells)
    ensures
        fb.drawn(fb.drawn(mem, f), g) == fb.drawn(mem, over(f, g)),
{
    reveal(Framebuffer::drawn);
    assert(fb.drawn(fb.drawn(mem, f), g) =~= fb.drawn(mem, over(f, g)));
}

/// What agrees on the screen draws the same.
pub proof fn lemma_drawn_same(fb: Framebuffer, mem: Seq<u8>, f: Cells, g: Cells)
    requires
        forall|x: int, y: int|
            0 <= x < fb.width && 0 <= y < fb.height ==> #[trigger] f(x, y) == g(x, y),
    ensures
        fb.drawn(mem, f) == fb.drawn(mem, g),
{
    reveal(Framebuffer::drawn);
    assert forall|i: int| 0 <= i < mem.len() implies fb.drawn_byte(mem, f, i) == fb.drawn_byte(
        mem,
        g,
        i,
    ) by {
        let y = i / fb.stride as int;
        let x = i % fb.stride as int / fb.bytes_per_pixel as int;
        if fb.visible(x, y) {
            assert(f(x, y) == g(x, y));
        }
    }
    assert(fb.drawn(mem, f) =~= fb.drawn(mem, g));
}

/// What has nothing on the screen leaves everything as it was.
pub proof fn lemma_drawn_nothing(fb: Framebuffer, mem: Seq<u8>, f: Cells)
    requires
        forall|x: int, y: int|
            0 <= x < fb.width && 0 <= y < fb.height ==> (#[trigger] f(x, y)) is None,
    ensures
        fb.drawn(mem, f) == mem,
{
    reveal(Framebuffer::drawn);
    assert(fb.drawn(mem, f) =~= mem);
}

/// What is drawn is what is shown: on a framebuffer with room for the
/// three channels, reading a pixel back gives the colour that was drawn
/// there, and a pixel that was not drawn on is as it was.
pub proof fn law_drawn_is_shown(fb: Framebuffer, mem: Seq<u8>, f: Cells, x: int, y: int)
    requires
        fb.wf(),
        fb.bytes_per_pixel >= 3,
        fb.format == PixelFormat::Rgb || fb.format == PixelFormat::Bgr,
        mem.len() == fb.len,
        fb.visible(x, y),
    ensures
        fb.shown(fb.drawn(mem, f), x, y) == (match f(x, y) {
            Some(c) => (c.r, c.g, c.b),
            None => fb.shown(mem, x, y),
        }),
{
    reveal(Framebuffer::drawn);
    lemma_row_fits(fb, x, y);
    let at = fb.offset(x, y);
    lemma_owner(fb, x, y, at);
    lemma_owner(fb, x, y, at + 1);
    lemma_owner(fb, x, y, at + 2);
    let after = fb.drawn(mem, f);
    assert(after[at] == fb.drawn_byte(mem, f, at));
    assert(after[at + 1] == fb.drawn_byte(mem, f, at + 1));
    assert(after[at + 2] == fb.drawn_byte(mem, f, at + 2));
}

/// Nothing outside the visible pixels is ever written: a byte that belongs
/// to none of them stays as it was, whatever is drawn.
pub proof fn law_drawing_stays_on_the_screen(fb: Framebuffer, mem: Seq<u8>, f: Cells, i: int)
    requires
        0 <= i < mem.len(),
        !fb.visible(
            i % fb.stride as int / fb.bytes_per_pixel as int,
            i / fb.stride as int,
        ),
    ensures
        fb.drawn(mem, f)[i] == mem[i],
{
    reveal(Framebuffer::drawn);
}

/// How a pixel is stored: red, green and blue in the order of the format,
/// one byte of the colour's brightness in grey, and the same byte throughout
/// where the format is not known. Bytes of a pixel that carry no colour keep
/// what they had.
pub proof fn law_pixels_are_stored(fb: Framebuffer, mem: Seq<u8>, f: Cells, x: int, y: int, k: int)
    requires
        fb.wf(),
        mem.len() == fb.len,
        0 <= x < fb.width,
        0 <= y < fb.height,
        y * fb.stride + x * fb.bytes_per_pixel + fb.bytes_per_pixel <= fb.len,
        0 <= k < fb.bytes_per_pixel,
    ensures
        ({
            let at = y * fb.stride + x * fb.bytes_per_pixel + k;
            let b = fb.drawn(mem, f)[at];
            &&& f(x, y) is None ==> b == mem[at]
            &&& f(x, y) matches Some(c) ==> {
                &&& fb.format == PixelFormat::Rgb ==> {
                    &&& k == 0 ==> b == c.r
                    &&& k == 1 ==> b == c.g
                    &&& k == 2 ==> b == c.b
                    &&& k > 2 ==> b == mem[at]
                }
                &&& fb.format == PixelFormat::Bgr ==> {
                    &&& k == 0 ==> b == c.b
                    &&& k == 1 ==> b == c.g
                    &&& k == 2 ==> b == c.r
                    &&& k > 2 ==> b == mem[at]
                }
                &&& fb.format == PixelFormat::U8 ==> {
                    &&& k == 0 ==> 256 * b <= 77 * c.r + 150 * c.g + 29 * c.b < 256 * (b + 1)
                    &&& k > 0 ==> b == mem[at]
                }
                &&& fb.format == PixelFormat::Unknown ==> b == c.g
            }
        }),
{
    reveal(Framebuffer::drawn);
    lemma_row_fits(fb, x, y);
    let at = y * fb.stride + x * fb.bytes_per_pixel + k;
    lemma_owner(fb, x, y, at);
    assert(fb.drawn(mem, f)[at] == fb.drawn_byte(mem, f, at));
}

/// What is read back of a pixel is its bytes, in the order red, green, blue.
pub proof fn law_pixels_are_read_back(fb: Framebuffer, mem: Seq<u8>, x: int, y: int)
    ensures
        ({
            let at = y * fb.stride + x * fb.bytes_per_pixel;
            let shown = fb.shown(mem, x, y);
            &&& fb.bytes_per_pixel >= 3 && fb.format != PixelFormat::Bgr ==> shown == (
                mem[at],
                mem[at + 1],
                mem[at + 2],
            )
            &&& fb.bytes_per_pixel >= 3 && fb.format == PixelFormat::Bgr ==> shown == (
                mem[at + 2],
                mem[at + 1],
                mem[at],
            )
            &&& fb.bytes_per_pixel == 1 && fb.format != PixelFormat::Bgr ==> shown == (
                mem[at],
                0u8,
                0u8,
            )
        }),
{
}

/// Blending is even: what is made of `amount` parts of one channel and the
/// rest of the other is between the two, and no further from the exact
/// mixture than rounding down takes it.
pub proof fn law_blend_is_between(a: u8, b: u8, amount: u8)
    ensures
        255 * mixed(a, b, amount) <= a * (255 - amount) + b * amount < 255 * (mixed(a, b, amount)
            + 1),
        a <= b ==> a <= mixed(a, b, amount) <= b,
        b <= a ==> b <= mixed(a, b, amount) <= a,
{
    let exact = a * (255 - amount) + b * amount;
    assert(a <= b ==> 255 * a <= exact <= 255 * b) by (nonlinear_arith)
        requires
            exact == a * (255 - amount) + b * amount,
            0 <= amount <= 255,
            0 <= a,
            0 <= b,
    ;
    assert(b <= a ==> 255 * b <= exact <= 255 * a) by (nonlinear_arith)
        requires
            exact == a * (255 - amount) + b * amount,
            0 <= amount <= 255,
            0 <= a,
            0 <= b,
    ;
}

/// Whether a character is the hexadecimal digit for `n`, in either case.
pub open spec fn spells(c: char, n: int) -> bool {
    ||| 0 <= n < 10 && c as int == '0' as int + n
    ||| 10 <= n < 16 && (c as int == 'a' as int + n - 10 || c as int == 'A' as int + n - 10)
}

/// A colour is read from six hexadecimal digits, two for each of red, green
/// and blue, the higher first, with or without `#` before them.
pub proof fn law_colours_are_read(s: Seq<char>, n: Seq<int>)
    requires
        n.len() == 6,
        s.len() == 6,
        forall|i: int| 0 <= i < 6 ==> spells(s[i], #[trigger] n[i]),
    ensures
        ({
            let colour = Colour {
                r: (16 * n[0] + n[1]) as u8,
                g: (16 * n[2] + n[3]) as u8,
                b: (16 * n[4] + n[5]) as u8,
            };
            &&& colour_of(s) == Some(colour)
            &&& colour_of(seq!['#'] + s) == Some(colour)
        }),
{
    assert(spells(s[0], n[0]) && spells(s[1], n[1]) && spells(s[2], n[2]));
    assert(spells(s[3], n[3]) && spells(s[4], n[4]) && spells(s[5], n[5]));
    assert((seq!['#'] + s).skip(1) =~= s);
    assert((seq!['#'] + s)[0] == '#');
}

/// Nothing else is a colour: what is read as one is six digits, or `#` and
/// six digits.
pub proof fn law_only_colours_are_read(s: Seq<char>, i: int)
    requires
        colour_of(s) is Some,
    ensures
        s.len() == 6 || (s.len() == 7 && s[0] == '#'),
        s.len() - 6 <= i < s.len() ==> exists|n: int| spells(s[i], n),
{
    if s.len() - 6 <= i < s.len() {
        let t = if s[0] == '#' {
            s.skip(1)
        } else {
            s
        };
        let k = i - (s.len() - t.len());
        assert(t[k] == s[i]);
        assert(k == 0 || k == 1 || k == 2 || k == 3 || k == 4 || k == 5);
        assert(digit_value(s[i]) is Some);
        assert(spells(s[i], digit_value(s[i]).unwrap()));
    }
}

/// Which pixels the shapes have: a dot its own, a block those of its rows and
/// columns up to but not including the last, and an outline those of the
/// block that are at one of its four sides.
pub proof fn law_shapes_have_their_pixels(
    x0: int,
    y0: int,
    width: int,
    height: int,
    c: Colour,
    x: int,
    y: int,
)
    requires
        width >= 0,
        height >= 0,
    ensures
        dot(x0, y0, c)(x0, y0) == Some(c),
        x != x0 || y != y0 ==> dot(x0, y0, c)(x, y) is None,
        ({
            let inside = 0 <= x - x0 && x - x0 < width && 0 <= y - y0 && y - y0 < height;
            let inner = 1 <= x - x0 && x - x0 < width - 1 && 1 <= y - y0 && y - y0 < height - 1;
            let filled = block(x0, y0, x0 + width, y0 + height, c)(x, y);
            let stroked = outline(x0, y0, x0 + width, y0 + height, c)(x, y);
            &&& inside ==> filled == Some(c)
            &&& !inside ==> filled is None
            &&& inside && !inner ==> stroked == Some(c)
            &&& !inside || inner ==> stroked is None
        }),
{
}

/// What is drawn over something else is seen, and the rest is as it was.
pub proof fn law_what_is_drawn_last_is_seen(f: Cells, g: Cells, x: int, y: int)
    ensures
        g(x, y) is Some ==> over(f, g)(x, y) == g(x, y),
        g(x, y) is None ==> over(f, g)(x, y) == f(x, y),
        nothing()(x, y) is None,
{
}

} // verus!
