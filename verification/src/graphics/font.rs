//! A bitmap font of five columns by seven rows.
use vstd::prelude::*;
use crate::text::code_point;

verus! {

pub const GLYPH_HEIGHT: usize = 7;

/// How far the next character is from the last.
pub const ADVANCE: usize = 6;

/// The shapes of the printable ASCII characters. A shape is five columns,
/// and bit `n` of a column is its row `n` from the top.
#[derive(Debug)]
pub struct Font {
    glyphs: Vec<[u8; 5]>,
    /// The shape of everything else.
    missing: [u8; 5],
}

/// What is drawn for every other character.
pub const MISSING: [u8; 5] = [0x7F, 0x41, 0x41, 0x41, 0x7F];

/// The shapes of the printable ASCII characters, the space's first.
pub const GLYPHS: [[u8; 5]; 95] = [
    [0x00, 0x00, 0x00, 0x00, 0x00], // space
    [0x00, 0x00, 0x5F, 0x00, 0x00], // !
    [0x00, 0x07, 0x00, 0x07, 0x00], // "
    [0x14, 0x7F, 0x14, 0x7F, 0x14], // #
    [0x24, 0x2A, 0x7F, 0x2A, 0x12], // $
    [0x23, 0x13, 0x08, 0x64, 0x62], // %
    [0x36, 0x49, 0x55, 0x22, 0x50], // &
    [0x00, 0x05, 0x03, 0x00, 0x00], // '
    [0x00, 0x1C, 0x22, 0x41, 0x00], // (
    [0x00, 0x41, 0x22, 0x1C, 0x00], // )
    [0x14, 0x08, 0x3E, 0x08, 0x14], // *
    [0x08, 0x08, 0x3E, 0x08, 0x08], // +
    [0x00, 0x50, 0x30, 0x00, 0x00], // ,
    [0x08, 0x08, 0x08, 0x08, 0x08], // -
    [0x00, 0x60, 0x60, 0x00, 0x00], // .
    [0x20, 0x10, 0x08, 0x04, 0x02], // /
    [0x3E, 0x51, 0x49, 0x45, 0x3E], // 0
    [0x00, 0x42, 0x7F, 0x40, 0x00], // 1
    [0x42, 0x61, 0x51, 0x49, 0x46], // 2
    [0x21, 0x41, 0x45, 0x4B, 0x31], // 3
    [0x18, 0x14, 0x12, 0x7F, 0x10], // 4
    [0x27, 0x45, 0x45, 0x45, 0x39], // 5
    [0x3C, 0x4A, 0x49, 0x49, 0x30], // 6
    [0x01, 0x71, 0x09, 0x05, 0x03], // 7
    [0x36, 0x49, 0x49, 0x49, 0x36], // 8
    [0x06, 0x49, 0x49, 0x29, 0x1E], // 9
    [0x00, 0x36, 0x36, 0x00, 0x00], // :
    [0x00, 0x56, 0x36, 0x00, 0x00], // ;
    [0x08, 0x14, 0x22, 0x41, 0x00], // <
    [0x14, 0x14, 0x14, 0x14, 0x14], // =
    [0x00, 0x41, 0x22, 0x14, 0x08], // >
    [0x02, 0x01, 0x51, 0x09, 0x06], // ?
    [0x32, 0x49, 0x79, 0x41, 0x3E], // @
    [0x7E, 0x11, 0x11, 0x11, 0x7E], // A
    [0x7F, 0x49, 0x49, 0x49, 0x36], // B
    [0x3E, 0x41, 0x41, 0x41, 0x22], // C
    [0x7F, 0x41, 0x41, 0x22, 0x1C], // D
    [0x7F, 0x49, 0x49, 0x49, 0x41], // E
    [0x7F, 0x09, 0x09, 0x09, 0x01], // F
    [0x3E, 0x41, 0x49, 0x49, 0x7A], // G
    [0x7F, 0x08, 0x08, 0x08, 0x7F], // H
    [0x00, 0x41, 0x7F, 0x41, 0x00], // I
    [0x20, 0x40, 0x41, 0x3F, 0x01], // J
    [0x7F, 0x08, 0x14, 0x22, 0x41], // K
    [0x7F, 0x40, 0x40, 0x40, 0x40], // L
    [0x7F, 0x02, 0x0C, 0x02, 0x7F], // M
    [0x7F, 0x04, 0x08, 0x10, 0x7F], // N
    [0x3E, 0x41, 0x41, 0x41, 0x3E], // O
    [0x7F, 0x09, 0x09, 0x09, 0x06], // P
    [0x3E, 0x41, 0x51, 0x21, 0x5E], // Q
    [0x7F, 0x09, 0x19, 0x29, 0x46], // R
    [0x46, 0x49, 0x49, 0x49, 0x31], // S
    [0x01, 0x01, 0x7F, 0x01, 0x01], // T
    [0x3F, 0x40, 0x40, 0x40, 0x3F], // U
    [0x1F, 0x20, 0x40, 0x20, 0x1F], // V
    [0x3F, 0x40, 0x38, 0x40, 0x3F], // W
    [0x63, 0x14, 0x08, 0x14, 0x63], // X
    [0x07, 0x08, 0x70, 0x08, 0x07], // Y
    [0x61, 0x51, 0x49, 0x45, 0x43], // Z
    [0x00, 0x7F, 0x41, 0x41, 0x00], // [
    [0x02, 0x04, 0x08, 0x10, 0x20], // backslash
    [0x00, 0x41, 0x41, 0x7F, 0x00], // ]
    [0x04, 0x02, 0x01, 0x02, 0x04], // ^
    [0x40, 0x40, 0x40, 0x40, 0x40], // _
    [0x00, 0x01, 0x02, 0x04, 0x00], // `
    [0x20, 0x54, 0x54, 0x54, 0x78], // a
    [0x7F, 0x48, 0x44, 0x44, 0x38], // b
    [0x38, 0x44, 0x44, 0x44, 0x20], // c
    [0x38, 0x44, 0x44, 0x48, 0x7F], // d
    [0x38, 0x54, 0x54, 0x54, 0x18], // e
    [0x08, 0x7E, 0x09, 0x01, 0x02], // f
    [0x0C, 0x52, 0x52, 0x52, 0x3E], // g
    [0x7F, 0x08, 0x04, 0x04, 0x78], // h
    [0x00, 0x44, 0x7D, 0x40, 0x00], // i
    [0x20, 0x40, 0x44, 0x3D, 0x00], // j
    [0x7F, 0x10, 0x28, 0x44, 0x00], // k
    [0x00, 0x41, 0x7F, 0x40, 0x00], // l
    [0x7C, 0x04, 0x18, 0x04, 0x78], // m
    [0x7C, 0x08, 0x04, 0x04, 0x78], // n
    [0x38, 0x44, 0x44, 0x44, 0x38], // o
    [0x7C, 0x14, 0x14, 0x14, 0x08], // p
    [0x08, 0x14, 0x14, 0x18, 0x7C], // q
    [0x7C, 0x08, 0x04, 0x04, 0x08], // r
    [0x48, 0x54, 0x54, 0x54, 0x20], // s
    [0x04, 0x3F, 0x44, 0x40, 0x20], // t
    [0x3C, 0x40, 0x40, 0x20, 0x7C], // u
    [0x1C, 0x20, 0x40, 0x20, 0x1C], // v
    [0x3C, 0x40, 0x30, 0x40, 0x3C], // w
    [0x44, 0x28, 0x10, 0x28, 0x44], // x
    [0x0C, 0x50, 0x50, 0x50, 0x3C], // y
    [0x44, 0x64, 0x54, 0x4C, 0x44], // z
    [0x00, 0x08, 0x36, 0x41, 0x00], // {
    [0x00, 0x00, 0x7F, 0x00, 0x00], // |
    [0x00, 0x41, 0x36, 0x08, 0x00], // }
    [0x10, 0x08, 0x08, 0x10, 0x08], // ~
];

impl Font {
    /// The shapes, from the space on.
    pub closed spec fn shapes(&self) -> Seq<[u8; 5]> {
        self.glyphs@
    }

    pub closed spec fn missing_shape(&self) -> [u8; 5] {
        self.missing
    }

    /// The shape of a character.
    pub open spec fn shape(&self, c: char) -> [u8; 5] {
        if 0x20 <= c as int && (c as int) - 0x20 < self.shapes().len() {
            self.shapes()[c as int - 0x20]
        } else {
            self.missing_shape()
        }
    }

    /// A font from its shapes, the first of which is the space's.
    pub fn new(glyphs: Vec<[u8; 5]>, missing: [u8; 5]) -> (font: Font)
        ensures
            font.shapes() == glyphs@,
            font.missing_shape() == missing,
    {
        Font { glyphs, missing }
    }

    /// The font that the kernel draws its own text with.
    pub fn built_in() -> (font: Font)
        ensures
            font.shapes() == GLYPHS@,
            font.missing_shape() == MISSING,
    {
        let mut glyphs: Vec<[u8; 5]> = Vec::new();
        let mut i: usize = 0;
        while i < 95
            invariant
                i <= 95,
                glyphs@ == GLYPHS@.take(i as int),
            decreases 95 - i,
        {
            glyphs.push(GLYPHS[i]);
            i += 1;
            assert(glyphs@ =~= GLYPHS@.take(i as int));
        }
        assert(GLYPHS@.take(95) =~= GLYPHS@);
        Font { glyphs, missing: MISSING }
    }

    /// The shape of a character.
    pub fn glyph(&self, c: char) -> (shape: [u8; 5])
        ensures
            shape == self.shape(c),
    {
        let n: u32 = code_point(c);
        if 0x20 <= n && ((n - 0x20) as u64) < self.glyphs.len() as u64 {
            self.glyphs[(n - 0x20) as usize]
        } else {
            self.missing
        }
    }
}

/// Whether a row of a column is lit.
pub open spec fn lit(column: u8, row: int) -> bool {
    column & (1u8 << (row as u8)) != 0
}

/// Whether a row of a column is lit.
pub fn is_lit(column: u8, row: usize) -> (r: bool)
    requires
        row < GLYPH_HEIGHT,
    ensures
        r == lit(column, row as int),
{
    column & (1u8 << (row as u8)) != 0
}

/// The built-in font has a shape of its own for every printable character,
/// in the order of their codes, and one shape for everything else.
pub proof fn law_shapes_are_in_order(font: Font, c: char)
    requires
        font.shapes() == GLYPHS@,
        font.missing_shape() == MISSING,
    ensures
        ' ' as int <= c as int <= '~' as int ==> font.shape(c) == GLYPHS@[c as int - ' ' as int],
        (c as int) < ' ' as int || c as int > '~' as int ==> font.shape(c) == MISSING,
{
}

/// Row `n` of a column is lit exactly where the column's bit `n` is set.
pub proof fn law_rows_are_bits(column: u8, row: int)
    requires
        0 <= row < 8,
    ensures
        lit(column, row) <==> column as int / vstd::arithmetic::power2::pow2(row as nat) as int % 2
            == 1,
{
    let n = row as u8;
    vstd::arithmetic::power2::lemma2_to64();
    assert(column & (1u8 << 0u8) != 0 <==> column / 1 % 2 == 1) by (bit_vector);
    assert(column & (1u8 << 1u8) != 0 <==> column / 2 % 2 == 1) by (bit_vector);
    assert(column & (1u8 << 2u8) != 0 <==> column / 4 % 2 == 1) by (bit_vector);
    assert(column & (1u8 << 3u8) != 0 <==> column / 8 % 2 == 1) by (bit_vector);
    assert(column & (1u8 << 4u8) != 0 <==> column / 16 % 2 == 1) by (bit_vector);
    assert(column & (1u8 << 5u8) != 0 <==> column / 32 % 2 == 1) by (bit_vector);
    assert(column & (1u8 << 6u8) != 0 <==> column / 64 % 2 == 1) by (bit_vector);
    assert(column & (1u8 << 7u8) != 0 <==> column / 128 % 2 == 1) by (bit_vector);
    assert(n == 0 || n == 1 || n == 2 || n == 3 || n == 4 || n == 5 || n == 6 || n == 7);
}

} // verus!
