//! A five by seven bitmap font.

use vstd::prelude::*;

verus! {

/// Cells in a row of a glyph.
pub const GLYPH_W: i32 = 5;

/// Rows of a glyph.
pub const GLYPH_H: i32 = 7;

/// Cells from one glyph to the next.
pub const ADVANCE: i32 = 6;

/// The upper-case form of a letter; any other character is its own.
pub open spec fn upper_of(c: char) -> char {
    match c {
        'a' => 'A',
        'b' => 'B',
        'c' => 'C',
        'd' => 'D',
        'e' => 'E',
        'f' => 'F',
        'g' => 'G',
        'h' => 'H',
        'i' => 'I',
        'j' => 'J',
        'k' => 'K',
        'l' => 'L',
        'm' => 'M',
        'n' => 'N',
        'o' => 'O',
        'p' => 'P',
        'q' => 'Q',
        'r' => 'R',
        's' => 'S',
        't' => 'T',
        'u' => 'U',
        'v' => 'V',
        'w' => 'W',
        'x' => 'X',
        'y' => 'Y',
        'z' => 'Z',
        _ => c,
    }
}

fn upper(c: char) -> (r: char)
    ensures
        r == upper_of(c),
{
    match c {
        'a' => 'A',
        'b' => 'B',
        'c' => 'C',
        'd' => 'D',
        'e' => 'E',
        'f' => 'F',
        'g' => 'G',
        'h' => 'H',
        'i' => 'I',
        'j' => 'J',
        'k' => 'K',
        'l' => 'L',
        'm' => 'M',
        'n' => 'N',
        'o' => 'O',
        'p' => 'P',
        'q' => 'Q',
        'r' => 'R',
        's' => 'S',
        't' => 'T',
        'u' => 'U',
        'v' => 'V',
        'w' => 'W',
        'x' => 'X',
        'y' => 'Y',
        'z' => 'Z',
        _ => c,
    }
}

/// The glyph of an upper-case character: five bits a row, the top row lowest, the
/// leftmost cell of a row its highest bit. A character without a glyph is an empty box.
pub open spec fn glyph_bits(c: char) -> u64 {
    match c {
        ' ' => 0x0,
        'A' => 0x4631fc62e,
        'B' => 0x7a31f463e,
        'C' => 0x3a308422e,
        'D' => 0x7a318c63e,
        'E' => 0x7e10f421f,
        'F' => 0x4210f421f,
        'G' => 0x3e31bc22e,
        'H' => 0x4631fc631,
        'I' => 0x38842108e,
        'J' => 0x324210847,
        'K' => 0x4654c5251,
        'L' => 0x7e1084210,
        'M' => 0x4631ad771,
        'N' => 0x46319d731,
        'O' => 0x3a318c62e,
        'P' => 0x4210f463e,
        'Q' => 0x36558c62e,
        'R' => 0x4654f463e,
        'S' => 0x78217420f,
        'T' => 0x10842109f,
        'U' => 0x3a318c631,
        'V' => 0x11518c631,
        'W' => 0x4775ac631,
        'X' => 0x462a22a31,
        'Y' => 0x108422a31,
        'Z' => 0x7e082083f,
        '0' => 0x3a39ace2e,
        '1' => 0x388421184,
        '2' => 0x7e083062e,
        '3' => 0x78217043e,
        '4' => 0x85f928c2,
        '5' => 0x3a210fa1f,
        '6' => 0x3a31f420e,
        '7' => 0x21082083f,
        '8' => 0x3a317462e,
        '9' => 0x38217c62e,
        '.' => 0x318000000,
        ',' => 0x208600000,
        ':' => 0x18c03180,
        ';' => 0x208c03180,
        '!' => 0x100421084,
        '?' => 0x10041062e,
        '-' => 0xf8000,
        '+' => 0x84f9080,
        '*' => 0x2aefbaa0,
        '/' => 0x420820821,
        '(' => 0x88842082,
        ')' => 0x208210888,
        '[' => 0x39084210e,
        ']' => 0x38421084e,
        '<' => 0x88882082,
        '>' => 0x208208888,
        '=' => 0x1f07c00,
        '_' => 0x7c0000000,
        '\'' => 0x2084,
        '"' => 0x294a,
        '%' => 0xe6820b38,
        '#' => 0x295f57d4a,
        '&' => 0x36554524c,
        '@' => 0x3a17ade2e,
        '|' => 0x108421084,
        _ => 0x7e318c63f,
    }
}

/// The glyph of a character.
pub fn glyph(c: char) -> (r: u64)
    ensures
        r == glyph_bits(upper_of(c)),
        r < 0x8_0000_0000,
{
    match upper(c) {
        ' ' => 0x0,
        'A' => 0x4631fc62e,
        'B' => 0x7a31f463e,
        'C' => 0x3a308422e,
        'D' => 0x7a318c63e,
        'E' => 0x7e10f421f,
        'F' => 0x4210f421f,
        'G' => 0x3e31bc22e,
        'H' => 0x4631fc631,
        'I' => 0x38842108e,
        'J' => 0x324210847,
        'K' => 0x4654c5251,
        'L' => 0x7e1084210,
        'M' => 0x4631ad771,
        'N' => 0x46319d731,
        'O' => 0x3a318c62e,
        'P' => 0x4210f463e,
        'Q' => 0x36558c62e,
        'R' => 0x4654f463e,
        'S' => 0x78217420f,
        'T' => 0x10842109f,
        'U' => 0x3a318c631,
        'V' => 0x11518c631,
        'W' => 0x4775ac631,
        'X' => 0x462a22a31,
        'Y' => 0x108422a31,
        'Z' => 0x7e082083f,
        '0' => 0x3a39ace2e,
        '1' => 0x388421184,
        '2' => 0x7e083062e,
        '3' => 0x78217043e,
        '4' => 0x85f928c2,
        '5' => 0x3a210fa1f,
        '6' => 0x3a31f420e,
        '7' => 0x21082083f,
        '8' => 0x3a317462e,
        '9' => 0x38217c62e,
        '.' => 0x318000000,
        ',' => 0x208600000,
        ':' => 0x18c03180,
        ';' => 0x208c03180,
        '!' => 0x100421084,
        '?' => 0x10041062e,
        '-' => 0xf8000,
        '+' => 0x84f9080,
        '*' => 0x2aefbaa0,
        '/' => 0x420820821,
        '(' => 0x88842082,
        ')' => 0x208210888,
        '[' => 0x39084210e,
        ']' => 0x38421084e,
        '<' => 0x88882082,
        '>' => 0x208208888,
        '=' => 0x1f07c00,
        '_' => 0x7c0000000,
        '\'' => 0x2084,
        '"' => 0x294a,
        '%' => 0xe6820b38,
        '#' => 0x295f57d4a,
        '&' => 0x36554524c,
        '@' => 0x3a17ade2e,
        '|' => 0x108421084,
        _ => 0x7e318c63f,
    }
}

/// 32 to the power of a row number.
pub open spec fn row_unit(row: int) -> int {
    if row == 0 {
        1
    } else if row == 1 {
        0x20
    } else if row == 2 {
        0x400
    } else if row == 3 {
        0x8000
    } else if row == 4 {
        0x10_0000
    } else if row == 5 {
        0x200_0000
    } else {
        0x4000_0000
    }
}

/// 2 to the power of how many cells lie to the right of a column.
pub open spec fn col_unit(col: int) -> int {
    if col == 0 {
        16
    } else if col == 1 {
        8
    } else if col == 2 {
        4
    } else if col == 3 {
        2
    } else {
        1
    }
}

/// Whether a cell of a packed glyph is lit.
pub open spec fn bit_lit(bits: u64, row: int, col: int) -> bool {
    bits as int / row_unit(row) % 32 / col_unit(col) % 2 == 1
}

/// Whether a cell of a character's glyph is lit.
pub open spec fn glyph_lit(c: char, row: int, col: int) -> bool {
    bit_lit(glyph_bits(upper_of(c)), row, col)
}

/// Whether a cell of a packed glyph is lit.
pub fn lit(bits: u64, row: i32, col: i32) -> (r: bool)
    requires
        0 <= row < GLYPH_H,
        0 <= col < GLYPH_W,
    ensures
        r == bit_lit(bits, row as int, col as int),
{
    let ru: u64 = match row {
        0 => 1,
        1 => 0x20,
        2 => 0x400,
        3 => 0x8000,
        4 => 0x10_0000,
        5 => 0x200_0000,
        _ => 0x4000_0000,
    };
    let cu: u64 = match col {
        0 => 16,
        1 => 8,
        2 => 4,
        3 => 2,
        _ => 1,
    };
    bits / ru % 32 / cu % 2 == 1
}

} // verus!
