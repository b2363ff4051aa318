//! Bitmap glyph font for the big clock.
//!
//! Each digit is a 5x7 on/off pixel bitmap (a low-res bitmap scaled up into
//! blocks). `1` in a row means "pixel lit". The colon is a slim 1-wide pair of
//! dots so it reads as stacked dots between fields.
use vstd::prelude::*;

verus! {

/// Height of every glyph, in pixels.
pub const GLYPH_H: usize = 7;

/// The pixel rows of a clock character: digits are 5 wide, the colon 1 wide;
/// any other character is a blank 5-wide cell.
pub open spec fn glyph_rows(c: char) -> Seq<Seq<char>> {
    if c == '0' {
        seq!["01110"@, "10001"@, "10011"@, "10101"@, "11001"@, "10001"@, "01110"@]
    } else if c == '1' {
        seq!["00100"@, "01100"@, "00100"@, "00100"@, "00100"@, "00100"@, "01110"@]
    } else if c == '2' {
        seq!["01110"@, "10001"@, "00001"@, "00110"@, "01000"@, "10000"@, "11111"@]
    } else if c == '3' {
        seq!["01110"@, "10001"@, "00001"@, "00110"@, "00001"@, "10001"@, "01110"@]
    } else if c == '4' {
        seq!["10001"@, "10001"@, "10001"@, "11111"@, "00001"@, "00001"@, "00001"@]
    } else if c == '5' {
        seq!["11111"@, "10000"@, "11110"@, "00001"@, "00001"@, "10001"@, "01110"@]
    } else if c == '6' {
        seq!["01110"@, "10001"@, "10000"@, "11110"@, "10001"@, "10001"@, "01110"@]
    } else if c == '7' {
        seq!["11111"@, "00001"@, "00010"@, "00100"@, "01000"@, "01000"@, "01000"@]
    } else if c == '8' {
        seq!["01110"@, "10001"@, "10001"@, "01110"@, "10001"@, "10001"@, "01110"@]
    } else if c == '9' {
        seq!["01110"@, "10001"@, "10001"@, "01111"@, "00001"@, "10001"@, "01110"@]
    } else if c == ':' {
        seq!["0"@, "1"@, "0"@, "0"@, "0"@, "1"@, "0"@]
    } else {
        seq!["00000"@, "00000"@, "00000"@, "00000"@, "00000"@, "00000"@, "00000"@]
    }
}

/// Pixel rows for a clock character. Digits are 5 wide; the colon is a slim
/// 1-wide pair of dots so it never crowds the digits. Unknown chars are blank.
pub fn glyph(c: char) -> (r: &'static [&'static str])
    ensures
        r@.len() == glyph_rows(c).len(),
        forall|i: int| 0 <= i < r@.len() ==> (#[trigger] r@[i])@ == glyph_rows(c)[i],
{
    match c {
        '0' => &["01110", "10001", "10011", "10101", "11001", "10001", "01110"],
        '1' => &["00100", "01100", "00100", "00100", "00100", "00100", "01110"],
        '2' => &["01110", "10001", "00001", "00110", "01000", "10000", "11111"],
        '3' => &["01110", "10001", "00001", "00110", "00001", "10001", "01110"],
        '4' => &["10001", "10001", "10001", "11111", "00001", "00001", "00001"],
        '5' => &["11111", "10000", "11110", "00001", "00001", "10001", "01110"],
        '6' => &["01110", "10001", "10000", "11110", "10001", "10001", "01110"],
        '7' => &["11111", "00001", "00010", "00100", "01000", "01000", "01000"],
        '8' => &["01110", "10001", "10001", "01110", "10001", "10001", "01110"],
        '9' => &["01110", "10001", "10001", "01111", "00001", "10001", "01110"],
        ':' => &["0", "1", "0", "0", "0", "1", "0"],
        ' ' => &["00000", "00000", "00000", "00000", "00000", "00000", "00000"],
        _ => &["00000", "00000", "00000", "00000", "00000", "00000", "00000"],
    }
}
/// The width of a glyph: 1 for the colon, 5 otherwise.
pub open spec fn glyph_width(c: char) -> int {
    if c == ':' { 1 } else { 5 }
}

/// Every glyph has `GLYPH_H` rows, all of the glyph's width and made only of
/// `0` and `1` pixels.
pub proof fn law_glyph_shape(c: char)
    ensures
        glyph_rows(c).len() == GLYPH_H,
        forall|i: int| 0 <= i < GLYPH_H ==> (#[trigger] glyph_rows(c)[i]).len() == glyph_width(c),
        forall|i: int, j: int| 0 <= i < GLYPH_H && 0 <= j < glyph_width(c) ==> (#[trigger] glyph_rows(c)[i][j] == '0' || glyph_rows(c)[i][j] == '1'),
{
    reveal_strlit("0");
    reveal_strlit("00000");
    reveal_strlit("00001");
    reveal_strlit("00010");
    reveal_strlit("00100");
    reveal_strlit("00110");
    reveal_strlit("01000");
    reveal_strlit("01100");
    reveal_strlit("01110");
    reveal_strlit("01111");
    reveal_strlit("1");
    reveal_strlit("10000");
    reveal_strlit("10001");
    reveal_strlit("10011");
    reveal_strlit("10101");
    reveal_strlit("11001");
    reveal_strlit("11110");
    reveal_strlit("11111");
}

/// The value of a pixel row read as a binary number, its leftmost pixel highest.
pub open spec fn row_bits(r: Seq<char>) -> int
    decreases r.len(),
{
    if r.len() == 0 {
        0
    } else {
        row_bits(r.drop_last()) * 2 + if r.last() == '1' { 1int } else { 0 }
    }
}

/// The rows of a bitmap as one number: five bits per row, the top row highest.
pub open spec fn rows_code(rows: Seq<Seq<char>>) -> int
    decreases rows.len(),
{
    if rows.len() == 0 {
        0
    } else {
        rows_code(rows.drop_last()) * 32 + row_bits(rows.last())
    }
}

/// The bitmap of a glyph as one number.
pub open spec fn glyph_code(c: char) -> int {
    rows_code(glyph_rows(c))
}

proof fn lemma_row_values()
    ensures
        row_bits("0"@) == 0,
        row_bits("00000"@) == 0,
        row_bits("00001"@) == 1,
        row_bits("00010"@) == 2,
        row_bits("00100"@) == 4,
        row_bits("00110"@) == 6,
        row_bits("01000"@) == 8,
        row_bits("01100"@) == 12,
        row_bits("01110"@) == 14,
        row_bits("01111"@) == 15,
        row_bits("1"@) == 1,
        row_bits("10000"@) == 16,
        row_bits("10001"@) == 17,
        row_bits("10011"@) == 19,
        row_bits("10101"@) == 21,
        row_bits("11001"@) == 25,
        row_bits("11110"@) == 30,
        row_bits("11111"@) == 31,
{
    assert(row_bits("0"@) == 0) by {
        reveal_strlit("0");
        reveal_with_fuel(row_bits, 6);
    }
    assert(row_bits("00000"@) == 0) by {
        reveal_strlit("00000");
        reveal_with_fuel(row_bits, 6);
    }
    assert(row_bits("00001"@) == 1) by {
        reveal_strlit("00001");
        reveal_with_fuel(row_bits, 6);
    }
    assert(row_bits("00010"@) == 2) by {
        reveal_strlit("00010");
        reveal_with_fuel(row_bits, 6);
    }
    assert(row_bits("00100"@) == 4) by {
        reveal_strlit("00100");
        reveal_with_fuel(row_bits, 6);
    }
    assert(row_bits("00110"@) == 6) by {
        reveal_strlit("00110");
        reveal_with_fuel(row_bits, 6);
    }
    assert(row_bits("01000"@) == 8) by {
        reveal_strlit("01000");
        reveal_with_fuel(row_bits, 6);
    }
    assert(row_bits("01100"@) == 12) by {
        reveal_strlit("01100");
        reveal_with_fuel(row_bits, 6);
    }
    assert(row_bits("01110"@) == 14) by {
        reveal_strlit("01110");
        reveal_with_fuel(row_bits, 6);
    }
    assert(row_bits("01111"@) == 15) by {
        reveal_strlit("01111");
        reveal_with_fuel(row_bits, 6);
    }
    assert(row_bits("1"@) == 1) by {
        reveal_strlit("1");
        reveal_with_fuel(row_bits, 6);
    }
    assert(row_bits("10000"@) == 16) by {
        reveal_strlit("10000");
        reveal_with_fuel(row_bits, 6);
    }
    assert(row_bits("10001"@) == 17) by {
        reveal_strlit("10001");
        reveal_with_fuel(row_bits, 6);
    }
    assert(row_bits("10011"@) == 19) by {
        reveal_strlit("10011");
        reveal_with_fuel(row_bits, 6);
    }
    assert(row_bits("10101"@) == 21) by {
        reveal_strlit("10101");
        reveal_with_fuel(row_bits, 6);
    }
    assert(row_bits("11001"@) == 25) by {
        reveal_strlit("11001");
        reveal_with_fuel(row_bits, 6);
    }
    assert(row_bits("11110"@) == 30) by {
        reveal_strlit("11110");
        reveal_with_fuel(row_bits, 6);
    }
    assert(row_bits("11111"@) == 31) by {
        reveal_strlit("11111");
        reveal_with_fuel(row_bits, 6);
    }
}

/// The font: each digit and the colon have their bitmap (as `glyph_code` numbers
/// it; the 7, for one, is `11111 00001 00010 00100 01000 01000 01000`), every other
/// character is blank, and no two digits look alike.
pub proof fn law_font_table(c: char, d: char)
    ensures
        glyph_code('0') == 15623448110,
        glyph_code('1') == 4701950094,
        glyph_code('2') == 15604064799,
        glyph_code('3') == 15604057646,
        glyph_code('4') == 18842879009,
        glyph_code('5') == 33854359086,
        glyph_code('6') == 15620589102,
        glyph_code('7') == 33321787656,
        glyph_code('8') == 15621113390,
        glyph_code('9') == 15621129774,
        glyph_code(':') == 33554464,
        !('0' <= c <= '9' || c == ':') ==> glyph_code(c) == 0,
        '0' <= c <= '9' && '0' <= d <= '9' && c != d ==> glyph_code(c) != glyph_code(d),
{
    lemma_row_values();
    assert(glyph_code('0') == 15623448110) by {
        reveal_with_fuel(rows_code, 8);
    }
    assert(glyph_code('1') == 4701950094) by {
        reveal_with_fuel(rows_code, 8);
    }
    assert(glyph_code('2') == 15604064799) by {
        reveal_with_fuel(rows_code, 8);
    }
    assert(glyph_code('3') == 15604057646) by {
        reveal_with_fuel(rows_code, 8);
    }
    assert(glyph_code('4') == 18842879009) by {
        reveal_with_fuel(rows_code, 8);
    }
    assert(glyph_code('5') == 33854359086) by {
        reveal_with_fuel(rows_code, 8);
    }
    assert(glyph_code('6') == 15620589102) by {
        reveal_with_fuel(rows_code, 8);
    }
    assert(glyph_code('7') == 33321787656) by {
        reveal_with_fuel(rows_code, 8);
    }
    assert(glyph_code('8') == 15621113390) by {
        reveal_with_fuel(rows_code, 8);
    }
    assert(glyph_code('9') == 15621129774) by {
        reveal_with_fuel(rows_code, 8);
    }
    assert(glyph_code(':') == 33554464) by {
        reveal_with_fuel(rows_code, 8);
    }
    assert(glyph_code(' ') == 0) by {
        reveal_with_fuel(rows_code, 8);
    }
}

} // verus!
