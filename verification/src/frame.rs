//! A frame as the terminal receives it: per cell one escape sequence that
//! sets a 24-bit foreground and background colour, and an upper half block.

use vstd::prelude::*;

verus! {

/// The ASCII digit for `d`, `0 <= d <= 9`.
pub open spec fn digit(d: int) -> u8 {
    (48 + d) as u8
}

/// A channel value, `0 <= n <= 255`, in decimal without leading zeros.
pub open spec fn decimal(n: int) -> Seq<u8> {
    if n < 10 {
        seq![digit(n)]
    } else if n < 100 {
        seq![digit(n / 10), digit(n % 10)]
    } else {
        seq![digit(n / 100), digit(n / 10 % 10), digit(n % 10)]
    }
}

/// The three channels of a colour in decimal, separated by `;`.
pub open spec fn colour_code(c: (u8, u8, u8)) -> Seq<u8> {
    decimal(c.0 as int) + seq![0x3bu8] + decimal(c.1 as int) + seq![0x3bu8] + decimal(c.2 as int)
}

/// The bytes `ESC [ 3 8 ; 2 ;` that open a cell and announce its foreground
/// colour.
pub open spec fn foreground_intro() -> Seq<u8> {
    seq![0x1bu8, 0x5bu8, 0x33u8, 0x38u8, 0x3bu8, 0x32u8, 0x3bu8]
}

/// The bytes `; 4 8 ; 2 ;` that announce the background colour.
pub open spec fn background_intro() -> Seq<u8> {
    seq![0x3bu8, 0x34u8, 0x38u8, 0x3bu8, 0x32u8, 0x3bu8]
}

/// The byte `m` that ends the escape sequence, and the upper half block
/// (U+2580) in UTF-8.
pub open spec fn half_block() -> Seq<u8> {
    seq![0x6du8, 0xe2u8, 0x96u8, 0x80u8]
}

/// One terminal cell: the upper pixel as foreground colour of an upper half
/// block, the lower pixel as its background colour.
pub open spec fn cell(upper: (u8, u8, u8), lower: (u8, u8, u8)) -> Seq<u8> {
    foreground_intro() + colour_code(upper) + background_intro() + colour_code(lower)
        + half_block()
}

/// The first `n` cells of a terminal row, made of two pixel rows.
pub open spec fn cells(upper: Seq<(u8, u8, u8)>, lower: Seq<(u8, u8, u8)>, n: int) -> Seq<u8>
    decreases n,
{
    if n <= 0 {
        Seq::empty()
    } else {
        cells(upper, lower, n - 1) + cell(upper[n - 1], lower[n - 1])
    }
}

/// The first `rows` terminal rows of a grid, `width` cells each: terminal
/// row `i` is made of the pixel rows `2 i` and `2 i + 1`. Nothing separates
/// the rows.
pub open spec fn frame(grid: Seq<Seq<(u8, u8, u8)>>, width: int, rows: int) -> Seq<u8>
    decreases rows,
{
    if rows <= 0 {
        Seq::empty()
    } else {
        frame(grid, width, rows - 1) + cells(grid[2 * (rows - 1)], grid[2 * (rows - 1) + 1], width)
    }
}

/// Appends a channel value in decimal.
pub fn push_decimal(out: &mut Vec<u8>, n: u8)
    ensures
        final(out)@ == old(out)@ + decimal(n as int),
{
    if n >= 100 {
        out.push(48 + n / 100);
    }
    if n >= 10 {
        out.push(48 + n / 10 % 10);
    }
    out.push(48 + n % 10);
    assert(out@ =~= old(out)@ + decimal(n as int));
}

/// Appends the three channels of a colour, separated by `;`.
pub fn push_colour(out: &mut Vec<u8>, c: (u8, u8, u8))
    ensures
        final(out)@ == old(out)@ + colour_code(c),
{
    push_decimal(out, c.0);
    out.push(0x3b);
    push_decimal(out, c.1);
    out.push(0x3b);
    push_decimal(out, c.2);
    assert(out@ =~= old(out)@ + colour_code(c));
}

/// Appends one terminal cell.
pub fn push_cell(out: &mut Vec<u8>, upper: (u8, u8, u8), lower: (u8, u8, u8))
    ensures
        final(out)@ == old(out)@ + cell(upper, lower),
{
    out.push(0x1b);
    out.push(0x5b);
    out.push(0x33);
    out.push(0x38);
    out.push(0x3b);
    out.push(0x32);
    out.push(0x3b);
    assert(out@ =~= old(out)@ + foreground_intro());
    push_colour(out, upper);
    let ghost mid = out@;
    out.push(0x3b);
    out.push(0x34);
    out.push(0x38);
    out.push(0x3b);
    out.push(0x32);
    out.push(0x3b);
    assert(out@ =~= mid + background_intro());
    push_colour(out, lower);
    let ghost late = out@;
    out.push(0x6d);
    out.push(0xe2);
    out.push(0x96);
    out.push(0x80);
    assert(out@ =~= late + half_block());
    assert(out@ =~= old(out)@ + cell(upper, lower));
}

} // verus!
