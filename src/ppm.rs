use vstd::prelude::*;

verus! {

/// ASCII `P`, the first byte of the format's magic number.
pub const MAGIC_P: u8 = 80;

/// ASCII `0`.
pub const DIGIT_ZERO: u8 = 48;

/// ASCII space, between the numbers of a line.
pub const SPACE: u8 = 32;

/// ASCII line feed, at the end of each line.
pub const NEWLINE: u8 = 10;

/// The largest channel value, written in the header.
pub const MAX_CHANNEL: u32 = 255;

/// An output pixel: three 8-bit channels, already gamma-encoded and clamped.
#[derive(Clone, Copy, Debug, PartialEq, Eq, Structural)]
pub struct Pixel {
    pub r: u8,
    pub g: u8,
    pub b: u8,
}

/// The ASCII decimal digits of `n`, most significant first, with no leading
/// zero.
pub open spec fn decimal(n: nat) -> Seq<u8>
    decreases n,
{
    if n < 10 {
        seq![(n + DIGIT_ZERO) as u8]
    } else {
        decimal(n / 10) + seq![(n % 10 + DIGIT_ZERO) as u8]
    }
}

/// `P3`, the width and height, and the largest channel value `255`, each on a
/// line of its own, followed by an empty line.
pub open spec fn header_text(width: nat, height: nat) -> Seq<u8> {
    seq![MAGIC_P] + decimal(3) + seq![NEWLINE] + decimal(width) + seq![SPACE] + decimal(height)
        + seq![NEWLINE] + decimal(MAX_CHANNEL as nat) + seq![NEWLINE, NEWLINE]
}

/// One pixel as a line `R G B`.
pub open spec fn pixel_line(p: Pixel) -> Seq<u8> {
    decimal(p.r as nat) + seq![SPACE] + decimal(p.g as nat) + seq![SPACE] + decimal(p.b as nat)
        + seq![NEWLINE]
}

/// The lines of a row's pixels, left to right.
pub open spec fn row_text(row: Seq<Pixel>) -> Seq<u8>
    decreases row.len(),
{
    if row.len() == 0 {
        Seq::empty()
    } else {
        row_text(row.drop_last()) + pixel_line(row.last())
    }
}

/// The lines of all pixels, row by row from the top.
pub open spec fn rows_text(rows: Seq<Vec<Pixel>>) -> Seq<u8>
    decreases rows.len(),
{
    if rows.len() == 0 {
        Seq::empty()
    } else {
        rows_text(rows.drop_last()) + row_text(rows.last()@)
    }
}

/// The whole image file.
pub open spec fn ppm_text(width: nat, height: nat, rows: Seq<Vec<Pixel>>) -> Seq<u8> {
    header_text(width, height) + rows_text(rows)
}

/// The number of line ends in `text`.
pub open spec fn count_lines(text: Seq<u8>) -> nat
    decreases text.len(),
{
    if text.len() == 0 {
        0
    } else {
        count_lines(text.drop_last()) + if text.last() == NEWLINE {
            1nat
        } else {
            0nat
        }
    }
}

proof fn lemma_count_lines_concat(a: Seq<u8>, b: Seq<u8>)
    ensures
        count_lines(a + b) == count_lines(a) + count_lines(b),
    decreases b.len(),
{
    if b.len() == 0 {
        assert(a + b =~= a);
    } else {
        assert((a + b).drop_last() =~= a + b.drop_last());
        lemma_count_lines_concat(a, b.drop_last());
    }
}

proof fn lemma_decimal_has_no_line_end(n: nat)
    ensures
        count_lines(decimal(n)) == 0,
    decreases n,
{
    reveal_with_fuel(count_lines, 2);
    if n >= 10 {
        lemma_decimal_has_no_line_end(n / 10);
        lemma_count_lines_concat(decimal(n / 10), seq![(n % 10 + DIGIT_ZERO) as u8]);
    }
}

proof fn lemma_pixel_line_is_one_line(p: Pixel)
    ensures
        count_lines(pixel_line(p)) == 1,
{
    reveal_with_fuel(count_lines, 2);
    let (r, g, b) = (decimal(p.r as nat), decimal(p.g as nat), decimal(p.b as nat));
    lemma_decimal_has_no_line_end(p.r as nat);
    lemma_decimal_has_no_line_end(p.g as nat);
    lemma_decimal_has_no_line_end(p.b as nat);
    lemma_count_lines_concat(r, seq![SPACE]);
    lemma_count_lines_concat(r + seq![SPACE], g);
    lemma_count_lines_concat(r + seq![SPACE] + g, seq![SPACE]);
    lemma_count_lines_concat(r + seq![SPACE] + g + seq![SPACE], b);
    lemma_count_lines_concat(r + seq![SPACE] + g + seq![SPACE] + b, seq![NEWLINE]);
}

proof fn lemma_row_lines(row: Seq<Pixel>)
    ensures
        count_lines(row_text(row)) == row.len(),
    decreases row.len(),
{
    if row.len() > 0 {
        lemma_row_lines(row.drop_last());
        lemma_pixel_line_is_one_line(row.last());
        lemma_count_lines_concat(row_text(row.drop_last()), pixel_line(row.last()));
    }
}

/// An image of `height` rows of `width` pixels each is written as exactly
/// `width * height` pixel lines.
pub proof fn lemma_one_line_per_pixel(width: nat, height: nat, rows: Seq<Vec<Pixel>>)
    requires
        rows.len() == height,
        forall|j: int| 0 <= j < rows.len() ==> (#[trigger] rows[j])@.len() == width,
    ensures
        count_lines(rows_text(rows)) == width * height,
    decreases height,
{
    if height > 0 {
        let h1 = (height - 1) as nat;
        let rest = rows.drop_last();
        assert forall|j: int| 0 <= j < rest.len() implies (#[trigger] rest[j])@.len() == width by {
            assert(rest[j] == rows[j]);
        }
        lemma_one_line_per_pixel(width, h1, rest);
        lemma_row_lines(rows.last()@);
        lemma_count_lines_concat(rows_text(rest), row_text(rows.last()@));
        assert(width * height == width * h1 + width) by (nonlinear_arith)
            requires
                height == h1 + 1,
        ;
    }
}

/// Appends the decimal digits of `n`.
pub fn push_decimal(out: &mut Vec<u8>, n: u32)
    ensures
        final(out)@ == old(out)@ + decimal(n as nat),
    decreases n,
{
    if n >= 10 {
        push_decimal(out, n / 10);
    }
    let digit: u8 = (n % 10) as u8;
    out.push(digit + DIGIT_ZERO);
    assert(final(out)@ =~= old(out)@ + decimal(n as nat));
}

/// The header of an image of `width` by `height` pixels.
pub fn ppm_header(width: u32, height: u32) -> (text: Vec<u8>)
    ensures
        text@ == header_text(width as nat, height as nat),
{
    let mut text: Vec<u8> = Vec::new();
    text.push(MAGIC_P);
    push_decimal(&mut text, 3);
    text.push(NEWLINE);
    push_decimal(&mut text, width);
    text.push(SPACE);
    push_decimal(&mut text, height);
    text.push(NEWLINE);
    push_decimal(&mut text, MAX_CHANNEL);
    text.push(NEWLINE);
    text.push(NEWLINE);
    assert(text@ =~= header_text(width as nat, height as nat));
    text
}

/// Appends the line of one pixel.
pub fn push_pixel_line(out: &mut Vec<u8>, p: Pixel)
    ensures
        final(out)@ == old(out)@ + pixel_line(p),
{
    push_decimal(out, p.r as u32);
    out.push(SPACE);
    push_decimal(out, p.g as u32);
    out.push(SPACE);
    push_decimal(out, p.b as u32);
    out.push(NEWLINE);
    assert(final(out)@ =~= old(out)@ + pixel_line(p));
}

/// The image file for `rows` of pixels, top row first: the header, then one
/// line per pixel.
pub fn encode_ppm(width: u32, height: u32, rows: &Vec<Vec<Pixel>>) -> (text: Vec<u8>)
    ensures
        text@ == ppm_text(width as nat, height as nat, rows@),
{
    let mut text = ppm_header(width, height);
    let ghost header = text@;
    let mut i: usize = 0;
    while i < rows.len()
        invariant
            i <= rows.len(),
            header == header_text(width as nat, height as nat),
            text@ == header + rows_text(rows@.take(i as int)),
        decreases rows.len() - i,
    {
        let row = &rows[i];
        let ghost before = text@;
        let mut j: usize = 0;
        while j < row.len()
            invariant
                j <= row.len(),
                text@ == before + row_text(row@.take(j as int)),
            decreases row.len() - j,
        {
            push_pixel_line(&mut text, row[j]);
            proof {
                assert(row@.take(j + 1).drop_last() =~= row@.take(j as int));
            }
            j = j + 1;
        }
        proof {
            assert(row@.take(j as int) =~= row@);
            assert(rows@.take(i + 1).drop_last() =~= rows@.take(i as int));
            assert(text@ =~= header + rows_text(rows@.take(i + 1)));
        }
        i = i + 1;
    }
    proof {
        assert(rows@.take(i as int) =~= rows@);
    }
    text
}

} // verus!
