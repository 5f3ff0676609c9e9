use vstd::prelude::*;

use crate::canvas::Canvas;
use crate::color::Rgb;

verus! {

/// How many color triples one line of pixel data holds.
pub const TRIPLES_PER_LINE: usize = 5;

/// The character of a decimal digit.
pub open spec fn digit_char(d: nat) -> char {
    if d == 0 {
        '0'
    } else if d == 1 {
        '1'
    } else if d == 2 {
        '2'
    } else if d == 3 {
        '3'
    } else if d == 4 {
        '4'
    } else if d == 5 {
        '5'
    } else if d == 6 {
        '6'
    } else if d == 7 {
        '7'
    } else if d == 8 {
        '8'
    } else {
        '9'
    }
}

/// The decimal notation of `n`, without sign or leading zeros.
pub open spec fn decimal(n: nat) -> Seq<char>
    decreases n,
{
    if n < 10 {
        seq![digit_char(n)]
    } else {
        decimal(n / 10) + seq![digit_char(n % 10)]
    }
}

/// A quantized color as text: its three channels, space-separated.
pub open spec fn triple_text(c: Rgb) -> Seq<char> {
    decimal(c.red as nat) + seq![' '] + decimal(c.green as nat) + seq![' '] + decimal(
        c.blue as nat,
    )
}

/// What follows triple number `i` (from 0) of `total`: a newline after every
/// fifth triple and after the last one, a space otherwise.
pub open spec fn separator(i: nat, total: nat) -> char {
    if (i + 1) % (TRIPLES_PER_LINE as nat) == 0 || i + 1 == total {
        '\n'
    } else {
        ' '
    }
}

/// The pixel data for the first `ts.len()` triples of an image of `total`
/// triples.
pub open spec fn pixel_data(ts: Seq<Rgb>, total: nat) -> Seq<char>
    decreases ts.len(),
{
    if ts.len() == 0 {
        Seq::empty()
    } else {
        pixel_data(ts.drop_last(), total) + triple_text(ts.last()) + seq![
            separator((ts.len() - 1) as nat, total),
        ]
    }
}

/// The header: magic number, dimensions and the largest channel value.
pub open spec fn header(width: nat, height: nat) -> Seq<char> {
    seq!['P', '3', '\n'] + decimal(width) + seq![' '] + decimal(height) + seq![
        '\n',
        '2',
        '5',
        '5',
        '\n',
    ]
}

/// The whole P3 text of an image of the given size and row-major pixels.
pub open spec fn ppm_text(width: nat, height: nat, pixels: Seq<Rgb>) -> Seq<char> {
    header(width, height) + pixel_data(pixels, pixels.len())
}

/// Appends one decimal digit.
fn push_digit(out: &mut String, d: u64)
    requires
        d < 10,
    ensures
        final(out)@ == old(out)@.push(digit_char(d as nat)),
{
    let s = if d == 0 {
        proof { reveal_strlit("0"); }
        "0"
    } else if d == 1 {
        proof { reveal_strlit("1"); }
        "1"
    } else if d == 2 {
        proof { reveal_strlit("2"); }
        "2"
    } else if d == 3 {
        proof { reveal_strlit("3"); }
        "3"
    } else if d == 4 {
        proof { reveal_strlit("4"); }
        "4"
    } else if d == 5 {
        proof { reveal_strlit("5"); }
        "5"
    } else if d == 6 {
        proof { reveal_strlit("6"); }
        "6"
    } else if d == 7 {
        proof { reveal_strlit("7"); }
        "7"
    } else if d == 8 {
        proof { reveal_strlit("8"); }
        "8"
    } else {
        proof { reveal_strlit("9"); }
        "9"
    };
    assert(s@ == seq![digit_char(d as nat)]);
    out.append(s);
    assert(out@ == old(out)@.push(digit_char(d as nat)));
}

/// Appends the decimal notation of `n`.
pub fn push_decimal(out: &mut String, n: u64)
    ensures
        final(out)@ == old(out)@ + decimal(n as nat),
    decreases n,
{
    if n >= 10 {
        push_decimal(out, n / 10);
    }
    push_digit(out, n % 10);
    assert(out@ =~= old(out)@ + decimal(n as nat));
}

/// Appends one space.
fn push_space(out: &mut String)
    ensures
        final(out)@ == old(out)@.push(' '),
{
    proof { reveal_strlit(" "); }
    out.append(" ");
    assert(out@ =~= old(out)@.push(' '));
}

/// Appends one newline.
fn push_newline(out: &mut String)
    ensures
        final(out)@ == old(out)@.push('\n'),
{
    proof { reveal_strlit("\n"); }
    out.append("\n");
    assert(out@ =~= old(out)@.push('\n'));
}

/// Appends a quantized color as "R G B".
pub fn push_triple(out: &mut String, c: Rgb)
    ensures
        final(out)@ == old(out)@ + triple_text(c),
{
    push_decimal(out, c.red as u64);
    push_space(out);
    push_decimal(out, c.green as u64);
    push_space(out);
    push_decimal(out, c.blue as u64);
    assert(out@ =~= old(out)@ + triple_text(c));
}

impl Rgb {
    /// The color as text: its three channels, space-separated.
    pub fn as_string(&self) -> (r: String)
        ensures
            r@ == triple_text(*self),
    {
        let mut out = String::new();
        push_triple(&mut out, *self);
        assert(out@ =~= triple_text(*self));
        out
    }
}

/// The P3 text of a `width` × `height` image whose pixels are given row by
/// row.
pub fn serialize(width: usize, height: usize, pixels: &Vec<Rgb>) -> (r: String)
    ensures
        r@ == ppm_text(width as nat, height as nat, pixels@),
{
    let mut out = String::new();
    proof { reveal_strlit("P3"); }
    out.append("P3");
    push_newline(&mut out);
    push_decimal(&mut out, width as u64);
    push_space(&mut out);
    push_decimal(&mut out, height as u64);
    push_newline(&mut out);
    proof { reveal_strlit("255"); }
    out.append("255");
    push_newline(&mut out);
    assert(out@ =~= header(width as nat, height as nat));
    let n: usize = pixels.len();
    let mut i: usize = 0;
    while i < n
        invariant
            n == pixels@.len(),
            i <= n,
            out@ == header(width as nat, height as nat) + pixel_data(pixels@.take(i as int), n as nat),
        decreases n - i,
    {
        push_triple(&mut out, pixels[i]);
        if (i + 1) % TRIPLES_PER_LINE == 0 || i + 1 == n {
            push_newline(&mut out);
        } else {
            push_space(&mut out);
        }
        proof {
            let next = pixels@.take(i + 1);
            assert(next.drop_last() =~= pixels@.take(i as int));
            assert(next.last() == pixels@[i as int]);
        }
        i = i + 1;
        assert(out@ =~= header(width as nat, height as nat) + pixel_data(pixels@.take(i as int), n as nat));
    }
    assert(pixels@.take(n as int) =~= pixels@);
    out
}

impl Canvas<Rgb> {
    /// The P3 text of this grid of quantized colors: header, then the pixels
    /// row by row, five triples to a line, ending with a newline.
    pub fn to_ppm(&self) -> (r: String)
        ensures
            r@ == ppm_text(self.spec_width(), self.spec_height(), self.cells()),
    {
        serialize(self.width(), self.height(), self.pixels())
    }
}

} // verus!
