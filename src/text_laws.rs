use vstd::prelude::*;

use crate::canvas::Canvas;
use crate::color::Rgb;
use crate::ppm::{decimal, digit_char, header, pixel_data, ppm_text, separator, triple_text};

verus! {

pub open spec fn is_digit(c: char) -> bool {
    c == '0' || c == '1' || c == '2' || c == '3' || c == '4' || c == '5' || c == '6' || c == '7'
        || c == '8' || c == '9'
}

pub open spec fn all_digits(s: Seq<char>) -> bool {
    forall|i: int| 0 <= i < s.len() ==> is_digit(#[trigger] s[i])
}

/// The value of a decimal digit.
pub open spec fn digit_value(c: char) -> nat {
    if c == '1' {
        1
    } else if c == '2' {
        2
    } else if c == '3' {
        3
    } else if c == '4' {
        4
    } else if c == '5' {
        5
    } else if c == '6' {
        6
    } else if c == '7' {
        7
    } else if c == '8' {
        8
    } else if c == '9' {
        9
    } else {
        0
    }
}

/// The number a string of decimal digits denotes.
pub open spec fn value(s: Seq<char>) -> nat
    decreases s.len(),
{
    if s.len() == 0 {
        0
    } else {
        value(s.drop_last()) * 10 + digit_value(s.last())
    }
}

pub(crate) proof fn lemma_decimal_shape(n: nat)
    ensures
        decimal(n).len() > 0,
        all_digits(decimal(n)),
        value(decimal(n)) == n,
    decreases n,
{
    if n >= 10 {
        lemma_decimal_shape(n / 10);
        let s = decimal(n);
        assert(s.drop_last() =~= decimal(n / 10));
        assert(s.last() == digit_char(n % 10));
        assert(digit_value(digit_char(n % 10)) == n % 10);
        assert((n / 10) * 10 + n % 10 == n) by (nonlinear_arith);
        assert(value(s) == value(s.drop_last()) * 10 + digit_value(s.last()));
    } else {
        let s = decimal(n);
        assert(digit_value(digit_char(n)) == n);
        assert(s.drop_last() =~= Seq::<char>::empty());
        assert(value(s.drop_last()) == 0);
        assert(value(s) == value(s.drop_last()) * 10 + digit_value(s.last()));
    }
}

proof fn lemma_decimal_injective(m: nat, n: nat)
    requires
        decimal(m) == decimal(n),
    ensures
        m == n,
{
    lemma_decimal_shape(m);
    lemma_decimal_shape(n);
}

/// A digit run that ends a text right after a non-digit is determined by
/// the text.
proof fn lemma_split_digits_back(p1: Seq<char>, d1: Seq<char>, p2: Seq<char>, d2: Seq<char>)
    requires
        p1.len() > 0,
        p2.len() > 0,
        !is_digit(p1.last()),
        !is_digit(p2.last()),
        all_digits(d1),
        all_digits(d2),
        p1 + d1 == p2 + d2,
    ensures
        d1 == d2,
        p1 == p2,
{
    let s = p1 + d1;
    assert(s.len() == (p2 + d2).len());
    assert(p1.len() + d1.len() == p2.len() + d2.len());
    if d1.len() < d2.len() {
        let i = p1.len() - 1;
        assert(s[i] == p1.last());
        assert(s[i] == (p2 + d2)[i]);
        assert((p2 + d2)[i] == d2[i - p2.len()]);
    } else if d2.len() < d1.len() {
        let i = p2.len() - 1;
        assert((p2 + d2)[i] == p2.last());
        assert(s[i] == (p2 + d2)[i]);
        assert(s[i] == d1[i - p1.len()]);
    }
    assert(d1 =~= s.subrange(p1.len() as int, s.len() as int));
    assert(d2 =~= (p2 + d2).subrange(p2.len() as int, s.len() as int));
    assert(p1 =~= s.subrange(0, p1.len() as int));
    assert(p2 =~= (p2 + d2).subrange(0, p2.len() as int));
}

/// A digit run that starts a text and is followed by a non-digit is
/// determined by the text.
proof fn lemma_split_digits_front(d1: Seq<char>, s1: Seq<char>, d2: Seq<char>, s2: Seq<char>)
    requires
        s1.len() > 0,
        s2.len() > 0,
        !is_digit(s1[0]),
        !is_digit(s2[0]),
        all_digits(d1),
        all_digits(d2),
        d1 + s1 == d2 + s2,
    ensures
        d1 == d2,
        s1 == s2,
{
    let s = d1 + s1;
    if d1.len() < d2.len() {
        let i = d1.len() as int;
        assert(s[i] == s1[0]);
        assert(s[i] == (d2 + s2)[i]);
    } else if d2.len() < d1.len() {
        let i = d2.len() as int;
        assert((d2 + s2)[i] == s2[0]);
        assert(s[i] == d1[i]);
    }
    assert(d1 =~= s.subrange(0, d1.len() as int));
    assert(d2 =~= (d2 + s2).subrange(0, d1.len() as int));
    assert(s1 =~= s.subrange(d1.len() as int, s.len() as int));
    assert(s2 =~= (d2 + s2).subrange(d2.len() as int, s.len() as int));
}

/// A color's text, following a non-digit, is determined by the text.
proof fn lemma_triple_back(x1: Seq<char>, c1: Rgb, x2: Seq<char>, c2: Rgb)
    requires
        x1.len() > 0,
        x2.len() > 0,
        !is_digit(x1.last()),
        !is_digit(x2.last()),
        x1 + triple_text(c1) == x2 + triple_text(c2),
    ensures
        c1 == c2,
        x1 == x2,
{
    let sp = seq![' '];
    lemma_decimal_shape(c1.red as nat);
    lemma_decimal_shape(c1.green as nat);
    lemma_decimal_shape(c1.blue as nat);
    lemma_decimal_shape(c2.red as nat);
    lemma_decimal_shape(c2.green as nat);
    lemma_decimal_shape(c2.blue as nat);
    let r1 = decimal(c1.red as nat);
    let g1 = decimal(c1.green as nat);
    let b1 = decimal(c1.blue as nat);
    let r2 = decimal(c2.red as nat);
    let g2 = decimal(c2.green as nat);
    let b2 = decimal(c2.blue as nat);
    let q1 = x1 + r1 + sp;
    let q2 = x2 + r2 + sp;
    assert(x1 + triple_text(c1) =~= (q1 + g1 + sp) + b1);
    assert(x2 + triple_text(c2) =~= (q2 + g2 + sp) + b2);
    assert((q1 + g1 + sp).last() == ' ');
    assert((q2 + g2 + sp).last() == ' ');
    lemma_split_digits_back(q1 + g1 + sp, b1, q2 + g2 + sp, b2);
    assert((q1 + g1 + sp).drop_last() =~= q1 + g1);
    assert((q2 + g2 + sp).drop_last() =~= q2 + g2);
    assert(q1.last() == ' ');
    assert(q2.last() == ' ');
    lemma_split_digits_back(q1, g1, q2, g2);
    assert(q1.drop_last() =~= x1 + r1);
    assert(q2.drop_last() =~= x2 + r2);
    lemma_split_digits_back(x1, r1, x2, r2);
    lemma_decimal_injective(c1.red as nat, c2.red as nat);
    lemma_decimal_injective(c1.green as nat, c2.green as nat);
    lemma_decimal_injective(c1.blue as nat, c2.blue as nat);
}

proof fn lemma_pixel_data_ends_with_separator(ts: Seq<Rgb>, total: nat)
    requires
        ts.len() > 0,
    ensures
        pixel_data(ts, total).len() > 0,
        pixel_data(ts, total).last() == separator((ts.len() - 1) as nat, total),
{
}

/// Equal pixel data after a common prefix ending in a non-digit means equal
/// pixels.
proof fn lemma_pixel_data_injective(h: Seq<char>, a: Seq<Rgb>, b: Seq<Rgb>, total: nat)
    requires
        h.len() > 0,
        !is_digit(h.last()),
        a.len() == b.len(),
        h + pixel_data(a, total) == h + pixel_data(b, total),
    ensures
        a == b,
    decreases a.len(),
{
    if a.len() > 0 {
        let n = a.len();
        let sep = seq![separator((n - 1) as nat, total)];
        let xa = h + pixel_data(a.drop_last(), total);
        let xb = h + pixel_data(b.drop_last(), total);
        assert(h + pixel_data(a, total) =~= (xa + triple_text(a.last())) + sep);
        assert(h + pixel_data(b, total) =~= (xb + triple_text(b.last())) + sep);
        assert((xa + triple_text(a.last())) =~= (h + pixel_data(a, total)).drop_last());
        assert((xb + triple_text(b.last())) =~= (h + pixel_data(b, total)).drop_last());
        if a.drop_last().len() > 0 {
            lemma_pixel_data_ends_with_separator(a.drop_last(), total);
            lemma_pixel_data_ends_with_separator(b.drop_last(), total);
        } else {
            assert(xa =~= h);
            assert(xb =~= h);
        }
        lemma_triple_back(xa, a.last(), xb, b.last());
        assert(pixel_data(a.drop_last(), total) =~= xa.subrange(h.len() as int, xa.len() as int));
        assert(pixel_data(b.drop_last(), total) =~= xb.subrange(h.len() as int, xb.len() as int));
        lemma_pixel_data_injective(h, a.drop_last(), b.drop_last(), total);
        assert(a =~= a.drop_last().push(a.last()));
        assert(b =~= b.drop_last().push(b.last()));
    } else {
        assert(a =~= b);
    }
}

/// The P3 text of a well-formed grid of quantized colors is lossless: two
/// grids whose texts are equal have the same width, the same height and
/// the same pixels, so reading the text back can only give the colors
/// that were written.
#[verifier::rlimit(40)]
pub proof fn lemma_text_determines_canvas(a: Canvas<Rgb>, b: Canvas<Rgb>)
    requires
        a.wf(),
        b.wf(),
        ppm_text(a.spec_width(), a.spec_height(), a.cells()) == ppm_text(
            b.spec_width(),
            b.spec_height(),
            b.cells(),
        ),
    ensures
        a.spec_width() == b.spec_width(),
        a.spec_height() == b.spec_height(),
        a.cells() == b.cells(),
{
    let wa = decimal(a.spec_width());
    let wb = decimal(b.spec_width());
    let ha = decimal(a.spec_height());
    let hb = decimal(b.spec_height());
    lemma_decimal_shape(a.spec_width());
    lemma_decimal_shape(b.spec_width());
    lemma_decimal_shape(a.spec_height());
    lemma_decimal_shape(b.spec_height());
    let magic = seq!['P', '3', '\n'];
    let tail = seq!['\n', '2', '5', '5', '\n'];
    let pa = pixel_data(a.cells(), a.cells().len());
    let pb = pixel_data(b.cells(), b.cells().len());
    let ta = ppm_text(a.spec_width(), a.spec_height(), a.cells());
    assert(ta =~= magic + (wa + (seq![' '] + ha + tail + pa)));
    assert(ta =~= magic + (wb + (seq![' '] + hb + tail + pb)));
    assert(wa + (seq![' '] + ha + tail + pa) =~= ta.subrange(3, ta.len() as int));
    assert(wb + (seq![' '] + hb + tail + pb) =~= ta.subrange(3, ta.len() as int));
    lemma_split_digits_front(wa, seq![' '] + ha + tail + pa, wb, seq![' '] + hb + tail + pb);
    lemma_decimal_injective(a.spec_width(), b.spec_width());
    assert(ha + (tail + pa) =~= (seq![' '] + ha + tail + pa).subrange(1, (seq![' '] + ha + tail + pa).len() as int));
    assert(hb + (tail + pb) =~= (seq![' '] + hb + tail + pb).subrange(1, (seq![' '] + hb + tail + pb).len() as int));
    lemma_split_digits_front(ha, tail + pa, hb, tail + pb);
    lemma_decimal_injective(a.spec_height(), b.spec_height());
    assert(a.cells().len() == b.cells().len());
    let h = header(a.spec_width(), a.spec_height());
    assert(h.last() == '\n');
    assert(ta =~= h + pa);
    assert(ppm_text(b.spec_width(), b.spec_height(), b.cells()) =~= h + pb);
    lemma_pixel_data_injective(h, a.cells(), b.cells(), a.cells().len());
}

} // verus!
