use vstd::prelude::*;

use crate::canvas::Canvas;
use crate::color::Rgb;
use crate::ppm::{decimal, digit_char, header, pixel_data, ppm_text, separator, triple_text, TRIPLES_PER_LINE};
use crate::text_laws::{
    all_digits,
    digit_value,
    is_digit,
    lemma_decimal_shape,
    lemma_text_determines_canvas,
    value,
};

verus! {

/// `s` appears in `t` starting at `pos`.
pub open spec fn occurs_at(t: Seq<char>, pos: int, s: Seq<char>) -> bool {
    0 <= pos && pos + s.len() <= t.len() && t.subrange(pos, pos + s.len()) == s
}

/// The decimal notation of `v`, at most `max`, stands in `t` at `pos` and is
/// not followed by another digit.
pub open spec fn number_at(t: Seq<char>, pos: int, max: nat, v: nat) -> bool {
    &&& v <= max
    &&& occurs_at(t, pos, decimal(v))
    &&& (pos + decimal(v).len() == t.len() || !is_digit(t[pos + decimal(v).len()]))
}

/// A digit string without a superfluous leading zero.
pub open spec fn canonical(s: Seq<char>) -> bool {
    &&& s.len() > 0
    &&& all_digits(s)
    &&& (s[0] == '0' ==> s.len() == 1)
}

/// `t` is the P3 text of the well-formed grid `c`.
pub open spec fn text_of(c: Canvas<Rgb>, t: Seq<char>) -> bool {
    c.wf() && ppm_text(c.spec_width(), c.spec_height(), c.cells()) == t
}

proof fn lemma_occurs_split(t: Seq<char>, pos: int, a: Seq<char>, b: Seq<char>)
    requires
        occurs_at(t, pos, a + b),
    ensures
        occurs_at(t, pos, a),
        occurs_at(t, pos + a.len(), b),
{
    assert(t.subrange(pos, pos + a.len()) =~= (a + b).subrange(0, a.len() as int));
    assert(t.subrange(pos + a.len(), pos + a.len() + b.len()) =~= (a + b).subrange(
        a.len() as int,
        (a + b).len() as int,
    ));
    assert((a + b).subrange(0, a.len() as int) =~= a);
    assert((a + b).subrange(a.len() as int, (a + b).len() as int) =~= b);
}

proof fn lemma_decimal_canonical(n: nat)
    ensures
        canonical(decimal(n)),
        n > 0 ==> decimal(n)[0] != '0',
    decreases n,
{
    lemma_decimal_shape(n);
    if n >= 10 {
        lemma_decimal_canonical(n / 10);
        assert(decimal(n)[0] == decimal(n / 10)[0]);
    }
}

proof fn lemma_value_positive(s: Seq<char>)
    requires
        canonical(s),
        s[0] != '0',
    ensures
        value(s) >= 1,
        s.len() > 1 ==> value(s) >= 10,
    decreases s.len(),
{
    if s.len() == 1 {
        assert(s.drop_last().len() == 0);
        assert(value(s.drop_last()) == 0);
    } else {
        let p = s.drop_last();
        assert(p[0] == s[0]);
        assert(all_digits(p)) by {
            assert forall|i: int| 0 <= i < p.len() implies is_digit(#[trigger] p[i]) by {
                assert(p[i] == s[i]);
            }
        }
        lemma_value_positive(p);
    }
}

proof fn lemma_value_canonical(s: Seq<char>)
    requires
        canonical(s),
    ensures
        decimal(value(s)) == s,
    decreases s.len(),
{
    let c = s.last();
    assert(is_digit(s[s.len() - 1]));
    assert(digit_char(digit_value(c)) == c);
    if s.len() == 1 {
        assert(value(s.drop_last()) == 0);
        assert(s =~= seq![c]);
    } else {
        let p = s.drop_last();
        assert(p[0] == s[0]);
        assert(all_digits(p)) by {
            assert forall|i: int| 0 <= i < p.len() implies is_digit(#[trigger] p[i]) by {
                assert(p[i] == s[i]);
            }
        }
        lemma_value_positive(s);
        lemma_value_canonical(p);
        let v = value(s);
        let a = value(p);
        let d = digit_value(c);
        assert(v == a * 10 + d);
        assert(d < 10);
        assert(v / 10 == a && v % 10 == d) by (nonlinear_arith)
            requires
                v == a * 10 + d,
                d < 10,
        ;
        assert(s =~= p + seq![c]);
    }
}

proof fn lemma_value_prefix(s: Seq<char>, k: int)
    requires
        0 <= k <= s.len(),
    ensures
        value(s.take(k)) <= value(s),
    decreases s.len(),
{
    if k < s.len() {
        assert(s.drop_last().take(k) =~= s.take(k));
        lemma_value_prefix(s.drop_last(), k);
    } else {
        assert(s.take(k) =~= s);
    }
}

fn is_digit_char(c: char) -> (r: bool)
    ensures
        r == is_digit(c),
{
    c == '0' || c == '1' || c == '2' || c == '3' || c == '4' || c == '5' || c == '6' || c == '7'
        || c == '8' || c == '9'
}

fn digit_of(c: char) -> (r: u8)
    ensures
        r == digit_value(c),
{
    if c == '1' {
        1
    } else if c == '2' {
        2
    } else if c == '3' {
        3
    } else if c == '4' {
        4
    } else if c == '5' {
        5
    } else if c == '6' {
        6
    } else if c == '7' {
        7
    } else if c == '8' {
        8
    } else if c == '9' {
        9
    } else {
        0
    }
}

/// Reads the decimal number, at most `max`, that starts at `pos`: its value
/// and the position after it. Gives `None` where no digit stands there, the
/// digits have a superfluous leading zero, or their value exceeds `max`.
fn read_number(t: &Vec<char>, pos: usize, max: u64) -> (r: Option<(u64, usize)>)
    requires
        pos <= t@.len(),
    ensures
        r is Some ==> number_at(t@, pos as int, max as nat, r->Some_0.0 as nat) && r->Some_0.1
            == pos + decimal(r->Some_0.0 as nat).len(),
        forall|v: nat|
            #[trigger] number_at(t@, pos as int, max as nat, v) ==> r == Some::<(u64, usize)>(
                (v as u64, (pos + decimal(v).len()) as usize),
            ),
{
    let n = t.len();
    let mut i: usize = pos;
    let mut acc: u128 = 0;
    while i < n && is_digit_char(t[i])
        invariant
            n == t@.len(),
            pos <= i <= n,
            all_digits(t@.subrange(pos as int, i as int)),
            acc == value(t@.subrange(pos as int, i as int)),
            acc <= max,
            forall|v: nat|
                #[trigger] number_at(t@, pos as int, max as nat, v) ==> i <= pos + decimal(v).len(),
        decreases n - i,
    {
        let d = digit_of(t[i]);
        let next: u128 = acc * 10 + d as u128;
        let ghost s = t@.subrange(pos as int, i + 1);
        proof {
            assert(s.drop_last() =~= t@.subrange(pos as int, i as int));
            assert(s.last() == t@[i as int]);
            assert(next == value(s));
        }
        if next > max as u128 {
            proof {
                assert forall|v: nat| !#[trigger] number_at(t@, pos as int, max as nat, v) by {
                    if number_at(t@, pos as int, max as nat, v) {
                        lemma_decimal_shape(v);
                        if i == pos + decimal(v).len() {
                            assert(t@[i as int] == t@[pos + decimal(v).len()]);
                        }
                        assert(s =~= decimal(v).take(i + 1 - pos));
                        lemma_value_prefix(decimal(v), i + 1 - pos);
                    }
                }
            }
            return None;
        }
        acc = next;
        i = i + 1;
        proof {
            assert(all_digits(s)) by {
                assert forall|k: int| 0 <= k < s.len() implies is_digit(#[trigger] s[k]) by {
                    if k < s.len() - 1 {
                        assert(s[k] == t@.subrange(pos as int, (i - 1) as int)[k]);
                    }
                }
            }
            assert forall|v: nat| #[trigger] number_at(t@, pos as int, max as nat, v) implies i
                <= pos + decimal(v).len() by {
                if i - 1 == pos + decimal(v).len() {
                    assert(t@[i - 1] == t@[pos + decimal(v).len()]);
                }
            }
        }
    }
    proof {
        assert forall|v: nat| #[trigger] number_at(t@, pos as int, max as nat, v) implies i == pos
            + decimal(v).len() by {
            lemma_decimal_shape(v);
            if i < pos + decimal(v).len() {
                assert(t@[i as int] == decimal(v)[i - pos]);
            }
        }
    }
    if i == pos {
        proof {
            assert forall|v: nat| !#[trigger] number_at(t@, pos as int, max as nat, v) by {
                lemma_decimal_shape(v);
            }
        }
        return None;
    }
    let ghost s = t@.subrange(pos as int, i as int);
    if t[pos] == '0' && i > pos + 1 {
        proof {
            assert forall|v: nat| !#[trigger] number_at(t@, pos as int, max as nat, v) by {
                if number_at(t@, pos as int, max as nat, v) {
                    lemma_decimal_canonical(v);
                    assert(s == decimal(v));
                    assert(s[0] == t@[pos as int]);
                }
            }
        }
        return None;
    }
    proof {
        assert(s[0] == t@[pos as int]);
        lemma_value_canonical(s);
        assert forall|v: nat| #[trigger] number_at(t@, pos as int, max as nat, v) implies v == acc by {
            lemma_decimal_shape(v);
            assert(s == decimal(v));
        }
    }
    Some((acc as u64, i))
}

/// Whether the character at `pos` is `c`.
fn char_at(t: &Vec<char>, pos: usize, c: char) -> (r: bool)
    ensures
        r == (pos < t@.len() && t@[pos as int] == c),
{
    pos < t.len() && t[pos] == c
}


proof fn lemma_occurs_join(t: Seq<char>, a: Seq<char>, b: Seq<char>)
    requires
        occurs_at(t, 0, a),
        occurs_at(t, a.len() as int, b),
    ensures
        occurs_at(t, 0, a + b),
{
    assert(t.subrange(0, (a + b).len() as int) =~= a + b) by {
        assert forall|k: int| 0 <= k < (a + b).len() implies t.subrange(0, (a + b).len() as int)[k]
            == (a + b)[k] by {
            if k < a.len() {
                assert(t.subrange(0, a.len() as int)[k] == t[k]);
            } else {
                assert(t.subrange(a.len() as int, (a.len() + b.len()) as int)[k - a.len()] == t[k]);
            }
        }
    }
}

proof fn lemma_occurs_char(t: Seq<char>, pos: int, c: char)
    requires
        0 <= pos < t.len(),
        t[pos] == c,
    ensures
        occurs_at(t, pos, seq![c]),
{
    assert(t.subrange(pos, pos + 1) =~= seq![c]);
}

proof fn lemma_pixel_data_prefix(ts: Seq<Rgb>, k: int, total: nat)
    requires
        0 <= k <= ts.len(),
    ensures
        occurs_at(pixel_data(ts, total), 0, pixel_data(ts.take(k), total)),
    decreases ts.len(),
{
    let whole = pixel_data(ts, total);
    if k == ts.len() {
        assert(ts.take(k) =~= ts);
        assert(whole.subrange(0, whole.len() as int) =~= whole);
    } else {
        let p = ts.drop_last();
        assert(p.take(k) =~= ts.take(k));
        lemma_pixel_data_prefix(p, k, total);
        let part = pixel_data(p, total);
        let front = pixel_data(ts.take(k), total);
        assert(whole == part + triple_text(ts.last()) + seq![separator((ts.len() - 1) as nat, total)]);
        assert(whole.subrange(0, front.len() as int) =~= part.subrange(0, front.len() as int));
    }
}

/// Where the pieces of the header of a serialized grid stand.
proof fn lemma_header_layout(c: Canvas<Rgb>)
    requires
        c.wf(),
    ensures
        ({
            let t = ppm_text(c.spec_width(), c.spec_height(), c.cells());
            let lw = decimal(c.spec_width()).len() as int;
            let lh = decimal(c.spec_height()).len() as int;
            let q = 4 + lw + lh;
            &&& t.len() >= 3 && t[0] == 'P' && t[1] == '3' && t[2] == '\n'
            &&& number_at(t, 3, usize::MAX as nat, c.spec_width())
            &&& t.len() > 3 + lw && t[3 + lw] == ' '
            &&& number_at(t, 4 + lw, usize::MAX as nat, c.spec_height())
            &&& t.len() >= q + 5 && t[q] == '\n' && t[q + 1] == '2' && t[q + 2] == '5' && t[q + 3]
                == '5' && t[q + 4] == '\n'
            &&& header(c.spec_width(), c.spec_height()).len() == q + 5
            &&& t == header(c.spec_width(), c.spec_height()) + pixel_data(c.cells(), c.cells().len())
        }),
{
    let t = ppm_text(c.spec_width(), c.spec_height(), c.cells());
    let dw = decimal(c.spec_width());
    let dh = decimal(c.spec_height());
    let lw = dw.len() as int;
    let lh = dh.len() as int;
    lemma_decimal_shape(c.spec_width());
    lemma_decimal_shape(c.spec_height());
    c.lemma_dims_fit();
    assert(t.subrange(3, 3 + lw) =~= dw);
    assert(t.subrange(4 + lw, 4 + lw + lh) =~= dh);
    assert(t[3 + lw] == ' ');
    assert(t[4 + lw + lh] == '\n');
}


/// Where the numbers and separators of pixel `i` of a serialized grid stand.
#[verifier::rlimit(40)]
proof fn lemma_pixel_layout(c: Canvas<Rgb>, i: int)
    requires
        c.wf(),
        0 <= i < c.cells().len(),
    ensures
        ({
            let t = ppm_text(c.spec_width(), c.spec_height(), c.cells());
            let n = c.cells().len();
            let pos = (header(c.spec_width(), c.spec_height()).len() + pixel_data(
                c.cells().take(i),
                n,
            ).len()) as int;
            let px = c.cells()[i];
            let lr = decimal(px.red as nat).len() as int;
            let lg = decimal(px.green as nat).len() as int;
            let lb = decimal(px.blue as nat).len() as int;
            &&& number_at(t, pos, 255, px.red as nat)
            &&& t[pos + lr] == ' '
            &&& number_at(t, pos + lr + 1, 255, px.green as nat)
            &&& t[pos + lr + lg + 1] == ' '
            &&& number_at(t, pos + lr + lg + 2, 255, px.blue as nat)
            &&& pos + lr + lg + lb + 2 < t.len()
            &&& t[pos + lr + lg + lb + 2] == separator(i as nat, n)
            &&& pixel_data(c.cells().take(i + 1), n).len() == pixel_data(c.cells().take(i), n).len()
                + lr + lg + lb + 3
        }),
{
    let t = ppm_text(c.spec_width(), c.spec_height(), c.cells());
    let n = c.cells().len();
    let hdr = header(c.spec_width(), c.spec_height());
    let all = pixel_data(c.cells(), n);
    assert(t == hdr + all);
    let px = c.cells()[i];
    let dr = decimal(px.red as nat);
    let dg = decimal(px.green as nat);
    let db = decimal(px.blue as nat);
    let sp = seq![' '];
    let sep = seq![separator(i as nat, n)];
    let before = pixel_data(c.cells().take(i), n);
    let upto = pixel_data(c.cells().take(i + 1), n);
    assert(c.cells().take(i + 1).drop_last() =~= c.cells().take(i));
    assert(c.cells().take(i + 1).last() == px);
    assert(upto == before + triple_text(px) + sep);
    lemma_pixel_data_prefix(c.cells(), i + 1, n);
    assert(t.subrange(hdr.len() as int, (hdr.len() + upto.len()) as int) =~= all.subrange(0, upto.len() as int));
    let rest = dr + (sp + (dg + (sp + (db + sep))));
    assert(upto =~= before + rest);
    let pos = (hdr.len() + before.len()) as int;
    lemma_occurs_split(t, hdr.len() as int, before, rest);
    lemma_occurs_split(t, pos, dr, sp + (dg + (sp + (db + sep))));
    lemma_occurs_split(t, pos + dr.len(), sp, dg + (sp + (db + sep)));
    lemma_occurs_split(t, pos + dr.len() + 1, dg, sp + (db + sep));
    lemma_occurs_split(t, pos + dr.len() + 1 + dg.len(), sp, db + sep);
    lemma_occurs_split(t, pos + dr.len() + dg.len() + 2, db, sep);
    assert(t.subrange(pos + dr.len(), pos + dr.len() + 1)[0] == t[pos + dr.len()]);
    assert(t.subrange(pos + dr.len() + dg.len() + 1, pos + dr.len() + dg.len() + 2)[0] == t[pos
        + dr.len() + dg.len() + 1]);
    assert(t.subrange(pos + dr.len() + dg.len() + db.len() + 2, pos + dr.len() + dg.len()
        + db.len() + 3)[0] == t[pos + dr.len() + dg.len() + db.len() + 2]);
}

/// Turns a string into its characters.
fn to_chars(s: &str) -> (r: Vec<char>)
    ensures
        r@ == s@,
{
    let mut out: Vec<char> = Vec::new();
    for c in it: s.chars()
        invariant
            out@ == it.seq().take(it.index() as int),
            it.seq() == s@,
    {
        out.push(c);
    }
    assert(out@ =~= s@);
    out
}


/// Reads back the P3 text of a grid of quantized colors. Gives the grid
/// whose text it is, or `None` where the text is not the text of any grid.
#[verifier::rlimit(100)]
pub fn parse(text: &str) -> (r: Option<Canvas<Rgb>>)
    ensures
        r is Some ==> text_of(r->Some_0, text@),
        forall|c: Canvas<Rgb>| #[trigger]
            text_of(c, text@) ==> {
                &&& r is Some
                &&& r->Some_0.spec_width() == c.spec_width()
                &&& r->Some_0.spec_height() == c.spec_height()
                &&& r->Some_0.cells() == c.cells()
            },
{
    let t = to_chars(text);
    let len = t.len();
    let ghost found = exists|c: Canvas<Rgb>| #[trigger] text_of(c, t@);
    let ghost g = if found {
        choose|c: Canvas<Rgb>| #[trigger] text_of(c, t@)
    } else {
        arbitrary()
    };
    proof {
        if found {
            lemma_header_layout(g);
        }
    }
    if !(char_at(&t, 0, 'P') && char_at(&t, 1, '3') && char_at(&t, 2, '\n')) {
        proof { assert(!found); }
        return None;
    }
    let (w, after_w) = match read_number(&t, 3, usize::MAX as u64) {
        Some(p) => p,
        None => {
            proof { assert(!found); }
            return None;
        },
    };
    if !char_at(&t, after_w, ' ') {
        proof { assert(!found); }
        return None;
    }
    let (h, after_h) = match read_number(&t, after_w + 1, usize::MAX as u64) {
        Some(p) => p,
        None => {
            proof { assert(!found); }
            return None;
        },
    };
    if t.len() < 5 || after_h > t.len() - 5 {
        proof { assert(!found); }
        return None;
    }
    if !(char_at(&t, after_h, '\n') && char_at(&t, after_h + 1, '2') && char_at(&t, after_h + 2, '5')
        && char_at(&t, after_h + 3, '5') && char_at(&t, after_h + 4, '\n')) {
        proof { assert(!found); }
        return None;
    }
    let width = w as usize;
    let height = h as usize;
    let n: usize = match width.checked_mul(height) {
        Some(n) => n,
        None => {
            proof {
                if found {
                    assert(g.spec_width() * g.spec_height() <= usize::MAX);
                }
                assert(!found);
            }
            return None;
        },
    };
    let mut pos: usize = after_h + 5;
    proof {
        let hdr = header(width as nat, height as nat);
        lemma_occurs_char(t@, 0, 'P');
        lemma_occurs_char(t@, 1, '3');
        lemma_occurs_char(t@, 2, '\n');
        lemma_occurs_join(t@, seq!['P'], seq!['3']);
        lemma_occurs_join(t@, seq!['P'] + seq!['3'], seq!['\n']);
        let a0 = seq!['P'] + seq!['3'] + seq!['\n'];
        lemma_occurs_join(t@, a0, decimal(width as nat));
        let a1 = a0 + decimal(width as nat);
        lemma_occurs_char(t@, after_w as int, ' ');
        lemma_occurs_join(t@, a1, seq![' ']);
        let a2 = a1 + seq![' '];
        lemma_occurs_join(t@, a2, decimal(height as nat));
        let a3 = a2 + decimal(height as nat);
        lemma_occurs_char(t@, after_h as int, '\n');
        lemma_occurs_char(t@, after_h + 1, '2');
        lemma_occurs_char(t@, after_h + 2, '5');
        lemma_occurs_char(t@, after_h + 3, '5');
        lemma_occurs_char(t@, after_h + 4, '\n');
        lemma_occurs_join(t@, a3, seq!['\n']);
        lemma_occurs_join(t@, a3 + seq!['\n'], seq!['2']);
        lemma_occurs_join(t@, a3 + seq!['\n'] + seq!['2'], seq!['5']);
        lemma_occurs_join(t@, a3 + seq!['\n'] + seq!['2'] + seq!['5'], seq!['5']);
        lemma_occurs_join(t@, a3 + seq!['\n'] + seq!['2'] + seq!['5'] + seq!['5'], seq!['\n']);
        assert(hdr =~= a3 + seq!['\n'] + seq!['2'] + seq!['5'] + seq!['5'] + seq!['\n']);
        assert(pixel_data(Seq::<Rgb>::empty(), n as nat) == Seq::<char>::empty());
        assert(hdr + pixel_data(Seq::<Rgb>::empty(), n as nat) =~= hdr);
        if found {
            assert(g.cells().take(0) =~= Seq::<Rgb>::empty());
        }
    }
    let mut px: Vec<Rgb> = Vec::new();
    let mut i: usize = 0;
    while i < n
        invariant
            t@ == text@,
            len == t@.len(),
            forall|c: Canvas<Rgb>| #[trigger] text_of(c, t@) ==> found,
            n == width * height,
            i <= n,
            px@.len() == i,
            pos <= t@.len(),
            occurs_at(t@, 0, header(width as nat, height as nat) + pixel_data(px@, n as nat)),
            pos == (header(width as nat, height as nat) + pixel_data(px@, n as nat)).len(),
            found ==> text_of(g, t@) && width == g.spec_width() && height == g.spec_height() && n
                == g.cells().len() && px@ == g.cells().take(i as int),
        decreases n - i,
    {
        proof {
            if found {
                lemma_pixel_layout(g, i as int);
            }
        }
        let (red, p1) = match read_number(&t, pos, 255) {
            Some(p) => p,
            None => {
                proof { assert(!found); }
                return None;
            },
        };
        if !char_at(&t, p1, ' ') {
            proof { assert(!found); }
            return None;
        }
        let (green, p2) = match read_number(&t, p1 + 1, 255) {
            Some(p) => p,
            None => {
                proof { assert(!found); }
                return None;
            },
        };
        if !char_at(&t, p2, ' ') {
            proof { assert(!found); }
            return None;
        }
        let (blue, p3) = match read_number(&t, p2 + 1, 255) {
            Some(p) => p,
            None => {
                proof { assert(!found); }
                return None;
            },
        };
        let sep = if (i + 1) % TRIPLES_PER_LINE == 0 || i + 1 == n {
            '\n'
        } else {
            ' '
        };
        assert(sep == separator(i as nat, n as nat));
        proof {
            if found {
                let q = g.cells()[i as int];
                assert(red == q.red);
                assert(green == q.green);
                assert(blue == q.blue);
                assert(p3 == pos + decimal(q.red as nat).len() + decimal(q.green as nat).len()
                    + decimal(q.blue as nat).len() + 2);
                assert(t@[p3 as int] == sep);
            }
        }
        if !char_at(&t, p3, sep) {
            proof { assert(!found); }
            return None;
        }
        let c = Rgb { red: red as u8, green: green as u8, blue: blue as u8 };
        proof {
            let before = header(width as nat, height as nat) + pixel_data(px@, n as nat);
            let dr = decimal(red as nat);
            let dg = decimal(green as nat);
            let db = decimal(blue as nat);
            lemma_occurs_join(t@, before, dr);
            lemma_occurs_char(t@, p1 as int, ' ');
            lemma_occurs_join(t@, before + dr, seq![' ']);
            lemma_occurs_join(t@, before + dr + seq![' '], dg);
            lemma_occurs_char(t@, p2 as int, ' ');
            lemma_occurs_join(t@, before + dr + seq![' '] + dg, seq![' ']);
            lemma_occurs_join(t@, before + dr + seq![' '] + dg + seq![' '], db);
            lemma_occurs_char(t@, p3 as int, sep);
            lemma_occurs_join(t@, before + dr + seq![' '] + dg + seq![' '] + db, seq![sep]);
            let next = px@.push(c);
            assert(next.drop_last() =~= px@);
            assert(sep == separator(i as nat, n as nat));
            assert(header(width as nat, height as nat) + pixel_data(next, n as nat) =~= before + dr
                + seq![' '] + dg + seq![' '] + db + seq![sep]);
            if found {
                assert(g.cells().take(i + 1) =~= g.cells().take(i as int).push(g.cells()[i as int]));
            }
        }
        px.push(c);
        pos = p3 + 1;
        i = i + 1;
    }
    if pos != t.len() {
        proof {
            if found {
                assert(g.cells().take(n as int) =~= g.cells());
                lemma_header_layout(g);
            }
            assert(!found);
        }
        return None;
    }
    let ghost full = header(width as nat, height as nat) + pixel_data(px@, n as nat);
    proof {
        assert(t@.subrange(0, full.len() as int) =~= t@);
    }
    let r = Canvas::from_pixels(width, height, px);
    proof {
        assert(text_of(r, text@));
        assert forall|c: Canvas<Rgb>| #[trigger] text_of(c, text@) implies r.spec_width()
            == c.spec_width() && r.spec_height() == c.spec_height() && r.cells() == c.cells() by {
            lemma_text_determines_canvas(c, r);
        }
    }
    Some(r)
}

} // verus!
