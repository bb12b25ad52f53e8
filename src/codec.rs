//! The plain-text PPM format: a header (the two-letter magic, the line
//! `width height`, the line `255`), then one line per pixel with its three
//! channels in decimal. Text is ASCII bytes: 48 to 57 are the digits, 32 a
//! space, 10 a newline. The readers here accept exactly the text that the
//! writers produce.
use vstd::prelude::*;
use crate::ppm::{dims_ok, Rgb};

verus! {

/// Decimal digits of `n`, most significant first, without leading zeros.
pub open spec fn decimal(n: nat) -> Seq<u8>
    decreases n,
{
    if n < 10 {
        seq![(48 + n) as u8]
    } else {
        decimal(n / 10).push((48 + n % 10) as u8)
    }
}

/// One pixel's line: its three channels in decimal, separated by spaces.
pub open spec fn pixel_line(p: Rgb) -> Seq<u8> {
    decimal(p@[0] as nat) + seq![32u8] + decimal(p@[1] as nat) + seq![32u8] + decimal(
        p@[2] as nat,
    ) + seq![10u8]
}

/// The lines of `pixels`, in sequence order.
pub open spec fn body_text(pixels: Seq<Rgb>) -> Seq<u8>
    decreases pixels.len(),
{
    if pixels.len() == 0 {
        Seq::empty()
    } else {
        body_text(pixels.drop_last()) + pixel_line(pixels.last())
    }
}

/// The header: the two-letter magic of plain PPM, the line `width height`, and the line `255`.
pub open spec fn header_text(width: nat, height: nat) -> Seq<u8> {
    seq![80u8, 51u8, 10u8] + decimal(width) + seq![32u8] + decimal(height) + seq![
        10u8,
        50u8,
        53u8,
        53u8,
        10u8,
    ]
}

/// The whole plain PPM file: header, then one line per pixel, rows top to bottom
/// and each row left to right.
pub open spec fn ppm_text(width: nat, height: nat, pixels: Seq<Rgb>) -> Seq<u8> {
    header_text(width, height) + body_text(pixels)
}

pub open spec fn is_digit(b: u8) -> bool {
    48 <= b <= 57
}

pub open spec fn all_digits(s: Seq<u8>) -> bool {
    forall|i: int| 0 <= i < s.len() ==> is_digit(#[trigger] s[i])
}

/// The number that the digits `s` spell in decimal.
pub open spec fn digits_value(s: Seq<u8>) -> nat
    decreases s.len(),
{
    if s.len() == 0 {
        0
    } else {
        digits_value(s.drop_last()) * 10 + (s.last() - 48) as nat
    }
}

/// Digits with no leading zero, or the single digit `0`.
pub open spec fn canonical_digits(s: Seq<u8>) -> bool {
    &&& s.len() >= 1
    &&& all_digits(s)
    &&& s.len() > 1 ==> s[0] != 48
}

proof fn lemma_decimal(n: nat)
    ensures
        canonical_digits(decimal(n)),
        digits_value(decimal(n)) == n,
        n >= 10 ==> decimal(n).len() >= 2,
    decreases n,
{
    if n >= 10 {
        lemma_decimal(n / 10);
        let t = decimal(n / 10);
        assert(decimal(n).drop_last() =~= t);
        assert(decimal(n)[0] == t[0]);
        assert(n == (n / 10) * 10 + n % 10);
        if n / 10 < 10 {
            assert(t[0] == (48 + n / 10) as u8);
        }
        assert forall|i: int| 0 <= i < decimal(n).len() implies is_digit(#[trigger] decimal(n)[i]) by {
            if i < t.len() {
                assert(decimal(n)[i] == t[i]);
            }
        }
    } else {
        assert(is_digit(decimal(n)[0]));
        assert(decimal(n).drop_last() =~= Seq::<u8>::empty());
        assert(digits_value(Seq::<u8>::empty()) == 0);
    }
}

proof fn lemma_canonical(s: Seq<u8>)
    requires
        canonical_digits(s),
    ensures
        decimal(digits_value(s)) == s,
    decreases s.len(),
{
    if s.len() == 1 {
        assert(s.drop_last() =~= Seq::<u8>::empty());
        assert(digits_value(Seq::<u8>::empty()) == 0);
        assert(is_digit(s[0]));
        assert(digits_value(s) == (s[0] - 48) as nat);
        assert(decimal(digits_value(s)) =~= s);
    } else {
        let t = s.drop_last();
        assert(t[0] == s[0]);
        lemma_canonical(t);
        let v = digits_value(t);
        if v == 0 {
            assert(decimal(0) =~= seq![48u8]);
        }
        assert(v >= 1);
        let d = (s.last() - 48) as nat;
        assert(digits_value(s) == v * 10 + d);
        assert((v * 10 + d) / 10 == v && (v * 10 + d) % 10 == d) by (nonlinear_arith)
            requires d < 10;
        assert(decimal(digits_value(s)) =~= t.push(s.last()));
        assert(t.push(s.last()) =~= s);
    }
}

/// A prefix of digits spells no more than the whole.
proof fn lemma_prefix_value(s: Seq<u8>, k: int)
    requires
        all_digits(s),
        0 <= k <= s.len(),
    ensures
        digits_value(s.subrange(0, k)) <= digits_value(s),
    decreases s.len(),
{
    if k < s.len() {
        let t = s.drop_last();
        assert(t.subrange(0, k) =~= s.subrange(0, k));
        lemma_prefix_value(t, k);
    } else {
        assert(s.subrange(0, k) =~= s);
    }
}

proof fn lemma_body_text_append(a: Seq<Rgb>, b: Seq<Rgb>)
    ensures
        body_text(a + b) == body_text(a) + body_text(b),
    decreases b.len(),
{
    if b.len() == 0 {
        assert(a + b =~= a);
        assert(body_text(a) + body_text(b) =~= body_text(a));
    } else {
        lemma_body_text_append(a, b.drop_last());
        assert((a + b).drop_last() =~= a + b.drop_last());
        assert(body_text(a + b) =~= body_text(a) + body_text(b));
    }
}

proof fn lemma_body_text_front(px: Seq<Rgb>)
    requires
        px.len() >= 1,
    ensures
        body_text(px) == pixel_line(px[0]) + body_text(px.drop_first()),
{
    let first = seq![px[0]];
    assert(first + px.drop_first() =~= px);
    lemma_body_text_append(first, px.drop_first());
    assert(first.drop_last() =~= Seq::<Rgb>::empty());
    assert(body_text(Seq::<Rgb>::empty()) == Seq::<u8>::empty());
    assert(first.last() == px[0]);
    assert(body_text(first) =~= pixel_line(px[0]));
}

/// A number written in decimal and closed by a non-digit can be read back,
/// together with everything after it.
proof fn lemma_decimal_split(a: nat, b: nat, sep: u8, x: Seq<u8>, y: Seq<u8>)
    requires
        !is_digit(sep),
        decimal(a) + seq![sep] + x == decimal(b) + seq![sep] + y,
    ensures
        a == b,
        x == y,
{
    let da = decimal(a);
    let db = decimal(b);
    let l = da + seq![sep] + x;
    let r = db + seq![sep] + y;
    lemma_decimal(a);
    lemma_decimal(b);
    if da.len() < db.len() {
        assert(l[da.len() as int] == sep);
        assert(r[da.len() as int] == db[da.len() as int]);
        assert(is_digit(db[da.len() as int]));
    } else if db.len() < da.len() {
        assert(r[db.len() as int] == sep);
        assert(l[db.len() as int] == da[db.len() as int]);
        assert(is_digit(da[db.len() as int]));
    }
    assert(da =~= l.subrange(0, da.len() as int));
    assert(db =~= r.subrange(0, db.len() as int));
    assert(x =~= l.subrange(da.len() as int + 1, l.len() as int));
    assert(y =~= r.subrange(db.len() as int + 1, r.len() as int));
}

proof fn lemma_pixel_line_split(p: Rgb, q: Rgb, x: Seq<u8>, y: Seq<u8>)
    requires
        pixel_line(p) + x == pixel_line(q) + y,
    ensures
        p == q,
        x == y,
{
    let tp1 = decimal(p@[1] as nat) + seq![32u8] + decimal(p@[2] as nat) + seq![10u8] + x;
    let tq1 = decimal(q@[1] as nat) + seq![32u8] + decimal(q@[2] as nat) + seq![10u8] + y;
    assert(pixel_line(p) + x =~= decimal(p@[0] as nat) + seq![32u8] + tp1);
    assert(pixel_line(q) + y =~= decimal(q@[0] as nat) + seq![32u8] + tq1);
    lemma_decimal_split(p@[0] as nat, q@[0] as nat, 32u8, tp1, tq1);
    let tp2 = decimal(p@[2] as nat) + seq![10u8] + x;
    let tq2 = decimal(q@[2] as nat) + seq![10u8] + y;
    assert(tp1 =~= decimal(p@[1] as nat) + seq![32u8] + tp2);
    assert(tq1 =~= decimal(q@[1] as nat) + seq![32u8] + tq2);
    lemma_decimal_split(p@[1] as nat, q@[1] as nat, 32u8, tp2, tq2);
    lemma_decimal_split(p@[2] as nat, q@[2] as nat, 10u8, x, y);
    assert(p@[0] == q@[0] && p@[1] == q@[1] && p@[2] == q@[2]);
    assert(p =~= q);
}

proof fn lemma_body_text_injective(a: Seq<Rgb>, b: Seq<Rgb>)
    requires
        a.len() == b.len(),
        body_text(a) == body_text(b),
    ensures
        a == b,
    decreases a.len(),
{
    if a.len() > 0 {
        lemma_body_text_front(a);
        lemma_body_text_front(b);
        lemma_pixel_line_split(a[0], b[0], body_text(a.drop_first()), body_text(b.drop_first()));
        lemma_body_text_injective(a.drop_first(), b.drop_first());
        assert(a =~= seq![a[0]] + a.drop_first());
        assert(b =~= seq![b[0]] + b.drop_first());
    } else {
        assert(a =~= b);
    }
}

proof fn lemma_header_split(w1: nat, h1: nat, x: Seq<u8>, w2: nat, h2: nat, y: Seq<u8>)
    requires
        header_text(w1, h1) + x == header_text(w2, h2) + y,
    ensures
        w1 == w2,
        h1 == h2,
        x == y,
{
    let magic = seq![80u8, 51u8, 10u8];
    let tail1 = seq![50u8, 53u8, 53u8, 10u8] + x;
    let tail2 = seq![50u8, 53u8, 53u8, 10u8] + y;
    let rest1 = decimal(h1) + seq![10u8] + tail1;
    let rest2 = decimal(h2) + seq![10u8] + tail2;
    let t1 = header_text(w1, h1) + x;
    let t2 = header_text(w2, h2) + y;
    assert(t1 =~= magic + (decimal(w1) + seq![32u8] + rest1));
    assert(t2 =~= magic + (decimal(w2) + seq![32u8] + rest2));
    assert(t1.subrange(3, t1.len() as int) =~= decimal(w1) + seq![32u8] + rest1);
    assert(t2.subrange(3, t2.len() as int) =~= decimal(w2) + seq![32u8] + rest2);
    lemma_decimal_split(w1, w2, 32u8, rest1, rest2);
    lemma_decimal_split(h1, h2, 10u8, tail1, tail2);
    assert(x =~= tail1.subrange(4, tail1.len() as int));
    assert(y =~= tail2.subrange(4, tail2.len() as int));
}

/// Re-reading the text of a grid recovers it: two grids with the same plain
/// PPM text have the same width, the same height and the same pixels, in scan
/// order.
pub proof fn lemma_ppm_text_determines_grid(
    w1: nat,
    h1: nat,
    px1: Seq<Rgb>,
    w2: nat,
    h2: nat,
    px2: Seq<Rgb>,
)
    requires
        px1.len() == w1 * h1,
        px2.len() == w2 * h2,
        ppm_text(w1, h1, px1) == ppm_text(w2, h2, px2),
    ensures
        w1 == w2,
        h1 == h2,
        px1 == px2,
{
    lemma_header_split(w1, h1, body_text(px1), w2, h2, body_text(px2));
    lemma_body_text_injective(px1, px2);
}

/// Appends the decimal digits of `n`.
pub(crate) fn push_decimal(out: &mut Vec<u8>, n: usize)
    ensures
        final(out)@ == old(out)@ + decimal(n as nat),
    decreases n,
{
    if n >= 10 {
        push_decimal(out, n / 10);
    }
    out.push((48 + n % 10) as u8);
    assert(final(out)@ =~= old(out)@ + decimal(n as nat));
}

/// `t` is the plain PPM text of a valid `w` × `h` grid with pixels `px`.
pub open spec fn is_ppm_of(t: Seq<u8>, w: nat, h: nat, px: Seq<Rgb>) -> bool {
    &&& dims_ok(w as int, h as int)
    &&& px.len() == w * h
    &&& t == ppm_text(w, h, px)
}

/// Reads the decimal number at `pos`: the run of digits up to the first
/// non-digit, refused when empty, with a leading zero, or too large.
pub(crate) fn parse_number(b: &Vec<u8>, pos: usize, Ghost(expect): Ghost<Option<nat>>) -> (r: Option<
    (usize, usize),
>)
    requires
        pos <= b@.len(),
        expect matches Some(n) ==> {
            &&& n <= usize::MAX
            &&& pos + decimal(n).len() < b@.len()
            &&& b@.subrange(pos as int, pos + decimal(n).len()) == decimal(n)
            &&& !is_digit(b@[pos + decimal(n).len()])
        },
    ensures
        r matches Some((v, end)) ==> pos < end <= b@.len() && b@.subrange(pos as int, end as int)
            == decimal(v as nat),
        expect matches Some(n) ==> r == Some((n as usize, (pos + decimal(n).len()) as usize)),
{
    proof {
        if expect is Some {
            lemma_decimal(expect->0);
        }
    }
    let mut i: usize = pos;
    let mut value: usize = 0;
    while i < b.len() && 48 <= b[i] && b[i] <= 57
        invariant
            pos <= i <= b@.len(),
            all_digits(b@.subrange(pos as int, i as int)),
            value == digits_value(b@.subrange(pos as int, i as int)),
            expect matches Some(n) ==> {
                &&& n <= usize::MAX
                &&& pos + decimal(n).len() < b@.len()
                &&& !is_digit(b@[pos + decimal(n).len()])
                &&& b@.subrange(pos as int, pos + decimal(n).len()) == decimal(n)
                &&& canonical_digits(decimal(n))
                &&& digits_value(decimal(n)) == n
                &&& i <= pos + decimal(n).len()
                &&& b@.subrange(pos as int, i as int) == decimal(n).subrange(0, i - pos)
            },
        decreases b@.len() - i,
    {
        let d = (b[i] - 48) as usize;
        let ghost s = b@.subrange(pos as int, i + 1);
        proof {
            assert(s.drop_last() =~= b@.subrange(pos as int, i as int));
            assert(digits_value(s) == value * 10 + d);
            if expect is Some {
                let n = expect->0;
                assert(i < pos + decimal(n).len());
                assert(s =~= decimal(n).subrange(0, i + 1 - pos));
                lemma_prefix_value(decimal(n), i + 1 - pos);
            }
        }
        value = match value.checked_mul(10) {
            Some(v) => v,
            None => {
                return None;
            },
        };
        value = match value.checked_add(d) {
            Some(v) => v,
            None => {
                return None;
            },
        };
        i += 1;
        assert(all_digits(b@.subrange(pos as int, i as int))) by {
            assert forall|k: int| 0 <= k < s.len() implies is_digit(#[trigger] s[k]) by {
                if k < s.len() - 1 {
                    assert(s[k] == b@.subrange(pos as int, i - 1)[k]);
                }
            }
        }
    }
    proof {
        if expect is Some {
            let n = expect->0;
            if i < pos + decimal(n).len() {
                assert(b@[i as int] == decimal(n)[i - pos]);
            }
            assert(b@.subrange(pos as int, i as int) =~= decimal(n));
        }
    }
    if i == pos {
        return None;
    }
    if i > pos + 1 && b[pos] == 48 {
        return None;
    }
    proof {
        let s = b@.subrange(pos as int, i as int);
        assert(s[0] == b@[pos as int]);
        lemma_canonical(s);
    }
    Some((value, i))
}

/// The digits of `n`, then `sep`, then `rest` make up `b` from `pos` on.
proof fn lemma_field(b: Seq<u8>, pos: int, n: nat, sep: u8, rest: Seq<u8>)
    requires
        0 <= pos <= b.len(),
        b.subrange(pos, b.len() as int) == decimal(n) + seq![sep] + rest,
    ensures
        pos + decimal(n).len() < b.len(),
        b.subrange(pos, pos + decimal(n).len()) == decimal(n),
        b[pos + decimal(n).len()] == sep,
        b.subrange(pos + decimal(n).len() + 1, b.len() as int) == rest,
{
    let l = decimal(n).len() as int;
    let t = b.subrange(pos, b.len() as int);
    let u = decimal(n) + seq![sep];
    assert(u[l] == sep);
    assert((u + rest)[l] == u[l]);
    assert(t[l] == sep);
    assert(t.len() == l + 1 + rest.len());
    assert(b.subrange(pos, pos + l) =~= t.subrange(0, l));
    assert(t.subrange(0, l) =~= decimal(n));
    assert(b.subrange(pos + l + 1, b.len() as int) =~= t.subrange(l + 1, t.len() as int));
    assert(t.subrange(l + 1, t.len() as int) =~= rest);
}

/// Reads a number closed by `sep`; returns it and the position after `sep`.
pub(crate) fn parse_field(b: &Vec<u8>, pos: usize, sep: u8, Ghost(expect): Ghost<Option<(nat, Seq<u8>)>>) -> (r:
    Option<(usize, usize)>)
    requires
        pos <= b@.len(),
        !is_digit(sep),
        expect matches Some((n, rest)) ==> n <= usize::MAX && b@.subrange(pos as int, b@.len() as int)
            == decimal(n) + seq![sep] + rest,
    ensures
        r matches Some((v, end)) ==> pos < end <= b@.len() && b@.subrange(pos as int, end as int)
            == decimal(v as nat) + seq![sep],
        expect matches Some((n, rest)) ==> r matches Some((v, end)) && v == n && b@.subrange(
            end as int,
            b@.len() as int,
        ) == rest,
{
    proof {
        if expect is Some {
            let (n, rest) = expect->0;
            lemma_field(b@, pos as int, n, sep, rest);
        }
    }
    let ghost num = match expect {
        Some((n, _)) => Some(n),
        None => None,
    };
    let (v, end) = match parse_number(b, pos, Ghost(num)) {
        Some(x) => x,
        None => {
            return None;
        },
    };
    if end >= b.len() || b[end] != sep {
        return None;
    }
    assert(b@.subrange(pos as int, end + 1) =~= b@.subrange(pos as int, end as int) + seq![sep]);
    Some((v, end + 1))
}

/// Reads one pixel line at `pos`; returns the pixel and the position after
/// the line.
pub(crate) fn parse_pixel(b: &Vec<u8>, pos: usize, Ghost(expect): Ghost<Option<(Rgb, Seq<u8>)>>) -> (r: Option<
    (Rgb, usize),
>)
    requires
        pos <= b@.len(),
        expect matches Some((q, rest)) ==> b@.subrange(pos as int, b@.len() as int) == pixel_line(q)
            + rest,
    ensures
        r matches Some((p, end)) ==> pos < end <= b@.len() && b@.subrange(pos as int, end as int)
            == pixel_line(p),
        expect matches Some((q, rest)) ==> r matches Some((p, end)) && p == q && b@.subrange(
            end as int,
            b@.len() as int,
        ) == rest,
{
    let ghost (q, rest) = match expect {
        Some(x) => x,
        None => ([0u8, 0u8, 0u8], Seq::empty()),
    };
    let ghost rest_g = decimal(q@[1] as nat) + seq![32u8] + decimal(q@[2] as nat) + seq![10u8]
        + rest;
    let ghost rest_b = decimal(q@[2] as nat) + seq![10u8] + rest;
    proof {
        if expect is Some {
            assert(pixel_line(q) + rest =~= decimal(q@[0] as nat) + seq![32u8] + rest_g);
            assert(rest_g =~= decimal(q@[1] as nat) + seq![32u8] + rest_b);
        }
    }
    let ghost e0 = if expect is Some { Some((q@[0] as nat, rest_g)) } else { None };
    let (v0, at1) = match parse_field(b, pos, 32u8, Ghost(e0)) {
        Some(x) => x,
        None => {
            return None;
        },
    };
    let ghost e1 = if expect is Some { Some((q@[1] as nat, rest_b)) } else { None };
    let (v1, at2) = match parse_field(b, at1, 32u8, Ghost(e1)) {
        Some(x) => x,
        None => {
            return None;
        },
    };
    let ghost e2 = if expect is Some { Some((q@[2] as nat, rest)) } else { None };
    let (v2, end) = match parse_field(b, at2, 10u8, Ghost(e2)) {
        Some(x) => x,
        None => {
            return None;
        },
    };
    if v0 > 255 || v1 > 255 || v2 > 255 {
        return None;
    }
    let p: Rgb = [v0 as u8, v1 as u8, v2 as u8];
    proof {
        assert(p@[0] == v0 && p@[1] == v1 && p@[2] == v2);
        assert(b@.subrange(pos as int, end as int) =~= b@.subrange(pos as int, at1 as int)
            + b@.subrange(at1 as int, at2 as int) + b@.subrange(at2 as int, end as int));
        assert(b@.subrange(pos as int, end as int) =~= pixel_line(p));
        if expect is Some {
            assert(p =~= q);
        }
    }
    Some((p, end))
}

proof fn lemma_header_shape(b: Seq<u8>, w: nat, h: nat, rest: Seq<u8>)
    requires
        b == header_text(w, h) + rest,
    ensures
        b.len() >= 3,
        b[0] == 80 && b[1] == 51 && b[2] == 10,
        b.subrange(3, b.len() as int) == decimal(w) + seq![32u8] + (decimal(h) + seq![10u8] + (
        seq![50u8, 53u8, 53u8, 10u8] + rest)),
{
    let tail = decimal(w) + seq![32u8] + (decimal(h) + seq![10u8] + (seq![50u8, 53u8, 53u8, 10u8]
        + rest));
    assert(b =~= seq![80u8, 51u8, 10u8] + tail);
    assert(b.subrange(3, b.len() as int) =~= tail);
}

proof fn lemma_header_parts(b: Seq<u8>, at1: int, at2: int, w: nat, h: nat)
    requires
        3 <= at1 <= at2,
        at2 + 4 <= b.len(),
        b[0] == 80 && b[1] == 51 && b[2] == 10,
        b.subrange(3, at1) == decimal(w) + seq![32u8],
        b.subrange(at1, at2) == decimal(h) + seq![10u8],
        b[at2] == 50 && b[at2 + 1] == 53 && b[at2 + 2] == 53 && b[at2 + 3] == 10,
    ensures
        b.subrange(0, at2 + 4) == header_text(w, h),
{
    assert(b.subrange(0, 3) =~= seq![80u8, 51u8, 10u8]);
    assert(b.subrange(at2, at2 + 4) =~= seq![50u8, 53u8, 53u8, 10u8]);
    assert(b.subrange(0, at2 + 4) =~= b.subrange(0, 3) + b.subrange(3, at1) + b.subrange(at1, at2)
        + b.subrange(at2, at2 + 4));
    assert(b.subrange(0, at2 + 4) =~= header_text(w, h));
}

/// Reads the header; returns width, height and the position after it.
pub(crate) fn parse_header(b: &Vec<u8>, Ghost(expect): Ghost<Option<(nat, nat, Seq<u8>)>>) -> (r: Option<
    (usize, usize, usize),
>)
    requires
        expect matches Some((w, h, rest)) ==> w <= usize::MAX && h <= usize::MAX && b@
            == header_text(w, h) + rest,
    ensures
        r matches Some((w, h, pos)) ==> pos <= b@.len() && b@.subrange(0, pos as int)
            == header_text(w as nat, h as nat),
        expect matches Some((w, h, rest)) ==> r matches Some((rw, rh, pos)) && rw == w && rh == h
            && b@.subrange(pos as int, b@.len() as int) == rest,
{
    let ghost (tw, th, rest) = match expect {
        Some(x) => x,
        None => (0nat, 0nat, Seq::<u8>::empty()),
    };
    let ghost rest_h = seq![50u8, 53u8, 53u8, 10u8] + rest;
    let ghost rest_w = decimal(th) + seq![10u8] + rest_h;
    proof {
        if expect is Some {
            lemma_header_shape(b@, tw, th, rest);
        }
    }
    if b.len() < 3 || b[0] != 80 || b[1] != 51 || b[2] != 10 {
        return None;
    }
    let ghost ew = if expect is Some { Some((tw, rest_w)) } else { None };
    let (w, at1) = match parse_field(b, 3, 32u8, Ghost(ew)) {
        Some(x) => x,
        None => {
            return None;
        },
    };
    let ghost eh = if expect is Some { Some((th, rest_h)) } else { None };
    let (h, at2) = match parse_field(b, at1, 10u8, Ghost(eh)) {
        Some(x) => x,
        None => {
            return None;
        },
    };
    if b.len() - at2 < 4 || b[at2] != 50 || b[at2 + 1] != 53 || b[at2 + 2] != 53 || b[at2 + 3] != 10 {
        return None;
    }
    let pos = at2 + 4;
    proof {
        lemma_header_parts(b@, at1 as int, at2 as int, w as nat, h as nat);
        if expect is Some {
            assert(b@.subrange(pos as int, b@.len() as int) =~= rest_h.subrange(
                4,
                rest_h.len() as int,
            ));
            assert(rest_h.subrange(4, rest_h.len() as int) =~= rest);
        }
    }
    Some((w, h, pos))
}

/// Reads `n` pixel lines from `pos` to the end of `b`.
pub(crate) fn parse_body(b: &Vec<u8>, pos: usize, n: usize, Ghost(expect): Ghost<Option<Seq<Rgb>>>) -> (r:
    Option<Vec<Rgb>>)
    requires
        pos <= b@.len(),
        expect matches Some(px) ==> px.len() == n && b@.subrange(pos as int, b@.len() as int)
            == body_text(px),
    ensures
        r matches Some(v) ==> v@.len() == n && b@.subrange(pos as int, b@.len() as int)
            == body_text(v@),
        expect matches Some(px) ==> r matches Some(v) && v@ == px,
{
    let ghost tpx = match expect {
        Some(x) => x,
        None => Seq::<Rgb>::empty(),
    };
    let mut pixels: Vec<Rgb> = Vec::new();
    let mut k: usize = 0;
    let mut at: usize = pos;
    proof {
        assert(b@.subrange(pos as int, at as int) =~= Seq::<u8>::empty());
        assert(body_text(pixels@) == Seq::<u8>::empty());
        assert(tpx.subrange(0, tpx.len() as int) =~= tpx);
    }
    while k < n
        invariant
            pos <= at <= b@.len(),
            k <= n,
            pixels@.len() == k,
            b@.subrange(pos as int, at as int) == body_text(pixels@),
            expect is Some ==> {
                &&& tpx.len() == n
                &&& pixels@ == tpx.subrange(0, k as int)
                &&& b@.subrange(at as int, b@.len() as int) == body_text(
                    tpx.subrange(k as int, n as int),
                )
            },
        decreases n - k,
    {
        let ghost tail = tpx.subrange(k as int, n as int);
        let ghost ep = if expect is Some {
            Some((tail[0], body_text(tail.drop_first())))
        } else {
            None
        };
        proof {
            if expect is Some {
                lemma_body_text_front(tail);
            }
        }
        let (p, end) = match parse_pixel(b, at, Ghost(ep)) {
            Some(x) => x,
            None => {
                return None;
            },
        };
        proof {
            assert(b@.subrange(pos as int, end as int) =~= b@.subrange(pos as int, at as int)
                + b@.subrange(at as int, end as int));
            assert(pixels@.push(p).drop_last() =~= pixels@);
            if expect is Some {
                assert(tail.drop_first() =~= tpx.subrange(k + 1, n as int));
                assert(pixels@.push(p) =~= tpx.subrange(0, k + 1));
            }
        }
        pixels.push(p);
        at = end;
        k += 1;
    }
    proof {
        if expect is Some {
            assert(tpx.subrange(n as int, n as int) =~= Seq::<Rgb>::empty());
            assert(body_text(Seq::<Rgb>::empty()) == Seq::<u8>::empty());
        }
    }
    if at != b.len() {
        return None;
    }
    proof {
        if expect is Some {
            assert(pixels@ =~= tpx);
        }
    }
    Some(pixels)
}

} // verus!
