//! Minimal binary PGM (P5) reading and writing.

use crate::decimal::{dec_digits, digits_value, is_digit, lemma_dec_digits_shape,
    lemma_digits_value_nonneg, lemma_digits_value_prefix, push_decimal};
use vstd::prelude::*;

verus! {

/// An 8-bit grayscale image, row-major.
pub struct Gray {
    pub w: usize,
    pub h: usize,
    pub px: Vec<u8>,
}

/// What a `Gray` holds, as plain values.
pub struct GrayView {
    pub w: usize,
    pub h: usize,
    pub px: Seq<u8>,
}

impl View for Gray {
    type V = GrayView;

    open spec fn view(&self) -> GrayView {
        GrayView { w: self.w, h: self.h, px: self.px@ }
    }
}

/// ASCII whitespace as `u8::is_ascii_whitespace` knows it.
pub open spec fn is_ws(c: u8) -> bool {
    c == 9 || c == 10 || c == 12 || c == 13 || c == 32
}

/// Where the next token begins: skips whitespace and `#` comments (a comment
/// runs up to the next newline). `in_comment` tells whether a comment is open.
pub open spec fn skip_blank(b: Seq<u8>, pos: int, in_comment: bool) -> int
    decreases b.len() - pos,
{
    if pos < 0 || pos >= b.len() {
        pos
    } else if in_comment {
        skip_blank(b, pos + 1, b[pos] != 10)
    } else if is_ws(b[pos]) {
        skip_blank(b, pos + 1, false)
    } else if b[pos] == 35 {
        skip_blank(b, pos + 1, true)
    } else {
        pos
    }
}

/// The end of the run of non-whitespace bytes that starts at `pos`.
pub open spec fn tok_end(b: Seq<u8>, pos: int) -> int
    decreases b.len() - pos,
{
    if 0 <= pos < b.len() && !is_ws(b[pos]) {
        tok_end(b, pos + 1)
    } else {
        pos
    }
}

/// The span `(start, end)` of the next token at or after `pos`; it is empty
/// (`start == end`) when the header has no more tokens.
pub open spec fn token_at(b: Seq<u8>, pos: int) -> (int, int) {
    let s = skip_blank(b, pos, false);
    (s, tok_end(b, s))
}

/// A decimal `usize` as `str::parse` reads it: an optional `+`, then one or
/// more ASCII digits, whose value fits in a `usize`.
pub open spec fn parse_usize(s: Seq<u8>) -> Option<usize> {
    let d = unsigned_digits(s);
    if d.len() > 0 && (forall|i: int| 0 <= i < d.len() ==> is_digit(#[trigger] d[i]))
        && digits_value(d) <= usize::MAX {
        Some(digits_value(d) as usize)
    } else {
        None
    }
}

/// The digits of a number: the field without its leading `+`, if any.
pub open spec fn unsigned_digits(s: Seq<u8>) -> Seq<u8> {
    if s.len() > 0 && s[0] == 43 {
        s.drop_first()
    } else {
        s
    }
}

/// The text that the lossy UTF-8 decoder of std makes of `bytes`.
pub uninterp spec fn utf8_lossy(bytes: Seq<u8>) -> Seq<char>;

/// Whether every byte of `t` is ASCII.
pub open spec fn all_ascii(t: Seq<u8>) -> bool {
    forall|i: int| 0 <= i < t.len() ==> #[trigger] t[i] < 128
}

/// How a header token is quoted in a message: an ASCII token as its own
/// characters, any other token as std's lossy UTF-8 decoding of it.
pub open spec fn magic_text(t: Seq<u8>) -> Seq<char> {
    if all_ascii(t) {
        t.map_values(|c: u8| c as char)
    } else {
        utf8_lossy(t)
    }
}

/// The parse of the last header field (maxval) and of the raster, once the
/// width and the height have been read and the maxval token ends at `e4`.
pub open spec fn spec_p5_raster(b: Seq<u8>, w: usize, h: usize, maxv: usize, e4: int) -> Result<
    GrayView,
    Seq<char>,
> {
    if maxv != 255 {
        Err("only maxval 255 supported"@)
    } else if w == 0 || h == 0 {
        Err("image dimensions must be non-zero"@)
    } else if e4 >= b.len() || !is_ws(b[e4]) {
        Err("missing raster separator"@)
    } else if w * h > usize::MAX {
        Err("image dimensions overflow"@)
    } else if e4 + 1 + w * h > usize::MAX {
        Err("raster length overflow"@)
    } else if b.len() < e4 + 1 + w * h {
        Err("truncated raster"@)
    } else {
        Ok(GrayView { w, h, px: b.subrange(e4 + 1, e4 + 1 + w * h) })
    }
}

/// What `read_p5` gives for the bytes `b`: the image, or the message of the
/// first check that fails.
pub open spec fn spec_read_p5(b: Seq<u8>) -> Result<GrayView, Seq<char>> {
    let (s1, e1) = token_at(b, 0);
    let (s2, e2) = token_at(b, e1);
    let (s3, e3) = token_at(b, e2);
    let (s4, e4) = token_at(b, e3);
    if e1 <= s1 {
        Err("empty"@)
    } else if b.subrange(s1, e1) != seq![80u8, 53u8] {
        Err("not P5: "@ + magic_text(b.subrange(s1, e1)))
    } else if e2 <= s2 {
        Err("no width"@)
    } else if parse_usize(b.subrange(s2, e2)) is None {
        Err("bad width"@)
    } else if e3 <= s3 {
        Err("no height"@)
    } else if parse_usize(b.subrange(s3, e3)) is None {
        Err("bad height"@)
    } else if e4 <= s4 {
        Err("no maxval"@)
    } else if parse_usize(b.subrange(s4, e4)) is None {
        Err("bad maxval"@)
    } else {
        spec_p5_raster(
            b,
            parse_usize(b.subrange(s2, e2)).unwrap(),
            parse_usize(b.subrange(s3, e3)).unwrap(),
            parse_usize(b.subrange(s4, e4)).unwrap(),
            e4,
        )
    }
}

/// The bytes that `write_p5` makes of an image.
pub open spec fn p5_bytes(w: usize, h: usize, px: Seq<u8>) -> Seq<u8> {
    seq![80u8, 53u8, 10u8] + dec_digits(w as nat) + seq![32u8] + dec_digits(h as nat) + seq![
        10u8,
        50u8,
        53u8,
        53u8,
        10u8,
    ] + px
}

/// Renders `bytes` as text, decoding UTF-8 lossily.
/// Calls `String::from_utf8_lossy`; the result is named by `utf8_lossy`, and
/// std's documentation gives that pure ASCII comes out one character per byte.
#[verifier::external_body]
fn lossy_text(bytes: &[u8]) -> (s: String)
    ensures
        s@ == utf8_lossy(bytes@),
        (forall|i: int| 0 <= i < bytes@.len() ==> #[trigger] bytes@[i] < 128) ==> s@
            == bytes@.map_values(|c: u8| c as char),
{
    String::from_utf8_lossy(bytes).into_owned()
}

fn is_ascii_ws(c: u8) -> (r: bool)
    ensures
        r == is_ws(c),
{
    c == 9 || c == 10 || c == 12 || c == 13 || c == 32
}

proof fn lemma_skip_blank_bounds(b: Seq<u8>, pos: int, c: bool)
    requires
        0 <= pos <= b.len(),
    ensures
        pos <= skip_blank(b, pos, c) <= b.len(),
    decreases b.len() - pos,
{
    if pos < b.len() {
        if c {
            lemma_skip_blank_bounds(b, pos + 1, b[pos] != 10);
        } else if is_ws(b[pos]) {
            lemma_skip_blank_bounds(b, pos + 1, false);
        } else if b[pos] == 35 {
            lemma_skip_blank_bounds(b, pos + 1, true);
        }
    }
}

proof fn lemma_tok_end_bounds(b: Seq<u8>, pos: int)
    requires
        0 <= pos <= b.len(),
    ensures
        pos <= tok_end(b, pos) <= b.len(),
        forall|i: int| pos <= i < tok_end(b, pos) ==> !is_ws(#[trigger] b[i]),
    decreases b.len() - pos,
{
    if pos < b.len() && !is_ws(b[pos]) {
        lemma_tok_end_bounds(b, pos + 1);
    }
}

/// The span of the next header token at or after `pos`.
fn next_token(bytes: &[u8], pos: usize) -> (r: (usize, usize))
    requires
        pos <= bytes@.len(),
    ensures
        r.0 == token_at(bytes@, pos as int).0,
        r.1 == token_at(bytes@, pos as int).1,
        pos <= r.0 <= r.1 <= bytes@.len(),
{
    let ghost b = bytes@;
    let n = bytes.len();
    let mut p = pos;
    let mut in_comment = false;
    while p < n && (in_comment || is_ascii_ws(bytes[p]) || bytes[p] == 35)
        invariant
            n == b.len(),
            b == bytes@,
            pos <= p <= n,
            skip_blank(b, p as int, in_comment) == skip_blank(b, pos as int, false),
        decreases n - p,
    {
        if in_comment {
            in_comment = bytes[p] != 10;
        } else {
            in_comment = bytes[p] == 35;
        }
        p = p + 1;
    }
    let start = p;
    proof {
        lemma_tok_end_bounds(b, start as int);
    }
    while p < n && !is_ascii_ws(bytes[p])
        invariant
            n == b.len(),
            b == bytes@,
            start <= p <= n,
            tok_end(b, p as int) == tok_end(b, start as int),
        decreases n - p,
    {
        p = p + 1;
    }
    (start, p)
}

/// Reads the decimal number in `bytes[s..e]` as `str::parse::<usize>` does.
fn parse_field(bytes: &[u8], s: usize, e: usize) -> (r: Option<usize>)
    requires
        s <= e <= bytes@.len(),
    ensures
        r == parse_usize(bytes@.subrange(s as int, e as int)),
{
    let ghost t = bytes@.subrange(s as int, e as int);
    let mut i = s;
    if i < e && bytes[i] == 43 {
        i = i + 1;
    }
    let ghost d = unsigned_digits(t);
    assert(d =~= bytes@.subrange(i as int, e as int));
    if i == e {
        assert(d.len() == 0);
        assert(unsigned_digits(t).len() == 0);
        assert(parse_usize(t) is None);
        return None;
    }
    let start = i;
    let mut acc: usize = 0;
    while i < e
        invariant
            start <= i <= e <= bytes@.len(),
            d =~= bytes@.subrange(start as int, e as int),
            t == bytes@.subrange(s as int, e as int),
            d == unsigned_digits(t),
            forall|j: int| 0 <= j < i - start ==> is_digit(#[trigger] d[j]),
            acc == digits_value(d.take(i - start)),
        decreases e - i,
    {
        let c = bytes[i];
        if c < 48 || c > 57 {
            assert(!is_digit(d[i - start]));
            assert(!(forall|j: int| 0 <= j < d.len() ==> is_digit(#[trigger] d[j])));
            return None;
        }
        let dig: usize = (c - 48) as usize;
        assert(d.take(i - start + 1).drop_last() =~= d.take(i - start));
        assert(d.take(i - start + 1).last() == c);
        if acc > (usize::MAX - dig) / 10 {
            proof {
                let k = i - start + 1;
                assert forall|j: int| 0 <= j < k implies is_digit(#[trigger] d.take(k)[j]) by {}
                lemma_digits_value_prefix(d.take(k), k);
                assert(digits_value(d.take(k)) == acc * 10 + dig);
                assert(acc * 10 + dig > usize::MAX) by (nonlinear_arith)
                    requires
                        acc > (usize::MAX - dig) / 10,
                        dig <= 9,
                ;
                if forall|j: int| 0 <= j < d.len() ==> is_digit(#[trigger] d[j]) {
                    lemma_digits_value_prefix(d, k);
                    assert(digits_value(d) > usize::MAX);
                }
                assert(parse_usize(t) is None);
            }
            return None;
        }
        acc = acc * 10 + dig;
        i = i + 1;
    }
    assert(d.take(d.len() as int) =~= d);
    Some(acc)
}

/// Only a binary P5 file is read: whenever the parse succeeds, the first
/// header token is exactly the two bytes `P5` (a plain `P2` file, or any other
/// magic number, is refused).
pub proof fn lemma_read_needs_p5(b: Seq<u8>)
    ensures
        spec_read_p5(b) is Ok ==> b.subrange(token_at(b, 0).0, token_at(b, 0).1) == seq![80u8, 53u8],
{
}

/// What a successful read must satisfy: the four header tokens are `P5`,
/// the width, the height and the maxval 255; one whitespace byte follows the
/// maxval, and the pixels are the next `w * h` bytes of the file.
pub proof fn lemma_read_ok_header(b: Seq<u8>)
    ensures
        spec_read_p5(b) matches Ok(g) ==> ({
            let (s1, e1) = token_at(b, 0);
            let (s2, e2) = token_at(b, e1);
            let (s3, e3) = token_at(b, e2);
            let (s4, e4) = token_at(b, e3);
            &&& b.subrange(s1, e1) == seq![80u8, 53u8]
            &&& parse_usize(b.subrange(s2, e2)) == Some(g.w)
            &&& parse_usize(b.subrange(s3, e3)) == Some(g.h)
            &&& parse_usize(b.subrange(s4, e4)) == Some(255usize)
            &&& g.w > 0 && g.h > 0
            &&& e4 < b.len() && is_ws(b[e4])
            &&& e4 + 1 + g.w * g.h <= b.len()
            &&& g.px == b.subrange(e4 + 1, e4 + 1 + g.w * g.h)
        }),
{
}

/// Parses a binary P5 PGM (8-bit). Comments (`# ...`) may stand in the header.
pub fn read_p5(bytes: &[u8]) -> (r: Result<Gray, String>)
    ensures
        match (r, spec_read_p5(bytes@)) {
            (Ok(g), Ok(v)) => g@ == v,
            (Err(m), Err(v)) => m@ == v,
            _ => false,
        },
        r matches Ok(g) ==> g.w > 0 && g.h > 0 && g.px@.len() == g.w * g.h,
        r is Ok ==> bytes@.subrange(token_at(bytes@, 0).0, token_at(bytes@, 0).1) == seq![
            80u8,
            53u8,
        ],
{
    proof {
        lemma_read_needs_p5(bytes@);
    }
    let ghost b = bytes@;
    let (s1, e1) = next_token(bytes, 0);
    let (s2, e2) = next_token(bytes, e1);
    let (s3, e3) = next_token(bytes, e2);
    let (s4, e4) = next_token(bytes, e3);
    if e1 <= s1 {
        return Err(String::from_str("empty"));
    }
    if !(e1 - s1 == 2 && bytes[s1] == 80 && bytes[s1 + 1] == 53) {
        proof {
            if b.subrange(s1 as int, e1 as int) =~= seq![80u8, 53u8] {
                assert(b.subrange(s1 as int, e1 as int)[0] == b[s1 as int]);
                assert(b.subrange(s1 as int, e1 as int)[1] == b[s1 + 1]);
            }
        }
        let mut msg = String::from_str("not P5: ");
        let magic = lossy_text(&bytes[s1..e1]);
        msg.append(magic.as_str());
        return Err(msg);
    }
    assert(b.subrange(s1 as int, e1 as int) =~= seq![80u8, 53u8]);
    if e2 <= s2 {
        return Err(String::from_str("no width"));
    }
    let w = match parse_field(bytes, s2, e2) {
        Some(v) => v,
        None => {
            return Err(String::from_str("bad width"));
        },
    };
    if e3 <= s3 {
        return Err(String::from_str("no height"));
    }
    let h = match parse_field(bytes, s3, e3) {
        Some(v) => v,
        None => {
            return Err(String::from_str("bad height"));
        },
    };
    if e4 <= s4 {
        return Err(String::from_str("no maxval"));
    }
    let maxv = match parse_field(bytes, s4, e4) {
        Some(v) => v,
        None => {
            return Err(String::from_str("bad maxval"));
        },
    };
    if maxv != 255 {
        return Err(String::from_str("only maxval 255 supported"));
    }
    if w == 0 || h == 0 {
        return Err(String::from_str("image dimensions must be non-zero"));
    }
    if e4 >= bytes.len() || !is_ascii_ws(bytes[e4]) {
        return Err(String::from_str("missing raster separator"));
    }
    let pos = e4 + 1;
    let need = match w.checked_mul(h) {
        Some(v) => v,
        None => {
            return Err(String::from_str("image dimensions overflow"));
        },
    };
    let end = match pos.checked_add(need) {
        Some(v) => v,
        None => {
            return Err(String::from_str("raster length overflow"));
        },
    };
    if bytes.len() < end {
        return Err(String::from_str("truncated raster"));
    }
    let px = vstd::slice::slice_to_vec(&bytes[pos..end]);
    Ok(Gray { w, h, px })
}

/// Serialises an image as a binary P5 PGM with maxval 255.
pub fn write_p5(g: &Gray) -> (out: Vec<u8>)
    requires
        p5_bytes(g.w, g.h, g.px@).len() <= usize::MAX,
    ensures
        out@ == p5_bytes(g.w, g.h, g.px@),
{
    let mut out: Vec<u8> = Vec::new();
    out.push(80u8);
    out.push(53u8);
    out.push(10u8);
    push_decimal(&mut out, g.w);
    out.push(32u8);
    push_decimal(&mut out, g.h);
    out.push(10u8);
    out.push(50u8);
    out.push(53u8);
    out.push(53u8);
    out.push(10u8);
    let ghost head = out@;
    let mut i: usize = 0;
    while i < g.px.len()
        invariant
            0 <= i <= g.px@.len(),
            out@ == head + g.px@.take(i as int),
        decreases g.px@.len() - i,
    {
        out.push(g.px[i]);
        assert(g.px@.take(i as int + 1) =~= g.px@.take(i as int).push(g.px@[i as int]));
        i = i + 1;
    }
    assert(g.px@.take(i as int) =~= g.px@);
    assert(out@ =~= p5_bytes(g.w, g.h, g.px@));
    out
}

} // verus!

verus! {

proof fn lemma_tok_end_run(b: Seq<u8>, s: int, e: int)
    requires
        0 <= s <= e <= b.len(),
        forall|i: int| s <= i < e ==> !is_ws(#[trigger] b[i]),
        e == b.len() || is_ws(b[e]),
    ensures
        tok_end(b, s) == e,
    decreases e - s,
{
    if s < e {
        lemma_tok_end_run(b, s + 1, e);
    }
}

proof fn lemma_parse_dec(w: usize)
    ensures
        parse_usize(dec_digits(w as nat)) == Some(w),
{
    let d = dec_digits(w as nat);
    lemma_dec_digits_shape(w as nat);
    assert(is_digit(d[0]));
    assert(unsigned_digits(d) == d);
}

proof fn lemma_value_255()
    ensures
        parse_usize(seq![50u8, 53u8, 53u8]) == Some(255usize),
{
    let mv = seq![50u8, 53u8, 53u8];
    assert(unsigned_digits(mv) == mv);
    assert(mv.drop_last() =~= seq![50u8, 53u8]);
    assert(mv.drop_last().drop_last() =~= seq![50u8]);
    assert(mv.drop_last().drop_last().drop_last() =~= Seq::<u8>::empty());
    let one = seq![50u8];
    assert(one.drop_last() =~= Seq::<u8>::empty());
    assert(one.last() == 50u8);
    assert(digits_value(one) == digits_value(one.drop_last()) * 10 + (one.last() - 48));
    assert(digits_value(seq![50u8]) == 2);
    assert(digits_value(seq![50u8, 53u8]) == 25);
    assert(digits_value(mv) == 255);
}

proof fn lemma_p5_layout(w: usize, h: usize, px: Seq<u8>)
    ensures
        ({
            let b = p5_bytes(w, h, px);
            let dw = dec_digits(w as nat);
            let dh = dec_digits(h as nat);
            let lw = dw.len() as int;
            let lh = dh.len() as int;
            &&& b.len() == 9 + lw + lh + px.len()
            &&& b.subrange(0, 3) == seq![80u8, 53u8, 10u8]
            &&& b.subrange(3, 3 + lw) == dw
            &&& b[3 + lw] == 32u8
            &&& b.subrange(4 + lw, 4 + lw + lh) == dh
            &&& b.subrange(4 + lw + lh, 9 + lw + lh) == seq![10u8, 50u8, 53u8, 53u8, 10u8]
            &&& b.subrange(9 + lw + lh, b.len() as int) == px
        }),
{
    let b = p5_bytes(w, h, px);
    let dw = dec_digits(w as nat);
    let dh = dec_digits(h as nat);
    let lw = dw.len() as int;
    let lh = dh.len() as int;
    let a = seq![80u8, 53u8, 10u8];
    let t = seq![10u8, 50u8, 53u8, 53u8, 10u8];
    assert(b == a + dw + seq![32u8] + dh + t + px);
    assert(b.subrange(0, 3) =~= a);
    assert(b.subrange(3, 3 + lw) =~= dw);
    assert(b.subrange(4 + lw, 4 + lw + lh) =~= dh);
    assert(b.subrange(4 + lw + lh, 9 + lw + lh) =~= t);
    assert(b.subrange(9 + lw + lh, b.len() as int) =~= px);
}

/// Reading back what `write_p5` wrote gives the image again, for every image
/// with non-zero dimensions whose pixel count is `w * h`.
#[verifier::spinoff_prover]
pub proof fn lemma_read_write_roundtrip(w: usize, h: usize, px: Seq<u8>)
    requires
        w > 0,
        h > 0,
        px.len() == w * h,
        p5_bytes(w, h, px).len() <= usize::MAX,
    ensures
        spec_read_p5(p5_bytes(w, h, px)) == Ok::<GrayView, Seq<char>>(GrayView { w, h, px }),
{
    let b = p5_bytes(w, h, px);
    let dw = dec_digits(w as nat);
    let dh = dec_digits(h as nat);
    lemma_dec_digits_shape(w as nat);
    lemma_dec_digits_shape(h as nat);
    lemma_p5_layout(w, h, px);
    let lw = dw.len() as int;
    let lh = dh.len() as int;
    assert(b[0] == b.subrange(0, 3)[0]);
    assert(b[1] == b.subrange(0, 3)[1]);
    assert(b[2] == b.subrange(0, 3)[2]);
    assert forall|i: int| 0 <= i < lw implies b[3 + i] == #[trigger] dw[i] by {
        assert(b[3 + i] == b.subrange(3, 3 + lw)[i]);
    }
    assert forall|i: int| 0 <= i < lh implies b[4 + lw + i] == #[trigger] dh[i] by {
        assert(b[4 + lw + i] == b.subrange(4 + lw, 4 + lw + lh)[i]);
    }
    let m = 5 + lw + lh;
    let t = b.subrange(4 + lw + lh, 9 + lw + lh);
    assert(b[m - 1] == t[0] && b[m] == t[1] && b[m + 1] == t[2] && b[m + 2] == t[3] && b[m + 3] == t[4]);
    // magic
    assert(skip_blank(b, 0, false) == 0);
    lemma_tok_end_run(b, 0, 2);
    assert(b.subrange(0, 2) =~= seq![80u8, 53u8]);
    // width
    assert(is_digit(dw[0]));
    assert(skip_blank(b, 3, false) == 3);
    assert(skip_blank(b, 2, false) == 3);
    assert forall|i: int| 3 <= i < 3 + lw implies !is_ws(#[trigger] b[i]) by {
        assert(b[i] == dw[i - 3]);
        assert(is_digit(dw[i - 3]));
    }
    lemma_tok_end_run(b, 3, 3 + lw);
    lemma_parse_dec(w);
    // height
    assert(is_digit(dh[0]));
    assert(skip_blank(b, 4 + lw, false) == 4 + lw);
    assert(skip_blank(b, 3 + lw, false) == 4 + lw);
    assert forall|i: int| 4 + lw <= i < 4 + lw + lh implies !is_ws(#[trigger] b[i]) by {
        assert(b[i] == dh[i - 4 - lw]);
        assert(is_digit(dh[i - 4 - lw]));
    }
    lemma_tok_end_run(b, 4 + lw, 4 + lw + lh);
    lemma_parse_dec(h);
    // maxval
    assert(skip_blank(b, m, false) == m);
    assert(skip_blank(b, m - 1, false) == m);
    lemma_tok_end_run(b, m, m + 3);
    assert(b.subrange(m, m + 3) =~= seq![50u8, 53u8, 53u8]);
    lemma_value_255();
    assert(b.subrange(m + 4, m + 4 + w * h) == px);
}

} // verus!
