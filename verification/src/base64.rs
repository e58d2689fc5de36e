//! Base64 (RFC 4648, standard alphabet, with padding) through the `base64`
//! crate's `STANDARD` engine.

use base64::Engine;
use vstd::prelude::*;

verus! {

/// The character for a six-bit value.
pub open spec fn b64_char(v: int) -> char {
    if v < 26 {
        (65 + v) as char
    } else if v < 52 {
        (97 + v - 26) as char
    } else if v < 62 {
        (48 + v - 52) as char
    } else if v == 62 {
        '+'
    } else {
        '/'
    }
}

/// The padded standard base64 text of bytes.
pub open spec fn b64_encode(b: Seq<u8>) -> Seq<char>
    decreases b.len(),
{
    let b0 = if b.len() > 0 { b[0] as int } else { 0 };
    let b1 = if b.len() > 1 { b[1] as int } else { 0 };
    let b2 = if b.len() > 2 { b[2] as int } else { 0 };
    if b.len() == 0 {
        Seq::empty()
    } else if b.len() == 1 {
        seq![b64_char(b0 / 4), b64_char((b0 % 4) * 16), '=', '=']
    } else if b.len() == 2 {
        seq![b64_char(b0 / 4), b64_char((b0 % 4) * 16 + b1 / 16), b64_char((b1 % 16) * 4), '=']
    } else {
        seq![
            b64_char(b0 / 4),
            b64_char((b0 % 4) * 16 + b1 / 16),
            b64_char((b1 % 16) * 4 + b2 / 64),
            b64_char(b2 % 64),
        ] + b64_encode(b.subrange(3, b.len() as int))
    }
}

proof fn lemma_char(v: int, w: int)
    requires
        0 <= v < 64,
        0 <= w < 64,
    ensures
        b64_char(v) != '=',
        b64_char(v) == b64_char(w) ==> v == w,
{
}

proof fn lemma_group(x0: int, x1: int, x2: int, y0: int, y1: int, y2: int)
    requires
        0 <= x0 < 256, 0 <= x1 < 256, 0 <= x2 < 256, 0 <= y0 < 256, 0 <= y1 < 256, 0 <= y2 < 256,
        b64_char(x0 / 4) == b64_char(y0 / 4),
        b64_char((x0 % 4) * 16 + x1 / 16) == b64_char((y0 % 4) * 16 + y1 / 16),
        b64_char((x1 % 16) * 4 + x2 / 64) == b64_char((y1 % 16) * 4 + y2 / 64),
        b64_char(x2 % 64) == b64_char(y2 % 64),
    ensures
        x0 == y0 && x1 == y1 && x2 == y2,
{
    lemma_char(x0 / 4, y0 / 4);
    lemma_char((x0 % 4) * 16 + x1 / 16, (y0 % 4) * 16 + y1 / 16);
    lemma_char((x1 % 16) * 4 + x2 / 64, (y1 % 16) * 4 + y2 / 64);
    lemma_char(x2 % 64, y2 % 64);
}

/// Different bytes have different base64 texts.
pub proof fn lemma_b64_injective(x: Seq<u8>, y: Seq<u8>)
    requires
        b64_encode(x) == b64_encode(y),
    ensures
        x == y,
    decreases x.len(),
{
    let ex = b64_encode(x);
    let ey = b64_encode(y);
    if x.len() == 0 || y.len() == 0 {
        assert(ex.len() == 0 <==> x.len() == 0);
        assert(ey.len() == 0 <==> y.len() == 0);
        assert(x =~= y);
    } else {
        assert(ex[0] == ey[0]);
        assert(ex[1] == ey[1]);
        let x0 = x[0] as int;
        let y0 = y[0] as int;
        let x1 = if x.len() > 1 { x[1] as int } else { 0 };
        let y1 = if y.len() > 1 { y[1] as int } else { 0 };
        let x2 = if x.len() > 2 { x[2] as int } else { 0 };
        let y2 = if y.len() > 2 { y[2] as int } else { 0 };
        lemma_char(x0 / 4, y0 / 4);
        lemma_char((x1 % 16) * 4 + x2 / 64, 0);
        lemma_char((y1 % 16) * 4 + y2 / 64, 0);
        lemma_char(x2 % 64, 0);
        lemma_char(y2 % 64, 0);
        lemma_char((x0 % 4) * 16 + x1 / 16, (y0 % 4) * 16 + y1 / 16);
        if x.len() == 1 {
            assert(ex[2] == '=');
            assert(x =~= y);
        } else if x.len() == 2 {
            assert(ex[3] == '=');
            lemma_char((x1 % 16) * 4, (y1 % 16) * 4);
            assert(x =~= y);
        } else {
            assert(ex[2] == ey[2]);
            assert(ex[3] == ey[3]);
            assert(y.len() >= 3);
            lemma_group(x0, x1, x2, y0, y1, y2);
            assert(ex.subrange(4, ex.len() as int) =~= b64_encode(x.subrange(3, x.len() as int)));
            assert(ey.subrange(4, ey.len() as int) =~= b64_encode(y.subrange(3, y.len() as int)));
            lemma_b64_injective(x.subrange(3, x.len() as int), y.subrange(3, y.len() as int));
            assert(x =~= y.subrange(0, 3) + y.subrange(3, y.len() as int));
            assert(y =~= y.subrange(0, 3) + y.subrange(3, y.len() as int));
        }
    }
}

/// The message of the `base64` crate's `DecodeError` for a text that
/// `STANDARD` does not decode.
pub uninterp spec fn b64_error_text(s: Seq<char>) -> Seq<char>;

/// `base64::engine::general_purpose::STANDARD.encode`.
#[verifier::external_body]
pub(crate) fn b64_encode_text(b: &[u8]) -> (r: String)
    ensures
        r@ == b64_encode(b@),
{
    base64::engine::general_purpose::STANDARD.encode(b)
}

/// `base64::engine::general_purpose::STANDARD.decode`, which asks for
/// canonical padding and no stray bits, so that it accepts exactly the texts
/// that `encode` writes; the error as its message.
#[verifier::external_body]
pub(crate) fn b64_decode_text(s: &str) -> (r: Result<Vec<u8>, String>)
    ensures
        r matches Ok(b) ==> b64_encode(b@) == s@,
        r is Err ==> forall|b: Seq<u8>| b64_encode(b) != s@,
        r matches Err(m) ==> m@ == b64_error_text(s@),
{
    base64::engine::general_purpose::STANDARD.decode(s).map_err(|e| e.to_string())
}

} // verus!
