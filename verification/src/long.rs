//! Arbitrary-precision integers (Python 2 `long`), held as their minimal
//! two's-complement little-endian bytes. `num_bigint` does the conversions.

use num_bigint::BigInt;
use vstd::prelude::*;
use crate::text::{decimal, digits_value, all_digits, is_digit, nat_digits};

verus! {

/// The integer that little-endian two's-complement bytes stand for (zero for
/// no bytes).
pub open spec fn signed_le_value(s: Seq<u8>) -> int
    decreases s.len(),
{
    if s.len() == 0 {
        0
    } else if s.len() == 1 {
        if s[0] >= 128 {
            s[0] - 256
        } else {
            s[0] as int
        }
    } else {
        s[0] + 256 * signed_le_value(s.drop_first())
    }
}

/// The shortest little-endian two's-complement bytes of an integer (one zero
/// byte for zero).
pub open spec fn min_signed_le(i: int) -> Seq<u8>
    decreases (if i < 0 { -i } else { i }),
{
    if -128 <= i < 128 {
        seq![(if i < 0 { i + 256 } else { i }) as u8]
    } else {
        seq![(i % 256) as u8] + min_signed_le(i / 256)
    }
}

/// The shortest bytes of an integer stand for that integer.
pub proof fn lemma_min_signed_le(i: int)
    ensures
        signed_le_value(min_signed_le(i)) == i,
        min_signed_le(i).len() >= 1,
    decreases (if i < 0 { -i } else { i }),
{
    if -128 <= i < 128 {
    } else {
        lemma_min_signed_le(i / 256);
        let s = min_signed_le(i);
        assert(s.drop_first() == min_signed_le(i / 256));
        vstd::arithmetic::div_mod::lemma_fundamental_div_mod(i, 256);
    }
}

/// What `BigInt::from_str` makes of a text: an optional `-` (not followed by
/// `+`), an optional `+` (not followed by another), then decimal digits and
/// underscores, starting with a digit.
pub open spec fn parse_bigint_decimal(s: Seq<char>) -> Option<int> {
    let neg = s.len() > 0 && s[0] == '-';
    let t = if neg && !(s.len() > 1 && s[1] == '+') {
        s.drop_first()
    } else {
        s
    };
    let u = if t.len() > 0 && t[0] == '+' && !(t.len() > 1 && t[1] == '+') {
        t.drop_first()
    } else {
        t
    };
    if u.len() == 0 || u[0] == '_' || !digits_or_underscores(u) {
        None
    } else {
        let v = digits_skipping_underscores(u) as int;
        Some(if neg { -v } else { v })
    }
}

pub open spec fn digits_or_underscores(s: Seq<char>) -> bool {
    forall|k: int| 0 <= k < s.len() ==> is_digit(#[trigger] s[k]) || s[k] == '_'
}

/// The value of decimal digits, underscores ignored.
pub open spec fn digits_skipping_underscores(s: Seq<char>) -> nat
    decreases s.len(),
{
    if s.len() == 0 {
        0
    } else if s.last() == '_' {
        digits_skipping_underscores(s.drop_last())
    } else {
        digits_skipping_underscores(s.drop_last()) * 10 + (s.last() as int - 48) as nat
    }
}

proof fn lemma_digits_no_underscores(s: Seq<char>)
    requires
        all_digits(s),
    ensures
        digits_or_underscores(s),
        digits_skipping_underscores(s) == digits_value(s),
    decreases s.len(),
{
    if s.len() > 0 {
        assert(all_digits(s.drop_last())) by {
            assert forall|k: int| 0 <= k < s.drop_last().len() implies is_digit(#[trigger] s.drop_last()[k]) by {
                assert(s.drop_last()[k] == s[k]);
            }
        }
        lemma_digits_no_underscores(s.drop_last());
        assert(is_digit(s[s.len() - 1]));
    }
}

/// Reading back the decimal form of an integer gives the integer.
pub proof fn lemma_parse_bigint_decimal(i: int)
    ensures
        parse_bigint_decimal(decimal(i)) == Some(i),
{
    crate::text::lemma_nat_digits(if i < 0 { (-i) as nat } else { i as nat });
    let d = nat_digits(if i < 0 { (-i) as nat } else { i as nat });
    assert(is_digit(d[0]));
    lemma_digits_no_underscores(d);
    if i < 0 {
        let s = decimal(i);
        assert(s.drop_first() == d);
        assert(s[1] == d[0]);
    }
}

/// `BigInt::from_signed_bytes_le` followed by `BigInt::to_signed_bytes_le`:
/// the shortest bytes of the integer that the given bytes stand for.
#[verifier::external_body]
fn bigint_shortest_bytes(bytes: &[u8]) -> (r: Vec<u8>)
    ensures
        r@ == min_signed_le(signed_le_value(bytes@)),
{
    BigInt::from_signed_bytes_le(bytes).to_signed_bytes_le()
}

/// `BigInt::to_string` of the integer that the bytes stand for.
#[verifier::external_body]
fn bigint_decimal(bytes: &[u8]) -> (r: String)
    ensures
        r@ == decimal(signed_le_value(bytes@)),
{
    BigInt::from_signed_bytes_le(bytes).to_string()
}

/// `BigInt::from_str`, with the integer given back by its shortest bytes.
#[verifier::external_body]
fn bigint_parse_decimal(s: &str) -> (r: Option<Vec<u8>>)
    ensures
        match parse_bigint_decimal(s@) {
            Some(i) => r matches Some(b) && b@ == min_signed_le(i),
            None => r is None,
        },
{
    s.parse::<BigInt>().ok().map(|n| n.to_signed_bytes_le())
}

/// An integer of any size.
#[derive(Debug, PartialEq, Eq)]
pub struct LongInt {
    bytes: Vec<u8>,
}

impl LongInt {
    #[verifier::type_invariant]
    spec fn shortest(self) -> bool {
        self.bytes@ == min_signed_le(signed_le_value(self.bytes@))
    }

    /// The integer.
    pub closed spec fn value(self) -> int {
        signed_le_value(self.bytes@)
    }

    fn from_shortest(bytes: Vec<u8>, i: Ghost<int>) -> (r: LongInt)
        requires
            bytes@ == min_signed_le(i@),
        ensures
            r.value() == i@,
    {
        proof {
            lemma_min_signed_le(i@);
        }
        LongInt { bytes }
    }

    /// Zero.
    pub fn zero() -> (r: LongInt)
        ensures
            r.value() == 0,
    {
        let mut bytes: Vec<u8> = Vec::new();
        bytes.push(0);
        proof {
            assert(bytes@ =~= min_signed_le(0));
        }
        LongInt::from_shortest(bytes, Ghost(0))
    }

    /// The integer that little-endian two's-complement bytes stand for.
    pub fn from_signed_bytes_le(bytes: &[u8]) -> (r: LongInt)
        ensures
            r.value() == signed_le_value(bytes@),
    {
        let b = bigint_shortest_bytes(bytes);
        LongInt::from_shortest(b, Ghost(signed_le_value(bytes@)))
    }

    /// The shortest little-endian two's-complement bytes of the integer.
    pub fn to_signed_bytes_le(&self) -> (r: &[u8])
        ensures
            r@ == min_signed_le(self.value()),
    {
        proof {
            use_type_invariant(self);
        }
        self.bytes.as_slice()
    }

    /// Whether the integer is zero.
    pub fn is_zero(&self) -> (r: bool)
        ensures
            r == (self.value() == 0),
    {
        proof {
            use_type_invariant(self);
            lemma_min_signed_le(self.value());
            if self.value() == 0 {
                assert(self.bytes@ =~= seq![0u8]);
            }
        }
        self.bytes.len() == 1 && self.bytes[0] == 0
    }

    /// The decimal form of the integer.
    pub fn to_decimal(&self) -> (r: String)
        ensures
            r@ == decimal(self.value()),
    {
        bigint_decimal(self.bytes.as_slice())
    }

    /// The integer that a decimal text stands for, as `BigInt::from_str`
    /// reads it.
    pub fn from_decimal(s: &str) -> (r: Option<LongInt>)
        ensures
            match parse_bigint_decimal(s@) {
                Some(i) => r matches Some(n) && n.value() == i,
                None => r is None,
            },
    {
        match bigint_parse_decimal(s) {
            Some(b) => Some(LongInt::from_shortest(b, Ghost(parse_bigint_decimal(s@).unwrap()))),
            None => None,
        }
    }

    /// A copy.
    pub fn duplicate(&self) -> (r: LongInt)
        ensures
            r.value() == self.value(),
    {
        proof {
            use_type_invariant(self);
        }
        let b = self.bytes.clone();
        assert(b@ =~= self.bytes@);
        LongInt { bytes: b }
    }
}

impl View for LongInt {
    type V = int;

    open spec fn view(&self) -> int {
        self.value()
    }
}

impl Clone for LongInt {
    fn clone(&self) -> (r: LongInt)
        ensures
            r@ == self@,
    {
        self.duplicate()
    }
}

} // verus!
