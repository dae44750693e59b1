//! Hexadecimal text of identities, through the `hex` crate.
use vstd::prelude::*;
use crate::text::DIGIT_ZERO;

verus! {

pub const LOWER_A: u8 = 97;
pub const UPPER_A: u8 = 65;

/// Lower-case hexadecimal digit for a value below sixteen.
pub open spec fn hex_digit(v: int) -> u8 {
    if v < 10 {
        (DIGIT_ZERO + v) as u8
    } else {
        (LOWER_A + v - 10) as u8
    }
}

/// Two lower-case hexadecimal digits for each byte, high nibble first.
pub open spec fn hex_of(b: Seq<u8>) -> Seq<u8> {
    Seq::new(
        2 * b.len(),
        |i: int|
            if i % 2 == 0 {
                hex_digit(b[i / 2] as int / 16)
            } else {
                hex_digit(b[i / 2] as int % 16)
            },
    )
}

/// A character that `hex::decode` accepts as a digit, in either case.
pub open spec fn is_hex_char(c: u8) -> bool {
    (DIGIT_ZERO <= c && c < DIGIT_ZERO + 10) || (LOWER_A <= c && c < LOWER_A + 6) || (UPPER_A
        <= c && c < UPPER_A + 6)
}

/// The value of a hexadecimal digit.
pub open spec fn hex_value(c: u8) -> int {
    if DIGIT_ZERO <= c && c < DIGIT_ZERO + 10 {
        c - DIGIT_ZERO
    } else if LOWER_A <= c && c < LOWER_A + 6 {
        c - LOWER_A + 10
    } else {
        c - UPPER_A + 10
    }
}

/// Text that decodes: an even number of hexadecimal digits.
pub open spec fn is_hex_text(s: Seq<u8>) -> bool {
    s.len() % 2 == 0 && forall|i: int| 0 <= i < s.len() ==> is_hex_char(#[trigger] s[i])
}

/// The bytes that hexadecimal text stands for, two digits to a byte.
pub open spec fn unhex(s: Seq<u8>) -> Seq<u8> {
    Seq::new(
        s.len() / 2,
        |i: int| (16 * hex_value(s[2 * i]) + hex_value(s[2 * i + 1])) as u8,
    )
}

/// Relies on `hex::encode`: each byte becomes two digits from
/// "0123456789abcdef", high nibble first.
#[verifier::external_body]
pub(crate) fn encode_hex(b: &[u8]) -> (r: Vec<u8>)
    ensures
        r@ == hex_of(b@),
{
    hex::encode(b).into_bytes()
}

/// Relies on `hex::decode`: it fails on odd length or on a byte that is not
/// a digit of either case, and otherwise joins each pair of digits into a byte.
#[verifier::external_body]
pub(crate) fn decode_hex(s: &[u8]) -> (r: Option<Vec<u8>>)
    ensures
        r is Some <==> is_hex_text(s@),
        r is Some ==> r->0@ == unhex(s@),
{
    hex::decode(s).ok()
}

/// Every digit that `hex_of` writes is one that decodes back to its value.
pub proof fn lemma_hex_digit(v: int)
    requires
        0 <= v < 16,
    ensures
        is_hex_char(hex_digit(v)),
        hex_value(hex_digit(v)) == v,
{
}

/// Hexadecimal text decodes to the bytes it was written from.
pub proof fn lemma_unhex_hex(b: Seq<u8>)
    ensures
        is_hex_text(hex_of(b)),
        unhex(hex_of(b)) == b,
{
    let h = hex_of(b);
    assert forall|i: int| 0 <= i < h.len() implies is_hex_char(#[trigger] h[i]) by {
        lemma_hex_digit(b[i / 2] as int / 16);
        lemma_hex_digit(b[i / 2] as int % 16);
    }
    assert forall|i: int| 0 <= i < b.len() implies #[trigger] unhex(h)[i] == b[i] by {
        lemma_hex_digit(b[i] as int / 16);
        lemma_hex_digit(b[i] as int % 16);
        assert((2 * i) / 2 == i);
        assert((2 * i + 1) / 2 == i);
    }
    assert(unhex(h) =~= b);
}

} // verus!
