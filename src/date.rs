//! Commit dates: seconds since the epoch and the local offset, written as
//! `<seconds> <+hhmm|-hhmm>`.
use vstd::prelude::*;
use crate::text::{decimal, decimal_bytes, DIGIT_ZERO, MINUS, PLUS, SPACE};

verus! {

/// A moment and the offset from UTC of the local time at it.
pub struct Timestamp {
    pub seconds: i64,
    pub offset_seconds: i32,
}

/// An offset strictly within one day of UTC.
pub open spec fn valid_offset(t: Timestamp) -> bool {
    -86400 < t.offset_seconds < 86400
}

/// A whole number in decimal, with a leading "-" when negative.
pub open spec fn signed_decimal(n: int) -> Seq<u8> {
    if n < 0 {
        seq![MINUS] + decimal((-n) as nat)
    } else {
        decimal(n as nat)
    }
}

/// An offset as a sign, two digits of hours and two of minutes, rounded to
/// the nearest minute.
pub open spec fn offset_text(off: int) -> Seq<u8> {
    let a = if off < 0 { -off } else { off };
    let m = (a + 30) / 60;
    seq![
        if off < 0 { MINUS } else { PLUS },
        (DIGIT_ZERO + m / 60 / 10) as u8,
        (DIGIT_ZERO + m / 60 % 10) as u8,
        (DIGIT_ZERO + m % 60 / 10) as u8,
        (DIGIT_ZERO + m % 60 % 10) as u8,
    ]
}

/// `<seconds> <offset>`, the date of a signature.
pub open spec fn date_text(t: Timestamp) -> Seq<u8> {
    signed_decimal(t.seconds as int) + seq![SPACE] + offset_text(t.offset_seconds as int)
}

/// Writes the date of a signature.
pub fn date_bytes(t: &Timestamp) -> (r: Vec<u8>)
    requires
        valid_offset(*t),
    ensures
        r@ == date_text(*t),
{
    let mut r: Vec<u8> = Vec::new();
    let magnitude: u64 = if t.seconds < 0 {
        r.push(MINUS);
        (0i128 - t.seconds as i128) as u64
    } else {
        t.seconds as u64
    };
    let mut digits = decimal_bytes(magnitude);
    r.append(&mut digits);
    r.push(SPACE);
    let off: i32 = t.offset_seconds;
    let a: u32 = if off < 0 { (0 - off) as u32 } else { off as u32 };
    let m: u32 = (a + 30) / 60;
    let h: u32 = m / 60;
    let mm: u32 = m % 60;
    assert(h < 25);
    r.push(if off < 0 { MINUS } else { PLUS });
    r.push(DIGIT_ZERO + (h / 10) as u8);
    r.push(DIGIT_ZERO + (h % 10) as u8);
    r.push(DIGIT_ZERO + (mm / 10) as u8);
    r.push(DIGIT_ZERO + (mm % 10) as u8);
    assert(r@ =~= date_text(*t));
    r
}

} // verus!
