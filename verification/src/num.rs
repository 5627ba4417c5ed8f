//! Numeric text: coordinate and field values as they appear in the source
//! document. Coordinates are carried as the bit pattern of the binary32
//! value the text denotes, so that exact-value comparison is integer
//! comparison.

use vstd::prelude::*;

verus! {

/// The binary32 bit pattern that `str::parse` reads from a string, or
/// `None` where the string is not a valid numeric literal. The value is a
/// function of the characters alone.
pub uninterp spec fn f32_bits_of(s: Seq<char>) -> Option<u32>;

/// Relies on `str::parse` to binary32 (correctly rounded, deterministic)
/// and on `to_bits`; `libm::copysignf` fixes the parsed type and returns its
/// first argument unchanged, sign taken from the equal second argument.
#[verifier::external_body]
pub fn parse_f32_bits(s: &str) -> (r: Option<u32>)
    ensures
        r == f32_bits_of(s@),
{
    match s.parse() {
        Ok(v) => Some(libm::copysignf(v, v).to_bits()),
        Err(_) => None,
    }
}

/// Whether `s` is one or more decimal digits.
pub open spec fn dec_digits_ok(s: Seq<char>) -> bool {
    s.len() > 0 && forall|i: int| 0 <= i < s.len() ==> '0' <= #[trigger] s[i] <= '9'
}

/// The number the digit string `s` denotes.
pub open spec fn dec_val(s: Seq<char>) -> int
    decreases s.len(),
{
    if s.len() == 0 {
        0
    } else {
        dec_val(s.drop_last()) * 10 + (s.last() as int - '0' as int)
    }
}

/// The 32-bit integer `s` denotes: an optional sign followed by decimal
/// digits, rejected when empty, malformed or out of range.
pub open spec fn i32_of_str(s: Seq<char>) -> Option<i32> {
    let neg = s.len() > 0 && s[0] == '-';
    let digits = if s.len() > 0 && (s[0] == '-' || s[0] == '+') {
        s.drop_first()
    } else {
        s
    };
    if dec_digits_ok(digits) {
        let v = if neg {
            -dec_val(digits)
        } else {
            dec_val(digits)
        };
        if i32::MIN <= v <= i32::MAX {
            Some(v as i32)
        } else {
            None
        }
    } else {
        None
    }
}

/// Relies on `str::parse::<i32>`: an optional `+` or `-` followed by one
/// or more decimal digits, accepted exactly when the value fits the type.
#[verifier::external_body]
pub fn parse_i32(s: &str) -> (r: Option<i32>)
    ensures
        r == i32_of_str(s@),
{
    s.parse::<i32>().ok()
}

} // verus!
