//! Arbitrary-precision conversions, done by `num-bigint`.
use num_bigint::BigUint;
use num_traits::ToPrimitive;
use vstd::prelude::*;
use crate::bits::{bits_value, is_binary};
use crate::number::{digits_value, pow_nat};
use crate::text::radix_text_lower;

verus! {

pub open spec fn is_decimal(b: Seq<u8>) -> bool {
    forall|i: int| 0 <= i < b.len() ==> 48 <= #[trigger] b[i] <= 57
}

/// The digit values of decimal digit bytes.
pub open spec fn decimal_digits(b: Seq<u8>) -> Seq<nat> {
    b.map_values(|c: u8| (c - 48) as nat)
}

/// The value of a string of decimal digit bytes.
pub open spec fn decimal_value(b: Seq<u8>) -> nat {
    digits_value(decimal_digits(b), 10)
}

/// Calls `BigUint::parse_bytes` in radix 10, then `ToPrimitive::to_u128`. On a
/// nonempty string of ASCII digits the parse yields the decimal value, and `to_u128`
/// gives it back when it fits in 128 bits and `None` otherwise.
#[verifier::external_body]
pub(crate) fn parse_decimal_u128(digits: &[u8]) -> (r: Option<u128>)
    requires
        digits@.len() > 0,
        is_decimal(digits@),
    ensures
        decimal_value(digits@) < pow_nat(2, 128) ==> r == Some(decimal_value(digits@) as u128),
        decimal_value(digits@) >= pow_nat(2, 128) ==> r is None,
{
    match BigUint::parse_bytes(digits, 10) {
        Some(value) => value.to_u128(),
        None => None,
    }
}

/// Calls `BigUint::parse_bytes` in radix 2, then `BigUint::to_str_radix`. On a nonempty
/// string of `'0'`/`'1'` bytes the parse yields the binary value; `to_str_radix` writes that
/// value in the radix (2 to 36) with lowercase letters, no leading zero, and `0` for zero.
/// The text is handed back as its bytes.
#[verifier::external_body]
pub(crate) fn binary_to_radix_text(bits: &[u8], radix: u32) -> (t: Vec<u8>)
    requires
        bits@.len() > 0,
        is_binary(bits@),
        2 <= radix <= 36,
    ensures
        t@ == radix_text_lower(bits_value(bits@), radix as nat),
{
    match BigUint::parse_bytes(bits, 2) {
        Some(value) => value.to_str_radix(radix).into_bytes(),
        None => Vec::new(),
    }
}

} // verus!
