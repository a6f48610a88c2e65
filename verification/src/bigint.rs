//! The two arbitrary-precision conversions the core needs from the outside
//! big-integer library: adding a signed big-endian delta to a base-10
//! rendered total, and re-encoding a base-10 rendering as magnitude bytes.

use crate::num::{
    dec_repr, dec_signed_val, int_mag, is_signed_decimal, mag_be, parseable_decimal,
    parsed_dec_val, sbe_val,
};
use core::str::FromStr;
use vstd::prelude::*;

verus! {

/// Relies on substreams' `BigInt` (`from_str`, `from_signed_bytes_be`, the
/// `+` operator and `Display`): the sum of a base-10 rendered value and a
/// big-endian two's-complement delta, rendered back in canonical base-10.
#[verifier::external_body]
pub fn dec_add_sbe(current: &[u8], delta: &[u8]) -> (r: Vec<u8>)
    requires
        is_signed_decimal(current@),
    ensures
        r@ == dec_repr(dec_signed_val(current@) + sbe_val(delta@)),
{
    let cur = substreams::scalar::BigInt::from_str(core::str::from_utf8(current).unwrap())
        .unwrap();
    let d = substreams::scalar::BigInt::from_signed_bytes_be(delta);
    (cur + d).to_string().into_bytes()
}

/// Relies on substreams' `BigInt` (`from_str` and `to_bytes_be`): accepts
/// exactly an optional sign followed by a base-10 body, and returns the
/// magnitude of the value as big-endian bytes (a single zero byte for zero).
#[verifier::external_body]
pub fn dec_to_magnitude(s: &[u8]) -> (r: Option<Vec<u8>>)
    ensures
        r is Some <==> parseable_decimal(s@),
        r matches Some(v) ==> v@ == mag_be(int_mag(parsed_dec_val(s@))),
{
    let t = match core::str::from_utf8(s) {
        Ok(t) => t,
        Err(_) => return None,
    };
    match substreams::scalar::BigInt::from_str(t) {
        Ok(b) => Some(b.to_bytes_be().1),
        Err(_) => None,
    }
}

} // verus!
