//! Hex encoding of token byte strings inside composite store keys, with its
//! mathematical model and the round-trip law the reconciler relies on.

use vstd::arithmetic::div_mod::lemma_fundamental_div_mod;
use vstd::prelude::*;

verus! {

/// The lowercase ASCII hex digit of a nibble.
pub open spec fn hex_digit(n: u8) -> u8
    recommends
        n < 16,
{
    if n < 10 {
        (48 + n) as u8
    } else {
        (87 + n) as u8
    }
}

/// The lowercase hex rendering of a byte string, high nibble of each byte
/// first.
pub open spec fn hex_bytes_of(b: Seq<u8>) -> Seq<u8> {
    Seq::new(
        2 * b.len(),
        |i: int|
            if i % 2 == 0 {
                hex_digit(b[i / 2] / 16)
            } else {
                hex_digit(b[i / 2] % 16)
            },
    )
}

/// The value of an ASCII hex digit of either case, or `-1` for any other
/// byte.
pub open spec fn hex_val(c: u8) -> int {
    if 48 <= c <= 57 {
        c - 48
    } else if 97 <= c <= 102 {
        c - 87
    } else if 65 <= c <= 70 {
        c - 55
    } else {
        -1
    }
}

/// Whether a byte string is a well-formed hex rendering: even length, hex
/// digits only.
pub open spec fn is_hex_str(s: Seq<u8>) -> bool {
    s.len() % 2 == 0 && forall|i: int| 0 <= i < s.len() ==> hex_val(#[trigger] s[i]) >= 0
}

/// The byte string a well-formed hex rendering denotes.
pub open spec fn hex_decoded(s: Seq<u8>) -> Seq<u8> {
    Seq::new(s.len() / 2, |i: int| (hex_val(s[2 * i]) * 16 + hex_val(s[2 * i + 1])) as u8)
}

/// Relies on `hex::encode`: two lowercase digits per byte, high nibble first.
#[verifier::external_body]
pub fn hex_encode(b: &[u8]) -> (r: Vec<u8>)
    ensures
        r@ == hex_bytes_of(b@),
{
    hex::encode(b).into_bytes()
}

/// Relies on `hex::decode`: it accepts exactly the even-length strings of
/// hex digits of either case, and turns each digit pair into one byte.
#[verifier::external_body]
pub fn hex_decode(s: &[u8]) -> (r: Option<Vec<u8>>)
    ensures
        r is Some <==> is_hex_str(s@),
        r matches Some(v) ==> v@ == hex_decoded(s@),
{
    match hex::decode(s) {
        Ok(v) => Some(v),
        Err(_) => None,
    }
}

/// A hex digit made from a nibble reads back as that nibble, is never the
/// key separator `:`, and is a digit or a lowercase letter.
pub proof fn lemma_hex_digit(n: u8)
    requires
        n < 16,
    ensures
        hex_val(hex_digit(n)) == n,
        hex_digit(n) != 58,
{
}

/// Law: hex encoding inverts exactly — the rendering is a well-formed hex
/// string free of the key separator `:`, and decodes back to the original
/// bytes.
pub proof fn lemma_hex_round_trip(b: Seq<u8>)
    ensures
        is_hex_str(hex_bytes_of(b)),
        hex_decoded(hex_bytes_of(b)) == b,
        forall|i: int| 0 <= i < hex_bytes_of(b).len() ==> #[trigger] hex_bytes_of(b)[i] != 58,
{
    let h = hex_bytes_of(b);
    assert forall|i: int| 0 <= i < h.len() implies hex_val(#[trigger] h[i]) >= 0 && h[i] != 58 by {
        let x = b[i / 2];
        assert(x / 16 < 16 && x % 16 < 16) by {
            lemma_fundamental_div_mod(x as int, 16);
        }
        if i % 2 == 0 {
            lemma_hex_digit(x / 16);
        } else {
            lemma_hex_digit(x % 16);
        }
    }
    assert forall|i: int| 0 <= i < b.len() implies hex_decoded(h)[i] == b[i] by {
        let x = b[i];
        assert((2 * i) % 2 == 0 && (2 * i) / 2 == i && (2 * i + 1) % 2 == 1 && (2 * i + 1) / 2
            == i);
        assert(x / 16 < 16 && x % 16 < 16 && x == 16 * (x / 16) + x % 16) by {
            lemma_fundamental_div_mod(x as int, 16);
        }
        lemma_hex_digit(x / 16);
        lemma_hex_digit(x % 16);
        assert(h[2 * i] == hex_digit(x / 16) && h[2 * i + 1] == hex_digit(x % 16));
        assert(hex_val(h[2 * i]) * 16 + hex_val(h[2 * i + 1]) == x);
    }
    assert(hex_decoded(h) =~= b);
}

} // verus!
