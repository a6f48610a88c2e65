//! Mathematical model of the byte-level integer encodings the crate handles:
//! big-endian unsigned magnitudes, big-endian two's-complement signed values,
//! and ASCII base-10 renderings.

use vstd::arithmetic::div_mod::lemma_fundamental_div_mod;
use vstd::prelude::*;

verus! {

/// Value of a big-endian unsigned byte string; the empty string denotes zero.
pub open spec fn be_val(b: Seq<u8>) -> nat
    decreases b.len(),
{
    if b.len() == 0 {
        0
    } else {
        be_val(b.drop_last()) * 256 + b.last() as nat
    }
}

/// 256 raised to `n`.
pub open spec fn pow256(n: nat) -> nat
    decreases n,
{
    if n == 0 {
        1
    } else {
        256 * pow256((n - 1) as nat)
    }
}

/// Value of a big-endian two's-complement signed byte string; the empty
/// string denotes zero, and a set top bit of the first byte makes the value
/// negative.
pub open spec fn sbe_val(b: Seq<u8>) -> int {
    if b.len() == 0 {
        0
    } else if b[0] >= 128 {
        be_val(b) - pow256(b.len())
    } else {
        be_val(b) as int
    }
}

/// The minimal (no leading zero byte) big-endian encoding of a magnitude;
/// zero encodes as the empty string.
pub open spec fn min_be(n: nat) -> Seq<u8>
    decreases n,
{
    if n == 0 {
        Seq::empty()
    } else {
        min_be(n / 256).push((n % 256) as u8)
    }
}

/// Big-endian magnitude bytes as the outside big-integer library emits them:
/// minimal, except that zero is a single zero byte.
pub open spec fn mag_be(n: nat) -> Seq<u8> {
    if n == 0 {
        seq![0u8]
    } else {
        min_be(n)
    }
}

/// Whether a byte is an ASCII decimal digit.
pub open spec fn is_digit(c: u8) -> bool {
    48 <= c <= 57
}

/// Whether every byte of the string is an ASCII decimal digit.
pub open spec fn all_digits(s: Seq<u8>) -> bool {
    forall|i: int| 0 <= i < s.len() ==> is_digit(#[trigger] s[i])
}

/// Value of a non-empty ASCII digit string, most significant digit first.
pub open spec fn digits_val(s: Seq<u8>) -> nat
    decreases s.len(),
{
    if s.len() == 0 {
        0
    } else {
        digits_val(s.drop_last()) * 10 + (s.last() - 48) as nat
    }
}

/// Whether the byte string is an ASCII base-10 integer: at least one digit,
/// with an optional single leading `+` or `-`.
pub open spec fn is_signed_decimal(s: Seq<u8>) -> bool {
    if s.len() == 0 {
        false
    } else if s[0] == 43 || s[0] == 45 {
        s.len() >= 2 && all_digits(s.skip(1))
    } else {
        all_digits(s)
    }
}

/// Signed value of an ASCII base-10 integer.
pub open spec fn dec_signed_val(s: Seq<u8>) -> int {
    if s.len() > 0 && s[0] == 45 {
        -(digits_val(s.skip(1)) as int)
    } else if s.len() > 0 && s[0] == 43 {
        digits_val(s.skip(1)) as int
    } else {
        digits_val(s) as int
    }
}

/// The digits of a byte string, in order, with every other byte removed.
pub open spec fn digits_only(s: Seq<u8>) -> Seq<u8>
    decreases s.len(),
{
    if s.len() == 0 {
        Seq::empty()
    } else if is_digit(s.last()) {
        digits_only(s.drop_last()).push(s.last())
    } else {
        digits_only(s.drop_last())
    }
}

/// Whether the big-integer parser accepts a byte string as an unsigned
/// base-10 body: non-empty, leading with a digit, the rest digits or the
/// `_` separators the parser skips.
pub open spec fn uint_body_ok(s: Seq<u8>) -> bool {
    s.len() > 0 && is_digit(s[0]) && forall|i: int|
        0 <= i < s.len() ==> is_digit(#[trigger] s[i]) || s[i] == 95
}

/// Whether the big-integer parser accepts a byte string as a signed base-10
/// integer: an optional single leading `+` or `-`, then an unsigned body.
pub open spec fn parseable_decimal(s: Seq<u8>) -> bool {
    if s.len() > 0 && (s[0] == 43 || s[0] == 45) {
        uint_body_ok(s.skip(1))
    } else {
        uint_body_ok(s)
    }
}

/// The signed value the big-integer parser reads from an accepted byte
/// string.
pub open spec fn parsed_dec_val(s: Seq<u8>) -> int {
    if s.len() > 0 && s[0] == 45 {
        -(digits_val(digits_only(s.skip(1))) as int)
    } else if s.len() > 0 && s[0] == 43 {
        digits_val(digits_only(s.skip(1))) as int
    } else {
        digits_val(digits_only(s)) as int
    }
}

/// The magnitude of a signed value.
pub open spec fn int_mag(v: int) -> nat {
    if v < 0 {
        (-v) as nat
    } else {
        v as nat
    }
}

/// On a pure digit string the digit extraction is the identity.
pub proof fn lemma_digits_only_id(s: Seq<u8>)
    requires
        all_digits(s),
    ensures
        digits_only(s) == s,
    decreases s.len(),
{
    if s.len() > 0 {
        assert(is_digit(s.last()));
        assert(all_digits(s.drop_last())) by {
            assert(forall|i: int|
                0 <= i < s.drop_last().len() ==> #[trigger] s.drop_last()[i] == s[i]);
        }
        lemma_digits_only_id(s.drop_last());
        assert(digits_only(s) =~= s);
    }
}

/// A strict sign-and-digits string is accepted by the parser and reads back
/// as its decimal value.
pub proof fn lemma_signed_decimal_parseable(s: Seq<u8>)
    requires
        is_signed_decimal(s),
    ensures
        parseable_decimal(s),
        parsed_dec_val(s) == dec_signed_val(s),
{
    if s[0] == 43 || s[0] == 45 {
        lemma_digits_only_id(s.skip(1));
    } else {
        lemma_digits_only_id(s);
    }
}

/// The minimal (no leading `0`) ASCII digit rendering of a magnitude; zero
/// renders as the empty string.
pub open spec fn min_dec(n: nat) -> Seq<u8>
    decreases n,
{
    if n == 0 {
        Seq::empty()
    } else {
        min_dec(n / 10).push((n % 10 + 48) as u8)
    }
}

/// The canonical ASCII base-10 rendering of a signed value: `0` for zero,
/// otherwise the minimal digit string, with a leading `-` when negative.
pub open spec fn dec_repr(v: int) -> Seq<u8> {
    if v == 0 {
        seq![48u8]
    } else if v > 0 {
        min_dec(v as nat)
    } else {
        seq![45u8] + min_dec((-v) as nat)
    }
}

/// The minimal digit rendering consists of digits, has the magnitude as its
/// value, and never starts with `0` when non-empty.
pub proof fn lemma_min_dec_val(n: nat)
    ensures
        all_digits(min_dec(n)),
        digits_val(min_dec(n)) == n,
        n > 0 ==> min_dec(n).len() > 0 && min_dec(n)[0] != 48,
    decreases n,
{
    if n > 0 {
        lemma_min_dec_val(n / 10);
        lemma_fundamental_div_mod(n as int, 10);
        let d = (n % 10 + 48) as u8;
        let s = min_dec(n / 10).push(d);
        assert(s.drop_last() =~= min_dec(n / 10));
        assert(digits_val(s) == digits_val(min_dec(n / 10)) * 10 + (d - 48) as nat);
        assert forall|i: int| 0 <= i < s.len() implies is_digit(#[trigger] s[i]) by {
            if i < s.len() - 1 {
                assert(is_digit(min_dec(n / 10)[i]));
            }
        }
        if n / 10 == 0 {
            assert(s[0] == d);
            assert(n % 10 == n);
        } else {
            assert(s[0] == min_dec(n / 10)[0]);
        }
    }
}

/// The canonical rendering parses back to the value it was made from.
pub proof fn lemma_dec_repr_val(v: int)
    ensures
        is_signed_decimal(dec_repr(v)),
        dec_signed_val(dec_repr(v)) == v,
{
    if v == 0 {
        let s = seq![48u8];
        assert(s.drop_last() =~= Seq::<u8>::empty());
        assert(digits_val(Seq::<u8>::empty()) == 0);
        assert(digits_val(s) == 0);
    } else if v > 0 {
        lemma_min_dec_val(v as nat);
    } else {
        lemma_min_dec_val((-v) as nat);
        let s = seq![45u8] + min_dec((-v) as nat);
        assert(s[0] == 45);
        assert(s.skip(1) =~= min_dec((-v) as nat));
    }
}

/// The minimal big-endian encoding decodes back to the magnitude it was made
/// from, and never starts with a zero byte.
pub proof fn lemma_min_be_val(n: nat)
    ensures
        be_val(min_be(n)) == n,
        n > 0 ==> min_be(n).len() > 0 && min_be(n)[0] != 0,
    decreases n,
{
    if n > 0 {
        lemma_min_be_val(n / 256);
        lemma_fundamental_div_mod(n as int, 256);
        let d = (n % 256) as u8;
        let s = min_be(n / 256).push(d);
        assert(s.drop_last() =~= min_be(n / 256));
        assert(be_val(s) == be_val(min_be(n / 256)) * 256 + d as nat);
        if n / 256 == 0 {
            assert(s[0] == d);
            assert(n % 256 == n);
        } else {
            assert(s[0] == min_be(n / 256)[0]);
        }
    }
}

/// The magnitude bytes the reconciler emits decode back to the magnitude.
pub proof fn lemma_mag_be_val(n: nat)
    ensures
        be_val(mag_be(n)) == n,
        mag_be(n).len() > 0,
{
    if n == 0 {
        let s = seq![0u8];
        assert(s.drop_last() =~= Seq::<u8>::empty());
        assert(be_val(Seq::<u8>::empty()) == 0);
        assert(be_val(s) == 0);
    } else {
        lemma_min_be_val(n);
    }
}

} // verus!
