//! 64-bit IEEE-754 values carried as their bit patterns.
//!
//! The engine stores a float as the `u64` encoding of an IEEE-754 binary64
//! value.  Ordering and classification are decidable from the bits alone and
//! are specified here directly.  The rounding arithmetic itself is performed
//! by the `rustc_apfloat` software implementation behind trusted wrappers;
//! each wrapper's result is a function of its arguments alone and is given a
//! name that the engine's contracts reuse.

use vstd::prelude::*;

use rustc_apfloat::Float;

verus! {

/// The bits of the IEEE-754 binary64 sum of the values encoded by `a` and `b`
/// (round to nearest, ties to even).
pub uninterp spec fn float_add_bits(a: u64, b: u64) -> u64;

/// The bits of the IEEE-754 binary64 difference of `a` and `b`.
pub uninterp spec fn float_sub_bits(a: u64, b: u64) -> u64;

/// The bits of the IEEE-754 binary64 product of `a` and `b`.
pub uninterp spec fn float_mul_bits(a: u64, b: u64) -> u64;

/// The bits of the IEEE-754 binary64 quotient of `a` and `b`.
pub uninterp spec fn float_div_bits(a: u64, b: u64) -> u64;

/// The bits of the IEEE-754 binary64 remainder (`fmod`) of `a` and `b`.
pub uninterp spec fn float_rem_bits(a: u64, b: u64) -> u64;

/// The bits of the binary64 value the text parser reads from `s`, or
/// `None` where it rejects `s`.  (The outside parser also accepts
/// hexadecimal and infinity/NaN spellings; this crate's callers admit
/// only the decimal grammar before consulting it.)
pub uninterp spec fn float_parse_bits(s: Seq<u8>) -> Option<u64>;

/// The decimal text that the formatter produces for the binary64 value
/// encoded by `a`.
pub uninterp spec fn float_text_bits(a: u64) -> Seq<u8>;

/// The biased exponent field of a binary64 encoding.
pub open spec fn fp64_exp(a: u64) -> u64 {
    (a >> 52) & 0x7ff
}

/// The fraction (mantissa) field of a binary64 encoding.
pub open spec fn fp64_frac(a: u64) -> u64 {
    a & 0xf_ffff_ffff_ffff
}

/// The sign bit of a binary64 encoding.
pub open spec fn fp64_sign(a: u64) -> bool {
    a >= 0x8000_0000_0000_0000
}

/// The encoding with the sign bit cleared: the magnitude ordering key.
pub open spec fn fp64_mag(a: u64) -> u64 {
    a & 0x7fff_ffff_ffff_ffff
}

/// `a` encodes a NaN.
pub open spec fn fp64_is_nan(a: u64) -> bool {
    fp64_exp(a) == 0x7ff && fp64_frac(a) != 0
}

/// `a` encodes positive or negative zero.
pub open spec fn fp64_is_zero(a: u64) -> bool {
    fp64_mag(a) == 0
}

/// `a` encodes a non-finite value (an infinity or a NaN).
pub open spec fn fp64_is_non_finite(a: u64) -> bool {
    fp64_exp(a) == 0x7ff
}

/// IEEE-754 `<` on binary64 encodings: false whenever either side is NaN;
/// the two zeroes are equal; otherwise negatives sort below positives and
/// within one sign the magnitude field orders the values.
pub open spec fn fp64_lt(a: u64, b: u64) -> bool {
    &&& !fp64_is_nan(a)
    &&& !fp64_is_nan(b)
    &&& !(fp64_is_zero(a) && fp64_is_zero(b))
    &&& if fp64_sign(a) != fp64_sign(b) {
            fp64_sign(a)
        } else if !fp64_sign(a) {
            fp64_mag(a) < fp64_mag(b)
        } else {
            fp64_mag(a) > fp64_mag(b)
        }
}

/// IEEE-754 `==` on binary64 encodings: false for NaN, true for the two
/// zeroes, otherwise bit equality.
pub open spec fn fp64_ieee_eq(a: u64, b: u64) -> bool {
    &&& !fp64_is_nan(a)
    &&& !fp64_is_nan(b)
    &&& (a == b || (fp64_is_zero(a) && fp64_is_zero(b)))
}

/// IEEE-754 `<=` on binary64 encodings.
pub open spec fn fp64_le(a: u64, b: u64) -> bool {
    fp64_lt(a, b) || fp64_ieee_eq(a, b)
}

/// Decides [`fp64_lt`] on the bits.
pub fn fp64_bits_lt(a: u64, b: u64) -> (r: bool)
    ensures
        r == fp64_lt(a, b),
{
    let na = (a >> 52) & 0x7ff == 0x7ff && a & 0xf_ffff_ffff_ffff != 0;
    let nb = (b >> 52) & 0x7ff == 0x7ff && b & 0xf_ffff_ffff_ffff != 0;
    let ma = a & 0x7fff_ffff_ffff_ffff;
    let mb = b & 0x7fff_ffff_ffff_ffff;
    let sa = a >= 0x8000_0000_0000_0000;
    let sb = b >= 0x8000_0000_0000_0000;
    !na && !nb && !(ma == 0 && mb == 0) && (if sa != sb {
        sa
    } else if !sa {
        ma < mb
    } else {
        ma > mb
    })
}

/// Decides [`fp64_le`] on the bits.
pub fn fp64_bits_le(a: u64, b: u64) -> (r: bool)
    ensures
        r == fp64_le(a, b),
{
    let na = (a >> 52) & 0x7ff == 0x7ff && a & 0xf_ffff_ffff_ffff != 0;
    let nb = (b >> 52) & 0x7ff == 0x7ff && b & 0xf_ffff_ffff_ffff != 0;
    let ma = a & 0x7fff_ffff_ffff_ffff;
    let mb = b & 0x7fff_ffff_ffff_ffff;
    let eq = !na && !nb && (a == b || (ma == 0 && mb == 0));
    eq || fp64_bits_lt(a, b)
}

/// Decides [`fp64_ieee_eq`] on the bits.
pub fn fp64_bits_eq(a: u64, b: u64) -> (r: bool)
    ensures
        r == fp64_ieee_eq(a, b),
{
    let na = (a >> 52) & 0x7ff == 0x7ff && a & 0xf_ffff_ffff_ffff != 0;
    let nb = (b >> 52) & 0x7ff == 0x7ff && b & 0xf_ffff_ffff_ffff != 0;
    let ma = a & 0x7fff_ffff_ffff_ffff;
    let mb = b & 0x7fff_ffff_ffff_ffff;
    !na && !nb && (a == b || (ma == 0 && mb == 0))
}

/// Relies on `rustc_apfloat::ieee::Double` addition: IEEE-754 binary64,
/// round to nearest, ties to even; the result depends on the bits alone.
#[verifier::external_body]
pub(crate) fn fp64_bits_add(a: u64, b: u64) -> (r: u64)
    ensures
        r == float_add_bits(a, b),
{
    let x = rustc_apfloat::ieee::Double::from_bits(a as u128);
    let y = rustc_apfloat::ieee::Double::from_bits(b as u128);
    (x + y).value.to_bits() as u64
}

/// Relies on `rustc_apfloat::ieee::Double` subtraction: IEEE-754 binary64,
/// round to nearest, ties to even; the result depends on the bits alone.
#[verifier::external_body]
pub(crate) fn fp64_bits_sub(a: u64, b: u64) -> (r: u64)
    ensures
        r == float_sub_bits(a, b),
{
    let x = rustc_apfloat::ieee::Double::from_bits(a as u128);
    let y = rustc_apfloat::ieee::Double::from_bits(b as u128);
    (x - y).value.to_bits() as u64
}

/// Relies on `rustc_apfloat::ieee::Double` multiplication: IEEE-754
/// binary64, round to nearest, ties to even; the result depends on the bits
/// alone.
#[verifier::external_body]
pub(crate) fn fp64_bits_mul(a: u64, b: u64) -> (r: u64)
    ensures
        r == float_mul_bits(a, b),
{
    let x = rustc_apfloat::ieee::Double::from_bits(a as u128);
    let y = rustc_apfloat::ieee::Double::from_bits(b as u128);
    (x * y).value.to_bits() as u64
}

/// Relies on `rustc_apfloat::ieee::Double` division: IEEE-754 binary64,
/// round to nearest, ties to even.  Per IEEE-754, a zero divisor yields an
/// infinity or (for zero over zero, NaN over zero) a NaN, never a trap, so
/// the result's exponent field is then all ones.
#[verifier::external_body]
pub(crate) fn fp64_bits_div(a: u64, b: u64) -> (r: u64)
    ensures
        r == float_div_bits(a, b),
        fp64_is_zero(b) ==> fp64_is_non_finite(r),
{
    let x = rustc_apfloat::ieee::Double::from_bits(a as u128);
    let y = rustc_apfloat::ieee::Double::from_bits(b as u128);
    (x / y).value.to_bits() as u64
}

/// Relies on `rustc_apfloat::ieee::Double`'s `%`, which computes the
/// C `fmod` remainder; the result depends on the bits alone.
#[verifier::external_body]
pub(crate) fn fp64_bits_rem(a: u64, b: u64) -> (r: u64)
    ensures
        r == float_rem_bits(a, b),
{
    let x = rustc_apfloat::ieee::Double::from_bits(a as u128);
    let y = rustc_apfloat::ieee::Double::from_bits(b as u128);
    (x % y).value.to_bits() as u64
}

/// Relies on `rustc_apfloat::ieee::Double::from_str`: correctly rounded
/// parsing, `None` exactly where it rejects the text; the result depends
/// on the text alone.  The length bound keeps the distance
/// between a digit and the dot inside the 32-bit exponent range the
/// parser's hex-literal path computes with; the decimal path saturates.
#[verifier::external_body]
pub(crate) fn fp64_bits_parse(s: &[u8]) -> (r: Option<u64>)
    requires
        s@.len() < 0x8000_0000,
    ensures
        r == float_parse_bits(s@),
{
    let text = match core::str::from_utf8(s) {
        Ok(t) => t,
        Err(_) => return None,
    };
    match <rustc_apfloat::ieee::Double as core::str::FromStr>::from_str(text) {
        Ok(d) => Some(d.to_bits() as u64),
        Err(_) => None,
    }
}

/// Relies on `rustc_apfloat::ieee::Double`'s formatter, which prints a
/// decimal form with enough digits to round-trip; the text depends on the
/// bits alone.
#[verifier::external_body]
pub(crate) fn fp64_bits_text(a: u64) -> (r: Vec<u8>)
    ensures
        r@ == float_text_bits(a),
{
    let x = rustc_apfloat::ieee::Double::from_bits(a as u128);
    format!("{}", x).into_bytes()
}

} // verus!
