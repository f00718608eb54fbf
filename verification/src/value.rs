//! Measurement values.
//!
//! A recorded counter value is a double-precision number carried as a
//! `serde_json::Number`.  Verified code never looks inside such a number;
//! it reasons about the IEEE 754 bit pattern of the held value through the
//! uninterpreted function [`num_rep`], and performs arithmetic through the
//! trusted wrappers below, whose results are pinned to the named bit-level
//! operations [`f64_sum_bits`] and [`f64_quot_bits`].

use vstd::prelude::*;

verus! {

#[verifier::external_type_specification]
#[verifier::external_body]
pub struct ExNumber(serde_json::Number);

/// The IEEE 754 bit pattern of the double-precision value that a
/// `serde_json::Number` holds: what `Number::as_f64` returns, as bits.
pub uninterp spec fn num_rep(n: serde_json::Number) -> u64;

/// The bit pattern of the IEEE double sum of the doubles whose bit patterns
/// are `a` and `b`.
pub uninterp spec fn f64_sum_bits(a: u64, b: u64) -> u64;

/// The bit pattern of the IEEE double quotient of the double whose bit
/// pattern is `a` by the divisor `d` converted (exactly) to a double.
pub uninterp spec fn f64_quot_bits(a: u64, d: u32) -> u64;

/// Whether bit pattern `b` encodes a finite double: its exponent field,
/// bits 52 to 62, is not all ones.
pub open spec fn is_finite_bits(b: u64) -> bool {
    (b >> 52) & 0x7ff != 0x7ff
}

/// Relies on `serde_json::Number::from(0u64)`: the number zero reads back
/// through `as_f64` as positive zero, whose bit pattern is zero.
#[verifier::external_body]
pub fn zero_number() -> (r: serde_json::Number)
    ensures
        num_rep(r) == 0u64,
{
    serde_json::Number::from(0u64)
}

/// Relies on `serde_json::Number::as_f64`, IEEE double addition, and
/// `Number::from_f64`: the result holds the sum of the two held values when
/// that sum is finite.  `from_f64` declines a non-finite double, in which
/// case the first argument is handed back unchanged.
#[verifier::external_body]
pub fn number_sum(a: &serde_json::Number, b: &serde_json::Number) -> (r: serde_json::Number)
    ensures
        is_finite_bits(f64_sum_bits(num_rep(*a), num_rep(*b))) ==> num_rep(r) == f64_sum_bits(
            num_rep(*a),
            num_rep(*b),
        ),
        !is_finite_bits(f64_sum_bits(num_rep(*a), num_rep(*b))) ==> num_rep(r) == num_rep(*a),
{
    let s = a.as_f64().unwrap_or_default() + b.as_f64().unwrap_or_default();
    match serde_json::Number::from_f64(s) {
        Some(n) => n,
        None => a.clone(),
    }
}

/// Relies on `serde_json::Number::as_f64`, IEEE double division, and
/// `Number::from_f64`: a finite value divided by a divisor of at least one
/// cannot leave the finite range, so `from_f64` accepts the quotient.
#[verifier::external_body]
pub fn number_quot(n: &serde_json::Number, d: u32) -> (r: serde_json::Number)
    requires
        1 <= d,
        is_finite_bits(num_rep(*n)),
    ensures
        num_rep(r) == f64_quot_bits(num_rep(*n), d),
{
    let q = n.as_f64().unwrap_or_default() / serde_json::Number::from(d).as_f64().unwrap_or_default();
    match serde_json::Number::from_f64(q) {
        Some(m) => m,
        None => n.clone(),
    }
}

} // verus!
