//! High-precision numeric engine.
//!
//! Distances and accumulated times are kept in arbitrary-precision decimal
//! values (`bigdecimal::BigDecimal`): addition, subtraction and
//! multiplication are exact, and square roots are computed to 100 significant
//! decimal digits (well above 100 bits of significand), so long routes do not
//! accumulate rounding error and comparisons against recorded best distances
//! are stable.
//!
//! To the verifier a `BigDecimal` is opaque; two spec functions model it.
//! [`scaled_val`] names the exact value in units of one over [`scale_unit`]
//! — every quantity the engine computes has one, so contracts built on it
//! hold for every input, with the square root's result named by
//! [`sqrt_scaled`]. [`float_val`] names the exact integer a value holds,
//! when it holds one: on that fragment the integer root is known outright
//! and even the rendered digits are pinned.

use crate::text::dec_int;
use vstd::prelude::*;

verus! {

#[verifier::external_type_specification]
#[verifier::external_body]
pub struct ExBigDecimal(bigdecimal::BigDecimal);

/// `v` is the square of some non-negative integer.
pub open spec fn is_square(v: int) -> bool {
    exists|r: int| 0 <= r && #[trigger] (r * r) == v
}

/// The non-negative integer square root of a perfect square.
pub open spec fn sqrt_of(v: int) -> int {
    choose|r: int| 0 <= r && #[trigger] (r * r) == v
}

/// The exact integer a `BigDecimal` holds, if its value is an integer.
pub uninterp spec fn float_val(f: bigdecimal::BigDecimal) -> Option<int>;

/// Ten to the `n`.
pub open spec fn pow10(n: nat) -> int
    decreases n,
{
    if n == 0 {
        1
    } else {
        10 * pow10((n - 1) as nat)
    }
}

/// Powers of ten are positive.
pub proof fn lemma_pow10_pos(n: nat)
    ensures
        pow10(n) >= 1,
    decreases n,
{
    if n > 0 {
        lemma_pow10_pos((n - 1) as nat);
    }
}

/// The fixed denominator of the fine-grained model: every quantity this
/// crate computes is an integer multiple of one over this.
pub open spec fn scale_unit() -> int {
    pow10(200)
}

/// The exact value of a `BigDecimal` in units of `1 / scale_unit()`:
/// `Some(n)` when the value is exactly `n / scale_unit()`, that is, when the
/// decimal has at most two hundred fractional digits. Square roots carry
/// about a hundred, and the exact ring operations never push a value of this
/// crate outside the range, so every quantity the engine computes has a
/// `Some` model here.
pub uninterp spec fn scaled_val(f: bigdecimal::BigDecimal) -> Option<int>;

/// What the hundred-digit square root of the integer `v` holds, in units of
/// `1 / scale_unit()`: a function of `v` alone.
pub uninterp spec fn sqrt_scaled(v: int) -> int;

/// How [`fl_to_text`] renders a value that is exactly the integer `v`: all
/// significant digits, with a fixed 38 fractional decimal places.
pub open spec fn float_text_of(v: int) -> Seq<char> {
    dec_int(v) + seq!['.'] + Seq::new(38, |i: int| '0')
}

/// Integers whose every decimal representation prints in plain (non-
/// exponential) form: the renderer right-pads at most a thousand zeros, so
/// a representation of a larger magnitude could fall back to exponent form.
/// Every quantity this crate computes lies far inside this range.
pub open spec fn fits_text(x: int) -> bool {
    -0x100000000000000000000000000000000 < x < 0x100000000000000000000000000000000
}

/// A high-precision value holding exactly the given integer.
///
/// Relies on `bigdecimal::BigDecimal`'s `From<i32>`, which is exact.
#[verifier::external_body]
pub fn fl(val: i32) -> (r: bigdecimal::BigDecimal)
    ensures
        float_val(r) == Some(val as int),
        scaled_val(r) == Some(val as int * scale_unit()),
{
    bigdecimal::BigDecimal::from(val)
}

/// The square root of a non-negative integer, at working precision.
///
/// Relies on `bigdecimal::BigDecimal::sqrt` (with `From<i128>` converting the
/// operand, exactly): the root is computed to 100 significant digits and
/// rounded, so the root of a perfect square (at most 20 digits here) is
/// returned exactly; a non-negative operand never yields `None`.
#[verifier::external_body]
pub fn sqrt_fl(val: i128) -> (r: bigdecimal::BigDecimal)
    requires
        0 <= val,
    ensures
        is_square(val as int) ==> float_val(r) == Some(sqrt_of(val as int)),
        scaled_val(r) == Some(sqrt_scaled(val as int)),
        0 <= scaled_val(r)->Some_0 <= (val as int + 1) * scale_unit(),
        is_square(val as int) ==> scaled_val(r) == Some(sqrt_of(val as int) * scale_unit()),
{
    bigdecimal::BigDecimal::from(val).sqrt().unwrap()
}

/// In-place addition.
///
/// Relies on `bigdecimal::BigDecimal`'s `AddAssign<&BigDecimal>`: decimal
/// addition is exact.
#[verifier::external_body]
pub fn add_fl(acc: &mut bigdecimal::BigDecimal, other: &bigdecimal::BigDecimal)
    ensures
        (float_val(*old(acc)) matches Some(x) && float_val(*other) matches Some(y)) ==> float_val(
            *final (acc),
        ) == Some(float_val(*old(acc))->Some_0 + float_val(*other)->Some_0),
        (scaled_val(*old(acc)) matches Some(x) && scaled_val(*other) matches Some(y))
            ==> scaled_val(*final (acc)) == Some(
            scaled_val(*old(acc))->Some_0 + scaled_val(*other)->Some_0,
        ),
{
    *acc += other;
}

/// In-place addition of a machine integer.
///
/// Relies on `bigdecimal::BigDecimal`'s `AddAssign<i32>`: decimal addition is
/// exact.
#[verifier::external_body]
pub fn add_i32_fl(acc: &mut bigdecimal::BigDecimal, val: i32)
    ensures
        float_val(*old(acc)) matches Some(x) ==> float_val(*final (acc)) == Some(
            float_val(*old(acc))->Some_0 + val as int,
        ),
        scaled_val(*old(acc)) matches Some(x) ==> scaled_val(*final (acc)) == Some(
            scaled_val(*old(acc))->Some_0 + val as int * scale_unit(),
        ),
{
    *acc += val;
}

/// The larger of two values, as a fresh value.
///
/// Relies on `Ord::max` with `bigdecimal::BigDecimal`'s `Ord`, which orders
/// by numeric value (`clone` only copies the operands).
#[verifier::external_body]
pub fn max_fl(a: &bigdecimal::BigDecimal, b: &bigdecimal::BigDecimal) -> (r:
    bigdecimal::BigDecimal)
    ensures
        (float_val(*a) matches Some(x) && float_val(*b) matches Some(y)) ==> float_val(r) == Some(
            if float_val(*a)->Some_0 >= float_val(*b)->Some_0 {
                float_val(*a)->Some_0
            } else {
                float_val(*b)->Some_0
            },
        ),
        (scaled_val(*a) matches Some(x) && scaled_val(*b) matches Some(y)) ==> scaled_val(r)
            == Some(
            if scaled_val(*a)->Some_0 >= scaled_val(*b)->Some_0 {
                scaled_val(*a)->Some_0
            } else {
                scaled_val(*b)->Some_0
            },
        ),
{
    a.clone().max(b.clone())
}

/// Subtraction, producing a fresh value.
///
/// Relies on `bigdecimal::BigDecimal`'s `Sub`: decimal subtraction is exact.
#[verifier::external_body]
pub fn sub_fl(a: &bigdecimal::BigDecimal, b: &bigdecimal::BigDecimal) -> (r:
    bigdecimal::BigDecimal)
    ensures
        (float_val(*a) matches Some(x) && float_val(*b) matches Some(y)) ==> float_val(r) == Some(
            float_val(*a)->Some_0 - float_val(*b)->Some_0,
        ),
        (scaled_val(*a) matches Some(x) && scaled_val(*b) matches Some(y)) ==> scaled_val(r)
            == Some(scaled_val(*a)->Some_0 - scaled_val(*b)->Some_0),
{
    a - b
}

/// Multiplication by a machine integer, producing a fresh value.
///
/// Relies on `bigdecimal::BigDecimal`'s `Mul<i32>`: decimal multiplication is
/// exact.
#[verifier::external_body]
pub fn mul_i32_fl(a: &bigdecimal::BigDecimal, val: i32) -> (r: bigdecimal::BigDecimal)
    ensures
        float_val(*a) matches Some(x) ==> float_val(r) == Some(
            float_val(*a)->Some_0 * val as int,
        ),
        scaled_val(*a) matches Some(x) ==> scaled_val(r) == Some(
            scaled_val(*a)->Some_0 * val as int,
        ),
{
    a * val
}

/// Relies on `bigdecimal::BigDecimal`'s `PartialOrd<i32>`: the comparison is
/// exact.
#[verifier::external_body]
pub fn gt_i32_fl(a: &bigdecimal::BigDecimal, val: i32) -> (r: bool)
    ensures
        float_val(*a) matches Some(x) ==> r == (x > val as int),
        scaled_val(*a) matches Some(x) ==> r == (x > val as int * scale_unit()),
{
    *a > val
}

/// Relies on `bigdecimal::BigDecimal`'s `PartialOrd<i32>`: the comparison is
/// exact.
#[verifier::external_body]
pub fn lt_i32_fl(a: &bigdecimal::BigDecimal, val: i32) -> (r: bool)
    ensures
        float_val(*a) matches Some(x) ==> r == (x < val as int),
        scaled_val(*a) matches Some(x) ==> r == (x < val as int * scale_unit()),
{
    *a < val
}

/// The decimal rendering of a value, with 38 fractional digits.
///
/// Relies on `bigdecimal::BigDecimal`'s `Display` with a requested precision:
/// the value is printed in full, padded or rounded to exactly 38 places after
/// the decimal point, so an exact integer `v` in the [`fits_text`] range
/// renders as [`float_text_of`]`(v)`. (The range matters: the renderer caps
/// zero-padding, so some representation of a vastly larger integer would
/// print in exponent form instead.)
#[verifier::external_body]
pub fn fl_to_text(a: &bigdecimal::BigDecimal) -> (r: String)
    ensures
        (float_val(*a) matches Some(x) && fits_text(x)) ==> r@ == float_text_of(
            float_val(*a)->Some_0,
        ),
{
    format!("{:.38}", a)
}

/// The square root of a perfect square no greater than `b * b` is at most `b`.
pub proof fn lemma_sqrt_le(v: int, b: int)
    requires
        is_square(v),
        0 <= b,
        v <= b * b,
    ensures
        0 <= sqrt_of(v),
        sqrt_of(v) <= b,
{
    let r = sqrt_of(v);
    assert(0 <= r && r * r == v);
    if r > b {
        assert(r * r > b * b) by (nonlinear_arith)
            requires
                r > b >= 0,
        ;
    }
}

} // verus!
