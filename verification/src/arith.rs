//! The interface to single-precision arithmetic and sampling.
//!
//! Sums, products, quotients and exponentials are rounded operations that
//! this library does not perform itself. Every function that needs one
//! takes an evaluator: a function from an operation and two operands to a
//! result, all as `u32`. Contracts speak of the evaluator through its own
//! postcondition, so they hold of whatever arithmetic the caller brings.

use vstd::prelude::*;
use rand_chacha::ChaCha8Rng;
use crate::single::{is_finite, less, ONE, ZERO};

verus! {

/// One arithmetic operation. Operands and results are single-precision
/// encodings unless said otherwise; an operation of one operand ignores
/// the second, which callers in this library pass as 0.
#[derive(Clone, Copy, Debug, PartialEq, Eq)]
pub enum Op {
    /// `a + b`.
    Add,
    /// `a - b`.
    Sub,
    /// `a * b`.
    Mul,
    /// `a / b`.
    Div,
    /// `e` to the power `a`.
    Exp,
    /// The number nearest to the integer `a`; the operand is a plain count,
    /// the result an encoding.
    FromCount,
    /// The least integer not below `a`, saturated to the range of `u32`
    /// and 0 for a NaN; the operand is an encoding, the result a plain
    /// count.
    CeilCount,
}

/// The evaluator accepts every operation on every pair of operands.
pub open spec fn total<E: Fn(Op, u32, u32) -> u32>(eval: &E) -> bool {
    forall|op: Op, a: u32, b: u32| eval.requires((op, a, b))
}

/// `r` is a result that the evaluator may give for `op` on `a` and `b`.
pub open spec fn gives<E: Fn(Op, u32, u32) -> u32>(eval: &E, op: Op, a: u32, b: u32, r: u32) -> bool {
    eval.ensures((op, a, b), r)
}

/// The evaluator is a function: it gives one result for each operation on
/// each pair of operands.
pub open spec fn single_valued<E: Fn(Op, u32, u32) -> u32>(eval: &E) -> bool {
    forall|op: Op, a: u32, b: u32, r1: u32, r2: u32|
        #![trigger gives(eval, op, a, b, r1), gives(eval, op, a, b, r2)]
        gives(eval, op, a, b, r1) && gives(eval, op, a, b, r2) ==> r1 == r2
}

/// The evaluator divides every finite number above zero by itself to
/// exactly one, as a correctly rounded division does.
pub open spec fn unit_quotients<E: Fn(Op, u32, u32) -> u32>(eval: &E) -> bool {
    forall|m: u32, q: u32|
        is_finite(m) && less(ZERO, m) && #[trigger] gives(eval, Op::Div, m, m, q) ==> q == ONE
}

/// Runs one operation.
pub fn apply<E: Fn(Op, u32, u32) -> u32>(eval: &E, op: Op, a: u32, b: u32) -> (r: u32)
    requires
        total(eval),
    ensures
        gives(eval, op, a, b, r),
{
    eval(op, a, b)
}

/// The sampler accepts the range from `low` to `high`, whatever the state
/// of the generator.
///
/// A sampler draws a single-precision number from the half-open range
/// `low..high` of a generator; like the evaluator, it is the caller's, and
/// the bounds and the result are encodings.
pub open spec fn accepts<S: Fn(&mut ChaCha8Rng, u32, u32) -> u32>(
    sample: &S,
    low: u32,
    high: u32,
) -> bool {
    forall|rng: &mut ChaCha8Rng| #[trigger] sample.requires((rng, low, high))
}

/// `v` is a number that the sampler may draw from the range from `low`
/// to `high`, in some state of the generator.
pub open spec fn draws<S: Fn(&mut ChaCha8Rng, u32, u32) -> u32>(
    sample: &S,
    low: u32,
    high: u32,
    v: u32,
) -> bool {
    exists|rng: &mut ChaCha8Rng| #[trigger] sample.ensures((rng, low, high), v)
}

/// Draws one number from the range from `low` to `high`.
pub fn draw<S: Fn(&mut ChaCha8Rng, u32, u32) -> u32>(
    sample: &S,
    rng: &mut ChaCha8Rng,
    low: u32,
    high: u32,
) -> (v: u32)
    requires
        accepts(sample, low, high),
    ensures
        draws(sample, low, high, v),
{
    sample(rng, low, high)
}

} // verus!
