//! Scalars as binary64 bit patterns, and the primitives the host computes on them.

use vstd::prelude::*;

verus! {

/// The bit pattern of `0.0`.
pub const ZERO: u64 = 0;

/// The bit pattern of `1.0`.
pub const ONE: u64 = 0x3FF0_0000_0000_0000;

/// The bit pattern of `2.0`.
pub const TWO: u64 = 0x4000_0000_0000_0000;

/// The bit pattern of `-1.0`.
pub const MINUS_ONE: u64 = 0xBFF0_0000_0000_0000;

/// The bit pattern of `-0.0`: the sign bit alone.
pub const MINUS_ZERO: u64 = 0x8000_0000_0000_0000;

/// Whether `bits` denotes zero, of either sign.
pub open spec fn is_zero(bits: u64) -> bool {
    bits == ZERO || bits == MINUS_ZERO
}

/// Tests a bit pattern for zero of either sign.
pub fn zero(bits: u64) -> (r: bool)
    ensures
        r == is_zero(bits),
{
    bits == ZERO || bits == MINUS_ZERO
}

/// A scalar primitive that the host evaluates.
///
/// `Exp` is unary and reads its left operand only; `Pow` raises the left operand to the right.
#[derive(Clone, Copy, Debug, PartialEq, Eq)]
pub enum Prim {
    Add,
    Sub,
    Mul,
    Div,
    Pow,
    Exp,
}

/// A model of the host's arithmetic: the bit pattern that each primitive yields.
pub type Arith = spec_fn(Prim, u64, u64) -> u64;

} // verus!
