//! Single-precision computations as terms.
//!
//! A [`Scalar`] records which IEEE-754 operations produce a weight or a
//! score, in which order, without performing them. Two scalars are equal when
//! they denote the same computation, so a contract that names a scalar fixes
//! the result down to rounding.

use vstd::prelude::*;

verus! {

/// The bit pattern of `0.0`.
pub const ZERO_BITS: u32 = 0;

/// The bit pattern of `1.0`.
pub const ONE_BITS: u32 = 0x3f80_0000;

/// A single-precision computation.
#[derive(Debug, PartialEq)]
pub enum Scalar {
    /// The value with this IEEE-754 bit pattern.
    Bits(u32),
    /// A count, converted to single precision.
    Count(usize),
    /// The sum of two computations.
    Add(Box<Scalar>, Box<Scalar>),
    /// The product of two computations.
    Mul(Box<Scalar>, Box<Scalar>),
    /// The quotient of two computations.
    Div(Box<Scalar>, Box<Scalar>),
    /// The base-2 logarithm of a computation.
    Log2(Box<Scalar>),
}

/// Whether a bit pattern denotes positive or negative zero.
pub open spec fn bits_are_zero(bits: u32) -> bool {
    bits == 0 || bits == 0x8000_0000
}

/// Decides whether a bit pattern compares equal to `0.0`.
pub fn is_zero_bits(bits: u32) -> (r: bool)
    ensures
        r == bits_are_zero(bits),
{
    bits == 0 || bits == 0x8000_0000
}

impl Scalar {
    /// The computation that yields `0.0`.
    pub open spec fn zero_spec() -> Scalar {
        Scalar::Bits(ZERO_BITS)
    }

    /// The computation that yields `1.0`.
    pub open spec fn one_spec() -> Scalar {
        Scalar::Bits(ONE_BITS)
    }

    pub open spec fn add_spec(a: Scalar, b: Scalar) -> Scalar {
        Scalar::Add(Box::new(a), Box::new(b))
    }

    pub open spec fn mul_spec(a: Scalar, b: Scalar) -> Scalar {
        Scalar::Mul(Box::new(a), Box::new(b))
    }

    pub open spec fn div_spec(a: Scalar, b: Scalar) -> Scalar {
        Scalar::Div(Box::new(a), Box::new(b))
    }

    pub open spec fn log2_spec(a: Scalar) -> Scalar {
        Scalar::Log2(Box::new(a))
    }

    pub fn zero() -> (r: Scalar)
        ensures
            r == Scalar::zero_spec(),
    {
        Scalar::Bits(ZERO_BITS)
    }

    pub fn one() -> (r: Scalar)
        ensures
            r == Scalar::one_spec(),
    {
        Scalar::Bits(ONE_BITS)
    }

    pub fn sum(a: Scalar, b: Scalar) -> (r: Scalar)
        ensures
            r == Scalar::add_spec(a, b),
    {
        Scalar::Add(Box::new(a), Box::new(b))
    }

    pub fn product(a: Scalar, b: Scalar) -> (r: Scalar)
        ensures
            r == Scalar::mul_spec(a, b),
    {
        Scalar::Mul(Box::new(a), Box::new(b))
    }

    pub fn quotient(a: Scalar, b: Scalar) -> (r: Scalar)
        ensures
            r == Scalar::div_spec(a, b),
    {
        Scalar::Div(Box::new(a), Box::new(b))
    }

    pub fn log2(a: Scalar) -> (r: Scalar)
        ensures
            r == Scalar::log2_spec(a),
    {
        Scalar::Log2(Box::new(a))
    }

    /// A copy that denotes the same computation.
    pub fn duplicate(&self) -> (r: Scalar)
        ensures
            r == *self,
        decreases *self,
    {
        match self {
            Scalar::Bits(b) => Scalar::Bits(*b),
            Scalar::Count(n) => Scalar::Count(*n),
            Scalar::Add(a, b) => Scalar::Add(Box::new(a.duplicate()), Box::new(b.duplicate())),
            Scalar::Mul(a, b) => Scalar::Mul(Box::new(a.duplicate()), Box::new(b.duplicate())),
            Scalar::Div(a, b) => Scalar::Div(Box::new(a.duplicate()), Box::new(b.duplicate())),
            Scalar::Log2(a) => Scalar::Log2(Box::new(a.duplicate())),
        }
    }
}

} // verus!
