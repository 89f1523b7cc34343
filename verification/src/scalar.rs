//! Scalars: the numbers that momenta and distances are made of.
//!
//! A scalar is kept as the 64-bit pattern of a binary64 number: one sign bit,
//! eleven exponent bits and fifty-two fraction bits. Patterns that encode
//! "not a number" are never stored. The library itself never does arithmetic on
//! scalars; it only orders them, and the order is the total order on the bit
//! patterns read as sign and magnitude.
use std::cmp::Ordering;
use vstd::prelude::*;
use vstd::std_specs::cmp::PartialOrdSpecImpl;

verus! {

/// The bit that holds the sign.
pub const SIGN_BIT: u64 = 0x8000_0000_0000_0000;

/// Pattern of positive infinity; every larger magnitude is not a number.
pub const INFINITY_BITS: u64 = 0x7FF0_0000_0000_0000;

/// Pattern of the largest finite number.
pub const MAX_BITS: u64 = 0x7FEF_FFFF_FFFF_FFFF;

/// Pattern of the number one.
pub const ONE_BITS: u64 = 0x3FF0_0000_0000_0000;

/// Pattern of the scalar nearest to half a turn.
pub const PI_BITS: u64 = 0x4009_21FB_5444_2D18;

/// Pattern of the scalar nearest to a full turn.
pub const TWO_PI_BITS: u64 = 0x4019_21FB_5444_2D18;

/// The magnitude part of a bit pattern: the pattern without its sign bit.
pub open spec fn magnitude(bits: u64) -> int {
    if bits < SIGN_BIT {
        bits as int
    } else {
        bits - SIGN_BIT
    }
}

/// Whether a bit pattern encodes "not a number".
pub open spec fn is_nan_bits(bits: u64) -> bool {
    magnitude(bits) > INFINITY_BITS
}

/// Position of a bit pattern in the total order: patterns without the sign bit
/// count upwards from zero, patterns with it count downwards from minus one.
pub open spec fn rank_of_bits(bits: u64) -> int {
    if bits < SIGN_BIT {
        bits as int
    } else {
        -(bits - SIGN_BIT) - 1
    }
}

/// A number that is never "not a number", ordered totally.
#[derive(Clone, Copy, Debug, PartialEq, Eq, Structural, Hash)]
pub struct Scalar {
    bits: u64,
}

impl Scalar {
    #[verifier::type_invariant]
    spec fn is_number(self) -> bool {
        !is_nan_bits(self.bits)
    }

    /// The bit pattern of this scalar.
    pub closed spec fn spec_bits(self) -> u64 {
        self.bits
    }

    /// The scalar with the given bit pattern.
    pub closed spec fn with_bits(bits: u64) -> Scalar {
        Scalar { bits }
    }

    /// Positive infinity.
    pub open spec fn spec_infinity() -> Scalar {
        Scalar::with_bits(INFINITY_BITS)
    }

    /// A scalar is the scalar with its bit pattern.
    pub proof fn lemma_with_bits(self)
        ensures
            Scalar::with_bits(self.spec_bits()) == self,
    {
    }

    /// The scalar with a bit pattern has that bit pattern.
    pub proof fn lemma_bits_of(bits: u64)
        ensures
            Scalar::with_bits(bits).spec_bits() == bits,
    {
    }

    /// Position of this scalar in the total order.
    pub open spec fn rank(self) -> int {
        rank_of_bits(self.spec_bits())
    }

    /// The scalar with the given bit pattern, unless the pattern is not a number.
    pub fn from_bits(bits: u64) -> (r: Option<Scalar>)
        ensures
            r.is_some() == !is_nan_bits(bits),
            r.is_some() ==> r.unwrap().spec_bits() == bits,
            r.is_some() ==> r.unwrap() == Scalar::with_bits(bits),
    {
        let mag: u64 = if bits < SIGN_BIT {
            bits
        } else {
            bits - SIGN_BIT
        };
        if mag > INFINITY_BITS {
            None
        } else {
            Some(Scalar { bits })
        }
    }

    /// The bit pattern of this scalar.
    pub fn to_bits(self) -> (r: u64)
        ensures
            r == self.spec_bits(),
            !is_nan_bits(r),
    {
        proof {
            use_type_invariant(self);
        }
        self.bits
    }

    /// Zero, with the positive sign.
    pub fn zero() -> (r: Scalar)
        ensures
            r.spec_bits() == 0,
            r == Scalar::with_bits(0),
    {
        Scalar { bits: 0 }
    }

    /// One.
    pub fn one() -> (r: Scalar)
        ensures
            r.spec_bits() == ONE_BITS,
            r == Scalar::with_bits(ONE_BITS),
    {
        Scalar { bits: ONE_BITS }
    }

    /// Positive infinity, above which no scalar ranks.
    pub fn infinity() -> (r: Scalar)
        ensures
            r.spec_bits() == INFINITY_BITS,
            r == Scalar::spec_infinity(),
    {
        Scalar { bits: INFINITY_BITS }
    }

    /// The largest finite scalar.
    pub fn max_value() -> (r: Scalar)
        ensures
            r.spec_bits() == MAX_BITS,
            r == Scalar::with_bits(MAX_BITS),
    {
        Scalar { bits: MAX_BITS }
    }

    /// Whether the sign bit is set.
    pub fn is_sign_negative(self) -> (r: bool)
        ensures
            r == (self.rank() < 0),
    {
        self.bits >= SIGN_BIT
    }

    /// Strictly-less in the total order.
    pub fn lt(self, other: Scalar) -> (r: bool)
        ensures
            r == (self.rank() < other.rank()),
    {
        let a: u64 = self.bits;
        let b: u64 = other.bits;
        if a < SIGN_BIT {
            b < SIGN_BIT && a < b
        } else {
            b < SIGN_BIT || a > b
        }
    }

    /// Less-or-equal in the total order.
    pub fn le(self, other: Scalar) -> (r: bool)
        ensures
            r == (self.rank() <= other.rank()),
    {
        !other.lt(self)
    }

    /// The smaller of two scalars; the first one when they are equal.
    pub fn min(self, other: Scalar) -> (r: Scalar)
        ensures
            r == spec_min(self, other),
    {
        if other.lt(self) {
            other
        } else {
            self
        }
    }

    /// The larger of two scalars; the second one when they are equal.
    pub fn max(self, other: Scalar) -> (r: Scalar)
        ensures
            r == spec_max(self, other),
    {
        if other.lt(self) {
            self
        } else {
            other
        }
    }
}

impl PartialOrd for Scalar {
    fn partial_cmp(&self, other: &Scalar) -> (r: Option<Ordering>) {
        if Scalar::lt(*self, *other) {
            Some(Ordering::Less)
        } else if Scalar::lt(*other, *self) {
            Some(Ordering::Greater)
        } else {
            Some(Ordering::Equal)
        }
    }
}

impl PartialOrdSpecImpl for Scalar {
    open spec fn obeys_partial_cmp_spec() -> bool {
        true
    }

    open spec fn partial_cmp_spec(&self, other: &Scalar) -> Option<Ordering> {
        if self.rank() < other.rank() {
            Some(Ordering::Less)
        } else if other.rank() < self.rank() {
            Some(Ordering::Greater)
        } else {
            Some(Ordering::Equal)
        }
    }
}

/// The smaller of two scalars.
pub open spec fn spec_min(a: Scalar, b: Scalar) -> Scalar {
    if b.rank() < a.rank() {
        b
    } else {
        a
    }
}

/// The larger of two scalars.
pub open spec fn spec_max(a: Scalar, b: Scalar) -> Scalar {
    if b.rank() < a.rank() {
        a
    } else {
        b
    }
}

/// Two scalars with the same rank are the same scalar: the order is
/// antisymmetric, so a minimum under it is unique.
pub proof fn lemma_rank_injective(a: Scalar, b: Scalar)
    ensures
        (a.rank() == b.rank()) == (a == b),
{
}

/// The minimum of two scalars does not depend on the order of the arguments.
pub proof fn lemma_min_symmetric(a: Scalar, b: Scalar)
    ensures
        spec_min(a, b) == spec_min(b, a),
{
    lemma_rank_injective(a, b);
}

} // verus!
