//! Numbers of the binary formats, held as their bit patterns.
//!
//! Two of these values are equal when their bits are: a NaN equals itself, and
//! the two zeros differ.

use crate::float::arith;
use crate::float::arith::Parts;
use crate::float::convert;
use crate::float::formats::Format;
use vstd::prelude::*;

verus! {

/// A binary16 number: 1 sign bit, 5 exponent bits, 10 mantissa bits.
#[derive(Clone, Copy, PartialEq, Eq, Debug, Structural)]
pub struct Binary16 {
    pub bits: u16,
}

impl Binary16 {
    /// The sign bit and the code that is left.
    pub open spec fn parts(self) -> Parts {
        if self.bits >= 0x8000 {
            Parts { neg: true, code: (self.bits - 0x8000) as u64 }
        } else {
            Parts { neg: false, code: self.bits as u64 }
        }
    }

    /// The bit pattern with these parts.
    pub open spec fn of(p: Parts) -> Binary16 {
        Binary16 { bits: (p.code + if p.neg { 0x8000int } else { 0 }) as u16 }
    }

    pub open spec fn nan(self) -> bool {
        self.parts().nan(Format::Half)
    }

    pub open spec fn infinite(self) -> bool {
        self.parts().infinite(Format::Half)
    }

    pub open spec fn finite(self) -> bool {
        self.parts().finite(Format::Half)
    }

    /// The magnitude of a finite number, in units of the format.
    pub open spec fn units(self) -> nat {
        self.parts().units(Format::Half)
    }

    /// The parts of a pattern made from parts are those parts, and back.
    pub proof fn lemma_parts(self, p: Parts)
        ensures
            self.parts().fits(Format::Half),
            Binary16::of(self.parts()) == self,
            p.fits(Format::Half) ==> Binary16::of(p).parts() == p,
    {
    }

    pub fn to_parts(self) -> (r: Parts)
        ensures
            r == self.parts(),
            r.fits(Format::Half),
    {
        if self.bits >= 0x8000 {
            Parts { neg: true, code: (self.bits - 0x8000) as u64 }
        } else {
            Parts { neg: false, code: self.bits as u64 }
        }
    }

    pub fn from_parts(p: Parts) -> (r: Binary16)
        requires
            p.fits(Format::Half),
        ensures
            r == Binary16::of(p),
            r.parts() == p,
    {
        let code: u16 = p.code as u16;
        if p.neg {
            Binary16 { bits: code + 0x8000 }
        } else {
            Binary16 { bits: code }
        }
    }

    pub fn is_nan(self) -> (r: bool)
        ensures
            r == self.nan(),
    {
        self.to_parts().code > 0x7C00
    }

    /// The same number as a binary32.
    pub open spec fn widened(self) -> Binary32 {
        Binary32::of(arith::converted(Format::Half, Format::Single, self.parts()))
    }

    /// The same number as a binary32. Every finite binary16 is one.
    pub fn widen(self) -> (r: Binary32)
        ensures
            r == self.widened(),
            r.parts() == arith::converted(Format::Half, Format::Single, self.parts()),
            r.nan() <==> self.nan(),
    {
        Binary32::from_parts(convert::convert(Format::Half, Format::Single, self.to_parts()))
    }
}

/// A binary32 number: 1 sign bit, 8 exponent bits, 23 mantissa bits.
#[derive(Clone, Copy, PartialEq, Eq, Debug, Structural)]
pub struct Binary32 {
    pub bits: u32,
}

impl Binary32 {
    /// The sign bit and the code that is left.
    pub open spec fn parts(self) -> Parts {
        if self.bits >= 0x8000_0000 {
            Parts { neg: true, code: (self.bits - 0x8000_0000) as u64 }
        } else {
            Parts { neg: false, code: self.bits as u64 }
        }
    }

    /// The bit pattern with these parts.
    pub open spec fn of(p: Parts) -> Binary32 {
        Binary32 { bits: (p.code + if p.neg { 0x8000_0000int } else { 0 }) as u32 }
    }

    pub open spec fn nan(self) -> bool {
        self.parts().nan(Format::Single)
    }

    pub open spec fn infinite(self) -> bool {
        self.parts().infinite(Format::Single)
    }

    pub open spec fn finite(self) -> bool {
        self.parts().finite(Format::Single)
    }

    /// The magnitude of a finite number, in units of the format.
    pub open spec fn units(self) -> nat {
        self.parts().units(Format::Single)
    }

    /// The parts of a pattern made from parts are those parts, and back.
    pub proof fn lemma_parts(self, p: Parts)
        ensures
            self.parts().fits(Format::Single),
            Binary32::of(self.parts()) == self,
            p.fits(Format::Single) ==> Binary32::of(p).parts() == p,
    {
    }

    pub fn to_parts(self) -> (r: Parts)
        ensures
            r == self.parts(),
            r.fits(Format::Single),
    {
        if self.bits >= 0x8000_0000 {
            Parts { neg: true, code: (self.bits - 0x8000_0000) as u64 }
        } else {
            Parts { neg: false, code: self.bits as u64 }
        }
    }

    pub fn from_parts(p: Parts) -> (r: Binary32)
        requires
            p.fits(Format::Single),
        ensures
            r == Binary32::of(p),
            r.parts() == p,
    {
        let code: u32 = p.code as u32;
        if p.neg {
            Binary32 { bits: code + 0x8000_0000 }
        } else {
            Binary32 { bits: code }
        }
    }

    pub fn is_nan(self) -> (r: bool)
        ensures
            r == self.nan(),
    {
        self.to_parts().code > 0x7F80_0000
    }

    /// The magnitude: the number with its sign bit cleared.
    pub open spec fn magnitude(self) -> Binary32 {
        Binary32::of(Parts { neg: false, ..self.parts() })
    }

    pub open spec fn product(self, other: Binary32) -> Binary32 {
        Binary32::of(arith::product(Format::Single, self.parts(), other.parts()))
    }

    pub open spec fn quotient(self, other: Binary32) -> Binary32 {
        Binary32::of(arith::quotient(Format::Single, self.parts(), other.parts()))
    }

    pub open spec fn sum(self, other: Binary32) -> Binary32 {
        Binary32::of(arith::sum(Format::Single, self.parts(), other.parts()))
    }

    pub open spec fn difference(self, other: Binary32) -> Binary32 {
        let p = other.parts();
        Binary32::of(arith::sum(Format::Single, self.parts(), Parts { neg: !p.neg, ..p }))
    }

    /// Whether `self < other` as numbers.
    pub open spec fn below(self, other: Binary32) -> bool {
        arith::less(Format::Single, self.parts(), other.parts())
    }

    /// The number nearest to `n`.
    pub open spec fn of_integer(n: nat) -> Binary32 {
        Binary32::of(arith::from_integer(Format::Single, n))
    }

    pub fn abs(self) -> (r: Binary32)
        ensures
            r == self.magnitude(),
    {
        let p: Parts = self.to_parts();
        Binary32::from_parts(Parts { neg: false, code: p.code })
    }

    pub fn times(self, other: Binary32) -> (r: Binary32)
        ensures
            r == self.product(other),
            r.parts() == arith::product(Format::Single, self.parts(), other.parts()),
    {
        Binary32::from_parts(arith::multiply(Format::Single, self.to_parts(), other.to_parts()))
    }

    pub fn over(self, other: Binary32) -> (r: Binary32)
        ensures
            r == self.quotient(other),
            r.parts() == arith::quotient(Format::Single, self.parts(), other.parts()),
    {
        Binary32::from_parts(arith::divide(Format::Single, self.to_parts(), other.to_parts()))
    }

    pub fn plus(self, other: Binary32) -> (r: Binary32)
        ensures
            r == self.sum(other),
            r.parts() == arith::sum(Format::Single, self.parts(), other.parts()),
    {
        Binary32::from_parts(arith::plus(Format::Single, self.to_parts(), other.to_parts()))
    }

    pub fn minus(self, other: Binary32) -> (r: Binary32)
        ensures
            r == self.difference(other),
    {
        Binary32::from_parts(arith::minus(Format::Single, self.to_parts(), other.to_parts()))
    }

    pub fn is_below(self, other: Binary32) -> (r: bool)
        ensures
            r == self.below(other),
    {
        arith::is_less(Format::Single, self.to_parts(), other.to_parts())
    }

    /// The number nearest to `n`. Zero is positive.
    pub open spec fn of_signed(n: int) -> Binary32 {
        Binary32::of(
            Parts { neg: n < 0, ..arith::from_integer(Format::Single, arith::magnitude(n)) },
        )
    }

    pub fn from_signed(n: i32) -> (r: Binary32)
        ensures
            r == Binary32::of_signed(n as int),
            !r.nan(),
    {
        let neg: bool = n < 0;
        let size: u64 = if neg {
            (-(n as i64)) as u64
        } else {
            n as u64
        };
        let p: Parts = convert::from_unsigned(Format::Single, size);
        Binary32::from_parts(Parts { neg, code: p.code })
    }

    pub fn from_unsigned(n: u64) -> (r: Binary32)
        ensures
            r == Binary32::of_integer(n as nat),
            !r.nan(),
    {
        Binary32::from_parts(convert::from_unsigned(Format::Single, n))
    }

    /// The binary16 nearest to the number.
    pub open spec fn narrowed(self) -> Binary16 {
        Binary16::of(arith::converted(Format::Single, Format::Half, self.parts()))
    }

    /// The same number as a binary64.
    pub open spec fn widened(self) -> Binary64 {
        Binary64::of(arith::converted(Format::Single, Format::Double, self.parts()))
    }

    /// The number rounded to an integer, halves going away from zero, and kept
    /// within `-limit..=limit`; 0 for NaN.
    pub open spec fn rounded(self, limit: int) -> int {
        convert::rounded(Format::Single, self.parts(), limit)
    }

    /// The binary16 nearest to the number, a tie going to the even code.
    pub fn narrow(self) -> (r: Binary16)
        ensures
            r == self.narrowed(),
            r.parts() == arith::converted(Format::Single, Format::Half, self.parts()),
            r.nan() <==> self.nan(),
    {
        Binary16::from_parts(convert::convert(Format::Single, Format::Half, self.to_parts()))
    }

    /// The same number as a binary64. Every finite binary32 is one.
    pub fn widen(self) -> (r: Binary64)
        ensures
            r == self.widened(),
            r.parts() == arith::converted(Format::Single, Format::Double, self.parts()),
            r.nan() <==> self.nan(),
    {
        Binary64::from_parts(convert::convert(Format::Single, Format::Double, self.to_parts()))
    }

    pub fn round_to_integer(self, limit: i32) -> (r: i32)
        requires
            limit >= 0,
        ensures
            r == self.rounded(limit as int),
    {
        convert::round_to_integer(Format::Single, self.to_parts(), limit)
    }
}

/// A binary64 number: 1 sign bit, 11 exponent bits, 52 mantissa bits.
#[derive(Clone, Copy, PartialEq, Eq, Debug, Structural)]
pub struct Binary64 {
    pub bits: u64,
}

impl Binary64 {
    /// The sign bit and the code that is left.
    pub open spec fn parts(self) -> Parts {
        if self.bits >= 0x8000_0000_0000_0000 {
            Parts { neg: true, code: (self.bits - 0x8000_0000_0000_0000) as u64 }
        } else {
            Parts { neg: false, code: self.bits as u64 }
        }
    }

    /// The bit pattern with these parts.
    pub open spec fn of(p: Parts) -> Binary64 {
        Binary64 { bits: (p.code + if p.neg { 0x8000_0000_0000_0000int } else { 0 }) as u64 }
    }

    pub open spec fn nan(self) -> bool {
        self.parts().nan(Format::Double)
    }

    pub open spec fn infinite(self) -> bool {
        self.parts().infinite(Format::Double)
    }

    pub open spec fn finite(self) -> bool {
        self.parts().finite(Format::Double)
    }

    /// The magnitude of a finite number, in units of the format.
    pub open spec fn units(self) -> nat {
        self.parts().units(Format::Double)
    }

    /// The parts of a pattern made from parts are those parts, and back.
    pub proof fn lemma_parts(self, p: Parts)
        ensures
            self.parts().fits(Format::Double),
            Binary64::of(self.parts()) == self,
            p.fits(Format::Double) ==> Binary64::of(p).parts() == p,
    {
    }

    pub fn to_parts(self) -> (r: Parts)
        ensures
            r == self.parts(),
            r.fits(Format::Double),
    {
        if self.bits >= 0x8000_0000_0000_0000 {
            Parts { neg: true, code: (self.bits - 0x8000_0000_0000_0000) as u64 }
        } else {
            Parts { neg: false, code: self.bits as u64 }
        }
    }

    pub fn from_parts(p: Parts) -> (r: Binary64)
        requires
            p.fits(Format::Double),
        ensures
            r == Binary64::of(p),
            r.parts() == p,
    {
        let code: u64 = p.code as u64;
        if p.neg {
            Binary64 { bits: code + 0x8000_0000_0000_0000 }
        } else {
            Binary64 { bits: code }
        }
    }

    pub fn is_nan(self) -> (r: bool)
        ensures
            r == self.nan(),
    {
        self.to_parts().code > 0x7FF0_0000_0000_0000
    }

    /// The magnitude: the number with its sign bit cleared.
    pub open spec fn magnitude(self) -> Binary64 {
        Binary64::of(Parts { neg: false, ..self.parts() })
    }

    pub open spec fn product(self, other: Binary64) -> Binary64 {
        Binary64::of(arith::product(Format::Double, self.parts(), other.parts()))
    }

    pub open spec fn quotient(self, other: Binary64) -> Binary64 {
        Binary64::of(arith::quotient(Format::Double, self.parts(), other.parts()))
    }

    pub open spec fn sum(self, other: Binary64) -> Binary64 {
        Binary64::of(arith::sum(Format::Double, self.parts(), other.parts()))
    }

    pub open spec fn difference(self, other: Binary64) -> Binary64 {
        let p = other.parts();
        Binary64::of(arith::sum(Format::Double, self.parts(), Parts { neg: !p.neg, ..p }))
    }

    /// Whether `self < other` as numbers.
    pub open spec fn below(self, other: Binary64) -> bool {
        arith::less(Format::Double, self.parts(), other.parts())
    }

    /// The number nearest to `n`.
    pub open spec fn of_integer(n: nat) -> Binary64 {
        Binary64::of(arith::from_integer(Format::Double, n))
    }

    pub fn abs(self) -> (r: Binary64)
        ensures
            r == self.magnitude(),
    {
        let p: Parts = self.to_parts();
        Binary64::from_parts(Parts { neg: false, code: p.code })
    }

    pub fn times(self, other: Binary64) -> (r: Binary64)
        ensures
            r == self.product(other),
            r.parts() == arith::product(Format::Double, self.parts(), other.parts()),
    {
        Binary64::from_parts(arith::multiply(Format::Double, self.to_parts(), other.to_parts()))
    }

    pub fn over(self, other: Binary64) -> (r: Binary64)
        ensures
            r == self.quotient(other),
            r.parts() == arith::quotient(Format::Double, self.parts(), other.parts()),
    {
        Binary64::from_parts(arith::divide(Format::Double, self.to_parts(), other.to_parts()))
    }

    pub fn plus(self, other: Binary64) -> (r: Binary64)
        ensures
            r == self.sum(other),
            r.parts() == arith::sum(Format::Double, self.parts(), other.parts()),
    {
        Binary64::from_parts(arith::plus(Format::Double, self.to_parts(), other.to_parts()))
    }

    pub fn minus(self, other: Binary64) -> (r: Binary64)
        ensures
            r == self.difference(other),
    {
        Binary64::from_parts(arith::minus(Format::Double, self.to_parts(), other.to_parts()))
    }

    pub fn is_below(self, other: Binary64) -> (r: bool)
        ensures
            r == self.below(other),
    {
        arith::is_less(Format::Double, self.to_parts(), other.to_parts())
    }

    pub fn from_unsigned(n: u64) -> (r: Binary64)
        ensures
            r == Binary64::of_integer(n as nat),
            !r.nan(),
    {
        Binary64::from_parts(convert::from_unsigned(Format::Double, n))
    }

    /// An integer that orders numbers as their values do, NaN aside.
    pub open spec fn order_key(self) -> int {
        let p = self.parts();
        if p.neg {
            -(p.code as int)
        } else {
            p.code as int
        }
    }

    pub fn to_order_key(self) -> (r: i128)
        ensures
            r == self.order_key(),
    {
        let p: Parts = self.to_parts();
        if p.neg {
            -(p.code as i128)
        } else {
            p.code as i128
        }
    }

    /// The whole part of the number, kept within the range of `usize`; 0 for NaN.
    pub open spec fn whole(self) -> nat {
        arith::truncated(Format::Double, self.parts(), usize::MAX as nat)
    }

    pub fn to_usize(self) -> (r: usize)
        ensures
            r == self.whole(),
    {
        convert::to_usize(Format::Double, self.to_parts())
    }
}

} // verus!
