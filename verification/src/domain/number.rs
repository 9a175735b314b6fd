//! Double-precision numbers, held by their bit patterns and compared as
//! numbers.

use vstd::prelude::*;

verus! {

/// The bit pattern of positive infinity.
pub const INFINITY_BITS: u64 = 0x7ff0_0000_0000_0000;

/// The sign bit.
pub const SIGN_BIT: u64 = 0x8000_0000_0000_0000;

/// A double-precision number by its IEEE 754 bit pattern. Two values are
/// equal as data when their patterns are; the methods compare them as
/// numbers.
#[derive(Debug, Clone, Copy, PartialEq, Eq, Structural)]
pub struct Double {
    pub bits: u64,
}

impl Double {
    /// The pattern without its sign.
    pub open spec fn magnitude(self) -> int {
        self.bits as int % SIGN_BIT as int
    }

    pub open spec fn negative(self) -> bool {
        self.bits >= SIGN_BIT
    }

    /// Not a number.
    pub open spec fn nan(self) -> bool {
        self.magnitude() > INFINITY_BITS
    }

    /// Neither infinite nor not a number.
    pub open spec fn finite(self) -> bool {
        self.magnitude() < INFINITY_BITS
    }

    /// The place of a number in the order of numbers. Both zeros share one.
    pub open spec fn place(self) -> int {
        if self.negative() {
            -self.magnitude()
        } else {
            self.magnitude()
        }
    }

    /// Smaller, as numbers. Nothing is smaller or larger than what is not a
    /// number.
    pub open spec fn lt(self, other: Double) -> bool {
        !self.nan() && !other.nan() && self.place() < other.place()
    }

    /// Smaller or equal, as numbers.
    pub open spec fn le(self, other: Double) -> bool {
        !self.nan() && !other.nan() && self.place() <= other.place()
    }

    /// Equal, as numbers.
    pub open spec fn same(self, other: Double) -> bool {
        !self.nan() && !other.nan() && self.place() == other.place()
    }

    /// The larger of two numbers, or the one that is a number.
    pub open spec fn larger(self, other: Double) -> Double {
        if self.nan() {
            other
        } else if other.nan() {
            self
        } else if self.place() < other.place() {
            other
        } else {
            self
        }
    }

    /// The smaller of two numbers, or the one that is a number.
    pub open spec fn smaller(self, other: Double) -> Double {
        if self.nan() {
            other
        } else if other.nan() {
            self
        } else if other.place() < self.place() {
            other
        } else {
            self
        }
    }

    pub fn from_bits(bits: u64) -> (r: Double)
        ensures
            r.bits == bits,
    {
        Double { bits }
    }

    fn unsigned(self) -> (r: u64)
        ensures
            r == self.magnitude(),
    {
        if self.bits >= SIGN_BIT {
            self.bits - SIGN_BIT
        } else {
            self.bits
        }
    }

    pub fn is_nan(self) -> (r: bool)
        ensures
            r == self.nan(),
    {
        self.unsigned() > INFINITY_BITS
    }

    pub fn is_finite(self) -> (r: bool)
        ensures
            r == self.finite(),
    {
        self.unsigned() < INFINITY_BITS
    }

    /// Whether this is a number above zero.
    pub fn is_positive(self) -> (r: bool)
        ensures
            r == (!self.nan() && self.place() > 0),
    {
        self.bits > 0 && self.bits <= INFINITY_BITS
    }

    fn position(self) -> (r: i64)
        ensures
            r == self.place(),
    {
        let size: i64 = self.unsigned() as i64;
        if self.bits >= SIGN_BIT {
            -size
        } else {
            size
        }
    }

    pub fn less_than(self, other: Double) -> (r: bool)
        ensures
            r == self.lt(other),
    {
        !self.is_nan() && !other.is_nan() && self.position() < other.position()
    }

    pub fn at_most(self, other: Double) -> (r: bool)
        ensures
            r == self.le(other),
    {
        !self.is_nan() && !other.is_nan() && self.position() <= other.position()
    }

    pub fn equals(self, other: Double) -> (r: bool)
        ensures
            r == self.same(other),
    {
        !self.is_nan() && !other.is_nan() && self.position() == other.position()
    }

    pub fn max(self, other: Double) -> (r: Double)
        ensures
            r == self.larger(other),
    {
        if self.is_nan() || self.less_than(other) {
            other
        } else {
            self
        }
    }

    pub fn min(self, other: Double) -> (r: Double)
        ensures
            r == self.smaller(other),
    {
        if self.is_nan() || other.less_than(self) {
            other
        } else {
            self
        }
    }
}

/// One step of arithmetic. The library plans the steps; whoever calls it hands
/// in a function that takes them.
#[derive(Debug, Clone, Copy, PartialEq, Eq, Structural)]
pub enum Calc {
    /// What a sum starts from.
    Start,
    /// A whole number as a number.
    Count(usize),
    Add(Double, Double),
    Subtract(Double, Double),
    Multiply(Double, Double),
    Divide(Double, Double),
    Absolute(Double),
    Negate(Double),
}

/// `calc` takes every step.
pub open spec fn calculates<C: Fn(Calc) -> Double>(calc: C) -> bool {
    forall|step: Calc| call_requires(calc, (step,))
}

/// `calc` computes the function `f`.
pub open spec fn computes<C: Fn(Calc) -> Double>(calc: C, f: spec_fn(Calc) -> Double) -> bool {
    forall|step: Calc, r: Double| #[trigger] call_ensures(calc, (step,), r) ==> r == f(step)
}

impl Double {
    /// Of two numbers exactly one is smaller, or they are the same; never both.
    pub proof fn order_is_strict(self, other: Double)
        ensures
            !(self.lt(other) && other.lt(self)),
            !(self.lt(other) && self.same(other)),
            !self.lt(self),
            self.le(other) <==> self.lt(other) || self.same(other),
            self.same(other) <==> other.same(self),
            !self.nan() && !other.nan() ==> self.lt(other) || other.lt(self) || self.same(other),
            self.nan() || other.nan() ==> !self.lt(other) && !self.same(other) && !self.le(other),
    {
    }

    /// The order of numbers is that of their patterns: the larger pattern among
    /// the positive, the smaller among the negative; a negative number comes
    /// before a positive one, and the two zeros are one number. A pattern past
    /// that of an infinity is not a number.
    pub proof fn order_follows_the_patterns(self, other: Double)
        ensures
            self.nan() <==> 0x7ff0_0000_0000_0000 < self.bits < 0x8000_0000_0000_0000 || self.bits
                > 0xfff0_0000_0000_0000,
            self.finite() <==> self.bits < 0x7ff0_0000_0000_0000 || 0x8000_0000_0000_0000
                <= self.bits < 0xfff0_0000_0000_0000,
            !self.nan() && !other.nan() ==> {
                let a = self.bits;
                let b = other.bits;
                let sign: u64 = 0x8000_0000_0000_0000;
                &&& a < sign && b < sign ==> (self.lt(other) <==> a < b)
                &&& a >= sign && b >= sign ==> (self.lt(other) <==> a > b)
                &&& a >= sign && b < sign ==> (self.lt(other) <==> !(a == sign && b == 0))
                &&& a < sign && b >= sign ==> !self.lt(other)
                &&& self.same(other) <==> a == b || (a == 0 && b == sign) || (a == sign && b == 0)
            },
    {
    }

    /// The larger of two is one of them and no smaller than either; it is not a
    /// number only where neither is. So too the smaller.
    pub proof fn extremes_are_one_of_the_two(self, other: Double)
        ensures
            self.larger(other) == self || self.larger(other) == other,
            !self.larger(other).lt(self) && !self.larger(other).lt(other),
            self.larger(other).nan() <==> self.nan() && other.nan(),
            self.smaller(other) == self || self.smaller(other) == other,
            !self.lt(self.smaller(other)) && !other.lt(self.smaller(other)),
            self.smaller(other).nan() <==> self.nan() && other.nan(),
    {
    }
}

} // verus!
