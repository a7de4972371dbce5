//! Measured values, held as the bit patterns of double-precision numbers.
//!
//! Choosing between measurements takes no arithmetic, only the order of the
//! values, and that order can be read off the bits: the top bit is the sign and
//! the other bits, as an integer, grow with the magnitude. Where a value has to
//! be computed, read from text or written out, the caller supplies the function
//! that does it, and the contracts say what happens for whatever that function
//! computes.

use vstd::prelude::*;

verus! {

/// The sign bit.
pub const SIGN: u64 = 0x8000_0000_0000_0000;

/// The bits of positive infinity. Greater magnitudes are no numbers.
pub const INFINITE: u64 = 0x7ff0_0000_0000_0000;

/// A double-precision number.
#[derive(Debug, Clone, Copy, PartialEq, Eq, Structural)]
pub struct Double {
    pub bits: u64,
}

/// The number zero.
pub open spec fn zero() -> Double {
    Double { bits: 0 }
}

/// The number zero.
pub fn nothing() -> (r: Double)
    ensures
        r == zero(),
{
    Double { bits: 0 }
}

impl Double {
    /// Tells whether the sign bit is set.
    pub open spec fn negative(self) -> bool {
        self.bits >= SIGN
    }

    /// The bits without the sign bit.
    pub open spec fn magnitude(self) -> int {
        if self.negative() {
            self.bits - SIGN
        } else {
            self.bits as int
        }
    }

    /// Tells whether this is no number.
    pub open spec fn nan(self) -> bool {
        self.magnitude() > INFINITE
    }

    /// Tells whether this is a number and not infinite.
    pub open spec fn finite(self) -> bool {
        self.magnitude() < INFINITE
    }

    /// The place of a number among the numbers. Both zeros share one place.
    pub open spec fn place(self) -> int {
        if self.negative() {
            -self.magnitude()
        } else {
            self.magnitude()
        }
    }

    /// The place in the total order of all bit patterns. Negative zero comes
    /// right before positive zero, and what is no number stands at the ends.
    pub open spec fn total_place(self) -> int {
        if self.negative() {
            -self.magnitude() - 1
        } else {
            self.magnitude()
        }
    }

    /// Tells whether both are numbers and this one is the smaller.
    pub open spec fn below(self, other: Double) -> bool {
        !self.nan() && !other.nan() && self.place() < other.place()
    }

    /// Tells whether both are numbers and this one is not the greater.
    pub open spec fn at_most(self, other: Double) -> bool {
        !self.nan() && !other.nan() && self.place() <= other.place()
    }

    /// The smaller of two numbers. What is no number gives way to the other.
    pub open spec fn lesser(self, other: Double) -> Double {
        if self.nan() || other.below(self) {
            other
        } else {
            self
        }
    }

    /// The greater of two numbers. What is no number gives way to the other.
    pub open spec fn greater(self, other: Double) -> Double {
        if self.nan() || self.below(other) {
            other
        } else {
            self
        }
    }

    /// Tells whether both are numbers and equal. The two zeros are.
    pub open spec fn equals(self, other: Double) -> bool {
        !self.nan() && !other.nan() && self.place() == other.place()
    }

    /// The nearest value between two bounds. What is no number stays as it is.
    pub open spec fn clamped(self, low: Double, high: Double) -> Double {
        if self.below(low) {
            low
        } else if high.below(self) {
            high
        } else {
            self
        }
    }

    /// The value with its sign turned.
    pub open spec fn turned(self) -> Double {
        if self.negative() {
            Double { bits: (self.bits - SIGN) as u64 }
        } else {
            Double { bits: (self.bits + SIGN) as u64 }
        }
    }

    /// The value without its sign.
    pub open spec fn unsigned(self) -> Double {
        if self.negative() {
            self.turned()
        } else {
            self
        }
    }

    fn is_negative(&self) -> (yes: bool)
        ensures
            yes == self.negative(),
    {
        self.bits >= SIGN
    }

    fn size(&self) -> (size: u64)
        ensures
            size == self.magnitude(),
    {
        if self.bits >= SIGN {
            self.bits - SIGN
        } else {
            self.bits
        }
    }

    /// Tells whether this is no number.
    pub fn is_nan(&self) -> (yes: bool)
        ensures
            yes == self.nan(),
    {
        self.size() > INFINITE
    }

    /// Tells whether this is a number and not infinite.
    pub fn is_finite(&self) -> (yes: bool)
        ensures
            yes == self.finite(),
    {
        self.size() < INFINITE
    }

    /// Tells whether both are numbers and this one is the smaller.
    pub fn is_below(&self, other: &Double) -> (yes: bool)
        ensures
            yes == self.below(*other),
    {
        if self.is_nan() || other.is_nan() {
            return false;
        }
        match (self.is_negative(), other.is_negative()) {
            (false, false) => self.size() < other.size(),
            (true, true) => other.size() < self.size(),
            (true, false) => self.size() > 0 || other.size() > 0,
            (false, true) => false,
        }
    }

    /// Tells whether both are numbers and this one is not the greater.
    pub fn is_at_most(&self, other: &Double) -> (yes: bool)
        ensures
            yes == self.at_most(*other),
    {
        !self.is_nan() && !other.is_nan() && !other.is_below(self)
    }

    /// Tells whether this one comes after the other in the total order.
    pub fn is_after(&self, other: &Double) -> (yes: bool)
        ensures
            yes == (self.total_place() > other.total_place()),
    {
        match (self.is_negative(), other.is_negative()) {
            (false, false) => self.size() > other.size(),
            (true, true) => other.size() > self.size(),
            (true, false) => false,
            (false, true) => true,
        }
    }

    /// Tells whether both are numbers and equal. The two zeros are.
    pub fn is_equal(&self, other: &Double) -> (yes: bool)
        ensures
            yes == self.equals(*other),
    {
        self.is_at_most(other) && other.is_at_most(self)
    }

    /// The nearest value between two bounds. What is no number stays as it is.
    pub fn clamp(self, low: Double, high: Double) -> (r: Double)
        ensures
            r == self.clamped(low, high),
    {
        if self.is_below(&low) {
            low
        } else if high.is_below(&self) {
            high
        } else {
            self
        }
    }

    /// The value with its sign turned.
    pub fn neg(self) -> (r: Double)
        ensures
            r == self.turned(),
    {
        if self.bits >= SIGN {
            Double { bits: self.bits - SIGN }
        } else {
            Double { bits: self.bits + SIGN }
        }
    }

    /// The value without its sign.
    pub fn abs(self) -> (r: Double)
        ensures
            r == self.unsigned(),
    {
        if self.bits >= SIGN {
            Double { bits: self.bits - SIGN }
        } else {
            self
        }
    }

    /// The smaller of two numbers.
    pub fn min(self, other: Double) -> (least: Double)
        ensures
            least == self.lesser(other),
    {
        if self.is_nan() || other.is_below(&self) {
            other
        } else {
            self
        }
    }

    /// The greater of two numbers.
    pub fn max(self, other: Double) -> (most: Double)
        ensures
            most == self.greater(other),
    {
        if self.is_nan() || self.is_below(&other) {
            other
        } else {
            self
        }
    }
}

/// Tells whether a function reads all texts.
pub open spec fn reads_all<R: Fn(&str) -> Option<Double>>(read: R) -> bool {
    forall|t: &str| call_requires(read, (t,))
}

/// Tells whether `read` reads each text as `meaning` says.
pub open spec fn reads_as<R: Fn(&str) -> Option<Double>>(
    read: R,
    meaning: spec_fn(Seq<char>) -> Option<Double>,
) -> bool {
    forall|t: &str, r: Option<Double>| call_ensures(read, (t,), r) ==> r == meaning(t@)
}

/// Tells whether a function writes all numbers.
pub open spec fn writes_all<S: Fn(Double, u8) -> String>(show: S) -> bool {
    forall|x: Double, decimals: u8| call_requires(show, (x, decimals))
}

/// Tells whether `show` writes a value, with so many decimals, as `meaning` says.
pub open spec fn shows_as<S: Fn(Double, u8) -> String>(
    show: S,
    meaning: spec_fn(Double, u8) -> Seq<char>,
) -> bool {
    forall|x: Double, decimals: u8, r: String|
        call_ensures(show, (x, decimals), r) ==> r@ == meaning(x, decimals)
}

/// Of two numbers, one is below the other or each is at most the other.
pub proof fn lemma_numbers_are_ordered(a: Double, b: Double)
    requires
        !a.nan(),
        !b.nan(),
    ensures
        a.below(b) || b.at_most(a),
        !(a.below(b) && b.at_most(a)),
{
}

/// The lesser of two values is one of them, and no number among them is below it.
pub proof fn lemma_lesser_is_least(a: Double, b: Double)
    ensures
        a.lesser(b) == a || a.lesser(b) == b,
        !a.nan() ==> a.lesser(b).at_most(a),
        !b.nan() ==> a.lesser(b).at_most(b),
{
}

} // verus!
