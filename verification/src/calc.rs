//! Arithmetic on measured values.
//!
//! The library decides which steps of arithmetic are taken on which values, in which
//! order, and what follows from the results. The steps themselves are taken by a
//! function of the caller's. Contracts say what comes out for whatever such a
//! function computes, as long as one step on the same values always gives the same
//! result.

use crate::double::Double;
use vstd::prelude::*;

verus! {

/// One step of arithmetic.
#[derive(Debug, Clone, Copy, PartialEq, Eq, Structural)]
pub enum Calc {
    /// A count as a number.
    Count(u64),
    /// The quotient of two whole numbers.
    Ratio(i32, i32),
    /// The sum.
    Add(Double, Double),
    /// The difference.
    Sub(Double, Double),
    /// The product.
    Mul(Double, Double),
    /// The quotient.
    Div(Double, Double),
    /// The non-negative remainder of a division.
    Remainder(Double, Double),
    /// The square.
    Square(Double),
    /// The square root.
    Sqrt(Double),
    /// The exponential function.
    Exp(Double),
    /// The nearest whole number.
    Round(Double),
    /// Degrees as radians.
    Radians(Double),
    /// Radians as degrees.
    Degrees(Double),
    /// The sine.
    Sin(Double),
    /// The cosine.
    Cos(Double),
    /// The angle of the point with this ordinate and abscissa.
    Atan2(Double, Double),
}

/// What each step of arithmetic gives.
pub struct Rules {
    pub result: spec_fn(Calc) -> Double,
}

impl Rules {
    /// A count as a number.
    pub open spec fn count(self, n: int) -> Double {
        (self.result)(Calc::Count(n as u64))
    }

    /// The quotient of two whole numbers.
    pub open spec fn ratio(self, over: int, under: int) -> Double {
        (self.result)(Calc::Ratio(over as i32, under as i32))
    }

    /// The sum.
    pub open spec fn add(self, a: Double, b: Double) -> Double {
        (self.result)(Calc::Add(a, b))
    }

    /// The difference.
    pub open spec fn sub(self, a: Double, b: Double) -> Double {
        (self.result)(Calc::Sub(a, b))
    }

    /// The product.
    pub open spec fn mul(self, a: Double, b: Double) -> Double {
        (self.result)(Calc::Mul(a, b))
    }

    /// The quotient.
    pub open spec fn div(self, a: Double, b: Double) -> Double {
        (self.result)(Calc::Div(a, b))
    }

    /// The non-negative remainder of a division.
    pub open spec fn remainder(self, a: Double, b: Double) -> Double {
        (self.result)(Calc::Remainder(a, b))
    }

    /// The square.
    pub open spec fn square(self, a: Double) -> Double {
        (self.result)(Calc::Square(a))
    }

    /// The square root.
    pub open spec fn sqrt(self, a: Double) -> Double {
        (self.result)(Calc::Sqrt(a))
    }

    /// The exponential function.
    pub open spec fn exp(self, a: Double) -> Double {
        (self.result)(Calc::Exp(a))
    }

    /// The nearest whole number.
    pub open spec fn round(self, a: Double) -> Double {
        (self.result)(Calc::Round(a))
    }

    /// Degrees as radians.
    pub open spec fn radians(self, a: Double) -> Double {
        (self.result)(Calc::Radians(a))
    }

    /// Radians as degrees.
    pub open spec fn degrees(self, a: Double) -> Double {
        (self.result)(Calc::Degrees(a))
    }

    /// The sine.
    pub open spec fn sin(self, a: Double) -> Double {
        (self.result)(Calc::Sin(a))
    }

    /// The cosine.
    pub open spec fn cos(self, a: Double) -> Double {
        (self.result)(Calc::Cos(a))
    }

    /// The angle of the point with this ordinate and abscissa.
    pub open spec fn atan2(self, y: Double, x: Double) -> Double {
        (self.result)(Calc::Atan2(y, x))
    }
}

/// Arithmetic, with the function that takes its steps.
pub struct Arith<A: Fn(Calc) -> Double> {
    pub step: A,
}

impl<A: Fn(Calc) -> Double> Arith<A> {
    /// Tells whether the function takes every step.
    pub open spec fn complete(self) -> bool {
        forall|step: Calc| call_requires(self.step, (step,))
    }

    /// Tells whether the function takes each step as `rules` say.
    pub open spec fn follows(self, rules: Rules) -> bool {
        forall|step: Calc, r: Double|
            call_ensures(self.step, (step,), r) ==> r == (rules.result)(step)
    }

    /// A count as a number.
    pub fn count(&self, n: u64) -> (r: Double)
        requires
            self.complete(),
        ensures
            forall|rules: Rules| #[trigger] self.follows(rules) ==> r == rules.count(n as int),
    {
        (self.step)(Calc::Count(n))
    }

    /// The quotient of two whole numbers.
    pub fn ratio(&self, over: i32, under: i32) -> (r: Double)
        requires
            self.complete(),
        ensures
            forall|rules: Rules| #[trigger]
                self.follows(rules) ==> r == rules.ratio(over as int, under as int),
    {
        (self.step)(Calc::Ratio(over, under))
    }

    /// The sum.
    pub fn add(&self, a: Double, b: Double) -> (r: Double)
        requires
            self.complete(),
        ensures
            forall|rules: Rules| #[trigger] self.follows(rules) ==> r == rules.add(a, b),
    {
        (self.step)(Calc::Add(a, b))
    }

    /// The difference.
    pub fn sub(&self, a: Double, b: Double) -> (r: Double)
        requires
            self.complete(),
        ensures
            forall|rules: Rules| #[trigger] self.follows(rules) ==> r == rules.sub(a, b),
    {
        (self.step)(Calc::Sub(a, b))
    }

    /// The product.
    pub fn mul(&self, a: Double, b: Double) -> (r: Double)
        requires
            self.complete(),
        ensures
            forall|rules: Rules| #[trigger] self.follows(rules) ==> r == rules.mul(a, b),
    {
        (self.step)(Calc::Mul(a, b))
    }

    /// The quotient.
    pub fn div(&self, a: Double, b: Double) -> (r: Double)
        requires
            self.complete(),
        ensures
            forall|rules: Rules| #[trigger] self.follows(rules) ==> r == rules.div(a, b),
    {
        (self.step)(Calc::Div(a, b))
    }

    /// The non-negative remainder of a division.
    pub fn remainder(&self, a: Double, b: Double) -> (r: Double)
        requires
            self.complete(),
        ensures
            forall|rules: Rules| #[trigger] self.follows(rules) ==> r == rules.remainder(a, b),
    {
        (self.step)(Calc::Remainder(a, b))
    }

    /// The square.
    pub fn square(&self, a: Double) -> (r: Double)
        requires
            self.complete(),
        ensures
            forall|rules: Rules| #[trigger] self.follows(rules) ==> r == rules.square(a),
    {
        (self.step)(Calc::Square(a))
    }

    /// The square root.
    pub fn sqrt(&self, a: Double) -> (r: Double)
        requires
            self.complete(),
        ensures
            forall|rules: Rules| #[trigger] self.follows(rules) ==> r == rules.sqrt(a),
    {
        (self.step)(Calc::Sqrt(a))
    }

    /// The exponential function.
    pub fn exp(&self, a: Double) -> (r: Double)
        requires
            self.complete(),
        ensures
            forall|rules: Rules| #[trigger] self.follows(rules) ==> r == rules.exp(a),
    {
        (self.step)(Calc::Exp(a))
    }

    /// The nearest whole number.
    pub fn round(&self, a: Double) -> (r: Double)
        requires
            self.complete(),
        ensures
            forall|rules: Rules| #[trigger] self.follows(rules) ==> r == rules.round(a),
    {
        (self.step)(Calc::Round(a))
    }

    /// Degrees as radians.
    pub fn radians(&self, a: Double) -> (r: Double)
        requires
            self.complete(),
        ensures
            forall|rules: Rules| #[trigger] self.follows(rules) ==> r == rules.radians(a),
    {
        (self.step)(Calc::Radians(a))
    }

    /// Radians as degrees.
    pub fn degrees(&self, a: Double) -> (r: Double)
        requires
            self.complete(),
        ensures
            forall|rules: Rules| #[trigger] self.follows(rules) ==> r == rules.degrees(a),
    {
        (self.step)(Calc::Degrees(a))
    }

    /// The sine.
    pub fn sin(&self, a: Double) -> (r: Double)
        requires
            self.complete(),
        ensures
            forall|rules: Rules| #[trigger] self.follows(rules) ==> r == rules.sin(a),
    {
        (self.step)(Calc::Sin(a))
    }

    /// The cosine.
    pub fn cos(&self, a: Double) -> (r: Double)
        requires
            self.complete(),
        ensures
            forall|rules: Rules| #[trigger] self.follows(rules) ==> r == rules.cos(a),
    {
        (self.step)(Calc::Cos(a))
    }

    /// The angle of the point with this ordinate and abscissa.
    pub fn atan2(&self, y: Double, x: Double) -> (r: Double)
        requires
            self.complete(),
        ensures
            forall|rules: Rules| #[trigger] self.follows(rules) ==> r == rules.atan2(y, x),
    {
        (self.step)(Calc::Atan2(y, x))
    }
}

} // verus!
