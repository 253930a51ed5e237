//! The arithmetic that rounds.
//!
//! The engine does not add, multiply or take sines itself: it is handed a
//! function that does, an `Alu`. Nothing is taken for granted about that
//! function. What every routine leaves intact holds whatever it returns, and
//! what every routine computes is stated for each `Sem`, each reading of the
//! operations as mathematical functions, that the function lives up to.

use crate::consts::F1;
use crate::word;
use crate::word::Bits;
use vstd::prelude::*;

verus! {

/// An operation on binary32 values. Those with one operand ignore the second.
#[derive(Clone, Copy, Debug, PartialEq, Eq)]
pub enum Op {
    Add,
    Sub,
    Mul,
    Div,
    /// First operand to the power of the second.
    Pow,
    Sin,
    Asin,
    Tanh,
    Exp,
    Sqrt,
}

/// A reading of the operations as functions on patterns.
pub struct Sem {
    pub apply: spec_fn(Op, Bits, Bits) -> Bits,
}

impl Sem {
    pub open spec fn add(self, x: Bits, y: Bits) -> Bits {
        (self.apply)(Op::Add, x, y)
    }

    pub open spec fn sub(self, x: Bits, y: Bits) -> Bits {
        (self.apply)(Op::Sub, x, y)
    }

    pub open spec fn mul(self, x: Bits, y: Bits) -> Bits {
        (self.apply)(Op::Mul, x, y)
    }

    pub open spec fn div(self, x: Bits, y: Bits) -> Bits {
        (self.apply)(Op::Div, x, y)
    }

    pub open spec fn pow(self, x: Bits, y: Bits) -> Bits {
        (self.apply)(Op::Pow, x, y)
    }

    pub open spec fn sin(self, x: Bits) -> Bits {
        (self.apply)(Op::Sin, x, 0)
    }

    pub open spec fn asin(self, x: Bits) -> Bits {
        (self.apply)(Op::Asin, x, 0)
    }

    pub open spec fn tanh(self, x: Bits) -> Bits {
        (self.apply)(Op::Tanh, x, 0)
    }

    pub open spec fn exp(self, x: Bits) -> Bits {
        (self.apply)(Op::Exp, x, 0)
    }

    pub open spec fn sqrt(self, x: Bits) -> Bits {
        (self.apply)(Op::Sqrt, x, 0)
    }

    /// `a + (b - a) * k`.
    pub open spec fn lerp(self, a: Bits, b: Bits, k: Bits) -> Bits {
        self.add(a, self.mul(self.sub(b, a), k))
    }

    /// `a + k * (b - a)`.
    pub open spec fn chase(self, a: Bits, b: Bits, k: Bits) -> Bits {
        self.add(a, self.mul(k, self.sub(b, a)))
    }

    /// A phase moved on by `step`, one turn taken off where it reaches one.
    pub open spec fn turn(self, phase: Bits, step: Bits) -> Bits {
        let p = self.add(phase, step);
        if word::at_least(p, F1) {
            self.sub(p, F1)
        } else {
            p
        }
    }
}

/// The function that performs the operations.
pub struct Alu<F> {
    pub op: F,
}

impl<F: Fn(Op, Bits, Bits) -> Bits> Alu<F> {
    /// The function takes every operation on every pair of patterns.
    pub open spec fn ready(&self) -> bool {
        forall|op: Op, x: Bits, y: Bits| call_requires(self.op, (op, x, y))
    }

    /// Whatever the function returns is what `m` says. A function that returns
    /// different patterns for the same operation on the same operands meets
    /// this with no `m`: where a machine leaves the bits of a result that is
    /// not a number open, the function must settle on one pattern for it.
    pub open spec fn computes(&self, m: Sem) -> bool {
        forall|op: Op, x: Bits, y: Bits, r: Bits| #[trigger]
            call_ensures(self.op, (op, x, y), r) ==> r == (m.apply)(op, x, y)
    }

    fn apply(&self, op: Op, x: Bits, y: Bits) -> (r: Bits)
        requires
            self.ready(),
        ensures
            forall|m: Sem| #[trigger] self.computes(m) ==> r == (m.apply)(op, x, y),
    {
        (self.op)(op, x, y)
    }

    pub fn add(&self, x: Bits, y: Bits) -> (r: Bits)
        requires
            self.ready(),
        ensures
            forall|m: Sem| #[trigger] self.computes(m) ==> r == m.add(x, y),
    {
        self.apply(Op::Add, x, y)
    }

    pub fn sub(&self, x: Bits, y: Bits) -> (r: Bits)
        requires
            self.ready(),
        ensures
            forall|m: Sem| #[trigger] self.computes(m) ==> r == m.sub(x, y),
    {
        self.apply(Op::Sub, x, y)
    }

    pub fn mul(&self, x: Bits, y: Bits) -> (r: Bits)
        requires
            self.ready(),
        ensures
            forall|m: Sem| #[trigger] self.computes(m) ==> r == m.mul(x, y),
    {
        self.apply(Op::Mul, x, y)
    }

    pub fn div(&self, x: Bits, y: Bits) -> (r: Bits)
        requires
            self.ready(),
        ensures
            forall|m: Sem| #[trigger] self.computes(m) ==> r == m.div(x, y),
    {
        self.apply(Op::Div, x, y)
    }

    pub fn pow(&self, x: Bits, y: Bits) -> (r: Bits)
        requires
            self.ready(),
        ensures
            forall|m: Sem| #[trigger] self.computes(m) ==> r == m.pow(x, y),
    {
        self.apply(Op::Pow, x, y)
    }

    pub fn sin(&self, x: Bits) -> (r: Bits)
        requires
            self.ready(),
        ensures
            forall|m: Sem| #[trigger] self.computes(m) ==> r == m.sin(x),
    {
        self.apply(Op::Sin, x, 0)
    }

    pub fn asin(&self, x: Bits) -> (r: Bits)
        requires
            self.ready(),
        ensures
            forall|m: Sem| #[trigger] self.computes(m) ==> r == m.asin(x),
    {
        self.apply(Op::Asin, x, 0)
    }

    pub fn tanh(&self, x: Bits) -> (r: Bits)
        requires
            self.ready(),
        ensures
            forall|m: Sem| #[trigger] self.computes(m) ==> r == m.tanh(x),
    {
        self.apply(Op::Tanh, x, 0)
    }

    pub fn exp(&self, x: Bits) -> (r: Bits)
        requires
            self.ready(),
        ensures
            forall|m: Sem| #[trigger] self.computes(m) ==> r == m.exp(x),
    {
        self.apply(Op::Exp, x, 0)
    }

    pub fn sqrt(&self, x: Bits) -> (r: Bits)
        requires
            self.ready(),
        ensures
            forall|m: Sem| #[trigger] self.computes(m) ==> r == m.sqrt(x),
    {
        self.apply(Op::Sqrt, x, 0)
    }

    pub fn lerp(&self, a: Bits, b: Bits, k: Bits) -> (r: Bits)
        requires
            self.ready(),
        ensures
            forall|m: Sem| #[trigger] self.computes(m) ==> r == m.lerp(a, b, k),
    {
        let gap = self.sub(b, a);
        let part = self.mul(gap, k);
        self.add(a, part)
    }

    pub fn chase(&self, a: Bits, b: Bits, k: Bits) -> (r: Bits)
        requires
            self.ready(),
        ensures
            forall|m: Sem| #[trigger] self.computes(m) ==> r == m.chase(a, b, k),
    {
        let gap = self.sub(b, a);
        let part = self.mul(k, gap);
        self.add(a, part)
    }

    pub fn turn(&self, phase: Bits, step: Bits) -> (r: Bits)
        requires
            self.ready(),
        ensures
            forall|m: Sem| #[trigger] self.computes(m) ==> r == m.turn(phase, step),
    {
        let p = self.add(phase, step);
        if word::ge(p, F1) {
            self.sub(p, F1)
        } else {
            p
        }
    }
}

} // verus!
