//! A hardware simulator for Nand2Tetris-style chip descriptions: a tokeniser
//! for the textual HDL syntax and an evaluation engine for hierarchical chips
//! with combinational and clocked (tick/tock) disciplines.

pub mod chip;
pub mod tokeniser;

use vstd::prelude::*;

verus! {

pub type Pin = bool;

/// A fixed two-input and-gate with its output kept in step with its inputs.
pub struct And2 {
    in_a: Pin,
    in_b: Pin,
    out: Pin,
}

impl And2 {
    pub closed spec fn spec_in_a(&self) -> Pin {
        self.in_a
    }

    pub closed spec fn spec_in_b(&self) -> Pin {
        self.in_b
    }

    pub closed spec fn spec_out(&self) -> Pin {
        self.out
    }

    pub fn new(in_a: Pin, in_b: Pin) -> (r: And2)
        ensures
            r.spec_in_a() == in_a,
            r.spec_in_b() == in_b,
            r.spec_out() == (in_a && in_b),
    {
        And2 { in_a, in_b, out: in_a && in_b }
    }

    pub fn in_a(&self) -> (r: Pin)
        ensures
            r == self.spec_in_a(),
    {
        self.in_a
    }

    pub fn in_b(&self) -> (r: Pin)
        ensures
            r == self.spec_in_b(),
    {
        self.in_b
    }

    pub fn out(&self) -> (r: Pin)
        ensures
            r == self.spec_out(),
    {
        self.out
    }

    pub fn set_input(&mut self, a: Pin, b: Pin) -> (r: Pin)
        ensures
            final(self).spec_in_a() == a,
            final(self).spec_in_b() == b,
            final(self).spec_out() == (a && b),
            r == (a && b),
    {
        self.in_a = a;
        self.in_b = b;
        self.out = a && b;
        self.out
    }
}

} // verus!

