//! Arithmetic in GF(2), the field with two elements.

use vstd::prelude::*;

verus! {

/// An element of GF(2), carried as a `bool`: `false` is 0 and `true` is 1.
/// Addition is exclusive or, multiplication is conjunction.
#[derive(Debug, Clone, Copy, PartialEq, Eq, Structural)]
pub struct Z2(pub bool);

impl Z2 {
    /// The additive identity, 0.
    pub fn zero() -> (r: Z2)
        ensures
            r.0 == false,
    {
        Z2(false)
    }

    /// The multiplicative identity, 1.
    pub fn one() -> (r: Z2)
        ensures
            r.0 == true,
    {
        Z2(true)
    }

    /// Whether this element is 0.
    pub fn is_zero(&self) -> (r: bool)
        ensures
            r == !self.0,
    {
        !self.0
    }

    /// Addition in GF(2): exclusive or of the carriers.
    pub fn add(self, other: Z2) -> (r: Z2)
        ensures
            r.0 == (self.0 != other.0),
    {
        Z2(self.0 != other.0)
    }

    /// In-place addition in GF(2).
    pub fn add_assign(&mut self, rhs: Z2)
        ensures
            final(self).0 == (old(self).0 != rhs.0),
    {
        self.0 = self.0 != rhs.0;
    }

    /// In-place subtraction in GF(2); the field has characteristic two, so
    /// subtraction coincides with addition.
    pub fn sub_assign(&mut self, rhs: Z2)
        ensures
            final(self).0 == (old(self).0 != rhs.0),
    {
        self.0 = self.0 != rhs.0;
    }

    /// Multiplication in GF(2): conjunction of the carriers.
    pub fn mul(self, other: Z2) -> (r: Z2)
        ensures
            r.0 == (self.0 && other.0),
    {
        Z2(self.0 && other.0)
    }

    /// In-place multiplication in GF(2).
    pub fn mul_assign(&mut self, rhs: Z2)
        ensures
            final(self).0 == (old(self).0 && rhs.0),
    {
        self.0 = self.0 && rhs.0;
    }

    /// Division in GF(2). The only nonzero divisor is 1, so the quotient is
    /// the dividend itself; dividing by 0 is ruled out.
    pub fn div(self, rhs: Z2) -> (r: Z2)
        requires
            rhs.0,
        ensures
            r == self,
    {
        self
    }

    /// The additive shift by 1: maps 0 to 1 and 1 to 0.
    pub fn not(self) -> (r: Z2)
        ensures
            r.0 == !self.0,
    {
        Z2(!self.0)
    }
}

} // verus!
