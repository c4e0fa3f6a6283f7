//! A fixed-width signed integer with ordinary machine-width wrapping
//! arithmetic and bitwise operators. A convenience type beside the
//! arbitrary-precision core, not used by it.

use vstd::prelude::*;
use vstd::wrapping::i64_specs;

verus! {

/// A wrapped machine-width signed integer.
#[derive(Debug, Clone, Copy, PartialEq, Eq, Structural)]
pub struct Int {
    pub value: i64,
}

impl Int {
    /// Wraps a machine integer.
    pub fn new(value: i64) -> (r: Self)
        ensures
            r.value == value,
    {
        Int { value }
    }

    /// The wrapped machine integer.
    pub fn get(&self) -> (r: i64)
        ensures
            r == self.value,
    {
        self.value
    }

    /// Wrapping addition.
    pub fn add(&self, other: &Int) -> (r: Int)
        ensures
            r.value == i64_specs::wrapping_add(self.value, other.value),
    {
        Int::new(self.value.wrapping_add(other.value))
    }

    /// Wrapping subtraction.
    pub fn sub(&self, other: &Int) -> (r: Int)
        ensures
            r.value == i64_specs::wrapping_sub(self.value, other.value),
    {
        Int::new(self.value.wrapping_sub(other.value))
    }

    /// Wrapping multiplication.
    pub fn mul(&self, other: &Int) -> (r: Int)
        ensures
            r.value == i64_specs::wrapping_mul(self.value, other.value),
    {
        Int::new(self.value.wrapping_mul(other.value))
    }

    /// Truncating division. The divisor must be nonzero and the one
    /// overflowing quotient is ruled out.
    pub fn div(&self, other: &Int) -> (r: Int)
        requires
            other.value != 0,
            !(self.value == i64::MIN && other.value == -1),
        ensures
            r.value as int == (if self.value >= 0 && other.value > 0 {
                self.value as int / other.value as int
            } else if self.value >= 0 {
                -(self.value as int / -(other.value as int))
            } else if other.value > 0 {
                -(-(self.value as int) / other.value as int)
            } else {
                -(self.value as int) / -(other.value as int)
            }),
    {
        proof {
            let x = self.value as int;
            let d = other.value as int;
            if x >= 0 && d > 0 {
                vstd::arithmetic::div_mod::lemma_div_pos_is_pos(x, d);
                vstd::arithmetic::div_mod::lemma_div_nonincreasing(x, d);
            } else if x >= 0 {
                vstd::arithmetic::div_mod::lemma_div_pos_is_pos(x, -d);
                vstd::arithmetic::div_mod::lemma_div_nonincreasing(x, -d);
            } else if d > 0 {
                vstd::arithmetic::div_mod::lemma_div_pos_is_pos(-x, d);
                vstd::arithmetic::div_mod::lemma_div_nonincreasing(-x, d);
            } else {
                vstd::arithmetic::div_mod::lemma_div_pos_is_pos(-x, -d);
                if x == i64::MIN {
                    vstd::arithmetic::div_mod::lemma_div_is_ordered_by_denominator(-x, 2, -d);
                } else {
                    vstd::arithmetic::div_mod::lemma_div_nonincreasing(-x, -d);
                }
            }
        }
        match self.value.checked_div(other.value) {
            Some(q) => Int::new(q),
            None => {
                proof {
                    assert(false);
                }
                vstd::pervasive::unreached()
            },
        }
    }

    /// Truncating remainder, with the sign of the dividend.
    pub fn rem(&self, other: &Int) -> (r: Int)
        requires
            other.value != 0,
            !(self.value == i64::MIN && other.value == -1),
        ensures
            r.value as int == (if self.value >= 0 && other.value > 0 {
                self.value as int % other.value as int
            } else if self.value >= 0 {
                self.value as int % -(other.value as int)
            } else if other.value > 0 {
                -(-(self.value as int) % other.value as int)
            } else {
                -(-(self.value as int) % -(other.value as int))
            }),
    {
        proof {
            let x = self.value as int;
            let d = other.value as int;
            if x == 0 {
                if d > 0 {
                    vstd::arithmetic::div_mod::lemma_small_mod(0, d as nat);
                } else {
                    vstd::arithmetic::div_mod::lemma_small_mod(0, (-d) as nat);
                }
            }
            if x >= 0 && d > 0 {
                vstd::arithmetic::div_mod::lemma_mod_bound(x, d);
            } else if x >= 0 {
                vstd::arithmetic::div_mod::lemma_mod_bound(x, -d);
            } else if d > 0 {
                vstd::arithmetic::div_mod::lemma_mod_bound(-x, d);
            } else {
                vstd::arithmetic::div_mod::lemma_mod_bound(-x, -d);
            }
        }
        match self.value.checked_rem(other.value) {
            Some(m) => Int::new(m),
            None => {
                proof {
                    assert(false);
                }
                vstd::pervasive::unreached()
            },
        }
    }

    /// Negation; the minimum value has no negation in range.
    pub fn neg(&self) -> (r: Int)
        requires
            self.value != i64::MIN,
        ensures
            r.value == -self.value,
    {
        Int::new(-self.value)
    }

    /// Bitwise and.
    pub fn bitand(&self, other: &Int) -> (r: Int)
        ensures
            r.value == (self.value & other.value),
    {
        Int::new(self.value & other.value)
    }

    /// Bitwise or.
    pub fn bitor(&self, other: &Int) -> (r: Int)
        ensures
            r.value == (self.value | other.value),
    {
        Int::new(self.value | other.value)
    }

    /// Bitwise exclusive or.
    pub fn bitxor(&self, other: &Int) -> (r: Int)
        ensures
            r.value == (self.value ^ other.value),
    {
        Int::new(self.value ^ other.value)
    }

    /// Left shift by a shift amount within the width.
    pub fn shl(&self, other: &Int) -> (r: Int)
        requires
            0 <= other.value < 64,
        ensures
            r.value == (self.value << other.value),
    {
        Int::new(self.value << other.value)
    }

    /// Arithmetic right shift by a shift amount within the width.
    pub fn shr(&self, other: &Int) -> (r: Int)
        requires
            0 <= other.value < 64,
        ensures
            r.value == (self.value >> other.value),
    {
        Int::new(self.value >> other.value)
    }

    /// Strictly less, by the wrapped value.
    pub fn lt(&self, other: &Int) -> (r: bool)
        ensures
            r == (self.value < other.value),
    {
        self.value < other.value
    }

    /// Less or equal, by the wrapped value.
    pub fn le(&self, other: &Int) -> (r: bool)
        ensures
            r == (self.value <= other.value),
    {
        self.value <= other.value
    }

    /// Strictly greater, by the wrapped value.
    pub fn gt(&self, other: &Int) -> (r: bool)
        ensures
            r == (self.value > other.value),
    {
        self.value > other.value
    }

    /// Greater or equal, by the wrapped value.
    pub fn ge(&self, other: &Int) -> (r: bool)
        ensures
            r == (self.value >= other.value),
    {
        self.value >= other.value
    }
}

} // verus!
