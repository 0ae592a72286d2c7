use vstd::prelude::*;

use crate::accumulator::lemma_floor_of_negative;
use crate::accumulator::sat32;
use crate::accumulator::CHANNEL_LIMIT;
use crate::color::Color;

verus! {

/// A fixed-point number: a signed 32-bit value carrying 16 fractional
/// bits. Arithmetic clamps to the representable range instead of
/// overflowing, so every operation is total.
#[derive(Copy, Clone, PartialEq, Eq, Structural, PartialOrd, Debug)]
pub struct Fixed16 {
    pub bits: i32,
}

impl Fixed16 {
    /// The fixed-point value of a small integer.
    pub open spec fn spec_from_num(n: int) -> Fixed16 {
        Fixed16 { bits: (n * 0x10000) as i32 }
    }

    pub fn from_num(n: i32) -> (r: Fixed16)
        requires
            -0x8000 <= n < 0x8000,
        ensures
            r == Fixed16::spec_from_num(n as int),
    {
        Fixed16 { bits: n * 0x10000 }
    }

    pub fn from_bits(bits: i32) -> (r: Fixed16)
        ensures
            r.bits == bits,
    {
        Fixed16 { bits }
    }

    /// The sum, clamped to the representable range.
    pub open spec fn spec_add(self, rhs: Fixed16) -> Fixed16 {
        Fixed16 { bits: sat32(self.bits as int + rhs.bits as int) as i32 }
    }

    pub fn add(self, rhs: Fixed16) -> (r: Fixed16)
        ensures
            r == self.spec_add(rhs),
    {
        let s: i64 = self.bits as i64 + rhs.bits as i64;
        if s > CHANNEL_LIMIT as i64 {
            Fixed16 { bits: CHANNEL_LIMIT }
        } else if s < -(CHANNEL_LIMIT as i64) {
            Fixed16 { bits: -CHANNEL_LIMIT }
        } else {
            Fixed16 { bits: s as i32 }
        }
    }

    /// The difference, clamped to the representable range.
    pub open spec fn spec_sub(self, rhs: Fixed16) -> Fixed16 {
        Fixed16 { bits: sat32(self.bits as int - rhs.bits as int) as i32 }
    }

    pub fn sub(self, rhs: Fixed16) -> (r: Fixed16)
        ensures
            r == self.spec_sub(rhs),
    {
        let s: i64 = self.bits as i64 - rhs.bits as i64;
        if s > CHANNEL_LIMIT as i64 {
            Fixed16 { bits: CHANNEL_LIMIT }
        } else if s < -(CHANNEL_LIMIT as i64) {
            Fixed16 { bits: -CHANNEL_LIMIT }
        } else {
            Fixed16 { bits: s as i32 }
        }
    }

    /// The fixed-point product: the wide product scaled back down by the
    /// fractional width, rounding toward negative infinity, clamped to the
    /// representable range.
    pub open spec fn spec_mul(self, rhs: Fixed16) -> Fixed16 {
        Fixed16 { bits: sat32((self.bits as int * rhs.bits as int) / 0x10000) as i32 }
    }

    pub fn mul(self, rhs: Fixed16) -> (r: Fixed16)
        ensures
            r == self.spec_mul(rhs),
    {
        proof {
            assert(-0x4000_0000_0000_0000 <= (self.bits as int) * (rhs.bits as int)
                <= 0x4000_0000_0000_0000) by (nonlinear_arith)
                requires
                    -0x8000_0000 <= self.bits as int <= 0x7fff_ffff,
                    -0x8000_0000 <= rhs.bits as int <= 0x7fff_ffff,
            ;
        }
        let p: i64 = self.bits as i64 * rhs.bits as i64;
        let q: i64 = if p >= 0 {
            p / 0x10000
        } else {
            let np: i64 = -p;
            proof {
                lemma_floor_of_negative(np as int, 0x10000);
                vstd::arithmetic::div_mod::lemma_div_pos_is_pos(np as int + 0xffff, 0x10000);
                vstd::arithmetic::div_mod::lemma_div_is_ordered(
                    np as int + 0xffff,
                    0x4000_0000_0000_0000int + 0xffff,
                    0x10000,
                );
            }
            -((np + 0xffff) / 0x10000)
        };
        proof {
            if p >= 0 {
                vstd::arithmetic::div_mod::lemma_div_pos_is_pos(p as int, 0x10000);
                vstd::arithmetic::div_mod::lemma_div_is_ordered(
                    p as int,
                    0x4000_0000_0000_0000,
                    0x10000,
                );
            }
        }
        if q > CHANNEL_LIMIT as i64 {
            Fixed16 { bits: CHANNEL_LIMIT }
        } else if q < -(CHANNEL_LIMIT as i64) {
            Fixed16 { bits: -CHANNEL_LIMIT }
        } else {
            Fixed16 { bits: q as i32 }
        }
    }

    /// The absolute difference, clamped to the representable range.
    pub open spec fn spec_abs_diff(self, rhs: Fixed16) -> Fixed16 {
        let d = if self.bits as int >= rhs.bits as int {
            self.bits as int - rhs.bits as int
        } else {
            rhs.bits as int - self.bits as int
        };
        Fixed16 { bits: sat32(d) as i32 }
    }

    pub fn abs_diff(self, rhs: Fixed16) -> (r: Fixed16)
        ensures
            r == self.spec_abs_diff(rhs),
    {
        if self.bits >= rhs.bits {
            self.sub(rhs)
        } else {
            rhs.sub(self)
        }
    }
}

/// A three-component value, one slot per color channel.
#[derive(Copy, Clone, PartialEq, Eq, Structural, Debug)]
pub struct Vector<T>(pub T, pub T, pub T);

impl<T: Copy> Vector<T> {
    /// The vector holding one value on every component.
    pub fn from_num(t: T) -> (r: Vector<T>)
        ensures
            r.0 == t,
            r.1 == t,
            r.2 == t,
    {
        Vector(t, t, t)
    }
}

impl Vector<Fixed16> {
    pub fn add_assign(&mut self, rhs: Vector<Fixed16>)
        ensures
            final(self).0 == old(self).0.spec_add(rhs.0),
            final(self).1 == old(self).1.spec_add(rhs.1),
            final(self).2 == old(self).2.spec_add(rhs.2),
    {
        self.0 = self.0.add(rhs.0);
        self.1 = self.1.add(rhs.1);
        self.2 = self.2.add(rhs.2);
    }

    pub fn mul(self, rhs: Fixed16) -> (r: Vector<Fixed16>)
        ensures
            r.0 == self.0.spec_mul(rhs),
            r.1 == self.1.spec_mul(rhs),
            r.2 == self.2.spec_mul(rhs),
    {
        Vector(self.0.mul(rhs), self.1.mul(rhs), self.2.mul(rhs))
    }

    pub fn sub(self, rhs: Vector<Fixed16>) -> (r: Vector<Fixed16>)
        ensures
            r.0 == self.0.spec_sub(rhs.0),
            r.1 == self.1.spec_sub(rhs.1),
            r.2 == self.2.spec_sub(rhs.2),
    {
        Vector(self.0.sub(rhs.0), self.1.sub(rhs.1), self.2.sub(rhs.2))
    }

    /// The fixed-point vector of a color's channels.
    pub fn from_rgb888(t: Color) -> (r: Vector<Fixed16>)
        ensures
            r.0 == Fixed16::spec_from_num(t.r as int),
            r.1 == Fixed16::spec_from_num(t.g as int),
            r.2 == Fixed16::spec_from_num(t.b as int),
    {
        Vector(
            Fixed16::from_num(t.r as i32),
            Fixed16::from_num(t.g as i32),
            Fixed16::from_num(t.b as i32),
        )
    }
}

} // verus!
