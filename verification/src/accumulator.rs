use vstd::arithmetic::div_mod::lemma_div_is_ordered;
use vstd::arithmetic::div_mod::lemma_div_multiples_vanish_fancy;
use vstd::arithmetic::div_mod::lemma_div_nonincreasing;
use vstd::arithmetic::div_mod::lemma_div_pos_is_pos;
use vstd::arithmetic::div_mod::lemma_fundamental_div_mod;
use vstd::arithmetic::div_mod::lemma_fundamental_div_mod_converse;
use vstd::arithmetic::div_mod::lemma_mod_bound;
use vstd::arithmetic::mul::lemma_mul_inequality;
use vstd::arithmetic::power2::lemma2_to64;
use vstd::arithmetic::power2::lemma_pow2_pos;
use vstd::arithmetic::power2::lemma_pow2_strictly_increases;
use vstd::arithmetic::power2::lemma_pow2_unfold;
use vstd::arithmetic::power2::pow2;
use vstd::prelude::*;

use crate::color::clamp8;
use crate::color::Color;

verus! {

/// The largest magnitude an accumulator channel can hold.
///
/// Channel arithmetic clamps to the symmetric range [-CHANNEL_LIMIT,
/// CHANNEL_LIMIT] instead of overflowing, so every operation is total and a
/// channel's negation is always representable.
pub const CHANNEL_LIMIT: i32 = 0x7fff_ffff;

/// Clamps an unbounded channel value to the representable accumulator range.
pub open spec fn sat32(x: int) -> int {
    if x > CHANNEL_LIMIT as int {
        CHANNEL_LIMIT as int
    } else if x < -(CHANNEL_LIMIT as int) {
        -(CHANNEL_LIMIT as int)
    } else {
        x
    }
}

/// A channel value shifted right by `k` bits: division by 2^k rounding
/// toward negative infinity.
pub open spec fn shr_floor(x: int, k: nat) -> int {
    x / (pow2(k) as int)
}

fn sat_add_i32(a: i32, b: i32) -> (r: i32)
    ensures
        r as int == sat32(a as int + b as int),
{
    let s: i64 = a as i64 + b as i64;
    if s > CHANNEL_LIMIT as i64 {
        CHANNEL_LIMIT
    } else if s < -(CHANNEL_LIMIT as i64) {
        -CHANNEL_LIMIT
    } else {
        s as i32
    }
}

fn sat_mul_i32(a: i32, b: i32) -> (r: i32)
    ensures
        r as int == sat32(a as int * b as int),
{
    proof {
        assert(-0x4000_0000_0000_0000 <= (a as int) * (b as int) <= 0x4000_0000_0000_0000)
            by (nonlinear_arith)
            requires
                -0x8000_0000 <= a as int <= 0x7fff_ffff,
                -0x8000_0000 <= b as int <= 0x7fff_ffff,
        ;
    }
    let s: i64 = a as i64 * b as i64;
    if s > CHANNEL_LIMIT as i64 {
        CHANNEL_LIMIT
    } else if s < -(CHANNEL_LIMIT as i64) {
        -CHANNEL_LIMIT
    } else {
        s as i32
    }
}

/// For nonnegative `na` and positive `d`, the rounded-up quotient of
/// `na / d` stays between 0 and `na`.
proof fn lemma_ceil_le(na: int, d: int)
    requires
        na >= 0,
        d >= 1,
    ensures
        0 <= (na + d - 1) / d <= na,
{
    lemma_div_pos_is_pos(na + d - 1, d);
    lemma_mul_inequality(1, d, na);
    lemma_div_is_ordered(na + d - 1, d * na + (d - 1), d);
    lemma_div_multiples_vanish_fancy(na, d - 1, d);
}

/// For positive `na` and `d`, the floor of `-na / d` is the negated
/// rounded-up quotient of `na / d`.
pub(crate) proof fn lemma_floor_of_negative(na: int, d: int)
    requires
        na >= 0,
        d >= 1,
    ensures
        (-na) / d == -((na + d - 1) / d),
{
    let t = na / d;
    let s = na % d;
    lemma_fundamental_div_mod(na, d);
    lemma_mod_bound(na, d);
    if s == 0 {
        assert(na + d - 1 == t * d + (d - 1)) by (nonlinear_arith)
            requires
                na == d * t + s,
                s == 0,
        ;
        lemma_fundamental_div_mod_converse(na + d - 1, d, t, d - 1);
        assert(-na == (-t) * d + 0) by (nonlinear_arith)
            requires
                na == d * t + s,
                s == 0,
        ;
        lemma_fundamental_div_mod_converse(-na, d, -t, 0);
    } else {
        assert(na + d - 1 == (t + 1) * d + (s - 1)) by (nonlinear_arith)
            requires
                na == d * t + s,
        ;
        lemma_fundamental_div_mod_converse(na + d - 1, d, t + 1, s - 1);
        assert(-na == (-t - 1) * d + (d - s)) by (nonlinear_arith)
            requires
                na == d * t + s,
        ;
        lemma_fundamental_div_mod_converse(-na, d, -t - 1, d - s);
    }
}

/// Division by a positive power of two, rounding toward negative infinity,
/// as an arithmetic right shift does.
fn shr_i32(a: i32, k: u8) -> (r: i32)
    requires
        k <= 30,
    ensures
        r as int == shr_floor(a as int, k as nat),
{
    let mut d: u32 = 1;
    let mut i: u8 = 0;
    proof {
        lemma2_to64();
    }
    while i < k
        invariant
            i <= k,
            k <= 30,
            d as int == pow2(i as nat),
        decreases k - i,
    {
        proof {
            lemma_pow2_strictly_increases(i as nat, 30);
            lemma2_to64();
            lemma_pow2_unfold((i + 1) as nat);
        }
        d = d * 2;
        i = i + 1;
    }
    proof {
        lemma_pow2_pos(k as nat);
    }
    if a >= 0 {
        let q: u32 = (a as u32) / d;
        proof {
            lemma_div_nonincreasing(a as int, d as int);
            lemma_div_pos_is_pos(a as int, d as int);
        }
        q as i32
    } else {
        let na: u64 = (-(a as i64)) as u64;
        let q: u64 = (na + (d as u64 - 1)) / (d as u64);
        proof {
            lemma_ceil_le(na as int, d as int);
            lemma_floor_of_negative(na as int, d as int);
        }
        if q >= 0x8000_0000u64 {
            i32::MIN
        } else {
            -(q as i32)
        }
    }
}

fn clamp8_i32(x: i32) -> (r: u8)
    ensures
        r as int == clamp8(x as int),
{
    if x < 0 {
        0
    } else if x > 255 {
        255
    } else {
        x as u8
    }
}

/// A per-pixel color value in higher-precision signed arithmetic.
///
/// Channels are wide enough to hold an 8-bit color plus several cycles of
/// diffused quantization error; narrowing back to a color saturates each
/// channel to [0, 255] independently.
#[derive(Copy, Clone, PartialEq, Eq, Structural, Debug)]
pub struct Accumulator {
    pub r: i32,
    pub g: i32,
    pub b: i32,
}

impl Accumulator {
    pub fn new(tuple: (i16, i16, i16)) -> (a: Accumulator)
        ensures
            a.r as int == tuple.0 as int,
            a.g as int == tuple.1 as int,
            a.b as int == tuple.2 as int,
    {
        Accumulator { r: tuple.0 as i32, g: tuple.1 as i32, b: tuple.2 as i32 }
    }

    /// The accumulator holding a color's channels exactly.
    pub open spec fn spec_from_color(c: Color) -> Accumulator {
        Accumulator { r: c.r as i32, g: c.g as i32, b: c.b as i32 }
    }

    pub fn from_color(c: Color) -> (a: Accumulator)
        ensures
            a == Accumulator::spec_from_color(c),
    {
        Accumulator { r: c.r as i32, g: c.g as i32, b: c.b as i32 }
    }

    /// The sum of two accumulators, each channel clamped to the
    /// representable range.
    pub open spec fn spec_add(self, rhs: Accumulator) -> Accumulator {
        Accumulator {
            r: sat32(self.r as int + rhs.r as int) as i32,
            g: sat32(self.g as int + rhs.g as int) as i32,
            b: sat32(self.b as int + rhs.b as int) as i32,
        }
    }

    pub fn add_assign(&mut self, rhs: Accumulator)
        ensures
            *final(self) == old(self).spec_add(rhs),
    {
        self.r = sat_add_i32(self.r, rhs.r);
        self.g = sat_add_i32(self.g, rhs.g);
        self.b = sat_add_i32(self.b, rhs.b);
    }

    /// The channel-wise difference, clamped to the representable range.
    pub open spec fn spec_sub(self, rhs: Accumulator) -> Accumulator {
        Accumulator {
            r: sat32(self.r as int - rhs.r as int) as i32,
            g: sat32(self.g as int - rhs.g as int) as i32,
            b: sat32(self.b as int - rhs.b as int) as i32,
        }
    }

    pub fn sub(self, rhs: Accumulator) -> (a: Accumulator)
        ensures
            a == self.spec_sub(rhs),
    {
        let r = sub_i32(self.r, rhs.r);
        let g = sub_i32(self.g, rhs.g);
        let b = sub_i32(self.b, rhs.b);
        Accumulator { r, g, b }
    }

    /// Each channel scaled by an integer numerator, clamped to the
    /// representable range.
    pub open spec fn spec_mul(self, rhs: i32) -> Accumulator {
        Accumulator {
            r: sat32(self.r as int * rhs as int) as i32,
            g: sat32(self.g as int * rhs as int) as i32,
            b: sat32(self.b as int * rhs as int) as i32,
        }
    }

    pub fn mul(self, rhs: i32) -> (a: Accumulator)
        ensures
            a == self.spec_mul(rhs),
    {
        Accumulator {
            r: sat_mul_i32(self.r, rhs),
            g: sat_mul_i32(self.g, rhs),
            b: sat_mul_i32(self.b, rhs),
        }
    }

    /// Each channel divided by 2^rhs, rounding toward negative infinity.
    pub open spec fn spec_shr(self, rhs: u8) -> Accumulator {
        Accumulator {
            r: shr_floor(self.r as int, rhs as nat) as i32,
            g: shr_floor(self.g as int, rhs as nat) as i32,
            b: shr_floor(self.b as int, rhs as nat) as i32,
        }
    }

    pub fn shr(self, rhs: u8) -> (a: Accumulator)
        requires
            rhs <= 30,
        ensures
            a == self.spec_shr(rhs),
    {
        Accumulator { r: shr_i32(self.r, rhs), g: shr_i32(self.g, rhs), b: shr_i32(self.b, rhs) }
    }

    /// The color this accumulator narrows to: each channel clamped to
    /// [0, 255] independently.
    pub open spec fn spec_to_color(self) -> Color {
        Color {
            r: clamp8(self.r as int) as u8,
            g: clamp8(self.g as int) as u8,
            b: clamp8(self.b as int) as u8,
        }
    }

    pub fn to_color(self) -> (c: Color)
        ensures
            c == self.spec_to_color(),
    {
        Color { r: clamp8_i32(self.r), g: clamp8_i32(self.g), b: clamp8_i32(self.b) }
    }
}

fn sub_i32(a: i32, b: i32) -> (r: i32)
    ensures
        r as int == sat32(a as int - b as int),
{
    let s: i64 = a as i64 - b as i64;
    if s > CHANNEL_LIMIT as i64 {
        CHANNEL_LIMIT
    } else if s < -(CHANNEL_LIMIT as i64) {
        -CHANNEL_LIMIT
    } else {
        s as i32
    }
}

} // verus!
