//! Double-precision numbers held as their bit patterns.
//!
//! Times and frame rates come as IEEE 754 binary64 numbers. The library orders
//! them and never computes with them, so it holds the 64 bits and orders those:
//! below the sign bit, a larger pattern is a larger number.

use vstd::arithmetic::power2::{lemma_pow2_pos, pow2};
use vstd::prelude::*;

verus! {

/// A binary64 number, as its bits: the sign, 11 bits of exponent, 52 bits of
/// fraction.
#[derive(Clone, Copy, Debug)]
pub struct Binary64 {
    pub bits: u64,
}

/// The number at infinity, without its sign: every exponent bit set, and no
/// other.
pub const INFINITE: u64 = 0x7FF0_0000_0000_0000;

/// The sign bit.
pub const SIGN: u64 = 0x8000_0000_0000_0000;

/// 2^52, one more than the largest fraction.
pub const FRACTIONS: u64 = 0x10_0000_0000_0000;

/// The size of the number with the given bits below the sign, in units of the
/// smallest positive number, 2^-1074. Infinity counts as the number next above
/// the largest finite one.
pub open spec fn magnitude(low: int) -> int {
    let exponent = low / FRACTIONS as int;
    let fraction = low % FRACTIONS as int;
    if exponent == 0 {
        fraction
    } else {
        (FRACTIONS + fraction) * pow2((exponent - 1) as nat)
    }
}

impl Binary64 {
    /// The bits below the sign.
    pub open spec fn low(&self) -> int {
        if self.bits >= SIGN {
            self.bits - SIGN
        } else {
            self.bits as int
        }
    }

    /// Whether this is no number.
    pub open spec fn is_nan(&self) -> bool {
        self.low() > INFINITE
    }

    /// The number, in units of 2^-1074.
    pub open spec fn value(&self) -> int {
        if self.bits >= SIGN {
            -magnitude(self.low())
        } else {
            magnitude(self.low())
        }
    }

    /// `self < other`: both are numbers, and the first is the smaller.
    pub open spec fn below(&self, other: Binary64) -> bool {
        !self.is_nan() && !other.is_nan() && self.value() < other.value()
    }

    /// `self <= other`: both are numbers, and the first is not the larger.
    pub open spec fn at_most(&self, other: Binary64) -> bool {
        !self.is_nan() && !other.is_nan() && self.value() <= other.value()
    }

    /// An integer that orders numbers as their values do.
    pub open spec fn rank(&self) -> int {
        if self.bits >= SIGN {
            -self.low()
        } else {
            self.low()
        }
    }

    /// Whether this is no number.
    pub fn nan(&self) -> (r: bool)
        ensures
            r == self.is_nan(),
    {
        let low: u64 = if self.bits >= SIGN {
            self.bits - SIGN
        } else {
            self.bits
        };
        low > INFINITE
    }

    /// A signed integer that orders numbers as their values do.
    fn ranked(&self) -> (r: i64)
        ensures
            r == self.rank(),
    {
        if self.bits >= SIGN {
            -((self.bits - SIGN) as i64)
        } else {
            self.bits as i64
        }
    }

    /// `self < other`.
    pub fn less(&self, other: Binary64) -> (r: bool)
        ensures
            r == self.below(other),
    {
        proof {
            lemma_rank_orders(*self, other);
        }
        !self.nan() && !other.nan() && self.ranked() < other.ranked()
    }

    /// `self <= other`.
    pub fn less_or_equal(&self, other: Binary64) -> (r: bool)
        ensures
            r == self.at_most(other),
    {
        proof {
            lemma_rank_orders(*self, other);
        }
        !self.nan() && !other.nan() && self.ranked() <= other.ranked()
    }
}

impl PartialEq for Binary64 {
    /// Numeric equality: the two zeros are equal, and what is no number equals
    /// nothing.
    fn eq(&self, other: &Binary64) -> (r: bool) {
        proof {
            lemma_rank_orders(*self, *other);
        }
        !self.nan() && !other.nan() && self.ranked() == other.ranked()
    }
}

impl vstd::std_specs::cmp::PartialEqSpecImpl for Binary64 {
    open spec fn obeys_eq_spec() -> bool {
        true
    }

    open spec fn eq_spec(&self, other: &Binary64) -> bool {
        !self.is_nan() && !other.is_nan() && self.value() == other.value()
    }
}

proof fn lemma_magnitude_step(low: int)
    requires
        0 <= low,
    ensures
        magnitude(low) < magnitude(low + 1),
        magnitude(low) >= 0,
{
    let f = FRACTIONS as int;
    let e = low / f;
    let m = low % f;
    if m + 1 < f {
        vstd::arithmetic::div_mod::lemma_fundamental_div_mod_converse(low + 1, f, e, m + 1);
        if e > 0 {
            let p = pow2((e - 1) as nat) as int;
            lemma_pow2_pos((e - 1) as nat);
            assert((f + m) * p < (f + m + 1) * p) by (nonlinear_arith)
                requires
                    p > 0,
            ;
            assert((f + m) * p >= 0) by (nonlinear_arith)
                requires
                    p > 0,
                    f + m >= 0,
            ;
        }
    } else {
        vstd::arithmetic::div_mod::lemma_fundamental_div_mod_converse(low + 1, f, e + 1, 0);
        let q = pow2(e as nat) as int;
        lemma_pow2_pos(e as nat);
        if e == 0 {
            vstd::arithmetic::power2::lemma2_to64();
        } else {
            let p = pow2((e - 1) as nat) as int;
            lemma_pow2_pos((e - 1) as nat);
            vstd::arithmetic::power2::lemma_pow2_unfold(e as nat);
            assert(q == 2 * p);
            assert((f + m) * p < f * (2 * p)) by (nonlinear_arith)
                requires
                    p > 0,
                    m == f - 1,
            ;
            assert((f + m) * p >= 0) by (nonlinear_arith)
                requires
                    p > 0,
                    f + m >= 0,
            ;
        }
    }
}

proof fn lemma_magnitude_orders(a: int, b: int)
    requires
        0 <= a < b,
    ensures
        0 <= magnitude(a) < magnitude(b),
    decreases b - a,
{
    lemma_magnitude_step(a);
    if a + 1 < b {
        lemma_magnitude_orders(a + 1, b);
    }
}

/// Ranks order numbers as their values do.
pub proof fn lemma_rank_orders(a: Binary64, b: Binary64)
    ensures
        a.rank() < b.rank() <==> a.value() < b.value(),
        a.rank() == b.rank() <==> a.value() == b.value(),
{
    if a.low() < b.low() {
        lemma_magnitude_orders(a.low(), b.low());
    } else if b.low() < a.low() {
        lemma_magnitude_orders(b.low(), a.low());
    }
    assert(magnitude(0) == 0);
    if a.low() > 0 {
        lemma_magnitude_orders(0, a.low());
    }
    if b.low() > 0 {
        lemma_magnitude_orders(0, b.low());
    }
}

/// What the parts of a number stand for: with exponent `e` and fraction `f` it is
/// `(2^52 + f) * 2^(e - 1)` units of 2^-1074, or `f` units where the exponent is 0;
/// the sign bit turns it round.
pub proof fn law_value_of_parts(e: int, f: int)
    requires
        0 <= e < 2048,
        0 <= f < 0x10_0000_0000_0000,
    ensures
        ({
            let low = e * 0x10_0000_0000_0000 + f;
            let plus = Binary64 { bits: low as u64 };
            let minus = Binary64 { bits: (0x8000_0000_0000_0000 + low) as u64 };
            let size = if e == 0 {
                f
            } else {
                (0x10_0000_0000_0000 + f) * pow2((e - 1) as nat)
            };
            &&& plus.value() == size
            &&& minus.value() == -size
            &&& plus.is_nan() == (e == 2047 && f > 0)
            &&& minus.is_nan() == (e == 2047 && f > 0)
        }),
{
    vstd::arithmetic::div_mod::lemma_fundamental_div_mod_converse(
        e * 0x10_0000_0000_0000 + f,
        0x10_0000_0000_0000,
        e,
        f,
    );
}

/// Numbers are ordered as their values are, and what is no number is ordered with
/// nothing.
pub proof fn law_order_is_that_of_values(a: Binary64, b: Binary64)
    ensures
        a.is_nan() || b.is_nan() ==> !a.below(b) && !a.at_most(b),
        !a.is_nan() && !b.is_nan() ==> (a.below(b) <==> a.value() < b.value()) && (a.at_most(b)
            <==> a.value() <= b.value()) && (a.below(b) || b.at_most(a)),
        a.bits < b.bits <= 0x7FF0_0000_0000_0000 ==> a.below(b),
        0x8000_0000_0000_0000 <= a.bits < b.bits <= 0xFFF0_0000_0000_0000 ==> b.below(a),
{
    lemma_rank_orders(a, b);
}

} // verus!
