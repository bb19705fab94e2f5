//! Numbers as the device and the UI hand them over: the bit patterns of IEEE 754 singles (samples,
//! levels) and doubles (tempos, counts). The engine's decisions on them (is it a number, which is
//! larger, what whole number is nearest) are integer arithmetic on the patterns.

use vstd::prelude::*;

verus! {

// ── Singles ────────────────────────────────────────────────────────────────────────────────────────

/// A single by its bit pattern.
#[derive(Clone, Copy, Debug, PartialEq, Eq, Structural)]
pub struct Single {
    pub bits: u32,
}

/// 2^31: the sign bit of a single.
pub const SINGLE_SIGN: u32 = 0x8000_0000;

/// The magnitude of infinity; every larger magnitude is a NaN.
pub const SINGLE_INFINITY: u32 = 0x7f80_0000;

pub const SINGLE_ONE: u32 = 0x3f80_0000;

pub const SINGLE_ONE_AND_A_HALF: u32 = 0x3fc0_0000;

/// Silence.
pub open spec fn silence() -> Single {
    Single { bits: 0 }
}

impl Single {
    /// The pattern without its sign.
    pub open spec fn magnitude(self) -> int {
        if self.bits >= SINGLE_SIGN {
            self.bits - SINGLE_SIGN
        } else {
            self.bits as int
        }
    }

    /// Where a number stands: two singles that are numbers compare as their ranks do (both zeros
    /// rank 0).
    pub open spec fn rank(self) -> int {
        if self.bits >= SINGLE_SIGN {
            -self.magnitude()
        } else {
            self.magnitude()
        }
    }

    pub open spec fn finite(self) -> bool {
        self.magnitude() < SINGLE_INFINITY
    }

    /// A single that is neither an infinity nor a NaN.
    pub fn is_finite(self) -> (r: bool)
        ensures
            r == self.finite(),
    {
        if self.bits >= SINGLE_SIGN {
            self.bits - SINGLE_SIGN < SINGLE_INFINITY
        } else {
            self.bits < SINGLE_INFINITY
        }
    }

    /// The level a setting asks for: `self` held in `[0, most]` (a pattern), 0 for what is no finite number.
    pub open spec fn level(self, most: u32) -> Single {
        if !self.finite() || self.rank() < 0 {
            Single { bits: 0 }
        } else if self.rank() > most {
            Single { bits: most }
        } else {
            self
        }
    }

    /// Hold `self` in `[0, most]`; what is no finite number becomes 0.
    pub fn to_level(self, most: u32) -> (r: Single)
        requires
            most < SINGLE_INFINITY,
        ensures
            r == self.level(most),
            r.finite(),
            0 <= r.rank() <= most,
    {
        if !self.is_finite() || self.bits > SINGLE_SIGN {
            Single { bits: 0 }
        } else if self.bits < SINGLE_SIGN && self.bits > most {
            Single { bits: most }
        } else {
            self
        }
    }

    /// The level a gain asks for: `self` from 0 up, 0 for what is no finite number.
    pub open spec fn gain(self) -> Single {
        if !self.finite() || self.rank() < 0 {
            Single { bits: 0 }
        } else {
            self
        }
    }

    /// Hold `self` at 0 or above; what is no finite number becomes 0.
    pub fn to_gain(self) -> (r: Single)
        ensures
            r == self.gain(),
            r.finite(),
            r.rank() >= 0,
    {
        if !self.is_finite() || self.bits > SINGLE_SIGN {
            Single { bits: 0 }
        } else {
            self
        }
    }

    /// `self > 0`, for what is a number.
    pub fn is_positive(self) -> (r: bool)
        requires
            self.finite(),
        ensures
            r == (self.rank() > 0),
    {
        0 < self.bits && self.bits < SINGLE_SIGN
    }
}

impl Single {
    /// Either zero.
    pub fn is_zero(self) -> (r: bool)
        ensures
            r == (self.rank() == 0),
    {
        self.bits == 0 || self.bits == SINGLE_SIGN
    }
}

// ── Doubles ────────────────────────────────────────────────────────────────────────────────────────

/// A double by its bit pattern.
#[derive(Clone, Copy, Debug, PartialEq, Eq, Structural)]
pub struct Double {
    pub bits: u64,
}

pub const DOUBLE_SIGN: u64 = 0x8000_0000_0000_0000;

pub const DOUBLE_INFINITY: u64 = 0x7ff0_0000_0000_0000;

/// 2^52: one step of the exponent, and the hidden bit.
pub const DOUBLE_STEP: u64 = 0x10_0000_0000_0000;

impl Double {
    pub open spec fn magnitude(self) -> int {
        if self.bits >= DOUBLE_SIGN {
            self.bits - DOUBLE_SIGN
        } else {
            self.bits as int
        }
    }

    pub open spec fn finite(self) -> bool {
        self.magnitude() < DOUBLE_INFINITY
    }

    /// Where a number stands: two doubles that are numbers compare as their ranks do.
    pub open spec fn rank(self) -> int {
        if self.bits >= DOUBLE_SIGN {
            -self.magnitude()
        } else {
            self.magnitude()
        }
    }

    pub open spec fn is_number(self) -> bool {
        self.magnitude() <= DOUBLE_INFINITY
    }

    /// `self >= other`: false where either is no number.
    pub fn at_least(self, other: Double) -> (r: bool)
        ensures
            r == (self.is_number() && other.is_number() && self.rank() >= other.rank()),
    {
        let (a_neg, b_neg): (bool, bool) = (self.bits >= DOUBLE_SIGN, other.bits >= DOUBLE_SIGN);
        let a: u64 = if a_neg {
            self.bits - DOUBLE_SIGN
        } else {
            self.bits
        };
        let b: u64 = if b_neg {
            other.bits - DOUBLE_SIGN
        } else {
            other.bits
        };
        if a > DOUBLE_INFINITY || b > DOUBLE_INFINITY {
            false
        } else if a_neg {
            if b_neg {
                a <= b
            } else {
                a == 0 && b == 0
            }
        } else {
            b_neg || a >= b
        }
    }

    /// The significand: a finite double is `significand * 2^(scale - 1075)` in size.
    pub open spec fn significand(self) -> nat {
        let m = self.magnitude();
        if m < DOUBLE_STEP {
            m as nat
        } else {
            (DOUBLE_STEP + m % (DOUBLE_STEP as int)) as nat
        }
    }

    pub open spec fn scale(self) -> int {
        let m = self.magnitude();
        if m < DOUBLE_STEP {
            1
        } else {
            m / (DOUBLE_STEP as int)
        }
    }

    /// The whole number nearest to a finite double, a half rounding away from zero.
    pub open spec fn rounded(self) -> int {
        let size = if self.scale() >= 1075 {
            (self.significand() * vstd::arithmetic::power2::pow2((self.scale() - 1075) as nat)) as int
        } else {
            let unit = vstd::arithmetic::power2::pow2((1075 - self.scale()) as nat);
            ((2 * self.significand() + unit) / (2 * unit)) as int
        };
        if self.bits >= DOUBLE_SIGN {
            -size
        } else {
            size
        }
    }

    pub fn is_finite(self) -> (r: bool)
        ensures
            r == self.finite(),
    {
        if self.bits >= DOUBLE_SIGN {
            self.bits - DOUBLE_SIGN < DOUBLE_INFINITY
        } else {
            self.bits < DOUBLE_INFINITY
        }
    }

    /// Round a finite double to the nearest whole number and hold that in `[lo, hi]`.
    pub fn round_within(self, lo: u32, hi: u32) -> (r: u32)
        requires
            self.finite(),
            1 <= lo <= hi,
        ensures
            lo <= r <= hi,
            r == (if self.rounded() < lo {
                lo as int
            } else if self.rounded() > hi {
                hi as int
            } else {
                self.rounded()
            }),
    {
        proof {
            if self.scale() >= 1075 {
                vstd::arithmetic::power2::lemma_pow2_pos((self.scale() - 1075) as nat);
                let (m, p) = (self.significand() as int, vstd::arithmetic::power2::pow2((self.scale() - 1075) as nat) as int);
                assert(m * p >= m) by (nonlinear_arith)
                    requires
                        m >= 0,
                        p >= 1,
                ;
            } else {
                vstd::arithmetic::power2::lemma_pow2_pos((1075 - self.scale()) as nat);
                let unit = vstd::arithmetic::power2::pow2((1075 - self.scale()) as nat);
                vstd::arithmetic::div_mod::lemma_div_pos_is_pos(
                    (2 * self.significand() + unit) as int,
                    (2 * unit) as int,
                );
            }
        }
        if self.bits >= DOUBLE_SIGN {
            return lo;
        }
        let m: u64 = self.bits;
        let (sig, scale): (u64, u64) = if m < DOUBLE_STEP {
            (m, 1)
        } else {
            (DOUBLE_STEP + m % DOUBLE_STEP, m / DOUBLE_STEP)
        };
        if scale >= 1075 {
            return hi;
        }
        let down: u64 = 1075 - scale;
        if down >= 54 {
            proof {
                vstd::arithmetic::power2::lemma2_to64_rest();
                vstd::arithmetic::power2::lemma_pow2_adds(54, (down - 54) as nat);
                vstd::arithmetic::power2::lemma_pow2_pos((down - 54) as nat);
                let unit = vstd::arithmetic::power2::pow2(down as nat) as int;
                assert(unit >= 0x40_0000_0000_0000) by (nonlinear_arith)
                    requires
                        unit == 0x40_0000_0000_0000 * vstd::arithmetic::power2::pow2((down - 54) as nat),
                        vstd::arithmetic::power2::pow2((down - 54) as nat) >= 1,
                ;
                vstd::arithmetic::div_mod::lemma_basic_div(2 * sig + unit, 2 * unit);
            }
            return lo;
        }
        proof {
            vstd::arithmetic::power2::lemma2_to64_rest();
            vstd::bits::lemma_u64_pow2_no_overflow(down as nat);
            vstd::bits::lemma_u64_shl_is_mul(1, down);
            if down < 53 {
                vstd::arithmetic::power2::lemma_pow2_strictly_increases(down as nat, 53);
            }
        }
        let unit: u64 = 1u64 << down;
        let whole: u64 = (2 * sig + unit) / (2 * unit);
        if whole < lo as u64 {
            lo
        } else if whole > hi as u64 {
            hi
        } else {
            whole as u32
        }
    }

    /// `self > other`: false where either is no number.
    pub fn above(self, other: Double) -> (r: bool)
        ensures
            r == (self.is_number() && other.is_number() && self.rank() > other.rank()),
    {
        self.at_least(other) && !other.at_least(self)
    }

    /// `self` held in `[lo, hi]`.
    pub open spec fn held(self, lo: Double, hi: Double) -> Double {
        if self.rank() < lo.rank() {
            lo
        } else if self.rank() > hi.rank() {
            hi
        } else {
            self
        }
    }

    pub fn hold(self, lo: Double, hi: Double) -> (r: Double)
        requires
            self.is_number(),
            lo.is_number(),
            hi.is_number(),
        ensures
            r == self.held(lo, hi),
    {
        if lo.above(self) {
            lo
        } else if self.above(hi) {
            hi
        } else {
            self
        }
    }

    /// This is the number `n / 2^down`, exactly.
    pub open spec fn is_dyadic(self, n: int, down: int) -> bool {
        &&& self.bits < DOUBLE_SIGN
        &&& self.finite()
        &&& self.scale() <= 1075 - down
        &&& self.significand() == n * vstd::arithmetic::power2::pow2((1075 - down - self.scale()) as nat)
    }

    /// The number `n / 2^down`.
    pub fn dyadic(n: u64, down: u64) -> (d: Double)
        requires
            n < 2 * DOUBLE_STEP,
            down <= 1000,
        ensures
            d.is_dyadic(n as int, down as int),
    {
        if n == 0 {
            return Double { bits: 0 };
        }
        let mut m: u64 = n;
        let mut scale: u64 = 1075 - down;
        proof {
            vstd::arithmetic::power2::lemma2_to64();
            assert(vstd::arithmetic::power2::pow2((1075 - down - scale) as nat) == 1);
            assert(n * 1 == n);
        }
        while m < DOUBLE_STEP
            invariant
                0 < m < 2 * DOUBLE_STEP,
                down <= 1000,
                scale <= 1075 - down,
                m == n * vstd::arithmetic::power2::pow2((1075 - down - scale) as nat),
                1075 - down - scale <= 53,
                n > 0,
                1075 - down - scale == 53 ==> m >= DOUBLE_STEP,
            decreases DOUBLE_STEP * 2 - m,
        {
            proof {
                let k = (1075 - down - scale) as nat;
                vstd::arithmetic::power2::lemma_pow2_unfold(k + 1);
                let p = vstd::arithmetic::power2::pow2(k) as int;
                assert(2 * (n * p) == n * (2 * p)) by (nonlinear_arith);
                vstd::arithmetic::power2::lemma2_to64();
                if k == 52 {
                    assert(p == 0x10_0000_0000_0000) by {
                        vstd::arithmetic::power2::lemma2_to64_rest();
                    }
                    assert(n * p >= p) by (nonlinear_arith)
                        requires
                            n >= 1,
                            p >= 0,
                    ;
                }
            }
            m = 2 * m;
            scale = scale - 1;
        }
        let bits: u64 = scale * DOUBLE_STEP + (m - DOUBLE_STEP);
        proof {
            let low = m - DOUBLE_STEP;
            vstd::arithmetic::div_mod::lemma_fundamental_div_mod_converse(
                bits as int,
                DOUBLE_STEP as int,
                scale as int,
                low,
            );
        }
        Double { bits }
    }

    /// Numbers `n / 2^down` and `m / 2^down` stand as `n` and `m` do.
    pub proof fn law_dyadics_stand_as_their_counts(a: Double, n: int, b: Double, m: int, down: int)
        requires
            0 <= n,
            0 <= m,
            a.is_dyadic(n, down),
            b.is_dyadic(m, down),
            a.rank() < b.rank(),
        ensures
            n < m,
    {
        let (i, j) = ((1075 - down - a.scale()) as nat, (1075 - down - b.scale()) as nat);
        let (p, q) = (vstd::arithmetic::power2::pow2(i) as int, vstd::arithmetic::power2::pow2(j) as int);
        let step = DOUBLE_STEP as int;
        vstd::arithmetic::power2::lemma_pow2_pos(i);
        vstd::arithmetic::power2::lemma_pow2_pos(j);
        vstd::arithmetic::div_mod::lemma_fundamental_div_mod(a.magnitude(), step);
        vstd::arithmetic::div_mod::lemma_fundamental_div_mod(b.magnitude(), step);
        if a.scale() == b.scale() {
            assert(a.significand() < b.significand());
            assert(n < m) by (nonlinear_arith)
                requires
                    n * p < m * p,
                    p > 0,
            ;
        } else {
            assert(a.scale() < b.scale()) by {
                if a.magnitude() >= step {
                    assert(a.magnitude() / step <= b.magnitude() / step) by (nonlinear_arith)
                        requires
                            a.magnitude() < b.magnitude(),
                            step > 0,
                    ;
                }
            }
            let d = (b.scale() - a.scale()) as nat;
            vstd::arithmetic::power2::lemma_pow2_adds(j, d);
            let r = vstd::arithmetic::power2::pow2(d) as int;
            vstd::arithmetic::power2::lemma_pow2_unfold(d);
            vstd::arithmetic::power2::lemma_pow2_pos((d - 1) as nat);
            assert(r >= 2);
            assert(n < m) by (nonlinear_arith)
                requires
                    n * p < 2 * step,
                    m * q >= step,
                    p == q * r,
                    r >= 2,
                    q > 0,
                    n >= 0,
                    m >= 0,
            {
                if n >= m {
                    assert(n * q >= m * q);
                    assert(n * p == (n * q) * r);
                    assert((n * q) * r >= step * 2);
                }
            }
        }
    }
}

/// A double held in a range is in it, and one that was in it is left alone.
pub proof fn law_a_held_double_is_in_range(x: Double, lo: Double, hi: Double)
    requires
        lo.rank() <= hi.rank(),
    ensures
        lo.rank() <= x.held(lo, hi).rank() <= hi.rank(),
        lo.rank() <= x.rank() <= hi.rank() ==> x.held(lo, hi) == x,
        x.rank() < lo.rank() ==> x.held(lo, hi) == lo,
        hi.rank() < x.rank() ==> x.held(lo, hi) == hi,
{
}

/// A level is a number from silence to the most, and one that was is left alone; what is no number is silent.
pub proof fn law_a_level_is_in_range(x: Single, most: u32)
    requires
        most < SINGLE_INFINITY,
    ensures
        x.level(most).finite(),
        0 <= x.level(most).rank() <= most,
        x.finite() && 0 <= x.rank() <= most ==> x.level(most) == x,
        x.finite() && most < x.rank() ==> x.level(most).bits == most,
        !x.finite() || x.rank() < 0 ==> x.level(most).bits == 0,
{
}

/// A double below 2^52 in size is rounded to the whole number nearest to it, a half away from zero: with a unit of
/// `pow2(1075 - scale)` parts, twice the rounded size lies within a unit of twice the significand.
pub proof fn law_rounding_is_to_the_nearest(x: Double)
    requires
        x.finite(),
        x.scale() < 1075,
    ensures
        ({
            let unit = vstd::arithmetic::power2::pow2((1075 - x.scale()) as nat) as int;
            let size = if x.bits >= DOUBLE_SIGN {
                -x.rounded()
            } else {
                x.rounded()
            };
            &&& unit > 0
            &&& size >= 0
            &&& -unit < 2 * (size * unit) - 2 * x.significand() <= unit
        }),
{
    let unit = vstd::arithmetic::power2::pow2((1075 - x.scale()) as nat) as int;
    vstd::arithmetic::power2::lemma_pow2_pos((1075 - x.scale()) as nat);
    let s = x.significand() as int;
    let top = 2 * s + unit;
    let q = top / (2 * unit);
    vstd::arithmetic::div_mod::lemma_fundamental_div_mod(top, 2 * unit);
    vstd::arithmetic::div_mod::lemma_mod_bound(top, 2 * unit);
    vstd::arithmetic::div_mod::lemma_div_pos_is_pos(top, 2 * unit);
    assert((2 * unit) * q == 2 * (q * unit)) by (nonlinear_arith);
}

} // verus!
