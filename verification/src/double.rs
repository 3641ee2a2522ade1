//! Binary64 floating-point numbers as plain values.
//!
//! Every finite binary64 number is a whole multiple of 2^-1074. That multiple, an
//! integer, is what the contracts speak of.

use vstd::arithmetic::power2::{
    lemma2_to64, lemma2_to64_rest, lemma_pow2_adds, lemma_pow2_pos, lemma_pow2_strictly_increases,
    lemma_pow2_unfold, pow2,
};
use vstd::prelude::*;

verus! {

/// The sign bit.
pub const SIGN: u64 = 0x8000_0000_0000_0000;

/// The magnitude of the infinities.
pub const INFINITE: u64 = 0x7ff0_0000_0000_0000;

/// The number of magnitudes that share one exponent.
pub const BINADE: u64 = 0x10_0000_0000_0000;

/// The bit pattern that stands for every result that is not a number.
pub const NOT_A_NUMBER: u64 = 0x7ff8_0000_0000_0000;

/// A binary64 floating-point number, held as its bit pattern.
#[derive(Clone, Copy, Debug)]
pub struct Double {
    pub bits: u64,
}

/// The value of the non-negative number with magnitude `m`, in units of 2^-1074.
///
/// The magnitude of the infinities stands for 2^1024, the first value that is out of range.
pub open spec fn units(m: nat) -> nat {
    let exponent = m / BINADE as nat;
    let fraction = m % BINADE as nat;
    if exponent == 0 {
        fraction
    } else {
        (fraction + BINADE as nat) * pow2((exponent - 1) as nat)
    }
}

/// The number one, in units of 2^-1074.
pub open spec fn one() -> nat {
    pow2(1074)
}

/// The number with the given sign and magnitude.
pub open spec fn signed(negative: bool, m: nat) -> Double {
    Double { bits: if negative { (SIGN + m) as u64 } else { m as u64 } }
}

impl Double {
    /// Whether the sign bit is set.
    pub open spec fn negative(self) -> bool {
        self.bits >= SIGN
    }

    /// The bit pattern without the sign bit.
    pub open spec fn magnitude(self) -> nat {
        if self.bits >= SIGN {
            (self.bits - SIGN) as nat
        } else {
            self.bits as nat
        }
    }

    /// Whether the pattern stands for no number.
    pub open spec fn is_nan(self) -> bool {
        self.magnitude() > INFINITE
    }

    /// Whether the pattern stands for one of the infinities.
    pub open spec fn is_infinite(self) -> bool {
        self.magnitude() == INFINITE
    }

    /// Whether the pattern stands for a real number.
    pub open spec fn is_finite(self) -> bool {
        self.magnitude() < INFINITE
    }

    /// The value in units of 2^-1074.
    pub open spec fn scaled(self) -> int {
        if self.negative() {
            -(units(self.magnitude()) as int)
        } else {
            units(self.magnitude()) as int
        }
    }

    /// `self < other`.
    pub open spec fn below(self, other: Double) -> bool {
        !self.is_nan() && !other.is_nan() && self.scaled() < other.scaled()
    }

    /// `self <= other`.
    pub open spec fn at_most(self, other: Double) -> bool {
        !self.is_nan() && !other.is_nan() && self.scaled() <= other.scaled()
    }

    /// The two numbers have the same value.
    pub open spec fn same_value(self, other: Double) -> bool {
        !self.is_nan() && !other.is_nan() && self.scaled() == other.scaled()
    }

    /// The larger of the two numbers; a number wins over what is no number.
    pub open spec fn larger_of(self, other: Double) -> Double {
        if self.is_nan() || self.below(other) {
            other
        } else {
            self
        }
    }

    /// The whole number that is left when the fraction is cut off, held to the range of `u64`.
    pub open spec fn cut(self) -> u64 {
        if self.is_nan() || self.negative() {
            0
        } else if units(self.magnitude()) / one() <= u64::MAX {
            (units(self.magnitude()) / one()) as u64
        } else {
            u64::MAX
        }
    }

    /// The closest whole number, halves away from zero, held to the range of `u64`.
    pub open spec fn closest_whole(self) -> u64 {
        if self.is_nan() || self.negative() {
            0
        } else if (2 * units(self.magnitude()) + one()) / (2 * one()) <= u64::MAX {
            ((2 * units(self.magnitude()) + one()) / (2 * one())) as u64
        } else {
            u64::MAX
        }
    }
}

/// The exponent of the step from magnitude `m` to the next one.
pub open spec fn step_exponent(m: nat) -> nat {
    if m / BINADE as nat == 0 {
        0
    } else {
        (m / BINADE as nat - 1) as nat
    }
}

/// Neighbouring magnitudes are one step apart.
pub proof fn lemma_units_step(m: nat)
    ensures
        units(m + 1) == units(m) + pow2(step_exponent(m)),
{
    let b = BINADE as nat;
    let e = m / b;
    let f = m % b;
    lemma2_to64();
    lemma2_to64_rest();
    if f + 1 < b {
        vstd::arithmetic::div_mod::lemma_fundamental_div_mod_converse(
            m as int + 1,
            b as int,
            e as int,
            f as int + 1,
        );
        if e > 0 {
            let p = pow2((e - 1) as nat) as int;
            assert((f + 1 + b) * p == (f + b) * p + p) by (nonlinear_arith);
            assert(units(m + 1) == (f + 1 + b) * p);
            assert(units(m) == (f + b) * p);
        }
    } else {
        vstd::arithmetic::div_mod::lemma_fundamental_div_mod_converse(
            m as int + 1,
            b as int,
            e as int + 1,
            0,
        );
        if e > 0 {
            lemma_pow2_unfold(e);
            let p = pow2((e - 1) as nat) as int;
            assert(b * (2 * p) == (f + b) * p + p) by (nonlinear_arith)
                requires
                    f + 1 == b,
            ;
            assert(units(m + 1) == b * (2 * p));
            assert(units(m) == (f + b) * p);
        } else {
            assert(b * pow2(0) == b) by (nonlinear_arith)
                requires
                    pow2(0) == 1,
            ;
            assert(units(m + 1) == b * pow2(0));
        }
    }
}

/// A larger magnitude stands for a larger value.
pub proof fn lemma_units_increase(m: nat, n: nat)
    requires
        m < n,
    ensures
        units(m) < units(n),
    decreases n - m,
{
    lemma_units_step((n - 1) as nat);
    lemma_pow2_pos(step_exponent((n - 1) as nat));
    if m < n - 1 {
        lemma_units_increase(m, (n - 1) as nat);
    }
}

/// The sign bit and the magnitude order the numbers as their values do.
proof fn lemma_rank_orders(m: nat, n: nat)
    ensures
        m < n <==> units(m) < units(n),
        m == n <==> units(m) == units(n),
        units(0) == 0,
{
    if m < n {
        lemma_units_increase(m, n);
    } else if n < m {
        lemma_units_increase(n, m);
    }
}

impl Double {
    /// The number with the given bit pattern.
    pub fn from_bits(bits: u64) -> (r: Double)
        ensures
            r.bits == bits,
    {
        Double { bits }
    }

    /// Whether the sign bit is set.
    pub fn has_sign(self) -> (r: bool)
        ensures
            r == self.negative(),
    {
        self.bits >= SIGN
    }

    /// The bit pattern without the sign bit.
    pub fn unsigned_bits(self) -> (r: u64)
        ensures
            r == self.magnitude(),
            r < SIGN,
    {
        if self.bits >= SIGN {
            self.bits - SIGN
        } else {
            self.bits
        }
    }

    fn rank(self) -> (r: i64)
        ensures
            r == if self.negative() { -(self.magnitude() as int) } else { self.magnitude() as int },
    {
        let m: i64 = self.unsigned_bits() as i64;
        if self.has_sign() {
            -m
        } else {
            m
        }
    }

    /// `self < other`.
    pub fn is_below(self, other: Double) -> (r: bool)
        ensures
            r == self.below(other),
    {
        proof {
            lemma_rank_orders(self.magnitude(), other.magnitude());
            lemma_rank_orders(self.magnitude(), 0);
            lemma_rank_orders(other.magnitude(), 0);
        }
        self.unsigned_bits() <= INFINITE && other.unsigned_bits() <= INFINITE && self.rank()
            < other.rank()
    }

    /// `self <= other`.
    pub fn is_at_most(self, other: Double) -> (r: bool)
        ensures
            r == self.at_most(other),
    {
        proof {
            lemma_rank_orders(self.magnitude(), other.magnitude());
            lemma_rank_orders(self.magnitude(), 0);
            lemma_rank_orders(other.magnitude(), 0);
        }
        self.unsigned_bits() <= INFINITE && other.unsigned_bits() <= INFINITE && self.rank()
            <= other.rank()
    }

    /// `self == other`.
    pub fn is_same(self, other: Double) -> (r: bool)
        ensures
            r == self.same_value(other),
    {
        self.is_at_most(other) && other.is_at_most(self)
    }

    /// The larger of the two numbers; a number wins over what is no number.
    pub fn larger(self, other: Double) -> (r: Double)
        ensures
            r == self.larger_of(other),
    {
        if self.unsigned_bits() > INFINITE || self.is_below(other) {
            other
        } else {
            self
        }
    }
}

/// A magnitude as a whole number and the exponent of the power of two that it counts.
pub fn significand(m: u64) -> (r: (u64, u32))
    requires
        m <= INFINITE,
    ensures
        units(m as nat) == r.0 * pow2(r.1 as nat),
        r.0 < 2 * BINADE,
        r.1 <= 2046,
        r.1 as nat == step_exponent(m as nat),
        r.1 > 0 ==> r.0 >= BINADE,
{
    let exponent: u64 = m / BINADE;
    let fraction: u64 = m % BINADE;
    proof {
        lemma2_to64();
        lemma2_to64_rest();
    }
    if exponent == 0 {
        assert(fraction * pow2(0) == fraction) by (nonlinear_arith)
            requires
                pow2(0) == 1,
        ;
        (fraction, 0)
    } else {
        (fraction + BINADE, (exponent - 1) as u32)
    }
}

impl Double {
    /// The whole number that is left when the fraction is cut off: zero for what is negative or
    /// no number, the largest `u64` for what lies above it.
    pub fn to_u64(self) -> (r: u64)
        ensures
            r == self.cut(),
    {
        let m: u64 = self.unsigned_bits();
        if self.has_sign() || m > INFINITE {
            return 0;
        }
        let (c, k): (u64, u32) = significand(m);
        proof {
            lemma_pow2_pos(1074);
        }
        if k >= 1074 {
            let lift: u32 = k - 1074;
            let ghost p = pow2(lift as nat) as int;
            proof {
                lemma_pow2_adds(lift as nat, 1074);
                assert(c * (p * one()) == (c * p) * one()) by (nonlinear_arith);
                vstd::arithmetic::div_mod::lemma_div_by_multiple(c * p, one() as int);
                lemma_pow2_pos(lift as nat);
            }
            if lift >= 12 {
                proof {
                    lemma2_to64();
                    lemma2_to64_rest();
                    if lift > 12 {
                        lemma_pow2_strictly_increases(12, lift as nat);
                    }
                    assert(c * p > u64::MAX) by (nonlinear_arith)
                        requires
                            c >= BINADE,
                            p >= 4096,
                    ;
                }
                return u64::MAX;
            }
            proof {
                lemma2_to64();
                lemma2_to64_rest();
                lemma_pow2_strictly_increases(lift as nat, 12);
                assert(c * p <= u64::MAX) by (nonlinear_arith)
                    requires
                        c < 2 * BINADE,
                        0 <= p < 4096,
                        p <= 2048,
                ;
                vstd::bits::lemma_u64_shl_is_mul(c, lift as u64);
            }
            return c << (lift as u64);
        }
        let drop: u32 = 1074 - k;
        proof {
            lemma_cut_ratio(c as nat, k as nat, drop as nat);
        }
        if drop >= 53 {
            proof {
                lemma2_to64();
                lemma2_to64_rest();
                if drop > 53 {
                    lemma_pow2_strictly_increases(53, drop as nat);
                }
                vstd::arithmetic::div_mod::lemma_basic_div(c as int, pow2(drop as nat) as int);
            }
            return 0;
        }
        proof {
            vstd::bits::lemma_u64_shr_is_div(c, drop as u64);
        }
        c >> (drop as u64)
    }
}

impl Double {
    /// The closest whole number, halves away from zero: zero for what is negative or no number,
    /// the largest `u64` for what lies above it.
    pub fn round_to_u64(self) -> (r: u64)
        ensures
            r == self.closest_whole(),
    {
        let m: u64 = self.unsigned_bits();
        if self.has_sign() || m > INFINITE {
            return 0;
        }
        let (c, k): (u64, u32) = significand(m);
        proof {
            lemma_pow2_pos(1074);
        }
        if k >= 1074 {
            proof {
                let lift = (k - 1074) as nat;
                lemma_pow2_adds(lift, 1074);
                lemma_round_whole((c * pow2(lift)) as nat);
                let p = pow2(lift) as int;
                assert(c * (p * one()) == (c * p) * one()) by (nonlinear_arith);
                vstd::arithmetic::div_mod::lemma_div_by_multiple(c * p, one() as int);
            }
            return self.to_u64();
        }
        let drop: u32 = 1074 - k;
        proof {
            lemma_round_ratio(c as nat, k as nat, drop as nat);
            lemma2_to64();
            lemma2_to64_rest();
        }
        if drop >= 54 {
            proof {
                if drop > 54 {
                    lemma_pow2_strictly_increases(54, drop as nat);
                }
                lemma_pow2_unfold(drop as nat);
                vstd::arithmetic::div_mod::lemma_basic_div(
                    c + pow2((drop - 1) as nat) as int,
                    pow2(drop as nat) as int,
                );
            }
            return 0;
        }
        let half: u64 = 1u64 << ((drop - 1) as u64);
        proof {
            lemma_pow2_strictly_increases((drop - 1) as nat, 54);
            vstd::bits::lemma_u64_shl_is_mul(1, (drop - 1) as u64);
            vstd::bits::lemma_u64_shr_is_div((c + half) as u64, drop as u64);
            lemma_pow2_pos(drop as nat);
            vstd::arithmetic::div_mod::lemma_div_nonincreasing(c + half, pow2(drop as nat) as int);
        }
        (c + half) >> (drop as u64)
    }
}

proof fn lemma_round_whole(n: nat)
    ensures
        (2 * (n * one()) + one()) / (2 * one()) == n,
{
    lemma_pow2_pos(1074);
    let o = one() as int;
    assert(2 * (n * o) + o == n * (2 * o) + o) by (nonlinear_arith);
    vstd::arithmetic::div_mod::lemma_fundamental_div_mod_converse(
        2 * (n * o) + o,
        2 * o,
        n as int,
        o,
    );
}

proof fn lemma_round_ratio(c: nat, k: nat, drop: nat)
    requires
        k + drop == 1074,
        drop > 0,
    ensures
        (2 * (c * pow2(k)) + one()) / (2 * one()) == (c + pow2((drop - 1) as nat)) / pow2(drop),
{
    let up = (k + 1) as nat;
    lemma_pow2_adds(up, (drop - 1) as nat);
    lemma_pow2_adds(up, drop);
    lemma_pow2_unfold(up);
    lemma_pow2_unfold(1075);
    lemma_pow2_pos(up);
    lemma_pow2_pos(drop);
    let p = pow2(k) as int;
    let d = pow2(up) as int;
    let h = pow2((drop - 1) as nat) as int;
    assert(2 * (c * p) + d * h == d * (c + h)) by (nonlinear_arith)
        requires
            d == 2 * p,
    ;
    vstd::arithmetic::div_mod::lemma_div_denominator(d * (c + h), d, pow2(drop) as int);
    assert(d * (c + h) == (c + h) * d) by (nonlinear_arith);
    vstd::arithmetic::div_mod::lemma_div_by_multiple(c + h, d);
}

proof fn lemma_cut_ratio(c: nat, k: nat, drop: nat)
    requires
        k + drop == 1074,
    ensures
        (c * pow2(k)) / one() == c / pow2(drop),
{
    lemma_pow2_adds(k, drop);
    lemma_pow2_pos(k);
    lemma_pow2_pos(drop);
    let p = pow2(k) as int;
    let d = pow2(drop) as int;
    assert(c * p == p * c) by (nonlinear_arith);
    vstd::arithmetic::div_mod::lemma_div_denominator(p * c, p, d);
    vstd::arithmetic::div_mod::lemma_div_multiples_vanish(c as int, p);
}

} // verus!
