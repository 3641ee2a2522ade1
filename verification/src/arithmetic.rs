//! Arithmetic on binary64 numbers: each result is the number nearest to the exact one.

use crate::bignat::{BigNat, Relation};
use crate::double::{
    lemma_units_increase, one, signed, significand, units, Double, BINADE, INFINITE, NOT_A_NUMBER,
    SIGN,
};
use crate::rounding::{lemma_nearest_exact, nearest, round_quotient};
use vstd::arithmetic::power2::{
    lemma2_to64, lemma2_to64_rest, lemma_pow2_adds, lemma_pow2_pos, pow2,
};
use vstd::prelude::*;

verus! {

/// The result of an operation that has no value.
pub open spec fn not_a_number() -> Double {
    Double { bits: NOT_A_NUMBER }
}

/// The number nearest to the whole number `n`.
pub open spec fn of_whole(n: nat) -> Double {
    signed(false, nearest(n * one(), 1))
}

/// The product of two numbers.
pub open spec fn product(a: Double, b: Double) -> Double {
    let negative = a.negative() != b.negative();
    if a.is_nan() || b.is_nan() {
        not_a_number()
    } else if a.is_infinite() && b.magnitude() == 0 || a.magnitude() == 0 && b.is_infinite() {
        not_a_number()
    } else if a.is_infinite() || b.is_infinite() {
        signed(negative, INFINITE as nat)
    } else {
        signed(negative, nearest(units(a.magnitude()) * units(b.magnitude()), one()))
    }
}

/// The quotient of two numbers.
pub open spec fn quotient(a: Double, b: Double) -> Double {
    let negative = a.negative() != b.negative();
    if a.is_nan() || b.is_nan() {
        not_a_number()
    } else if a.is_infinite() && b.is_infinite() || a.magnitude() == 0 && b.magnitude() == 0 {
        not_a_number()
    } else if a.is_infinite() || b.magnitude() == 0 {
        signed(negative, INFINITE as nat)
    } else if b.is_infinite() {
        signed(negative, 0)
    } else {
        signed(negative, nearest(units(a.magnitude()) * one(), units(b.magnitude())))
    }
}

/// The sum of two numbers.
pub open spec fn sum(a: Double, b: Double) -> Double {
    let exact = a.scaled() + b.scaled();
    if a.is_nan() || b.is_nan() {
        not_a_number()
    } else if a.is_infinite() && b.is_infinite() && a.negative() != b.negative() {
        not_a_number()
    } else if a.is_infinite() {
        a
    } else if b.is_infinite() {
        b
    } else if exact == 0 {
        signed(a.negative() && b.negative(), 0)
    } else {
        signed(exact < 0, nearest((if exact < 0 { -exact } else { exact }) as nat, 1))
    }
}

/// The number with its sign turned round.
pub open spec fn opposite(a: Double) -> Double {
    signed(!a.negative(), a.magnitude())
}

/// The difference of two numbers.
pub open spec fn difference(a: Double, b: Double) -> Double {
    sum(a, opposite(b))
}

fn with_sign(negative: bool, m: u64) -> (r: Double)
    requires
        m < SIGN,
    ensures
        r == signed(negative, m as nat),
{
    if negative {
        Double { bits: SIGN + m }
    } else {
        Double { bits: m }
    }
}

fn big_units(m: u64) -> (r: BigNat)
    requires
        m <= INFINITE,
    ensures
        r@ == units(m as nat),
{
    let (c, k): (u64, u32) = significand(m);
    BigNat::from_u64(c).shift_left(k)
}

proof fn lemma_units_zero(m: nat)
    ensures
        units(m) == 0 <==> m == 0,
{
    if m > 0 {
        lemma_units_increase(0, m);
    }
}

impl Double {
    /// The number nearest to `n`.
    pub fn from_u64(n: u64) -> (r: Double)
        ensures
            r == of_whole(n as nat),
    {
        let m: u64 = round_quotient(&BigNat::from_u64(n).shift_left(1074), &BigNat::from_u64(1));
        with_sign(false, m)
    }

    /// `self * other`.
    pub fn times(self, other: Double) -> (r: Double)
        ensures
            r == product(self, other),
    {
        let a: u64 = self.unsigned_bits();
        let b: u64 = other.unsigned_bits();
        let negative: bool = self.has_sign() != other.has_sign();
        if a > INFINITE || b > INFINITE {
            return Double { bits: NOT_A_NUMBER };
        }
        if a == INFINITE && b == 0 || a == 0 && b == INFINITE {
            return Double { bits: NOT_A_NUMBER };
        }
        if a == INFINITE || b == INFINITE {
            return with_sign(negative, INFINITE);
        }
        let (c, j): (u64, u32) = significand(a);
        let (d, k): (u64, u32) = significand(b);
        let exact: BigNat = BigNat::from_u64(c).mul_add(d, 0).shift_left(j + k);
        proof {
            lemma_pow2_adds(j as nat, k as nat);
            let x = pow2(j as nat) as int;
            let y = pow2(k as nat) as int;
            assert((c * d) * (x * y) == (c * x) * (d * y)) by (nonlinear_arith);
            lemma_pow2_pos(1074);
            assert(1 * one() == one());
        }
        let m: u64 = round_quotient(&exact, &BigNat::from_u64(1).shift_left(1074));
        with_sign(negative, m)
    }

    /// `self / other`.
    pub fn over(self, other: Double) -> (r: Double)
        ensures
            r == quotient(self, other),
    {
        let a: u64 = self.unsigned_bits();
        let b: u64 = other.unsigned_bits();
        let negative: bool = self.has_sign() != other.has_sign();
        if a > INFINITE || b > INFINITE {
            return Double { bits: NOT_A_NUMBER };
        }
        if a == INFINITE && b == INFINITE || a == 0 && b == 0 {
            return Double { bits: NOT_A_NUMBER };
        }
        if a == INFINITE || b == 0 {
            return with_sign(negative, INFINITE);
        }
        if b == INFINITE {
            return with_sign(negative, 0);
        }
        proof {
            lemma_units_zero(b as nat);
        }
        let m: u64 = round_quotient(&big_units(a).shift_left(1074), &big_units(b));
        with_sign(negative, m)
    }

    /// `self + other`.
    pub fn plus(self, other: Double) -> (r: Double)
        ensures
            r == sum(self, other),
    {
        let a: u64 = self.unsigned_bits();
        let b: u64 = other.unsigned_bits();
        let left: bool = self.has_sign();
        let right: bool = other.has_sign();
        if a > INFINITE || b > INFINITE {
            return Double { bits: NOT_A_NUMBER };
        }
        if a == INFINITE && b == INFINITE && left != right {
            return Double { bits: NOT_A_NUMBER };
        }
        if a == INFINITE {
            return self;
        }
        if b == INFINITE {
            return other;
        }
        let x: BigNat = big_units(a);
        let y: BigNat = big_units(b);
        let unit: BigNat = BigNat::from_u64(1);
        if left == right {
            if a == 0 && b == 0 {
                return with_sign(left, 0);
            }
            proof {
                lemma_units_zero(a as nat);
                lemma_units_zero(b as nat);
            }
            let m: u64 = round_quotient(&x.plus(&y), &unit);
            return with_sign(left, m);
        }
        match x.relate(&y) {
            Relation::Same => with_sign(false, 0),
            Relation::More => {
                let m: u64 = round_quotient(&x.minus(&y), &unit);
                with_sign(left, m)
            },
            Relation::Less => {
                let m: u64 = round_quotient(&y.minus(&x), &unit);
                with_sign(right, m)
            },
        }
    }

    /// `self - other`.
    pub fn minus(self, other: Double) -> (r: Double)
        ensures
            r == difference(self, other),
    {
        let turned: Double = with_sign(!other.has_sign(), other.unsigned_bits());
        self.plus(turned)
    }
}

/// The whole numbers up to this one are binary64 numbers.
pub const EXACT_LIMIT: u64 = 0x20_0000_0000_0000;

proof fn lemma_whole_magnitude(n: nat, c: nat, s: nat) -> (m: nat)
    requires
        1 <= n,
        c == n * pow2(s),
        c < EXACT_LIMIT,
        s <= 52,
    ensures
        m < INFINITE,
        units(m) == n * one(),
    decreases 52 - s,
{
    let b = BINADE as int;
    if c >= BINADE {
        let m = ((1075 - s) * b + (c - b)) as nat;
        vstd::arithmetic::div_mod::lemma_fundamental_div_mod_converse(
            m as int,
            b,
            1075 - s,
            c - b,
        );
        lemma_pow2_adds(s, (1074 - s) as nat);
        let p = pow2(s) as int;
        let r = pow2((1074 - s) as nat) as int;
        assert((n * p) * r == n * (p * r)) by (nonlinear_arith);
        assert(units(m) == c * r);
        m
    } else {
        lemma2_to64();
        lemma2_to64_rest();
        lemma_pow2_adds(1, s);
        let p = pow2(s) as int;
        assert(n * p >= p) by (nonlinear_arith)
            requires
                n >= 1,
                p >= 0,
        ;
        if s == 52 {
            assert(pow2(52) == BINADE);
        }
        assert(n * (2 * p) == 2 * (n * p)) by (nonlinear_arith);
        lemma_whole_magnitude(n, 2 * c, s + 1)
    }
}

/// A whole number up to 2^53 is not changed by taking the number nearest to it.
pub proof fn lemma_whole_exact(n: nat)
    requires
        n <= EXACT_LIMIT,
    ensures
        of_whole(n).is_finite(),
        !of_whole(n).negative(),
        of_whole(n).scaled() == n * one(),
        n > 0 ==> of_whole(n).magnitude() > 0,
{
    lemma2_to64();
    lemma2_to64_rest();
    let m: nat = if n == 0 {
        assert(0 * one() == 0) by (nonlinear_arith);
        0
    } else if n < EXACT_LIMIT {
        assert(n * pow2(0) == n) by (nonlinear_arith)
            requires
                pow2(0) == 1,
        ;
        lemma_whole_magnitude(n, n, 0)
    } else {
        let m = (1076 * BINADE) as nat;
        vstd::arithmetic::div_mod::lemma_fundamental_div_mod_converse(
            m as int,
            BINADE as int,
            1076,
            0,
        );
        lemma_pow2_adds(1, 1074);
        assert(units(m) == BINADE as int * pow2(1075) as int);
        assert(BINADE as int * (2 * one()) == EXACT_LIMIT as int * one()) by (nonlinear_arith)
            requires
                2 * BINADE == EXACT_LIMIT,
        ;
        m
    };
    assert(units(0) == 0);
    assert(units(m) == n * one());
    assert(units(m) * 1 == units(m));
    lemma_nearest_exact(m, 1);
    lemma_pow2_pos(1074);
    if n > 0 {
        lemma_units_zero(m);
        assert(n * one() > 0) by (nonlinear_arith)
            requires
                n > 0,
                one() > 0,
        ;
    }
}

/// The sum of two whole numbers is exact while it does not exceed 2^53.
pub proof fn lemma_sum_of_wholes(a: nat, b: nat)
    requires
        a + b <= EXACT_LIMIT,
    ensures
        sum(of_whole(a), of_whole(b)) == of_whole(a + b),
{
    lemma_whole_exact(a);
    lemma_whole_exact(b);
    lemma_whole_exact(a + b);
    let o = one() as int;
    assert((a + b) * o == a * o + b * o) by (nonlinear_arith);
    lemma_zero_whole();
    if a + b > 0 {
        lemma_pow2_pos(1074);
        assert((a + b) * o > 0) by (nonlinear_arith)
            requires
                a + b > 0,
                o > 0,
        ;
    }
}

/// The difference of two whole numbers is exact up to 2^53.
pub proof fn lemma_difference_of_wholes(a: nat, b: nat)
    requires
        b <= a <= EXACT_LIMIT,
    ensures
        difference(of_whole(a), of_whole(b)) == of_whole((a - b) as nat),
{
    lemma_whole_exact(a);
    lemma_whole_exact(b);
    lemma_whole_exact((a - b) as nat);
    let o = one() as int;
    assert((a - b) * o == a * o - b * o) by (nonlinear_arith);
    lemma_zero_whole();
    if a > b {
        lemma_pow2_pos(1074);
        assert((a - b) * o > 0) by (nonlinear_arith)
            requires
                a - b > 0,
                o > 0,
        ;
    }
}

/// The number nearest to zero is zero.
pub proof fn lemma_zero_whole()
    ensures
        of_whole(0).bits == 0,
{
    assert(units(0) == 0);
    assert(0 * one() == 0) by (nonlinear_arith);
    assert(units(0) * 1 == 0);
    lemma_nearest_exact(0, 1);
}

} // verus!
