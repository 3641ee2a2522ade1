//! What holds of binary64 numbers and their arithmetic.

use crate::arithmetic::{difference, of_whole, opposite, product, quotient, sum};
use crate::double::{lemma_units_increase, one, units, Double, INFINITE};
use crate::rounding::{
    lemma_nearest_exists, lemma_nearest_is, lemma_nearest_is_closest, nearest, twice_midpoint,
};
use vstd::arithmetic::power2::lemma_pow2_pos;
use vstd::prelude::*;

verus! {

/// The distance of two numbers.
pub open spec fn distance(a: int, b: int) -> int {
    if a < b {
        b - a
    } else {
        a - b
    }
}

/// Cutting off the fraction gives the largest whole number that is not above the number, held to
/// the range of 64 bits; what is negative or no number gives zero.
pub proof fn lemma_cut_is_floor(x: Double)
    ensures
        x.is_nan() || x.negative() ==> x.cut() == 0,
        !x.is_nan() && !x.negative() && x.scaled() < 0x1_0000_0000_0000_0000 * one() ==> x.cut()
            * one() <= x.scaled() < (x.cut() + 1) * one(),
        !x.is_nan() && !x.negative() && x.scaled() >= 0x1_0000_0000_0000_0000 * one() ==> x.cut()
            == u64::MAX,
{
    lemma_pow2_pos(1074);
    lemma_floor(units(x.magnitude()) as int, one() as int);
}

proof fn lemma_floor(a: int, b: int)
    requires
        a >= 0,
        b > 0,
    ensures
        (a / b) * b <= a < (a / b + 1) * b,
        a < 0x1_0000_0000_0000_0000 * b <==> a / b <= u64::MAX,
        a / b >= 0,
{
    vstd::arithmetic::div_mod::lemma_fundamental_div_mod(a, b);
    vstd::arithmetic::div_mod::lemma_mod_bound(a, b);
    let q = a / b;
    let r = a % b;
    assert(q * b <= a < (q + 1) * b) by (nonlinear_arith)
        requires
            a == b * q + r,
            0 <= r < b,
    ;
    assert(q >= 0) by (nonlinear_arith)
        requires
            a < (q + 1) * b,
            a >= 0,
            b > 0,
    ;
    if q <= u64::MAX {
        assert((q + 1) * b <= 0x1_0000_0000_0000_0000 * b) by (nonlinear_arith)
            requires
                q + 1 <= 0x1_0000_0000_0000_0000,
                b > 0,
        ;
    } else {
        assert(0x1_0000_0000_0000_0000 * b <= q * b) by (nonlinear_arith)
            requires
                q >= 0x1_0000_0000_0000_0000,
                b > 0,
        ;
    }
}

/// The closest whole number is at most a half away, and a half goes up; what is negative or no
/// number gives zero, and what lies above 64 bits the largest number.
pub proof fn lemma_closest_whole_is_closest(x: Double)
    ensures
        x.is_nan() || x.negative() ==> x.closest_whole() == 0,
        !x.is_nan() && !x.negative() && 2 * x.scaled() + one() < 0x2_0000_0000_0000_0000 * one()
            ==> -one() < 2 * (x.scaled() - x.closest_whole() * one()) + 1 <= one(),
        !x.is_nan() && !x.negative() && 2 * x.scaled() + one() >= 0x2_0000_0000_0000_0000 * one()
            ==> x.closest_whole() == u64::MAX,
{
    lemma_pow2_pos(1074);
    let o = one() as int;
    let a = 2 * units(x.magnitude()) as int + o;
    lemma_floor(a, 2 * o);
    let q = a / (2 * o);
    assert(q * (2 * o) == 2 * (q * o)) by (nonlinear_arith);
    assert((q + 1) * (2 * o) == 2 * (q * o) + 2 * o) by (nonlinear_arith);
    assert(0x1_0000_0000_0000_0000 * (2 * o) == 0x2_0000_0000_0000_0000 * o) by (nonlinear_arith);
}

/// The larger of two numbers is one of them and no smaller than either; a number wins over what is
/// none.
pub proof fn lemma_larger_is_upper_bound(a: Double, b: Double)
    ensures
        a.larger_of(b) == a || a.larger_of(b) == b,
        !a.is_nan() && !b.is_nan() ==> a.larger_of(b).scaled() >= a.scaled()
            && a.larger_of(b).scaled() >= b.scaled(),
        a.is_nan() ==> a.larger_of(b) == b,
        !a.is_nan() && b.is_nan() ==> a.larger_of(b) == a,
{
}

/// The comparisons are those of the values, and false for what is no number.
pub proof fn lemma_comparisons(a: Double, b: Double)
    ensures
        a.below(b) ==> !b.at_most(a) && a.at_most(b) && !a.same_value(b),
        a.at_most(b) && b.at_most(a) <==> a.same_value(b),
        a.is_nan() || b.is_nan() ==> !a.below(b) && !a.at_most(b) && !a.same_value(b),
        !a.is_nan() && !b.is_nan() ==> (a.below(b) <==> a.scaled() < b.scaled()),
        !a.is_nan() && !b.is_nan() ==> (a.at_most(b) <==> a.scaled() <= b.scaled()),
{
}

/// Of two magnitudes that are equally near the even one is taken.
pub proof fn lemma_tie_goes_to_even(m: nat, p: nat, q: nat)
    requires
        m < INFINITE,
        q > 0,
        2 * p == (units(m) + units(m + 1)) * q,
    ensures
        nearest(p, q) == if m % 2 == 0 {
            m
        } else {
            m + 1
        },
{
    let t = twice_midpoint(m) as int;
    if m > 0 {
        lemma_units_increase((m - 1) as nat, m);
        lemma_units_increase(m, m + 1);
        let u = twice_midpoint((m - 1) as nat) as int;
        assert(u * q < t * q) by (nonlinear_arith)
            requires
                u < t,
                q > 0,
        ;
    }
    lemma_units_increase(m, m + 1);
    lemma_units_increase(m + 1, m + 2);
    let v = twice_midpoint(m + 1) as int;
    assert(t * q < v * q) by (nonlinear_arith)
        requires
            t < v,
            q > 0,
    ;
    if m % 2 == 0 {
        lemma_nearest_is(m, p, q);
    } else {
        lemma_nearest_is(m + 1, p, q);
    }
}

/// No number is closer to the exact product than the product is; its sign is that of the exact
/// one, and the order of the factors makes no difference.
pub proof fn lemma_product_is_closest(a: Double, b: Double, n: nat)
    requires
        a.is_finite(),
        b.is_finite(),
        n <= INFINITE,
    ensures
        product(a, b) == product(b, a),
        !product(a, b).is_nan(),
        product(a, b).negative() == (a.negative() != b.negative()),
        ({
            let exact = units(a.magnitude()) * units(b.magnitude());
            distance((units(product(a, b).magnitude()) * one()) as int, exact as int) <= distance(
                (units(n) * one()) as int,
                exact as int,
            )
        }),
{
    lemma_pow2_pos(1074);
    let x = units(a.magnitude());
    let y = units(b.magnitude());
    assert(x * y == y * x) by (nonlinear_arith);
    lemma_nearest_exists((x * y) as nat, one());
    lemma_nearest_is_closest((x * y) as nat, one(), n);
}

/// No number is closer to the exact quotient than the quotient is, and its sign is that of the exact
/// one.
pub proof fn lemma_quotient_is_closest(a: Double, b: Double, n: nat)
    requires
        a.is_finite(),
        b.is_finite(),
        b.magnitude() > 0,
        n <= INFINITE,
    ensures
        !quotient(a, b).is_nan(),
        quotient(a, b).negative() == (a.negative() != b.negative()),
        ({
            let exact = units(a.magnitude()) * one();
            let by = units(b.magnitude());
            distance((units(quotient(a, b).magnitude()) * by) as int, exact as int) <= distance(
                (units(n) * by) as int,
                exact as int,
            )
        }),
{
    lemma_pow2_pos(1074);
    let x = units(a.magnitude());
    let y = units(b.magnitude());
    lemma_units_increase(0, b.magnitude());
    lemma_nearest_exists((x * one()) as nat, y);
    lemma_nearest_is_closest((x * one()) as nat, y, n);
}

/// No number is closer to the exact sum than the sum is, and the order of the addends makes no
/// difference; a difference is the sum with the opposite.
pub proof fn lemma_sum_is_closest(a: Double, b: Double, n: Double)
    requires
        a.is_finite(),
        b.is_finite(),
        !n.is_nan(),
    ensures
        sum(a, b) == sum(b, a),
        !sum(a, b).is_nan(),
        distance(sum(a, b).scaled(), a.scaled() + b.scaled()) <= distance(
            n.scaled(),
            a.scaled() + b.scaled(),
        ),
        opposite(b).scaled() == -b.scaled(),
        opposite(b).is_finite(),
        difference(a, b) == sum(a, opposite(b)),
{
    let exact = a.scaled() + b.scaled();
    assert(units(0) == 0);
    if exact != 0 {
        let p = (if exact < 0 {
            -exact
        } else {
            exact
        }) as nat;
        lemma_nearest_exists(p, 1);
        lemma_nearest_is_closest(p, 1, n.magnitude());
        lemma_nearest_is_closest(p, 1, 0);
        assert(units(n.magnitude()) * 1 == units(n.magnitude()));
        assert(units(0) * 1 == 0);
        assert(units(nearest(p, 1)) * 1 == units(nearest(p, 1)));
    }
}

/// What is no number, and what has no value, gives no number; an infinity outweighs every number.
pub proof fn lemma_special_values(a: Double, b: Double)
    ensures
        a.is_nan() || b.is_nan() ==> product(a, b).is_nan() && quotient(a, b).is_nan() && sum(
            a,
            b,
        ).is_nan(),
        a.is_infinite() && b.is_infinite() ==> product(a, b).is_infinite() && quotient(
            a,
            b,
        ).is_nan() && (sum(a, b).is_nan() <==> a.negative() != b.negative()),
        a.is_infinite() && b.is_finite() ==> sum(a, b) == a && sum(b, a) == a && quotient(
            a,
            b,
        ).is_infinite() && quotient(b, a).magnitude() == 0,
        a.is_infinite() && b.is_finite() && b.magnitude() > 0 ==> product(a, b).is_infinite()
            && product(a, b).negative() == (a.negative() != b.negative()),
        a.is_infinite() && b.magnitude() == 0 ==> product(a, b).is_nan(),
        a.is_finite() && a.magnitude() > 0 && b.magnitude() == 0 ==> quotient(a, b).is_infinite()
            && quotient(a, b).negative() == (a.negative() != b.negative()),
        a.magnitude() == 0 && b.magnitude() == 0 ==> quotient(a, b).is_nan(),
{
}

/// The number that stands for a whole number is as close to it as any.
pub proof fn lemma_whole_is_closest(w: nat, n: nat)
    requires
        n <= INFINITE,
    ensures
        !of_whole(w).is_nan(),
        !of_whole(w).negative(),
        distance(of_whole(w).scaled(), (w * one()) as int) <= distance(
            units(n) as int,
            (w * one()) as int,
        ),
{
    lemma_nearest_exists(w * one(), 1);
    lemma_nearest_is_closest(w * one(), 1, n);
    assert(units(n) * 1 == units(n));
    assert(units(nearest(w * one(), 1)) * 1 == units(nearest(w * one(), 1)));
}

} // verus!
