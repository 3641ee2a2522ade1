//! Rounding of an exact quotient to the nearest binary64 magnitude.

use crate::bignat::{BigNat, Relation, RADIX};
use crate::double::{
    lemma_units_increase, lemma_units_step, significand, step_exponent, units, BINADE, INFINITE,
};
use vstd::arithmetic::power2::{
    lemma2_to64, lemma2_to64_rest, lemma_pow2_adds, lemma_pow2_pos, lemma_pow2_strictly_increases,
    lemma_pow2_unfold, pow2,
};
use vstd::prelude::*;

verus! {

/// Twice the value half way between magnitude `m` and the next one.
pub open spec fn twice_midpoint(m: nat) -> nat {
    units(m) + units(m + 1)
}

/// Whether `p / q` lies above the half way point over magnitude `m`; at that point itself an
/// odd magnitude gives way to the next one.
pub open spec fn rounds_above(m: nat, p: nat, q: nat) -> bool {
    ||| 2 * p > twice_midpoint(m) * q
    ||| 2 * p == twice_midpoint(m) * q && m % 2 == 1
}

/// Whether magnitude `m` is the one nearest to `p / q` units, with ties going to the even one.
pub open spec fn is_nearest(m: nat, p: nat, q: nat) -> bool {
    &&& m <= INFINITE
    &&& m > 0 ==> rounds_above((m - 1) as nat, p, q)
    &&& m < INFINITE ==> !rounds_above(m, p, q)
}

/// The magnitude nearest to `p / q` units, with ties going to the even one.
pub open spec fn nearest(p: nat, q: nat) -> nat {
    choose|m: nat| is_nearest(m, p, q)
}

proof fn lemma_midpoints_increase(m: nat, n: nat)
    requires
        m < n,
    ensures
        twice_midpoint(m) < twice_midpoint(n),
{
    lemma_units_increase(m, n);
    lemma_units_increase(m + 1, n + 1);
}

/// At most one magnitude is nearest.
pub proof fn lemma_nearest_unique(m: nat, n: nat, p: nat, q: nat)
    requires
        q > 0,
        is_nearest(m, p, q),
        is_nearest(n, p, q),
    ensures
        m == n,
{
    if m < n {
        lemma_not_both_nearest(m, n, p, q);
    } else if n < m {
        lemma_not_both_nearest(n, m, p, q);
    }
}

proof fn lemma_not_both_nearest(m: nat, n: nat, p: nat, q: nat)
    requires
        q > 0,
        m < n,
        is_nearest(m, p, q),
    ensures
        !is_nearest(n, p, q),
{
    if m < n - 1 {
        lemma_midpoints_increase(m, (n - 1) as nat);
        let a = twice_midpoint(m) as int;
        let b = twice_midpoint((n - 1) as nat) as int;
        assert(a * q < b * q) by (nonlinear_arith)
            requires
                a < b,
                q > 0,
        ;
    }
}

/// A magnitude that is nearest is the one that `nearest` names.
pub proof fn lemma_nearest_is(m: nat, p: nat, q: nat)
    requires
        q > 0,
        is_nearest(m, p, q),
    ensures
        nearest(p, q) == m,
{
    lemma_nearest_unique(m, nearest(p, q), p, q);
}

proof fn lemma_nearest_from(m: nat, p: nat, q: nat) -> (r: nat)
    requires
        m <= INFINITE,
        m > 0 ==> rounds_above((m - 1) as nat, p, q),
    ensures
        is_nearest(r, p, q),
    decreases INFINITE - m,
{
    if m == INFINITE || !rounds_above(m, p, q) {
        m
    } else {
        lemma_nearest_from(m + 1, p, q)
    }
}

/// Every quotient has a nearest magnitude.
pub proof fn lemma_nearest_exists(p: nat, q: nat)
    ensures
        is_nearest(nearest(p, q), p, q),
{
    let m = lemma_nearest_from(0, p, q);
    assert(is_nearest(m, p, q));
}

/// No magnitude is closer to `p / q` than the nearest one.
pub proof fn lemma_nearest_is_closest(p: nat, q: nat, n: nat)
    requires
        q > 0,
        n <= INFINITE,
    ensures
        ({
            let near = units(nearest(p, q)) * q - p;
            let other = units(n) * q - p;
            (if near < 0 { -near } else { near }) <= (if other < 0 { -other } else { other })
        }),
{
    lemma_nearest_exists(p, q);
    let m = nearest(p, q);
    let u = units(m) as int;
    let v = units(n) as int;
    if n < m {
        lemma_units_increase(n, m);
        if n < m - 1 {
            lemma_units_increase(n, (m - 1) as nat);
        }
        let t = units((m - 1) as nat) as int;
        assert((t + u) * q == t * q + u * q) by (nonlinear_arith);
        assert(v * q <= t * q) by (nonlinear_arith)
            requires
                v <= t,
                q > 0,
        ;
        assert(v * q < u * q) by (nonlinear_arith)
            requires
                v < u,
                q > 0,
        ;
    } else if m < n {
        lemma_units_increase(m, n);
        if m + 1 < n {
            lemma_units_increase(m + 1, n);
        }
        let t = units(m + 1) as int;
        assert((u + t) * q == u * q + t * q) by (nonlinear_arith);
        assert(t * q <= v * q) by (nonlinear_arith)
            requires
                t <= v,
                q > 0,
        ;
        assert(u * q < v * q) by (nonlinear_arith)
            requires
                u < v,
                q > 0,
        ;
    }
}

/// A value that a magnitude stands for is not changed by rounding.
pub proof fn lemma_nearest_exact(m: nat, q: nat)
    requires
        q > 0,
        m <= INFINITE,
    ensures
        nearest(units(m) * q, q) == m,
{
    let u = units(m) as int;
    if m > 0 {
        lemma_units_increase((m - 1) as nat, m);
        let t = units((m - 1) as nat) as int;
        assert((t + u) * q < 2 * (u * q)) by (nonlinear_arith)
            requires
                t < u,
                q > 0,
        ;
    }
    lemma_units_increase(m, m + 1);
    let t = units(m + 1) as int;
    assert((u + t) * q > 2 * (u * q)) by (nonlinear_arith)
        requires
            t > u,
            q > 0,
    ;
    lemma_nearest_is(m, (u * q) as nat, q);
}

/// Rounding keeps the order of the quotients over one denominator.
pub proof fn lemma_nearest_ordered(p: nat, r: nat, q: nat)
    requires
        q > 0,
        p <= r,
    ensures
        nearest(p, q) <= nearest(r, q),
{
    lemma_nearest_exists(p, q);
    lemma_nearest_exists(r, q);
    let m = nearest(p, q);
    let n = nearest(r, q);
    if n < m {
        if n < m - 1 {
            lemma_midpoints_increase(n, (m - 1) as nat);
            let a = twice_midpoint(n) as int;
            let b = twice_midpoint((m - 1) as nat) as int;
            assert(a * q < b * q) by (nonlinear_arith)
                requires
                    a < b,
                    q > 0,
            ;
        }
    }
}

fn is_rounded_above(m: u64, twice: &BigNat, q: &BigNat, Ghost(p): Ghost<nat>) -> (r: bool)
    requires
        m < INFINITE,
        twice@ == 2 * p,
    ensures
        r == rounds_above(m as nat, p, q@),
{
    let (c, k): (u64, u32) = significand(m);
    let edge: BigNat = q.mul_add(2 * c + 1, 0).shift_left(k);
    proof {
        lemma_units_step(m as nat);
        let w = pow2(k as nat) as int;
        let d = q@ as int;
        assert((d * (2 * c + 1)) * w == (c * w + (c * w + w)) * d) by (nonlinear_arith);
    }
    match twice.relate(&edge) {
        Relation::More => true,
        Relation::Same => m % 2 == 1,
        Relation::Less => false,
    }
}

/// The significand `k`, with the exponent `x`, is that of magnitude `x * BINADE + k`, and the steps
/// about that magnitude are no shorter than the exponent says.
pub proof fn lemma_units_of_parts(k: nat, x: nat)
    requires
        k < 2 * BINADE,
        x > 0 ==> k >= BINADE,
    ensures
        ({
            let m = x * BINADE as nat + k;
            &&& units(m) == k * pow2(x)
            &&& units(m + 1) == (k + 1) * pow2(x)
            &&& units(m + 2) >= (k + 2) * pow2(x)
            &&& m > 0 ==> 2 * units((m - 1) as nat) <= (2 * k - 1) * pow2(x)
        }),
{
    let b = BINADE as int;
    let m = x * b + k;
    let w = pow2(x) as int;
    lemma2_to64();
    let e: int = if k >= b {
        x as int + 1
    } else {
        0
    };
    let f: int = if k >= b {
        k - b
    } else {
        k as int
    };
    assert((x + 1) * b == x * b + b) by (nonlinear_arith);
    assert(x == 0 ==> x * b == 0) by (nonlinear_arith);
    vstd::arithmetic::div_mod::lemma_fundamental_div_mod_converse(m, b, e, f);
    assert(x == 0 ==> k * w == k) by (nonlinear_arith)
        requires
            x == 0 ==> w == 1,
    ;
    assert(units(m as nat) == k * w);
    assert(step_exponent(m as nat) == x);
    assert((k + 1) * w == k * w + w) by (nonlinear_arith);
    assert((k + 2) * w == k * w + 2 * w) by (nonlinear_arith);
    assert((2 * k - 1) * w == 2 * (k * w) - w) by (nonlinear_arith);
    lemma_units_step(m as nat);
    lemma_units_step((m + 1) as nat);
    vstd::arithmetic::div_mod::lemma_div_is_ordered(m, m + 1, b);
    lemma_step_ordered(x, step_exponent((m + 1) as nat));
    if m > 0 {
        lemma_units_step((m - 1) as nat);
        let before = step_exponent((m - 1) as nat);
        vstd::arithmetic::div_mod::lemma_div_is_ordered(m - b, m - 1, b);
        vstd::arithmetic::div_mod::lemma_fundamental_div_mod_converse(m - b, b, e - 1, f);
        if x > 0 {
            lemma_step_ordered((x - 1) as nat, before);
            lemma_pow2_unfold(x);
        } else {
            lemma_step_ordered(0, before);
        }
    }
}

proof fn lemma_step_ordered(x: nat, y: nat)
    requires
        x <= y,
    ensures
        pow2(x) <= pow2(y),
{
    if x < y {
        lemma_pow2_strictly_increases(x, y);
    }
}

/// Two numbers that are known by their leading bits have a quotient that is known by the quotient
/// of these bits.
proof fn lemma_leading_quotient(
    p: nat,
    q: nat,
    a: int,
    b: int,
    e: nat,
    f: nat,
    wide: int,
    x: nat,
    drop: nat,
)
    requires
        q > 0,
        0x8000_0000_0000_0000 <= a < RADIX,
        0x8000_0000_0000_0000 <= b < RADIX,
        a * pow2(e) <= p * RADIX < (a + 1) * pow2(e),
        b * pow2(f) <= q * RADIX < (b + 1) * pow2(f),
        wide == a * RADIX / b,
        e + drop == f + 64 + x,
    ensures
        (wide - 4) * pow2(x) * q < p * pow2(drop) < (wide + 3) * pow2(x) * q,
{
    let r = RADIX as int;
    let s = pow2(e) as int;
    let t = pow2(f) as int;
    let w = pow2(x) as int;
    let d = pow2(drop) as int;
    lemma2_to64();
    lemma_pow2_pos(e);
    lemma_pow2_pos(f);
    lemma_pow2_pos(x);
    lemma_pow2_pos(drop);
    lemma_pow2_adds(e, drop);
    lemma_pow2_adds(64, x);
    lemma_pow2_adds(f, 64 + x);
    assert(s * d == t * (r * w));
    vstd::arithmetic::div_mod::lemma_fundamental_div_mod(a * r, b);
    vstd::arithmetic::div_mod::lemma_mod_bound(a * r, b);
    let rest = (a * r) % b;
    assert(a * r == b * wide + rest);
    assert(wide < 2 * r) by (nonlinear_arith)
        requires
            a * r == b * wide + rest,
            0 <= rest,
            a < r,
            2 * b >= r,
            r > 0,
    ;
    assert(wide >= 0) by (nonlinear_arith)
        requires
            a * r == b * wide + rest,
            rest < b,
            a > 0,
            r > 0,
            b > 0,
    ;
    // From below: `p * (b + 1) * d > wide * b * w * q`.
    assert(a * s > 0) by (nonlinear_arith)
        requires
            a > 0,
            s > 0,
    ;
    lemma_cross(a, s, p * r, q * r, b + 1, t);
    assert((p * r) * ((b + 1) * t) == r * (p * ((b + 1) * t))) by (nonlinear_arith);
    assert((a * s) * (q * r) == r * (a * s * q)) by (nonlinear_arith);
    assert(a * s * q < p * ((b + 1) * t)) by (nonlinear_arith)
        requires
            r * (a * s * q) < r * (p * ((b + 1) * t)),
            r > 0,
    ;
    lemma_scale_below(a * s * q, p * ((b + 1) * t), d);
    assert((a * s * q) * d == (a * q) * (s * d)) by (nonlinear_arith);
    assert((a * q) * (t * (r * w)) == t * ((a * r) * (w * q))) by (nonlinear_arith);
    assert((p * ((b + 1) * t)) * d == t * ((p * d) * (b + 1))) by (nonlinear_arith);
    assert((a * r) * (w * q) < (p * d) * (b + 1)) by (nonlinear_arith)
        requires
            t * ((a * r) * (w * q)) < t * ((p * d) * (b + 1)),
            t > 0,
    ;
    assert((wide - 4) * (b + 1) <= a * r) by (nonlinear_arith)
        requires
            a * r == b * wide + rest,
            rest >= 0,
            wide < 2 * r,
            2 * b >= r,
    ;
    let wq = w * q;
    assert(wq > 0) by (nonlinear_arith)
        requires
            wq == w * q,
            w > 0,
            q > 0,
    ;
    assert(((wide - 4) * wq) * (b + 1) <= (a * r) * wq) by (nonlinear_arith)
        requires
            (wide - 4) * (b + 1) <= a * r,
            wq > 0,
    ;
    assert((wide - 4) * wq < p * d) by (nonlinear_arith)
        requires
            ((wide - 4) * wq) * (b + 1) < (p * d) * (b + 1),
            b + 1 > 0,
    ;
    // From above: `p * b * d < (a + 1) * r * w * q`.
    assert(b * t > 0) by (nonlinear_arith)
        requires
            b > 0,
            t > 0,
    ;
    lemma_cross_above(a + 1, s, p * r, q * r, b, t);
    assert((p * r) * (b * t) == r * (p * (b * t))) by (nonlinear_arith);
    assert(((a + 1) * s) * (q * r) == r * ((a + 1) * s * q)) by (nonlinear_arith);
    assert(p * (b * t) < (a + 1) * s * q) by (nonlinear_arith)
        requires
            r * (p * (b * t)) < r * ((a + 1) * s * q),
            r > 0,
    ;
    lemma_scale_below(p * (b * t), (a + 1) * s * q, d);
    assert(((a + 1) * s * q) * d == ((a + 1) * q) * (s * d)) by (nonlinear_arith);
    assert(((a + 1) * q) * (t * (r * w)) == t * (((a + 1) * r) * (w * q))) by (nonlinear_arith);
    assert((p * (b * t)) * d == t * ((p * d) * b)) by (nonlinear_arith);
    assert((p * d) * b < ((a + 1) * r) * wq) by (nonlinear_arith)
        requires
            t * ((p * d) * b) < t * (((a + 1) * r) * wq),
            t > 0,
    ;
    assert((a + 1) * r <= (wide + 3) * b) by (nonlinear_arith)
        requires
            a * r == b * wide + rest,
            rest < b,
            r <= 2 * b,
    ;
    assert(((a + 1) * r) * wq <= ((wide + 3) * wq) * b) by (nonlinear_arith)
        requires
            (a + 1) * r <= (wide + 3) * b,
            wq > 0,
    ;
    assert(p * d < (wide + 3) * wq) by (nonlinear_arith)
        requires
            (p * d) * b < ((wide + 3) * wq) * b,
            b > 0,
    ;
    assert((wide - 4) * w * q == (wide - 4) * wq) by (nonlinear_arith)
        requires
            wq == w * q,
    ;
    assert((wide + 3) * w * q == (wide + 3) * wq) by (nonlinear_arith)
        requires
            wq == w * q,
    ;
}

proof fn lemma_cross(a: int, s: int, p: int, q: int, c: int, t: int)
    requires
        0 < a * s <= p,
        0 < q < c * t,
    ensures
        (a * s) * q < p * (c * t),
{
    let x = a * s;
    let y = c * t;
    assert(x * q < p * y) by (nonlinear_arith)
        requires
            0 < x <= p,
            0 < q < y,
    ;
}

proof fn lemma_cross_above(a: int, s: int, p: int, q: int, c: int, t: int)
    requires
        0 <= p < a * s,
        0 < c * t <= q,
    ensures
        p * (c * t) < (a * s) * q,
{
    let x = a * s;
    let y = c * t;
    assert(p * y < x * q) by (nonlinear_arith)
        requires
            0 <= p < x,
            0 < y <= q,
    ;
}

proof fn lemma_scale_below(x: int, y: int, d: int)
    by (nonlinear_arith)
    requires
        x < y,
        d > 0,
    ensures
        x * d < y * d,
{
}

/// A quotient whose leading bits are `k`, with the exponent `x`, rounds to magnitude
/// `x * BINADE + k` or to the next one.
proof fn lemma_truncated_rounds(p: nat, q: nat, k: nat, x: nat)
    requires
        q > 0,
        k < 2 * BINADE,
        x > 0 ==> k >= BINADE,
        (4 * k - 1) * pow2(x) * q < 4 * p < (4 * k + 5) * pow2(x) * q,
    ensures
        ({
            let m = x * BINADE as nat + k;
            &&& m > 0 ==> rounds_above((m - 1) as nat, p, q)
            &&& !rounds_above(m + 1, p, q)
        }),
{
    lemma_units_of_parts(k, x);
    let m = (x * BINADE as nat + k) as nat;
    let w = pow2(x) as int;
    lemma_pow2_pos(x);
    assert((4 * k - 1) * w == 2 * (k * w) + (2 * k - 1) * w) by (nonlinear_arith);
    assert((4 * k + 5) * w == 4 * (k * w) + 5 * w) by (nonlinear_arith);
    assert((k + 1) * w == k * w + w) by (nonlinear_arith);
    assert((k + 2) * w == k * w + 2 * w) by (nonlinear_arith);
    if m > 0 {
        let c = twice_midpoint((m - 1) as nat) as int;
        let g = (4 * k - 1) * w;
        assert(2 * (c * q) <= g * q) by (nonlinear_arith)
            requires
                2 * c <= g,
                q > 0,
        ;
    }
    let c = twice_midpoint(m + 1) as int;
    let g = (4 * k + 5) * w;
    assert(g * q <= 2 * (c * q)) by (nonlinear_arith)
        requires
            g <= 2 * c,
            q > 0,
    ;
}

/// What rounds above a magnitude rounds above every lower one.
proof fn lemma_rounds_above_lower(m: nat, n: nat, p: nat, q: nat)
    requires
        q > 0,
        m <= n,
        rounds_above(n, p, q),
    ensures
        rounds_above(m, p, q),
{
    if m < n {
        lemma_midpoints_increase(m, n);
        let a = twice_midpoint(m) as int;
        let b = twice_midpoint(n) as int;
        assert(a * q < b * q) by (nonlinear_arith)
            requires
                a < b,
                q > 0,
        ;
    }
}

/// Cutting `drop` bits off the quotient of the leading bits leaves less than a quarter of what the
/// last bit counts to doubt.
proof fn lemma_cut_quotient(p: nat, q: nat, wide: int, k: int, x: nat, drop: nat)
    requires
        q > 0,
        drop >= 11,
        k * pow2(drop) <= wide < (k + 1) * pow2(drop),
        (wide - 4) * pow2(x) * q < p * pow2(drop) < (wide + 3) * pow2(x) * q,
    ensures
        (4 * k - 1) * pow2(x) * q < 4 * p < (4 * k + 5) * pow2(x) * q,
{
    let d = pow2(drop) as int;
    let v = pow2(x) * q;
    lemma2_to64();
    lemma_step_ordered(11, drop);
    lemma_pow2_pos(x);
    assert(v > 0) by (nonlinear_arith)
        requires
            v == pow2(x) * q,
            pow2(x) > 0,
            q > 0,
    ;
    let w = pow2(x) as int;
    assert((wide - 4) * w * q == (wide - 4) * v) by (nonlinear_arith)
        requires
            v == w * q,
    ;
    assert((wide + 3) * w * q == (wide + 3) * v) by (nonlinear_arith)
        requires
            v == w * q,
    ;
    assert((4 * k - 1) * w * q == (4 * k - 1) * v) by (nonlinear_arith)
        requires
            v == w * q,
    ;
    assert((4 * k + 5) * w * q == (4 * k + 5) * v) by (nonlinear_arith)
        requires
            v == w * q,
    ;
    assert((4 * k - 1) * d <= 4 * (wide - 4)) by (nonlinear_arith)
        requires
            k * d <= wide,
            d >= 16,
    ;
    assert(4 * (wide + 3) <= (4 * k + 5) * d) by (nonlinear_arith)
        requires
            wide < (k + 1) * d,
            d >= 16,
    ;
    let low = (4 * k - 1) * d;
    let high = (4 * k + 5) * d;
    assert(low * v <= 4 * ((wide - 4) * v)) by (nonlinear_arith)
        requires
            low <= 4 * (wide - 4),
            v > 0,
    ;
    assert(4 * ((wide + 3) * v) <= high * v) by (nonlinear_arith)
        requires
            4 * (wide + 3) <= high,
            v > 0,
    ;
    assert(((4 * k - 1) * v) * d == low * v) by (nonlinear_arith)
        requires
            low == (4 * k - 1) * d,
    ;
    assert(((4 * k + 5) * v) * d == high * v) by (nonlinear_arith)
        requires
            high == (4 * k + 5) * d,
    ;
    assert((4 * p) * d == 4 * (p * d)) by (nonlinear_arith);
    assert((4 * k - 1) * v < 4 * p) by (nonlinear_arith)
        requires
            ((4 * k - 1) * v) * d < (4 * p) * d,
            d > 0,
    ;
    assert(4 * p < (4 * k + 5) * v) by (nonlinear_arith)
        requires
            (4 * p) * d < ((4 * k + 5) * v) * d,
            d > 0,
    ;
}

/// The quotient of two 64-bit numbers with their highest bits set, times `RADIX`, has 64 or 65 bits.
proof fn lemma_wide_range(a: int, b: int, wide: int)
    requires
        0x8000_0000_0000_0000 <= a < RADIX,
        0x8000_0000_0000_0000 <= b < RADIX,
        wide == a * RADIX / b,
    ensures
        0x8000_0000_0000_0000 <= wide < 2 * RADIX,
{
    let r = RADIX as int;
    vstd::arithmetic::div_mod::lemma_fundamental_div_mod(a * r, b);
    vstd::arithmetic::div_mod::lemma_mod_bound(a * r, b);
    let rest = (a * r) % b;
    assert(wide < 2 * r) by (nonlinear_arith)
        requires
            a * r == b * wide + rest,
            0 <= rest,
            a < r,
            2 * b >= r,
            r > 0,
    ;
    let h = 0x8000_0000_0000_0000int;
    if wide < h {
        assert(a * r < a * r) by (nonlinear_arith)
            requires
                a * r == b * wide + rest,
                rest < b,
                wide + 1 <= h,
                0 <= b <= r,
                0 <= h <= a,
        {
            assert(b * wide + b == b * (wide + 1));
            assert(b * (wide + 1) <= b * h);
            assert(b * h <= r * h);
            assert(r * h <= a * r);
        }
    }
}

/// Cutting `drop` bits off a number of `length` bits leaves 53 of them, or fewer.
proof fn lemma_kept_range(wide: nat, length: nat, drop: nat, k: nat)
    requires
        53 < length,
        pow2((length - 1) as nat) <= wide < pow2(length),
        drop + 53 >= length,
        k == wide / pow2(drop),
    ensures
        k * pow2(drop) <= wide < (k + 1) * pow2(drop),
        k < 2 * BINADE,
        drop + 53 == length ==> k >= BINADE,
{
    lemma2_to64();
    lemma2_to64_rest();
    lemma_pow2_pos(drop);
    let d = pow2(drop) as int;
    vstd::arithmetic::div_mod::lemma_fundamental_div_mod(wide as int, d);
    vstd::arithmetic::div_mod::lemma_mod_bound(wide as int, d);
    let n = k as int;
    let rest = wide as int % d;
    assert(n * d <= wide < (n + 1) * d) by (nonlinear_arith)
        requires
            wide == d * n + rest,
            0 <= rest < d,
    ;
    lemma_step_ordered(length, drop + 53);
    lemma_pow2_adds(53, drop);
    lemma_pow2_adds(52, drop);
    assert(n < 2 * BINADE) by (nonlinear_arith)
        requires
            n * d < 2 * BINADE * d,
            d > 0,
    ;
    if drop + 53 == length {
        assert(n >= BINADE) by (nonlinear_arith)
            requires
                BINADE * d < (n + 1) * d,
                d > 0,
        ;
    }
}

/// A magnitude from the leading bits of both numbers: `p / q` units round to it or to the next one.
fn guess(p: &BigNat, q: &BigNat) -> (m: u64)
    ensures
        m <= INFINITE,
        q@ > 0 ==> nearest(p@, q@) == m || nearest(p@, q@) == m + 1,
{
    let (a, e): (u64, i128) = p.leading();
    let (b, f): (u64, i128) = q.leading();
    if a == 0 || b == 0 {
        proof {
            if q@ > 0 {
                lemma_zero_rounds(q@);
            }
        }
        return 0;
    }
    let wide: u128 = (a as u128) * RADIX / (b as u128);
    proof {
        lemma_wide_range(a as int, b as int, wide as int);
        lemma2_to64();
        lemma2_to64_rest();
        lemma_pow2_adds(1, 64);
    }
    let length: i128 = if wide >= RADIX {
        65
    } else {
        64
    };
    let scale: i128 = e - f - 64;
    let drop: i128 = if scale + length < 53 {
        -scale
    } else {
        length - 53
    };
    let exponent: i128 = scale + drop;
    let kept: u128 = if drop < 128 {
        wide >> (drop as u128)
    } else {
        0
    };
    proof {
        if drop < 128 {
            vstd::bits::lemma_u128_shr_is_div(wide, drop as u128);
        } else {
            lemma_step_ordered(65, drop as nat);
            vstd::arithmetic::div_mod::lemma_basic_div(wide as int, pow2(drop as nat) as int);
        }
        lemma_kept_range(wide as nat, length as nat, drop as nat, kept as nat);
        lemma_leading_quotient(
            p@,
            q@,
            a as int,
            b as int,
            e as nat,
            f as nat,
            wide as int,
            exponent as nat,
            drop as nat,
        );
        lemma_cut_quotient(p@, q@, wide as int, kept as int, exponent as nat, drop as nat);
        lemma_truncated_rounds(p@, q@, kept as nat, exponent as nat);
    }
    let m: u128 = (exponent as u128) * (BINADE as u128) + kept;
    if m >= INFINITE as u128 {
        proof {
            lemma_rounds_above_lower((INFINITE - 1) as nat, (m - 1) as nat, p@, q@);
            lemma_nearest_is(INFINITE as nat, p@, q@);
        }
        return INFINITE;
    }
    proof {
        if rounds_above(m as nat, p@, q@) {
            lemma_nearest_is((m + 1) as nat, p@, q@);
        } else {
            lemma_nearest_is(m as nat, p@, q@);
        }
    }
    m as u64
}

proof fn lemma_zero_rounds(q: nat)
    requires
        q > 0,
    ensures
        nearest(0, q) == 0,
{
    assert(units(0) == 0);
    assert(units(0) * q == 0) by (nonlinear_arith)
        requires
            units(0) == 0,
    ;
    lemma_nearest_exact(0, q);
}

/// The magnitude nearest to `p / q` units, with ties going to the even one.
pub fn round_quotient(p: &BigNat, q: &BigNat) -> (r: u64)
    requires
        q@ > 0,
    ensures
        r == nearest(p@, q@),
        r <= INFINITE,
{
    let twice: BigNat = p.mul_add(2, 0);
    let near: u64 = guess(p, q);
    proof {
        lemma_nearest_exists(p@, q@);
    }
    if near < INFINITE && is_rounded_above(near, &twice, q, Ghost(p@)) {
        near + 1
    } else {
        near
    }
}

} // verus!
