//! Natural numbers of any size, as far as exact rounding needs them.

use vstd::arithmetic::power2::{lemma_pow2_adds, pow2};
use vstd::prelude::*;

verus! {

/// The weight of the second limb.
pub const RADIX: u128 = 0x1_0000_0000_0000_0000;

/// How one number compares with another.
#[derive(Clone, Copy, Debug, PartialEq, Eq, Structural)]
pub enum Relation {
    Less,
    Same,
    More,
}

/// The weight of limb `n`.
pub open spec fn weight(n: nat) -> nat
    decreases n,
{
    if n == 0 {
        1
    } else {
        RADIX as nat * weight((n - 1) as nat)
    }
}

/// Limb `i`, with zeros above the stored limbs.
pub open spec fn limb_at(s: Seq<u64>, i: int) -> nat {
    if 0 <= i < s.len() {
        s[i] as nat
    } else {
        0
    }
}

/// The number that the lowest `n` limbs stand for.
pub open spec fn low_value(s: Seq<u64>, n: nat) -> nat
    decreases n,
{
    if n == 0 {
        0
    } else {
        low_value(s, (n - 1) as nat) + limb_at(s, n - 1) * weight((n - 1) as nat)
    }
}

/// A natural number, stored in 64-bit limbs with the lowest limb first.
#[derive(Debug)]
pub struct BigNat {
    limbs: Vec<u64>,
}

impl View for BigNat {
    type V = nat;

    closed spec fn view(&self) -> nat {
        low_value(self.limbs@, self.limbs@.len())
    }
}

proof fn lemma_weight_is_power(n: nat)
    ensures
        weight(n) == pow2(64 * n),
    decreases n,
{
    vstd::arithmetic::power2::lemma2_to64();
    if n > 0 {
        lemma_weight_is_power((n - 1) as nat);
        lemma_pow2_adds(64, (64 * (n - 1)) as nat);
        assert(RADIX as nat == pow2(64)) by {
            lemma_pow2_adds(32, 32);
        }
    }
}

proof fn lemma_low_value_agrees(s: Seq<u64>, t: Seq<u64>, n: nat)
    requires
        forall|j: int| 0 <= j < n ==> limb_at(s, j) == limb_at(t, j),
    ensures
        low_value(s, n) == low_value(t, n),
    decreases n,
{
    if n > 0 {
        lemma_low_value_agrees(s, t, (n - 1) as nat);
    }
}

proof fn lemma_low_value_bound(s: Seq<u64>, n: nat)
    ensures
        low_value(s, n) < weight(n),
    decreases n,
{
    if n > 0 {
        lemma_low_value_bound(s, (n - 1) as nat);
        let w = weight((n - 1) as nat) as int;
        let x = limb_at(s, n - 1) as int;
        assert(x * w + w <= RADIX as int * w) by (nonlinear_arith)
            requires
                x + 1 <= RADIX as int,
                w >= 0,
        ;
    }
}

proof fn lemma_low_value_above(s: Seq<u64>, n: nat)
    requires
        n >= s.len(),
    ensures
        low_value(s, n) == low_value(s, s.len()),
    decreases n,
{
    if n > s.len() {
        lemma_low_value_above(s, (n - 1) as nat);
        assert(limb_at(s, n - 1) * weight((n - 1) as nat) == 0) by (nonlinear_arith)
            requires
                limb_at(s, n - 1) == 0,
        ;
    }
}

proof fn lemma_low_value_push(s: Seq<u64>, x: u64)
    ensures
        low_value(s.push(x), s.len() + 1) == low_value(s, s.len()) + x * weight(s.len()),
{
    lemma_low_value_agrees(s, s.push(x), s.len());
}

proof fn lemma_difference_decides(s: Seq<u64>, t: Seq<u64>, i: nat, n: nat)
    requires
        i < n,
        limb_at(s, i as int) < limb_at(t, i as int),
        forall|j: int| i < j < n ==> limb_at(s, j) == limb_at(t, j),
    ensures
        low_value(s, n) < low_value(t, n),
    decreases n,
{
    if n == i + 1 {
        lemma_low_value_bound(s, i);
        let w = weight(i) as int;
        let x = limb_at(s, i as int) as int;
        let y = limb_at(t, i as int) as int;
        assert(x * w + w <= y * w) by (nonlinear_arith)
            requires
                x + 1 <= y,
                w >= 0,
        ;
    } else {
        lemma_difference_decides(s, t, i, (n - 1) as nat);
    }
}

proof fn lemma_low_value_raise(s: Seq<u64>, z: nat, n: nat)
    ensures
        low_value(Seq::new(z, |i: int| 0u64) + s, z + n) == weight(z) * low_value(s, n),
    decreases n,
{
    let zeros = Seq::new(z, |i: int| 0u64);
    let t = zeros + s;
    if n == 0 {
        lemma_zeros(t, z);
        assert(weight(z) * 0 == 0) by (nonlinear_arith);
    } else {
        lemma_low_value_raise(s, z, (n - 1) as nat);
        lemma_weight_is_power(z);
        lemma_weight_is_power((n - 1) as nat);
        lemma_weight_is_power((z + n - 1) as nat);
        lemma_pow2_adds(64 * z, (64 * (n - 1)) as nat);
        assert(64 * z + 64 * (n - 1) == 64 * (z + n - 1));
        assert(limb_at(t, z + n - 1) == limb_at(s, n - 1));
        let w = weight(z) as int;
        let v = weight((n - 1) as nat) as int;
        let x = limb_at(s, n - 1) as int;
        let l = low_value(s, (n - 1) as nat) as int;
        assert(w * l + x * (w * v) == w * (l + x * v)) by (nonlinear_arith);
    }
}

proof fn lemma_zeros(s: Seq<u64>, z: nat)
    requires
        forall|j: int| 0 <= j < z ==> limb_at(s, j) == 0,
    ensures
        low_value(s, z) == 0,
    decreases z,
{
    if z > 0 {
        lemma_zeros(s, (z - 1) as nat);
        assert(0 * weight((z - 1) as nat) == 0) by (nonlinear_arith);
    }
}

proof fn lemma_low_value_positive(s: Seq<u64>, i: nat, n: nat)
    requires
        i < n,
        limb_at(s, i as int) > 0,
    ensures
        low_value(s, n) > 0,
    decreases n,
{
    if n == i + 1 {
        lemma_weight_is_power(i);
        vstd::arithmetic::power2::lemma_pow2_pos(64 * i);
        let w = weight(i) as int;
        let x = limb_at(s, i as int) as int;
        assert(x * w > 0) by (nonlinear_arith)
            requires
                x > 0,
                w > 0,
        ;
    } else {
        lemma_low_value_positive(s, i, (n - 1) as nat);
    }
}

proof fn lemma_radix()
    ensures
        pow2(64) == RADIX,
{
    vstd::arithmetic::power2::lemma2_to64();
}

/// A limb that is lifted by fewer places than its value leaves free stays a limb.
proof fn lemma_lift_bound(top: nat, steps: nat)
    requires
        top > 0,
        top * pow2(steps) < RADIX,
    ensures
        steps < 64,
{
    lemma_radix();
    if steps >= 64 {
        if steps > 64 {
            vstd::arithmetic::power2::lemma_pow2_strictly_increases(64, steps);
        }
        let w = pow2(steps) as int;
        assert(top * w >= w) by (nonlinear_arith)
            requires
                top > 0,
                w >= 0,
        ;
    }
}

/// The 64 bits that are cut from two limbs fill a limb, and what is left is less than one of them.
proof fn lemma_leading_bits(both: nat, top: nat, steps: nat, bits: nat)
    requires
        steps < 64,
        0x8000_0000_0000_0000 <= top * pow2(steps) < RADIX,
        top * RADIX <= both < (top + 1) * RADIX,
        bits == both / pow2((64 - steps) as nat),
    ensures
        0x8000_0000_0000_0000 <= bits < RADIX,
        bits * pow2((64 - steps) as nat) <= both < (bits + 1) * pow2((64 - steps) as nat),
{
    lemma_radix();
    lemma_pow2_adds((64 - steps) as nat, steps);
    vstd::arithmetic::power2::lemma_pow2_pos((64 - steps) as nat);
    vstd::arithmetic::power2::lemma_pow2_pos(steps);
    let u = pow2((64 - steps) as nat) as int;
    let w = pow2(steps) as int;
    vstd::arithmetic::div_mod::lemma_fundamental_div_mod(both as int, u);
    vstd::arithmetic::div_mod::lemma_mod_bound(both as int, u);
    let k = bits as int;
    assert(k * u <= both < (k + 1) * u) by (nonlinear_arith)
        requires
            both == u * k + both % (u as nat),
            0 <= both % (u as nat) < u,
    ;
    assert(top < u) by (nonlinear_arith)
        requires
            top * w < u * w,
            w > 0,
    ;
    assert((top + 1) * (u * w) <= u * (u * w)) by (nonlinear_arith)
        requires
            top + 1 <= u,
            u * w >= 0,
    ;
    assert(k < u * w) by (nonlinear_arith)
        requires
            k * u < u * (u * w),
            u > 0,
    ;
    assert(top * (u * w) == (top * w) * u) by (nonlinear_arith);
    assert(k >= top * w) by (nonlinear_arith)
        requires
            (top * w) * u < (k + 1) * u,
            u > 0,
    ;
}

/// The two highest limbs tell the number up to the weight of the second of them.
proof fn lemma_leading_value(s: Seq<u64>, i: nat, next: u64)
    requires
        0 < i <= s.len(),
        forall|j: int| i <= j < s.len() ==> s[j] == 0,
        next == if i > 1 {
            s[i - 2]
        } else {
            0
        },
    ensures
        ({
            let both = s[i - 1] * RADIX + next;
            let value = low_value(s, s.len());
            both * weight((i - 1) as nat) <= value * RADIX < (both + 1) * weight((i - 1) as nat)
        }),
{
    let t = s.take(i as int);
    lemma_low_value_above(t, s.len());
    lemma_low_value_agrees(s, t, s.len());
    lemma_low_value_agrees(s, t, i);
    let r = RADIX as int;
    let w = weight((i - 1) as nat) as int;
    let x = s[i - 1] as int;
    if i == 1 {
        reveal_with_fuel(low_value, 2);
        assert(low_value(s, s.len()) == x * w);
        assert((x * r + 0) * w <= (x * w) * r < (x * r + 0 + 1) * w) by (nonlinear_arith)
            requires
                w == 1,
        ;
    } else {
        let v = weight((i - 2) as nat) as int;
        let y = next as int;
        let l = low_value(s, (i - 2) as nat) as int;
        lemma_low_value_bound(s, (i - 2) as nat);
        assert(low_value(s, (i - 1) as nat) == l + y * v);
        assert(low_value(s, i) == l + y * v + x * w);
        assert((x * r + y) * w <= (l + y * v + x * w) * r < (x * r + y + 1) * w)
            by (nonlinear_arith)
            requires
                w == r * v,
                0 <= l < v,
                r > 0,
        ;
    }
}

proof fn lemma_leading_limits(value: nat, both: nat, bits: nat, place: nat, steps: nat)
    requires
        steps < 64,
        both * weight(place) <= value * RADIX < (both + 1) * weight(place),
        bits * pow2((64 - steps) as nat) <= both < (bits + 1) * pow2((64 - steps) as nat),
    ensures
        ({
            let unit = pow2((64 * (place + 1) - steps) as nat);
            bits * unit <= value * RADIX < (bits + 1) * unit
        }),
{
    lemma_weight_is_power(place);
    lemma_pow2_adds((64 - steps) as nat, 64 * place);
    let u = pow2((64 - steps) as nat) as int;
    let w = weight(place) as int;
    assert((64 - steps) + 64 * place == 64 * (place + 1) - steps);
    assert(bits * (u * w) <= both * w) by (nonlinear_arith)
        requires
            bits * u <= both,
            w >= 0,
    ;
    assert((both + 1) * w <= (bits + 1) * (u * w)) by (nonlinear_arith)
        requires
            both + 1 <= (bits + 1) * u,
            w >= 0,
    ;
}

proof fn lemma_multiply_step(l: int, c: int, v: int, f: int, a: int, x: int, low: int, high: int, w: int)
    by (nonlinear_arith)
    requires
        l + c * w == v * f + a,
        x * f + c == low + high * RADIX,
    ensures
        (l + low * w) + high * (RADIX * w) == (v + x * w) * f + a,
{
}

impl BigNat {
    /// The number `n`.
    pub fn from_u64(n: u64) -> (r: BigNat)
        ensures
            r@ == n,
    {
        let limbs: Vec<u64> = vec![n];
        proof {
            reveal_with_fuel(low_value, 2);
            assert(limb_at(limbs@, 0) == n);
            assert(n * weight(0) == n) by (nonlinear_arith)
                requires
                    weight(0) == 1,
            ;
        }
        BigNat { limbs }
    }

    fn limb(&self, i: usize) -> (r: u64)
        ensures
            r == limb_at(self.limbs@, i as int),
    {
        if i < self.limbs.len() {
            self.limbs[i]
        } else {
            0
        }
    }

    fn longer(&self, other: &BigNat) -> (n: usize)
        ensures
            n >= self.limbs@.len(),
            n >= other.limbs@.len(),
    {
        if self.limbs.len() >= other.limbs.len() {
            self.limbs.len()
        } else {
            other.limbs.len()
        }
    }

    /// The number times `factor`, plus `addend`.
    pub fn mul_add(&self, factor: u64, addend: u64) -> (r: BigNat)
        ensures
            r@ == self@ * factor + addend,
    {
        let mut out: Vec<u64> = Vec::new();
        let mut carry: u64 = addend;
        let mut i: usize = 0;
        proof {
            assert(addend * weight(0) == addend) by (nonlinear_arith)
                requires
                    weight(0) == 1,
            ;
            assert(0 * factor == 0) by (nonlinear_arith);
        }
        while i < self.limbs.len()
            invariant
                i <= self.limbs@.len(),
                out@.len() == i,
                low_value(out@, i as nat) + carry * weight(i as nat) == low_value(
                    self.limbs@,
                    i as nat,
                ) * factor + addend,
            decreases self.limbs@.len() - i,
        {
            let limb: u64 = self.limbs[i];
            assert(limb * factor + carry <= 0xffff_ffff_ffff_ffff * 0xffff_ffff_ffff_ffff
                + 0xffff_ffff_ffff_ffff) by (nonlinear_arith)
                requires
                    limb <= 0xffff_ffff_ffff_ffff,
                    factor <= 0xffff_ffff_ffff_ffff,
                    carry <= 0xffff_ffff_ffff_ffff,
            ;
            assert(limb * factor >= 0) by (nonlinear_arith)
                requires
                    limb >= 0,
                    factor >= 0,
            ;
            let wide: u128 = (limb as u128) * (factor as u128) + (carry as u128);
            let low: u64 = (wide % RADIX) as u64;
            let high: u64 = (wide / RADIX) as u64;
            proof {
                lemma_multiply_step(
                    low_value(out@, i as nat) as int,
                    carry as int,
                    low_value(self.limbs@, i as nat) as int,
                    factor as int,
                    addend as int,
                    limb as int,
                    low as int,
                    high as int,
                    weight(i as nat) as int,
                );
                lemma_low_value_push(out@, low);
            }
            out.push(low);
            carry = high;
            i = i + 1;
        }
        proof {
            lemma_low_value_push(out@, carry);
        }
        out.push(carry);
        BigNat { limbs: out }
    }

    /// The number times the power of two with exponent `k`.
    pub fn shift_left(&self, k: u32) -> (r: BigNat)
        ensures
            r@ == self@ * pow2(k as nat),
    {
        let whole: u32 = k / 64;
        let part: u32 = k % 64;
        let mut limbs: Vec<u64> = Vec::new();
        let mut j: u32 = 0;
        while j < whole
            invariant
                j <= whole,
                limbs@ =~= Seq::new(j as nat, |i: int| 0u64),
            decreases whole - j,
        {
            limbs.push(0);
            j = j + 1;
        }
        let mut i: usize = 0;
        while i < self.limbs.len()
            invariant
                i <= self.limbs@.len(),
                limbs@ =~= Seq::new(whole as nat, |i: int| 0u64) + self.limbs@.take(i as int),
            decreases self.limbs@.len() - i,
        {
            limbs.push(self.limbs[i]);
            i = i + 1;
        }
        assert(self.limbs@.take(i as int) =~= self.limbs@);
        let raised: BigNat = BigNat { limbs };
        let factor: u64 = 1u64 << (part as u64);
        proof {
            lemma_low_value_raise(self.limbs@, whole as nat, self.limbs@.len());
            lemma_weight_is_power(whole as nat);
            vstd::arithmetic::power2::lemma2_to64();
            vstd::arithmetic::power2::lemma2_to64_rest();
            vstd::arithmetic::power2::lemma_pow2_strictly_increases(part as nat, 64);
            vstd::bits::lemma_u64_shl_is_mul(1, part as u64);
            lemma_pow2_adds(64 * whole as nat, part as nat);
            assert(64 * whole + part == k);
            let a = self@ as int;
            let w = weight(whole as nat) as int;
            let p = pow2(part as nat) as int;
            assert((w * a) * p == a * (w * p)) by (nonlinear_arith);
        }
        raised.mul_add(factor, 0)
    }

    /// The sum of the two numbers.
    pub fn plus(&self, other: &BigNat) -> (r: BigNat)
        ensures
            r@ == self@ + other@,
    {
        let n: usize = self.longer(other);
        let mut out: Vec<u64> = Vec::new();
        let mut carry: u64 = 0;
        let mut i: usize = 0;
        while i < n
            invariant
                i <= n,
                out@.len() == i,
                carry <= 1,
                low_value(out@, i as nat) + carry * weight(i as nat) == low_value(
                    self.limbs@,
                    i as nat,
                ) + low_value(other.limbs@, i as nat),
            decreases n - i,
        {
            let x: u64 = self.limb(i);
            let y: u64 = other.limb(i);
            let wide: u128 = (x as u128) + (y as u128) + (carry as u128);
            let low: u64 = (wide % RADIX) as u64;
            let high: u64 = (wide / RADIX) as u64;
            proof {
                let w = weight(i as nat) as int;
                assert(low * w + high * (RADIX * w) == x * w + y * w + carry * w)
                    by (nonlinear_arith)
                    requires
                        low + high * RADIX == x + y + carry,
                ;
                lemma_low_value_push(out@, low);
            }
            out.push(low);
            carry = high;
            i = i + 1;
        }
        proof {
            lemma_low_value_push(out@, carry);
            lemma_low_value_above(self.limbs@, n as nat);
            lemma_low_value_above(other.limbs@, n as nat);
        }
        out.push(carry);
        BigNat { limbs: out }
    }

    /// What is left of the number when `other` is taken away.
    pub fn minus(&self, other: &BigNat) -> (r: BigNat)
        requires
            other@ <= self@,
        ensures
            r@ == self@ - other@,
    {
        let n: usize = self.longer(other);
        let mut out: Vec<u64> = Vec::new();
        let mut borrow: u64 = 0;
        let mut i: usize = 0;
        while i < n
            invariant
                i <= n,
                out@.len() == i,
                borrow <= 1,
                low_value(out@, i as nat) + low_value(other.limbs@, i as nat) == low_value(
                    self.limbs@,
                    i as nat,
                ) + borrow * weight(i as nat),
            decreases n - i,
        {
            let x: u128 = self.limb(i) as u128;
            let y: u128 = (other.limb(i) as u128) + (borrow as u128);
            let old_borrow: u64 = borrow;
            let low: u64;
            if x >= y {
                low = (x - y) as u64;
                borrow = 0;
            } else {
                low = (x + RADIX - y) as u64;
                borrow = 1;
            }
            proof {
                let w = weight(i as nat) as int;
                let b = limb_at(other.limbs@, i as int) as int;
                assert(low * w + b * w + old_borrow * w == x * w + borrow * (RADIX * w))
                    by (nonlinear_arith)
                    requires
                        low + b + old_borrow == x + borrow * RADIX,
                ;
                lemma_low_value_push(out@, low);
            }
            out.push(low);
            i = i + 1;
        }
        proof {
            lemma_low_value_above(self.limbs@, n as nat);
            lemma_low_value_above(other.limbs@, n as nat);
            lemma_low_value_bound(out@, n as nat);
            let w = weight(n as nat) as int;
            assert(borrow * w == if borrow == 0 { 0 } else { w }) by (nonlinear_arith)
                requires
                    borrow <= 1,
            ;
        }
        BigNat { limbs: out }
    }

    /// The leading 64 bits of the number, and the exponent of the power of two that they count when
    /// the number is taken times `RADIX`; what lies below is cut off.
    pub(crate) fn leading(&self) -> (r: (u64, i128))
        ensures
            r.0 == 0 <==> self@ == 0,
            0 <= r.1 <= 64 * u64::MAX,
            self@ > 0 ==> r.0 >= 0x8000_0000_0000_0000,
            self@ > 0 ==> r.0 * pow2(r.1 as nat) <= self@ * RADIX < (r.0 + 1) * pow2(r.1 as nat),
    {
        let mut i: usize = self.limbs.len();
        while i > 0 && self.limbs[i - 1] == 0
            invariant
                i <= self.limbs@.len(),
                forall|j: int| i <= j < self.limbs@.len() ==> self.limbs@[j] == 0,
            decreases i,
        {
            i = i - 1;
        }
        if i == 0 {
            proof {
                lemma_zeros(self.limbs@, self.limbs@.len());
            }
            return (0, 0);
        }
        let top: u64 = self.limbs[i - 1];
        let next: u64 = if i > 1 {
            self.limbs[i - 2]
        } else {
            0
        };
        let mut lifted: u64 = top;
        let mut steps: u64 = 0;
        proof {
            lemma_low_value_positive(self.limbs@, (i - 1) as nat, self.limbs@.len());
            vstd::arithmetic::power2::lemma2_to64();
            assert(top * pow2(0) == top) by (nonlinear_arith)
                requires
                    pow2(0) == 1,
            ;
        }
        while lifted < 0x8000_0000_0000_0000
            invariant
                top > 0,
                lifted >= top,
                lifted == top * pow2(steps as nat),
                lifted > steps,
            decreases u64::MAX - lifted,
        {
            proof {
                vstd::arithmetic::power2::lemma_pow2_unfold((steps + 1) as nat);
                let w = pow2(steps as nat) as int;
                assert(top * (2 * w) == 2 * (top * w)) by (nonlinear_arith);
            }
            lifted = lifted * 2;
            steps = steps + 1;
        }
        proof {
            lemma_lift_bound(top as nat, steps as nat);
        }
        let both: u128 = (top as u128) * RADIX + (next as u128);
        let bits: u128 = both >> ((64 - steps) as u128);
        proof {
            vstd::bits::lemma_u128_shr_is_div(both, (64 - steps) as u128);
            lemma_leading_bits(both as nat, top as nat, steps as nat, bits as nat);
            lemma_leading_value(self.limbs@, i as nat, next);
            lemma_leading_limits(
                self@,
                both as nat,
                bits as nat,
                (i - 1) as nat,
                steps as nat,
            );
        }
        (bits as u64, 64 * (i as i128) - (steps as i128))
    }

    /// How the number compares with `other`.
    pub fn relate(&self, other: &BigNat) -> (r: Relation)
        ensures
            r == Relation::Less <==> self@ < other@,
            r == Relation::Same <==> self@ == other@,
            r == Relation::More <==> self@ > other@,
    {
        let n: usize = self.longer(other);
        proof {
            lemma_low_value_above(self.limbs@, n as nat);
            lemma_low_value_above(other.limbs@, n as nat);
        }
        let mut i: usize = n;
        while i > 0
            invariant
                i <= n,
                self@ == low_value(self.limbs@, n as nat),
                other@ == low_value(other.limbs@, n as nat),
                forall|j: int|
                    i <= j < n ==> limb_at(self.limbs@, j) == limb_at(other.limbs@, j),
            decreases i,
        {
            i = i - 1;
            let x: u64 = self.limb(i);
            let y: u64 = other.limb(i);
            if x < y {
                proof {
                    lemma_difference_decides(self.limbs@, other.limbs@, i as nat, n as nat);
                }
                return Relation::Less;
            }
            if x > y {
                proof {
                    lemma_difference_decides(other.limbs@, self.limbs@, i as nat, n as nat);
                }
                return Relation::More;
            }
        }
        proof {
            lemma_low_value_agrees(self.limbs@, other.limbs@, n as nat);
        }
        Relation::Same
    }
}

} // verus!
