//! What holds of times that go through floating point.

use crate::arithmetic::{lemma_whole_exact, of_whole, product, quotient, EXACT_LIMIT};
use crate::buffer::{
    buffer_capacity, duration_ms, duration_of_rounded, lemma_buffer_holds_newest, retained_start, ChannelBuffer,
    THOUSAND,
};
use crate::double::{lemma_units_increase, one, signed, units, Double, BINADE, INFINITE};
use crate::packet::milliseconds;
use crate::rounding::{
    lemma_nearest_exact, lemma_nearest_exists, lemma_nearest_is, lemma_nearest_is_closest,
    lemma_nearest_ordered, lemma_units_of_parts, nearest, rounds_above, twice_midpoint,
};
use vstd::arithmetic::power2::{
    lemma2_to64, lemma2_to64_rest, lemma_pow2_adds, lemma_pow2_pos, lemma_pow2_strictly_increases,
    lemma_pow2_unfold, pow2,
};
use vstd::prelude::*;

verus! {

/// Up to this many milliseconds a time in seconds tells the millisecond: 2^42 seconds.
pub const MILLISECOND_LIMIT: u64 = 4_398_046_511_104_000;

/// A whole number up to 2^53, times a power of two, is the value of a magnitude.
proof fn lemma_magnitude_of(n: nat, x: nat) -> (m: nat)
    requires
        n <= EXACT_LIMIT,
        x <= 2044,
    ensures
        m <= INFINITE,
        units(m) == n * pow2(x),
    decreases x,
{
    lemma2_to64();
    if n == EXACT_LIMIT {
        lemma_units_of_parts(BINADE as nat, x + 1);
        lemma_pow2_unfold(x + 1);
        let w = pow2(x) as int;
        assert(BINADE * (2 * w) == EXACT_LIMIT * w) by (nonlinear_arith)
            requires
                2 * BINADE == EXACT_LIMIT,
        ;
        ((x + 1) * BINADE + BINADE) as nat
    } else if n >= BINADE || x == 0 {
        lemma_units_of_parts(n, x);
        (x * BINADE + n) as nat
    } else {
        lemma_pow2_unfold(x);
        let w = pow2((x - 1) as nat) as int;
        assert((2 * n) * w == n * (2 * w)) by (nonlinear_arith);
        lemma_magnitude_of(2 * n, (x - 1) as nat)
    }
}

/// A quotient of at most 2^53 times 2^`x` units is rounded by half of 2^`x` units at most.
pub proof fn lemma_rounding_error(p: nat, q: nat, x: nat)
    requires
        q > 0,
        x <= 2044,
        p <= EXACT_LIMIT * (pow2(x) * q),
    ensures
        ({
            let error = units(nearest(p, q)) * q - p;
            -(pow2(x) * q) <= 2 * error <= pow2(x) * q
        }),
{
    lemma_pow2_pos(x);
    let w = pow2(x) as int;
    let g = w * q;
    assert(g > 0) by (nonlinear_arith)
        requires
            g == w * q,
            w > 0,
            q > 0,
    ;
    let j = p as int / g;
    let rest = p as int % g;
    vstd::arithmetic::div_mod::lemma_fundamental_div_mod(p as int, g);
    vstd::arithmetic::div_mod::lemma_mod_bound(p as int, g);
    assert(0 <= j <= EXACT_LIMIT) by (nonlinear_arith)
        requires
            p == g * j + rest,
            0 <= rest < g,
            p <= EXACT_LIMIT * g,
            p >= 0,
            g > 0,
    ;
    if 2 * rest > g {
        assert(j < EXACT_LIMIT) by (nonlinear_arith)
            requires
                p == g * j + rest,
                rest > 0,
                p <= EXACT_LIMIT * g,
                g > 0,
        ;
    }
    let n = if 2 * rest <= g {
        j
    } else {
        j + 1
    };
    let m = lemma_magnitude_of(n as nat, x);
    lemma_nearest_is_closest(p, q, m);
    assert((n * w) * q == n * g) by (nonlinear_arith)
        requires
            g == w * q,
    ;
    assert(g * j == j * g && (j + 1) * g == j * g + g) by (nonlinear_arith);
}

/// Equal quotients have the same nearest magnitude.
pub proof fn lemma_nearest_of_equal(p: nat, q: nat, r: nat, s: nat)
    requires
        q > 0,
        s > 0,
        p * s == r * q,
    ensures
        nearest(p, q) == nearest(r, s),
{
    lemma_nearest_exists(r, s);
    let m = nearest(r, s);
    if m > 0 {
        lemma_rounds_alike((m - 1) as nat, p, q, r, s);
    }
    lemma_rounds_alike(m, p, q, r, s);
    lemma_nearest_is(m, p, q);
}

proof fn lemma_rounds_alike(m: nat, p: nat, q: nat, r: nat, s: nat)
    requires
        q > 0,
        s > 0,
        p * s == r * q,
    ensures
        rounds_above(m, p, q) == rounds_above(m, r, s),
{
    let t = twice_midpoint(m) as int;
    lemma_same_side(2 * p as int, t * q, s as int);
    lemma_same_side(2 * r as int, t * s, q as int);
    assert((2 * p) * s == (2 * r) * q) by (nonlinear_arith)
        requires
            p * s == r * q,
    ;
    assert((t * q) * s == (t * s) * q) by (nonlinear_arith);
}

proof fn lemma_same_side(a: int, b: int, s: int)
    requires
        s > 0,
    ensures
        a > b <==> a * s > b * s,
        a == b <==> a * s == b * s,
{
    if a > b {
        assert(a * s > b * s) by (nonlinear_arith)
            requires
                a > b,
                s > 0,
        ;
    } else if a < b {
        assert(a * s < b * s) by (nonlinear_arith)
            requires
                a < b,
                s > 0,
        ;
    }
}

/// A thousand, in units of 2^-1074.
pub proof fn lemma_thousand()
    ensures
        units(THOUSAND as nat) == 1000 * one(),
{
    let b = BINADE as int;
    vstd::arithmetic::div_mod::lemma_fundamental_div_mod_converse(
        THOUSAND as int,
        b,
        1032,
        0xf_4000_0000_0000,
    );
    lemma2_to64();
    lemma2_to64_rest();
    lemma_pow2_adds(43, 1031);
    let w = pow2(1031) as int;
    assert((0xf_4000_0000_0000int + b) * w == 1000 * (pow2(43) * w)) by (nonlinear_arith)
        requires
            0xf_4000_0000_0000int + b == 1000 * pow2(43),
    ;
}

proof fn lemma_finite(m: nat)
    requires
        m <= INFINITE,
        units(m) <= EXACT_LIMIT * pow2(1073),
    ensures
        m < INFINITE,
{
    if m == INFINITE {
        lemma_units_of_parts(BINADE as nat, 2046);
        lemma_pow2_unfold(1074);
        lemma_pow2_strictly_increases(1074, 2046);
        let w = pow2(2046) as int;
        let h = pow2(1073) as int;
        assert(BINADE * w > EXACT_LIMIT * h) by (nonlinear_arith)
            requires
                w > 2 * h,
                EXACT_LIMIT == 2 * BINADE,
                BINADE > 0,
        ;
    }
}

/// The number of seconds nearest to a whole number of milliseconds.
pub open spec fn seconds_of(ms: nat) -> Double {
    signed(false, nearest(ms * one(), 1000))
}

/// A time up to 2^42 seconds that is taken from milliseconds to seconds and back is not changed.
pub proof fn lemma_milliseconds_exact(ms: nat)
    requires
        ms <= MILLISECOND_LIMIT,
    ensures
        seconds_of(ms).is_finite(),
        !seconds_of(ms).negative(),
        milliseconds(seconds_of(ms)) == ms,
        !product(seconds_of(ms), Double { bits: THOUSAND }).is_nan(),
        !product(seconds_of(ms), Double { bits: THOUSAND }).negative(),
        -one() < 2 * (product(seconds_of(ms), Double { bits: THOUSAND }).scaled() - ms * one())
            < one(),
{
    let g = pow2(1063) as int;
    let o = one() as int;
    lemma2_to64();
    lemma2_to64_rest();
    lemma_pow2_pos(1063);
    lemma_pow2_adds(11, 1063);
    lemma_pow2_adds(10, 1063);
    assert(o == 2048 * g);
    assert(pow2(1073) == 1024 * g);
    let p = (ms * one()) as nat;
    assert(p == 2048 * (ms * g)) by (nonlinear_arith)
        requires
            p == ms * o,
            o == 2048 * g,
    ;
    assert(ms * g <= MILLISECOND_LIMIT * g) by (nonlinear_arith)
        requires
            ms <= MILLISECOND_LIMIT,
            g > 0,
    ;
    lemma_rounding_error(p, 1000, 1063);
    lemma_nearest_exists(p, 1000);
    let m = nearest(p, 1000);
    let v = units(m) as int;
    lemma_finite(m);
    lemma_thousand();
    lemma_nearest_exists((v * (1000 * o)) as nat, one());
    assert(v * (1000 * o) == (1000 * v) * o) by (nonlinear_arith);
    assert((1000 * v) * o <= EXACT_LIMIT * (pow2(1073) * o)) by (nonlinear_arith)
        requires
            1000 * v <= EXACT_LIMIT * pow2(1073),
            o > 0,
    ;
    lemma_rounding_error((v * (1000 * o)) as nat, one(), 1073);
    let n = nearest((v * (1000 * o)) as nat, one());
    let w = units(n) as int;
    let h = pow2(1073) as int;
    assert(-h <= 2 * (w - 1000 * v) <= h) by (nonlinear_arith)
        requires
            -(h * o) <= 2 * (w * o - (1000 * v) * o) <= h * o,
            o > 0,
    ;
    assert(ms * (2 * o) == 2 * (ms * o)) by (nonlinear_arith);
    assert(ms * o == p);
    assert(2 * w + o == ms * (2 * o) + (2 * w + o - ms * (2 * o)));
    vstd::arithmetic::div_mod::lemma_fundamental_div_mod_converse(
        2 * w + o,
        2 * o,
        ms as int,
        2 * w + o - ms * (2 * o),
    );
}

/// A whole number of milliseconds that `count` samples take is the time that is told of them.
pub proof fn lemma_duration_exact(count: nat, sample_rate_hz: Double, ms: nat)
    requires
        count <= EXACT_LIMIT,
        ms <= MILLISECOND_LIMIT,
        takes_exactly(count, sample_rate_hz, ms),
    ensures
        duration_of_rounded(count, sample_rate_hz) == ms,
{
    lemma_whole_exact(count);
    lemma_pow2_pos(1074);
    let r = units(sample_rate_hz.magnitude());
    let o = one() as int;
    lemma_units_increase(0, sample_rate_hz.magnitude());
    assert(units(0) == 0);
    let a = (count * one()) as nat;
    assert((a * o) * 1000 == (ms * o) * r) by (nonlinear_arith)
        requires
            a == count * o,
            (count * 1000) * o == ms * r,
    ;
    lemma_nearest_of_equal((a * one()) as nat, r, (ms * one()) as nat, 1000);
    lemma_milliseconds_exact(ms);
}

/// Where `count` samples take `ms` milliseconds or up to one more, the time that is told of them is
/// one of the two, and the time that is left when the fraction is cut off is at most one lower.
pub proof fn lemma_duration_close(count: nat, sample_rate_hz: Double, ms: nat)
    requires
        count <= EXACT_LIMIT,
        ms + 1 <= MILLISECOND_LIMIT,
        sample_rate_hz.is_finite(),
        (Double { bits: 0 }).below(sample_rate_hz),
        ms * sample_rate_hz.scaled() <= count * 1000 * one() <= (ms + 1) * sample_rate_hz.scaled(),
    ensures
        ms <= duration_of_rounded(count, sample_rate_hz) <= ms + 1,
        ms - 1 <= duration_ms(count, sample_rate_hz).cut() <= ms + 1,
{
    lemma_whole_exact(count);
    lemma_pow2_pos(1074);
    assert(units(0) == 0);
    let r = units(sample_rate_hz.magnitude());
    let o = one() as int;
    lemma_units_increase(0, sample_rate_hz.magnitude());
    let a = (count * one()) as nat;
    let p = (a * one()) as nat;
    assert(ms * o * r <= p * 1000) by (nonlinear_arith)
        requires
            p == count * o * o,
            ms * r <= count * 1000 * o,
            o > 0,
    ;
    assert(p * 1000 <= (ms + 1) * o * r) by (nonlinear_arith)
        requires
            p == count * o * o,
            count * 1000 * o <= (ms + 1) * r,
            o > 0,
    ;
    lemma_quotient_to_milliseconds(p, r, ms);
    assert(quotient(of_whole(count), sample_rate_hz) == signed(false, nearest(p, r)));
}

/// Where `p / q` units are `ms` thousandths of one or up to one more, the number of seconds nearest
/// to them comes to one of these two numbers of milliseconds, and to the lower one where it is
/// exactly that; cutting the fraction off may give one less.
pub proof fn lemma_quotient_to_milliseconds(p: nat, q: nat, ms: nat)
    requires
        q > 0,
        ms + 1 <= MILLISECOND_LIMIT,
        ms * one() * q <= p * 1000 <= (ms + 1) * one() * q,
    ensures
        ({
            let seconds = signed(false, nearest(p, q));
            let thousandfold = product(seconds, Double { bits: THOUSAND });
            &&& seconds.is_finite()
            &&& !seconds.negative()
            &&& ms <= milliseconds(seconds) <= ms + 1
            &&& ms - 1 <= thousandfold.cut() <= ms + 1
            &&& ms * one() * q == p * 1000 ==> milliseconds(seconds) == ms
        }),
{
    lemma_thousand();
    let o = one() as int;
    let m = nearest(p, q);
    lemma_nearest_exists(p, q);
    lemma_milliseconds_exact(ms);
    lemma_milliseconds_exact(ms + 1);
    lemma_nearest_ordered_quotients(ms * one(), 1000, p, q);
    lemma_nearest_ordered_quotients(p, q, (ms + 1) * one(), 1000);
    let low = nearest(ms * one(), 1000);
    let high = nearest((ms + 1) * one(), 1000);
    lemma_nearest_exists(ms * one(), 1000);
    lemma_nearest_exists((ms + 1) * one(), 1000);
    assert(seconds_of(ms + 1) == signed(false, high));
    lemma_thousandfold_ordered(low, m);
    lemma_thousandfold_ordered(m, high);
    let w = product(signed(false, m), Double { bits: THOUSAND }).scaled();
    assert((ms + 1) * o == ms * o + o) by (nonlinear_arith);
    lemma_parts_bounded(w, ms as int);
    if ms * one() * q == p * 1000 {
        lemma_nearest_of_equal(ms * one(), 1000, p, q);
    }
}

proof fn lemma_parts_bounded(w: int, ms: int)
    requires
        ms >= 0,
        w >= 0,
        -one() < 2 * (w - ms * one()),
        2 * (w - ms * one()) < 3 * one(),
    ensures
        ms - 1 <= w / (one() as int) <= ms + 1,
        ms <= (2 * w + one()) / (2 * one() as int) <= ms + 1,
{
    lemma_pow2_pos(1074);
    let o = one() as int;
    let c = w / o;
    vstd::arithmetic::div_mod::lemma_fundamental_div_mod(w, o);
    vstd::arithmetic::div_mod::lemma_mod_bound(w, o);
    let rest = w % o;
    assert(ms - 1 <= c <= ms + 1) by (nonlinear_arith)
        requires
            w == o * c + rest,
            0 <= rest < o,
            -o < 2 * (w - ms * o),
            2 * (w - ms * o) < 3 * o,
    ;
    let d = (2 * w + o) / (2 * o);
    vstd::arithmetic::div_mod::lemma_fundamental_div_mod(2 * w + o, 2 * o);
    vstd::arithmetic::div_mod::lemma_mod_bound(2 * w + o, 2 * o);
    let left = (2 * w + o) % (2 * o);
    assert(ms <= d <= ms + 1) by (nonlinear_arith)
        requires
            2 * w + o == (2 * o) * d + left,
            0 <= left < 2 * o,
            -o < 2 * (w - ms * o),
            2 * (w - ms * o) < 3 * o,
    ;
}

/// A thousand times a larger number is no smaller.
proof fn lemma_thousandfold_ordered(m: nat, n: nat)
    requires
        m <= n <= INFINITE,
        n < INFINITE,
    ensures
        product(signed(false, m), Double { bits: THOUSAND }).scaled() <= product(
            signed(false, n),
            Double { bits: THOUSAND },
        ).scaled(),
        !product(signed(false, m), Double { bits: THOUSAND }).is_nan(),
        !product(signed(false, m), Double { bits: THOUSAND }).negative(),
{
    lemma_pow2_pos(1074);
    let t = units(THOUSAND as nat) as int;
    let u = units(m) as int;
    let v = units(n) as int;
    if m < n {
        lemma_units_increase(m, n);
    }
    assert(u * t <= v * t) by (nonlinear_arith)
        requires
            u <= v,
            t >= 0,
    ;
    lemma_nearest_exists((u * t) as nat, one());
    lemma_nearest_exists((v * t) as nat, one());
    lemma_nearest_ordered((u * t) as nat, (v * t) as nat, one());
    let x = nearest((u * t) as nat, one());
    let y = nearest((v * t) as nat, one());
    if x < y {
        lemma_units_increase(x, y);
    }
}

/// Whether `count` samples take a whole number of milliseconds, namely `ms`.
pub open spec fn takes_exactly(count: nat, sample_rate_hz: Double, ms: nat) -> bool {
    &&& sample_rate_hz.is_finite()
    &&& (Double { bits: 0 }).below(sample_rate_hz)
    &&& count * 1000 * one() == ms * sample_rate_hz.scaled()
}

/// The sum of a row of times.
pub open spec fn total_time(times: Seq<nat>) -> nat
    decreases times.len(),
{
    if times.len() == 0 {
        0
    } else {
        total_time(times.drop_last()) + times.last()
    }
}

proof fn lemma_packets_take(packets: Seq<Seq<i32>>, sample_rate_hz: Double, times: Seq<nat>)
    requires
        sample_rate_hz.is_finite(),
        (Double { bits: 0 }).below(sample_rate_hz),
        times.len() == packets.len(),
        forall|i: int|
            0 <= i < packets.len() ==> takes_exactly(
                (#[trigger] packets[i]).len(),
                sample_rate_hz,
                times[i],
            ),
    ensures
        takes_exactly(packets.flatten().len(), sample_rate_hz, total_time(times)),
    decreases packets.len(),
{
    packets.lemma_flatten_and_flatten_alt_are_equivalent();
    let o = one() as int;
    let r = sample_rate_hz.scaled();
    if packets.len() == 0 {
        assert(packets.flatten() =~= Seq::<i32>::empty());
        assert(0 * 1000 * o == 0 * r) by (nonlinear_arith);
    } else {
        let front = packets.drop_last();
        front.lemma_flatten_and_flatten_alt_are_equivalent();
        lemma_packets_take(front, sample_rate_hz, times.drop_last());
        let n = front.flatten().len() as int;
        let k = packets.last().len() as int;
        let t = total_time(times.drop_last()) as int;
        let u = times.last() as int;
        assert(packets[packets.len() - 1] == packets.last());
        assert(takes_exactly(packets.last().len(), sample_rate_hz, times.last()));
        assert((n + k) * 1000 * o == (t + u) * r) by (nonlinear_arith)
            requires
                n * 1000 * o == t * r,
                k * 1000 * o == u * r,
        ;
    }
}

proof fn lemma_gapless_last(starts: Seq<u64>, times: Seq<nat>)
    requires
        starts.len() == times.len() >= 1,
        forall|i: int|
            0 <= i < starts.len() - 1 ==> #[trigger] starts[i + 1] == starts[i] + times[i],
    ensures
        starts.last() + times.last() == starts[0] + total_time(times),
    decreases times.len(),
{
    let n = times.len() as int;
    if n > 1 {
        let front = starts.drop_last();
        assert forall|i: int| 0 <= i < front.len() - 1 implies #[trigger] front[i + 1] == front[i]
            + times.drop_last()[i] by {
            assert(starts[i + 1] == starts[i] + times[i]);
        }
        lemma_gapless_last(front, times.drop_last());
        assert(starts[n - 2 + 1] == starts[n - 2] + times[n - 2]);
    } else {
        assert(total_time(times.drop_last()) == 0);
    }
}

/// Where the packets of a channel follow each other without gaps, each taking a whole number of
/// milliseconds, and nothing has been dropped, the retained data start where the first packet
/// started.
pub proof fn lemma_gapless_data_start_with_first_packet(
    states: Seq<ChannelBuffer>,
    sample_rate_hz: Double,
    starts: Seq<u64>,
    packets: Seq<Seq<i32>>,
    times: Seq<nat>,
)
    requires
        states.len() == packets.len() + 1,
        starts.len() == packets.len(),
        times.len() == packets.len(),
        states[0].is_new(sample_rate_hz),
        forall|i: int|
            0 <= i < packets.len() ==> (#[trigger] states[i + 1]).is_appended(
                states[i],
                starts[i],
                packets[i],
            ),
        sample_rate_hz.is_finite(),
        (Double { bits: 0 }).below(sample_rate_hz),
        forall|i: int|
            0 <= i < packets.len() ==> takes_exactly(
                (#[trigger] packets[i]).len(),
                sample_rate_hz,
                times[i],
            ),
        forall|i: int|
            0 <= i < packets.len() - 1 ==> #[trigger] starts[i + 1] == starts[i] + times[i],
        packets.flatten().len() <= buffer_capacity(sample_rate_hz),
        packets.flatten().len() <= EXACT_LIMIT,
        total_time(times) <= MILLISECOND_LIMIT,
        packets.len() > 0 ==> starts[0] + total_time(times) <= u64::MAX,
    ensures
        retained_start(states.last()) == if packets.len() == 0 {
            None::<u64>
        } else {
            Some(starts[0])
        },
{
    if packets.len() > 0 {
        let n = packets.len() as int;
        lemma_buffer_holds_newest(states, sample_rate_hz, starts, packets);
        assert(states[n - 1 + 1].is_appended(states[n - 1], starts[n - 1], packets[n - 1]));
        lemma_rate_stays(states, sample_rate_hz, starts, packets);
        lemma_packets_take(packets, sample_rate_hz, times);
        lemma_gapless_last(starts, times);
        packets.lemma_flatten_and_flatten_alt_are_equivalent();
        packets.drop_last().lemma_flatten_and_flatten_alt_are_equivalent();
        assert(packets.flatten().len() >= packets.last().len());
        assert(takes_exactly(packets[n - 1].len(), sample_rate_hz, times[n - 1]));
        lemma_duration_exact(packets.flatten().len(), sample_rate_hz, total_time(times));
        lemma_duration_exact(packets[n - 1].len(), sample_rate_hz, times[n - 1]);
    }
}

proof fn lemma_rate_stays(
    states: Seq<ChannelBuffer>,
    sample_rate_hz: Double,
    starts: Seq<u64>,
    packets: Seq<Seq<i32>>,
)
    requires
        states.len() == packets.len() + 1,
        starts.len() == packets.len(),
        states[0].is_new(sample_rate_hz),
        forall|i: int|
            0 <= i < packets.len() ==> (#[trigger] states[i + 1]).is_appended(
                states[i],
                starts[i],
                packets[i],
            ),
    ensures
        states.last().sample_rate_hz == sample_rate_hz,
    decreases packets.len(),
{
    let n = packets.len() as int;
    if n > 0 {
        lemma_rate_stays(
            states.drop_last(),
            sample_rate_hz,
            starts.drop_last(),
            packets.drop_last(),
        );
        assert(states[n - 1 + 1].is_appended(states[n - 1], starts[n - 1], packets[n - 1]));
    }
}

/// A larger quotient has no smaller nearest magnitude.
pub proof fn lemma_nearest_ordered_quotients(p: nat, q: nat, r: nat, s: nat)
    requires
        q > 0,
        s > 0,
        p * s <= r * q,
    ensures
        nearest(p, q) <= nearest(r, s),
{
    let qs = q * s;
    assert(qs > 0) by (nonlinear_arith)
        requires
            qs == q * s,
            q > 0,
            s > 0,
    ;
    assert(p * qs == (p * s) * q) by (nonlinear_arith)
        requires
            qs == q * s,
    ;
    assert(r * qs == (r * q) * s) by (nonlinear_arith)
        requires
            qs == q * s,
    ;
    lemma_nearest_of_equal(p, q, p * s, qs);
    lemma_nearest_of_equal(r, s, r * q, qs);
    lemma_nearest_ordered(p * s, r * q, qs);
}

/// A product lies on the same side of every number as the exact product does.
pub proof fn lemma_product_side(a: Double, b: Double, m: nat)
    requires
        a.is_finite(),
        b.is_finite(),
        !a.negative(),
        !b.negative(),
        m <= INFINITE,
    ensures
        !product(a, b).is_nan(),
        !product(a, b).negative(),
        units(m) * one() <= a.scaled() * b.scaled() ==> units(m) <= product(a, b).scaled(),
        a.scaled() * b.scaled() <= units(m) * one() ==> product(a, b).scaled() <= units(m),
{
    lemma_pow2_pos(1074);
    let p = (units(a.magnitude()) * units(b.magnitude())) as nat;
    let n = nearest(p, one());
    lemma_nearest_exists(p, one());
    lemma_nearest_exact(m, one());
    if units(m) * one() <= p {
        lemma_nearest_ordered(units(m) * one(), p, one());
        if m < n {
            lemma_units_increase(m, n);
        }
    }
    if p <= units(m) * one() {
        lemma_nearest_ordered(p, units(m) * one(), one());
        if n < m {
            lemma_units_increase(n, m);
        }
    }
}

/// Quarters of one, in units of 2^-1074.
proof fn lemma_quarters(n: nat) -> (m: nat)
    requires
        n <= EXACT_LIMIT,
    ensures
        m <= INFINITE,
        4 * units(m) == n * one(),
{
    lemma_pow2_unfold(1074);
    lemma_pow2_unfold(1073);
    let w = pow2(1072) as int;
    assert(4 * (n * w) == n * (2 * (2 * w))) by (nonlinear_arith);
    lemma_magnitude_of(n, 1072)
}

/// What is made of a product of two numbers that are not negative, when the exact product lies
/// between two neighbouring whole numbers: cutting gives one of them, and the lower one where the
/// product is exactly that; rounding gives the lower one in the first quarter, and the upper one in
/// the upper half.
pub proof fn lemma_product_to_whole(a: Double, b: Double, n: nat)
    requires
        a.is_finite(),
        b.is_finite(),
        !a.negative(),
        !b.negative(),
        4 * n + 4 <= EXACT_LIMIT,
        n * one() * one() <= a.scaled() * b.scaled() <= (n + 1) * one() * one(),
    ensures
        n <= product(a, b).cut() <= n + 1,
        n <= product(a, b).closest_whole() <= n + 1,
        4 * (a.scaled() * b.scaled()) <= (4 * n + 3) * one() * one() ==> product(a, b).cut() == n,
        4 * (a.scaled() * b.scaled()) <= (4 * n + 1) * one() * one() ==> product(
            a,
            b,
        ).closest_whole() == n,
        4 * (a.scaled() * b.scaled()) >= (4 * n + 2) * one() * one() ==> product(
            a,
            b,
        ).closest_whole() == n + 1,
{
    lemma_pow2_pos(1074);
    let o = one() as int;
    let exact = a.scaled() * b.scaled();
    let w = product(a, b).scaled();
    lemma_quarter_side(a, b, 4 * n);
    lemma_quarter_side(a, b, 4 * n + 1);
    lemma_quarter_side(a, b, 4 * n + 2);
    lemma_quarter_side(a, b, 4 * n + 3);
    lemma_quarter_side(a, b, 4 * n + 4);
    assert((4 * n) * o * o == 4 * (n * o * o)) by (nonlinear_arith);
    assert((4 * n + 4) * o * o == 4 * ((n + 1) * o * o)) by (nonlinear_arith);
    assert((4 * n) * o == 4 * (n * o)) by (nonlinear_arith);
    assert((4 * n + 1) * o == 4 * (n * o) + o) by (nonlinear_arith);
    assert((4 * n + 2) * o == 4 * (n * o) + 2 * o) by (nonlinear_arith);
    assert((4 * n + 3) * o == 4 * (n * o) + 3 * o) by (nonlinear_arith);
    assert((4 * n + 4) * o == 4 * (n * o) + 4 * o) by (nonlinear_arith);
    assert((n + 1) * o == n * o + o) by (nonlinear_arith);
    assert((2 * n + 1) * o == 2 * (n * o) + o) by (nonlinear_arith);
    lemma_whole_parts(w, n as int);
}

proof fn lemma_quarter_side(a: Double, b: Double, k: nat)
    requires
        a.is_finite(),
        b.is_finite(),
        !a.negative(),
        !b.negative(),
        k <= EXACT_LIMIT,
    ensures
        !product(a, b).is_nan(),
        !product(a, b).negative(),
        k * one() * one() <= 4 * (a.scaled() * b.scaled()) ==> k * one() <= 4 * product(
            a,
            b,
        ).scaled(),
        4 * (a.scaled() * b.scaled()) <= k * one() * one() ==> 4 * product(a, b).scaled() <= k
            * one(),
{
    let m = lemma_quarters(k);
    let o = one() as int;
    let u = units(m) as int;
    assert(k * o * o == 4 * (u * o)) by (nonlinear_arith)
        requires
            4 * u == k * o,
    ;
    lemma_product_side(a, b, m);
}

/// The whole numbers that are made of a number between two of them.
proof fn lemma_whole_parts(w: int, n: int)
    requires
        n >= 0,
        n * one() <= w <= (n + 1) * one(),
    ensures
        w < (n + 1) * one() ==> w / (one() as int) == n,
        w == (n + 1) * one() ==> w / (one() as int) == n + 1,
        2 * w < (2 * n + 1) * one() ==> (2 * w + one()) / (2 * one() as int) == n,
        2 * w >= (2 * n + 1) * one() ==> (2 * w + one()) / (2 * one() as int) == n + 1,
{
    lemma_pow2_pos(1074);
    let o = one() as int;
    assert((n + 1) * o == n * o + o) by (nonlinear_arith);
    assert((2 * n + 1) * o == 2 * (n * o) + o) by (nonlinear_arith);
    assert(n * (2 * o) == 2 * (n * o)) by (nonlinear_arith);
    assert((n + 1) * (2 * o) == 2 * (n * o) + 2 * o) by (nonlinear_arith);
    if w < (n + 1) * o {
        vstd::arithmetic::div_mod::lemma_fundamental_div_mod_converse(w, o, n, w - n * o);
    } else {
        vstd::arithmetic::div_mod::lemma_fundamental_div_mod_converse(w, o, n + 1, 0);
    }
    if 2 * w < (2 * n + 1) * o {
        vstd::arithmetic::div_mod::lemma_fundamental_div_mod_converse(
            2 * w + o,
            2 * o,
            n,
            2 * w + o - n * (2 * o),
        );
    } else {
        vstd::arithmetic::div_mod::lemma_fundamental_div_mod_converse(
            2 * w + o,
            2 * o,
            n + 1,
            2 * w + o - (n + 1) * (2 * o),
        );
    }
}

} // verus!
