//! What holds of the samples that are kept and shown, in terms of true times.

use crate::alert::{samples_in, tuning};
use crate::arithmetic::{lemma_whole_exact, of_whole, product, quotient, EXACT_LIMIT};
use crate::buffer::{
    buffer_capacity, can_reserve, duration_ms, duration_of_rounded, latest, retained_start, ChannelBuffer, SPAN_SECONDS, THOUSAND,
};
use crate::display::{visible, window_length};
use crate::double::{one, units, Double, BINADE};
use crate::packet::WaveBlock;
use crate::rounding::lemma_nearest_exists;
use crate::settings::{AlertSettings, DisplaySettings};
use crate::timing::{
    lemma_duration_close, lemma_duration_exact, lemma_product_side, lemma_product_to_whole,
    lemma_thousand, takes_exactly, MILLISECOND_LIMIT,
};
use vstd::arithmetic::power2::{lemma2_to64, lemma2_to64_rest, lemma_pow2_adds, lemma_pow2_pos, pow2};
use vstd::prelude::*;

verus! {

/// The latest items are the last ones, in their order, as many as are asked for or as there are.
pub proof fn lemma_latest_is_end(s: Seq<i32>, n: nat, i: int)
    ensures
        latest(s, n).len() == if s.len() < n {
            s.len()
        } else {
            n
        },
        0 <= i < latest(s, n).len() ==> latest(s, n)[i] == s[s.len() - latest(s, n).len() + i],
{
}

/// Taking in a packet puts its samples behind those that are there and drops the oldest ones where
/// there are too many; it counts the packet, and remembers its start and length.
pub proof fn lemma_append_keeps_newest(
    before: ChannelBuffer,
    after: ChannelBuffer,
    start_ms: u64,
    samples: Seq<i32>,
    i: int,
)
    requires
        after.is_appended(before, start_ms, samples),
    ensures
        after.sample_rate_hz == before.sample_rate_hz,
        after.max_samples == before.max_samples,
        after.last_start_ms == Some(start_ms),
        after.last_sample_count == samples.len(),
        before.packets < u64::MAX ==> after.packets == before.packets + 1,
        before.packets == u64::MAX ==> after.packets == u64::MAX,
        before.samples@.len() + samples.len() <= before.max_samples ==> after.samples@.len()
            == before.samples@.len() + samples.len(),
        before.samples@.len() + samples.len() >= before.max_samples ==> after.samples@.len()
            == before.max_samples,
        0 <= i < after.samples@.len() ==> {
            let place = before.samples@.len() + samples.len() - after.samples@.len() + i;
            after.samples@[i] == if place < before.samples@.len() {
                before.samples@[place]
            } else {
                samples[place - before.samples@.len()]
            }
        },
{
}

/// A gap is counted exactly if a packet has come before and this one starts more than 20 ms after it
/// was due, however late it is.
pub proof fn lemma_gap_iff_late(
    before: ChannelBuffer,
    after: ChannelBuffer,
    start_ms: u64,
    samples: Seq<i32>,
)
    requires
        after.is_appended(before, start_ms, samples),
    ensures
        before.last_start_ms is None ==> after.gaps == before.gaps,
        before.last_start_ms is Some && start_ms <= before.expected_ms() + 20 ==> after.gaps
            == before.gaps,
        before.last_start_ms is Some && start_ms > before.expected_ms() + 20 && before.gaps
            < u64::MAX ==> after.gaps == before.gaps + 1,
        before.gaps == u64::MAX ==> after.gaps == u64::MAX,
{
}

/// The samples of the last packet, counted as one where there are none, take the time by which the
/// next packet is due, to the millisecond: `ms` is that time with its fraction cut off.
pub proof fn lemma_due_time(buffer: ChannelBuffer, count: nat, ms: nat)
    requires
        buffer.last_start_ms is Some,
        buffer.last_sample_count > 0 ==> count == buffer.last_sample_count,
        buffer.last_sample_count == 0 ==> count == 1,
        count <= EXACT_LIMIT,
        ms + 1 <= MILLISECOND_LIMIT,
        buffer.sample_rate_hz.is_finite(),
        (Double { bits: 0 }).below(buffer.sample_rate_hz),
        ms * buffer.sample_rate_hz.scaled() <= count * 1000 * one() <= (ms + 1)
            * buffer.sample_rate_hz.scaled(),
    ensures
        buffer.last_start_ms->0 + ms - 1 <= buffer.expected_ms() <= buffer.last_start_ms->0 + ms + 1,
{
    lemma_duration_close(count, buffer.sample_rate_hz, ms);
}

/// A packet that starts clearly later than the last one ended is counted as a gap, and one that
/// starts in time is not: the end is taken from the true length of the last packet, and there are
/// 20 ms of tolerance, with a millisecond to either side for rounding.
pub proof fn lemma_outage_is_a_gap(
    before: ChannelBuffer,
    after: ChannelBuffer,
    start_ms: u64,
    samples: Seq<i32>,
    count: nat,
    ms: nat,
)
    requires
        after.is_appended(before, start_ms, samples),
        before.last_start_ms is Some,
        before.last_sample_count > 0 ==> count == before.last_sample_count,
        before.last_sample_count == 0 ==> count == 1,
        count <= EXACT_LIMIT,
        ms + 1 <= MILLISECOND_LIMIT,
        before.sample_rate_hz.is_finite(),
        (Double { bits: 0 }).below(before.sample_rate_hz),
        ms * before.sample_rate_hz.scaled() <= count * 1000 * one() <= (ms + 1)
            * before.sample_rate_hz.scaled(),
    ensures
        start_ms > before.last_start_ms->0 + ms + 21 && before.gaps < u64::MAX ==> after.gaps
            == before.gaps + 1,
        start_ms <= before.last_start_ms->0 + ms + 19 ==> after.gaps == before.gaps,
{
    lemma_due_time(before, count, ms);
    lemma_gap_iff_late(before, after, start_ms, samples);
}

/// When the oldest sample was taken follows from the end of the last packet and the time that the
/// retained samples take; where both are whole milliseconds, exactly.
pub proof fn lemma_retained_start_from_end(buffer: ChannelBuffer, last: nat, kept: nat)
    requires
        buffer.last_start_ms is Some,
        buffer.last_sample_count <= EXACT_LIMIT,
        buffer.samples@.len() <= EXACT_LIMIT,
        last <= MILLISECOND_LIMIT,
        kept <= MILLISECOND_LIMIT,
        takes_exactly(buffer.last_sample_count as nat, buffer.sample_rate_hz, last),
        takes_exactly(buffer.samples@.len(), buffer.sample_rate_hz, kept),
        buffer.last_start_ms->0 + last <= u64::MAX,
    ensures
        retained_start(buffer) is Some,
        kept <= buffer.last_start_ms->0 + last ==> retained_start(buffer)->0 + kept
            == buffer.last_start_ms->0 + last,
        kept > buffer.last_start_ms->0 + last ==> retained_start(buffer)->0 == 0,
{
    lemma_duration_exact(buffer.last_sample_count as nat, buffer.sample_rate_hz, last);
    lemma_duration_exact(buffer.samples@.len(), buffer.sample_rate_hz, kept);
}

/// The same where the times are no whole milliseconds: `last` and `kept` are the times with their
/// fractions cut off, and the start is told up to a millisecond.
pub proof fn lemma_retained_start_close(buffer: ChannelBuffer, last: nat, kept: nat)
    requires
        buffer.last_start_ms is Some,
        buffer.last_sample_count <= EXACT_LIMIT,
        buffer.samples@.len() <= EXACT_LIMIT,
        last + 1 <= MILLISECOND_LIMIT,
        kept + 1 <= MILLISECOND_LIMIT,
        buffer.sample_rate_hz.is_finite(),
        (Double { bits: 0 }).below(buffer.sample_rate_hz),
        last * buffer.sample_rate_hz.scaled() <= buffer.last_sample_count * 1000 * one() <= (last
            + 1) * buffer.sample_rate_hz.scaled(),
        kept * buffer.sample_rate_hz.scaled() <= buffer.samples@.len() * 1000 * one() <= (kept + 1)
            * buffer.sample_rate_hz.scaled(),
        buffer.last_start_ms->0 + last + 1 <= u64::MAX,
        kept + 1 <= buffer.last_start_ms->0 + last,
    ensures
        retained_start(buffer) is Some,
        buffer.last_start_ms->0 + last - kept - 1 <= retained_start(buffer)->0
            <= buffer.last_start_ms->0 + last + 1 - kept,
{
    lemma_duration_close(buffer.last_sample_count as nat, buffer.sample_rate_hz, last);
    lemma_duration_close(buffer.samples@.len(), buffer.sample_rate_hz, kept);
}

/// Nothing is known of the start before the first packet.
pub proof fn lemma_no_start_without_packet(buffer: ChannelBuffer)
    ensures
        retained_start(buffer) is None <==> buffer.last_start_ms is None,
{
}

proof fn lemma_span()
    ensures
        units(SPAN_SECONDS as nat) == 600 * one(),
{
    let b = BINADE as int;
    vstd::arithmetic::div_mod::lemma_fundamental_div_mod_converse(
        SPAN_SECONDS as int,
        b,
        1032,
        0x2_c000_0000_0000,
    );
    lemma2_to64();
    lemma2_to64_rest();
    lemma_pow2_adds(43, 1031);
    let w = pow2(1031) as int;
    assert((0x2_c000_0000_0000int + b) * w == 600 * (pow2(43) * w)) by (nonlinear_arith)
        requires
            0x2_c000_0000_0000int + b == 600 * pow2(43),
    ;
}

/// A buffer holds a thousand samples at least, whatever the rate.
pub proof fn lemma_capacity_at_least_thousand(sample_rate_hz: Double)
    ensures
        buffer_capacity(sample_rate_hz) >= 1000,
        can_reserve(sample_rate_hz) <==> 4 * buffer_capacity(sample_rate_hz) <= isize::MAX,
        sample_rate_hz.is_nan() || sample_rate_hz.negative() ==> buffer_capacity(sample_rate_hz)
            == 1000,
{
    lemma_thousand();
    lemma_pow2_pos(1074);
    let w = product(sample_rate_hz, Double { bits: SPAN_SECONDS }).larger_of(
        Double { bits: THOUSAND },
    );
    let o = one() as int;
    lemma_nearest_exists(
        units(sample_rate_hz.magnitude()) * units(SPAN_SECONDS as nat),
        one(),
    );
    vstd::arithmetic::div_mod::lemma_div_is_ordered(1000 * o, w.scaled(), o);
    vstd::arithmetic::div_mod::lemma_div_by_multiple(1000, o);
}

/// A buffer holds the samples of ten minutes: `n` is that number with its fraction cut off.
pub proof fn lemma_capacity_is_ten_minutes(sample_rate_hz: Double, n: nat)
    requires
        sample_rate_hz.is_finite(),
        !sample_rate_hz.negative(),
        4 * n + 4 <= EXACT_LIMIT,
        n + 1 <= usize::MAX,
        n * one() <= 600 * sample_rate_hz.scaled() <= (n + 1) * one(),
    ensures
        n >= 1000 ==> n <= buffer_capacity(sample_rate_hz) <= n + 1,
        n >= 1000 && 4 * (600 * sample_rate_hz.scaled()) <= (4 * n + 3) * one() ==> buffer_capacity(
            sample_rate_hz,
        ) == n,
        n < 1000 ==> buffer_capacity(sample_rate_hz) == 1000,
{
    lemma_span();
    lemma_thousand();
    lemma_pow2_pos(1074);
    let o = one() as int;
    let r = sample_rate_hz.scaled();
    let span = Double { bits: SPAN_SECONDS };
    assert(span.scaled() == 600 * o);
    lemma_scaled_bounds(n as int, r * 600, o);
    assert(r * (600 * o) == (r * 600) * o) by (nonlinear_arith);
    lemma_product_to_whole(sample_rate_hz, span, n);
    lemma_capacity_at_least_thousand(sample_rate_hz);
    let w = product(sample_rate_hz, span);
    if n < 1000 {
        lemma_product_side(sample_rate_hz, span, THOUSAND as nat);
        assert(r * (600 * o) <= 1000 * o * o) by (nonlinear_arith)
            requires
                600 * r <= (n + 1) * o,
                n + 1 <= 1000,
                o > 0,
        ;
    } else {
        lemma_product_side(sample_rate_hz, span, THOUSAND as nat);
        assert(r * (600 * o) >= 1000 * o * o) by (nonlinear_arith)
            requires
                600 * r >= n * o,
                n >= 1000,
                o > 0,
        ;
    }
    vstd::arithmetic::div_mod::lemma_div_by_multiple(1000, o);
}

/// Bounds that are multiplied on both sides.
pub proof fn lemma_scaled_bounds(n: int, x: int, o: int)
    requires
        o > 0,
    ensures
        n * o <= x ==> n * o * o <= x * o,
        x <= (n + 1) * o ==> x * o <= (n + 1) * o * o,
        4 * x <= (4 * n + 3) * o ==> 4 * (x * o) <= (4 * n + 3) * o * o,
        4 * x <= (4 * n + 1) * o ==> 4 * (x * o) <= (4 * n + 1) * o * o,
        4 * x >= (4 * n + 2) * o ==> 4 * (x * o) >= (4 * n + 2) * o * o,
{
    lemma_times(n * o, x, o);
    lemma_times(x, (n + 1) * o, o);
    lemma_times(4 * x, (4 * n + 3) * o, o);
    lemma_times(4 * x, (4 * n + 1) * o, o);
    lemma_times((4 * n + 2) * o, 4 * x, o);
    assert((4 * x) * o == 4 * (x * o)) by (nonlinear_arith);
}

proof fn lemma_times(a: int, b: int, o: int)
    requires
        o > 0,
    ensures
        a <= b ==> a * o <= b * o,
{
    if a <= b {
        assert(a * o <= b * o) by (nonlinear_arith)
            requires
                a <= b,
                o > 0,
        ;
    }
}

/// The visible window holds as many samples as its seconds give, one at least, to the nearest whole
/// number: `n` is the number of samples with its fraction cut off.
pub proof fn lemma_window_length(window_seconds: u32, sample_rate_hz: Double, n: nat)
    requires
        sample_rate_hz.is_finite(),
        !sample_rate_hz.negative(),
        4 * n + 4 <= EXACT_LIMIT,
        n + 1 <= usize::MAX,
        n * one() <= window_seconds * sample_rate_hz.scaled() <= (n + 1) * one(),
    ensures
        1 <= window_length(window_seconds, sample_rate_hz) <= n + 1,
        n <= window_length(window_seconds, sample_rate_hz),
        n >= 1 && 4 * (window_seconds * sample_rate_hz.scaled()) <= (4 * n + 1) * one()
            ==> window_length(window_seconds, sample_rate_hz) == n,
        4 * (window_seconds * sample_rate_hz.scaled()) >= (4 * n + 2) * one() ==> window_length(
            window_seconds,
            sample_rate_hz,
        ) == n + 1,
{
    lemma_pow2_pos(1074);
    lemma_whole_exact(window_seconds as nat);
    let o = one() as int;
    let r = sample_rate_hz.scaled();
    let seconds = of_whole(window_seconds as nat);
    assert(seconds.scaled() * r == (window_seconds * r) * o) by (nonlinear_arith)
        requires
            seconds.scaled() == window_seconds * o,
    ;
    lemma_scaled_bounds(n as int, window_seconds * r, o);
    lemma_product_to_whole(seconds, sample_rate_hz, n);
}

/// What is visible of a buffer is the end of what it holds, as long as the window or as the whole.
pub proof fn lemma_visible_is_end(buffer: ChannelBuffer, display: DisplaySettings, i: int)
    ensures
        ({
            let shown = visible(buffer, display);
            let length = window_length(display.window_seconds, buffer.sample_rate_hz);
            let held = buffer.samples@;
            &&& shown.len() == if held.len() < length {
                held.len()
            } else {
                length
            }
            &&& 0 <= i < shown.len() ==> shown[i] == held[held.len() - shown.len() + i]
        }),
{
}

/// A time that is not negative takes the whole number of samples that is nearest to seconds times
/// rate: `n` is that product with its fraction cut off.
pub proof fn lemma_samples_in_time(seconds: Double, sample_rate_hz: Double, n: nat)
    requires
        seconds.is_finite(),
        !seconds.negative(),
        sample_rate_hz.is_finite(),
        !sample_rate_hz.negative(),
        4 * n + 4 <= EXACT_LIMIT,
        n + 1 <= usize::MAX,
        n * one() * one() <= seconds.scaled() * sample_rate_hz.scaled() <= (n + 1) * one() * one(),
    ensures
        n <= samples_in(seconds, sample_rate_hz) <= n + 1,
        4 * (seconds.scaled() * sample_rate_hz.scaled()) <= (4 * n + 1) * one() * one()
            ==> samples_in(seconds, sample_rate_hz) == n,
        4 * (seconds.scaled() * sample_rate_hz.scaled()) >= (4 * n + 2) * one() * one()
            ==> samples_in(seconds, sample_rate_hz) == n + 1,
{
    lemma_product_to_whole(seconds, sample_rate_hz, n);
}

/// A configuration is tuned to a block by turning its three times into samples at the rate of the
/// block; an alarm is immediate exactly if the minimum duration is zero.
pub proof fn lemma_tuning_of_block(config: AlertSettings, block: WaveBlock)
    ensures
        ({
            let t = tuning(config, block);
            &&& t.sta_capacity == samples_in(config.sta_seconds, block.sample_rate_hz)
            &&& t.lta_capacity == samples_in(config.lta_seconds, block.sample_rate_hz)
            &&& t.duration_samples == samples_in(
                config.minimum_duration_seconds,
                block.sample_rate_hz,
            )
            &&& t.threshold == config.threshold
            &&& t.reset == config.reset
            &&& t.immediate <==> !config.minimum_duration_seconds.is_nan()
                && config.minimum_duration_seconds.scaled() == 0
            &&& t.start_ms == block.start_ms
            &&& t.channel@ == block.channel@
        }),
{
    assert(units(0) == 0);
}

/// How every time and length is computed, whatever the rate: samples over rate times a thousand,
/// ten minutes times rate, window times rate, seconds times rate, each rounded or cut once and held
/// to the range of its type.
pub proof fn lemma_formulas(rate: Double, count: nat, seconds: Double, window_seconds: u32)
    ensures
        duration_ms(count, rate) == product(
            quotient(of_whole(count), rate),
            Double { bits: 0x408f_4000_0000_0000 },
        ),
        duration_of_rounded(count, rate) == duration_ms(count, rate).closest_whole(),
        ({
            let n = product(rate, Double { bits: 0x4082_c000_0000_0000 }).larger_of(
                Double { bits: 0x408f_4000_0000_0000 },
            ).cut();
            buffer_capacity(rate) == if n <= usize::MAX {
                n as int
            } else {
                usize::MAX as int
            }
        }),
        ({
            let n = product(of_whole(window_seconds as nat), rate).closest_whole();
            window_length(window_seconds, rate) == if n == 0 {
                1
            } else if n <= usize::MAX {
                n as int
            } else {
                usize::MAX as int
            }
        }),
        ({
            let n = product(seconds, rate).closest_whole();
            samples_in(seconds, rate) == if n <= usize::MAX {
                n as int
            } else {
                usize::MAX as int
            }
        }),
{
}

/// When the next packet is due, and when the oldest sample was taken, whatever the rate: from the
/// start of the last packet, with sums and differences held to 64 bits.
pub proof fn lemma_times_of_buffer(buffer: ChannelBuffer, start: u64)
    requires
        buffer.last_start_ms == Some(start),
    ensures
        buffer.last_sample_count > 0 ==> buffer.expected_ms() == start + duration_ms(
            buffer.last_sample_count as nat,
            buffer.sample_rate_hz,
        ).cut(),
        buffer.last_sample_count == 0 ==> buffer.expected_ms() == start + duration_ms(
            1,
            buffer.sample_rate_hz,
        ).cut(),
        buffer.can_append() <==> buffer.expected_ms() + 20 <= u64::MAX,
        ({
            let last = duration_of_rounded(
                buffer.last_sample_count as nat,
                buffer.sample_rate_hz,
            );
            let kept = duration_of_rounded(buffer.samples@.len(), buffer.sample_rate_hz);
            let end = if start + last <= u64::MAX {
                start + last
            } else {
                u64::MAX as int
            };
            retained_start(buffer) == Some(
                (if end >= kept {
                    end - kept
                } else {
                    0
                }) as u64,
            )
        }),
{
}

} // verus!
