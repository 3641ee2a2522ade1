//! What the alert detector does, in terms of the ratios that its windows give.

use crate::alert::{
    all_events, at_least_one, block_events, detected, drained, fed, fresh, key_fits, key_of, mean,
    pushed, scanned, stepped, stepped_events, tuning, window_ratio, AlertKey, Detector, ServerEvent, Tuning, SILENCE,
};
use crate::alert_laws::{
    lemma_key_stays, lemma_silent_while_warming_up, lemma_sums_do_not_drift,
    lemma_windows_hold_newest, total,
};
use crate::arithmetic::{difference, lemma_whole_exact, of_whole, quotient, sum};
use crate::buffer::latest;
use crate::double::{one, units, Double, BINADE};
use crate::packet::WaveBlock;
use crate::rounding::{lemma_nearest_exists, nearest};
use crate::settings::AlertSettings;
use crate::timing::lemma_nearest_ordered_quotients;
use vstd::arithmetic::power2::{lemma_pow2_adds, lemma_pow2_pos, pow2};
use vstd::prelude::*;

verus! {

/// A sample that does not fill the long-term window changes the windows and nothing else.
pub proof fn lemma_cold_step(d: Detector, t: Tuning, sample: i32)
    requires
        fed(d, t, sample).lta_values.len() < at_least_one(t.lta_capacity),
    ensures
        stepped_events(d, t, sample).len() == 0,
        stepped(d, t, sample).0 == fed(d, t, sample),
        stepped(d, t, sample).0.active == d.active,
        stepped(d, t, sample).0.above_samples == d.above_samples,
        stepped(d, t, sample).0.last_event_ms == d.last_event_ms,
        stepped(d, t, sample).0.peak_ratio == d.peak_ratio,
{
}

/// What a sample does once the long-term window is full, by the ratio `r` that the windows give.
///
/// A ratio below the threshold sets the count of samples above it back to zero, in every state. An
/// inactive detector counts a ratio at or above the threshold, and raises the alarm when the
/// minimum duration is zero or as many as it takes have been counted; it tells nothing otherwise.
/// An active detector tells nothing until the ratio falls to the reset ratio, and then the highest
/// ratio since the last reset.
pub proof fn lemma_warm_step(d: Detector, t: Tuning, sample: i32)
    requires
        fed(d, t, sample).lta_values.len() >= at_least_one(t.lta_capacity),
    ensures
        ({
            let r = window_ratio(fed(d, t, sample));
            let after = stepped(d, t, sample).0;
            let told = stepped_events(d, t, sample);
            let reaches = !r.is_nan() && !t.threshold.is_nan() && t.threshold.scaled()
                <= r.scaled();
            let falls = !r.is_nan() && !t.threshold.is_nan() && r.scaled() < t.threshold.scaled();
            let low = !r.is_nan() && !t.reset.is_nan() && r.scaled() <= t.reset.scaled();
            let enough = t.immediate || t.duration_samples <= 1 || d.above_samples + 1
                >= t.duration_samples;
            let reset = ServerEvent::Reset {
                event_time_ms: t.start_ms,
                channel: t.channel,
                peak_ratio: d.peak_ratio.larger_of(r),
            };
            let alarm = ServerEvent::Alarm {
                event_time_ms: t.start_ms,
                channel: t.channel,
                ratio: r,
            };
            &&& after.current_ratio == r
            &&& after.config_key == d.config_key
            &&& after.sta_values == fed(d, t, sample).sta_values
            &&& after.lta_values == fed(d, t, sample).lta_values
            // The count.
            &&& falls ==> after.above_samples == 0
            &&& !d.active && reaches && d.above_samples < usize::MAX ==> after.above_samples
                == d.above_samples + 1
            &&& !falls && (d.active || !reaches) ==> after.above_samples == d.above_samples
            // An inactive detector.
            &&& !d.active && !(reaches && enough) ==> told.len() == 0 && !after.active
            &&& !d.active && reaches && enough && !low ==> told == seq![alarm] && after.active
            &&& !d.active && reaches && enough && low ==> told == seq![alarm, reset]
                && !after.active
            // An active detector.
            &&& d.active && !low ==> told.len() == 0 && after.active
            &&& d.active && low ==> told == seq![reset] && !after.active
            // What is remembered.
            &&& !d.active && reaches && enough ==> after.last_event_ms == Some(t.start_ms)
            &&& d.active || !(reaches && enough) ==> after.last_event_ms == d.last_event_ms
            &&& told.len() > 0 && told.last() is Reset ==> after.peak_ratio.bits == 0
            &&& told.len() == 0 || told.last() is Alarm ==> after.peak_ratio
                == d.peak_ratio.larger_of(r)
        }),
{
    let r = window_ratio(fed(d, t, sample));
    let told = stepped_events(d, t, sample);
    let reset = ServerEvent::Reset {
        event_time_ms: t.start_ms,
        channel: t.channel,
        peak_ratio: d.peak_ratio.larger_of(r),
    };
    let alarm = ServerEvent::Alarm { event_time_ms: t.start_ms, channel: t.channel, ratio: r };
    if told.len() == 2 {
        assert(told =~= seq![alarm, reset]);
    } else if told.len() == 1 && d.active {
        assert(told =~= seq![reset]);
    } else if told.len() == 1 {
        assert(told =~= seq![alarm]);
    }
}

/// The ratio after the sample at `i`.
pub open spec fn ratio_at(d: Detector, t: Tuning, samples: Seq<i32>, i: int) -> Double {
    scanned(d, t, samples.take(i + 1)).0.current_ratio
}

/// Whether the long-term window is full after the sample at `i`.
pub open spec fn warm_at(d: Detector, t: Tuning, samples: Seq<i32>, i: int) -> bool {
    scanned(d, t, samples.take(i + 1)).0.lta_values.len() >= at_least_one(t.lta_capacity)
}

/// Whether the ratio after the sample at `i` is one that does not lie below the threshold.
pub open spec fn holds_at(d: Detector, t: Tuning, samples: Seq<i32>, i: int) -> bool {
    let r = ratio_at(d, t, samples, i);
    &&& warm_at(d, t, samples, i)
    &&& r.is_nan() || t.threshold.is_nan() || t.threshold.scaled() <= r.scaled()
}

/// Whether after the sample at `i` the long-term window is full and the ratio is at or above the
/// threshold and above the reset ratio.
pub open spec fn alarming_at(d: Detector, t: Tuning, samples: Seq<i32>, i: int) -> bool {
    let r = ratio_at(d, t, samples, i);
    warm_at(d, t, samples, i) && t.threshold.at_most(r) && !r.at_most(t.reset)
}

proof fn lemma_last_step(d: Detector, t: Tuning, samples: Seq<i32>)
    requires
        samples.len() > 0,
    ensures
        samples.take(samples.len() as int) == samples,
        scanned(d, t, samples).0 == stepped(
            scanned(d, t, samples.drop_last()).0,
            t,
            samples.last(),
        ).0,
{
    assert(samples.take(samples.len() as int) =~= samples);
}

/// A fresh detector is warm exactly if it has seen as many samples as the long-term window spans.
pub proof fn lemma_warm_after_long_window(key: Option<AlertKey>, t: Tuning, samples: Seq<i32>)
    ensures
        scanned(fresh(key), t, samples).0.lta_values.len() >= at_least_one(t.lta_capacity)
            <==> samples.len() >= at_least_one(t.lta_capacity),
        t.lta_capacity >= 1 ==> at_least_one(t.lta_capacity) == t.lta_capacity,
        t.lta_capacity == 0 ==> at_least_one(t.lta_capacity) == 1,
{
    lemma_windows_hold_newest(key, t, samples);
}

/// The count of a scan from a fresh detector never exceeds the row of samples, up to the last, after
/// each of which the ratio did not lie below the threshold.
pub proof fn lemma_count_is_a_held_row(key: Option<AlertKey>, t: Tuning, samples: Seq<i32>)
    ensures
        ({
            let count = scanned(fresh(key), t, samples).0.above_samples;
            &&& count <= samples.len()
            &&& forall|j: int|
                samples.len() - count <= j < samples.len() ==> #[trigger] holds_at(
                    fresh(key),
                    t,
                    samples,
                    j,
                )
        }),
    decreases samples.len(),
{
    let d = fresh(key);
    if samples.len() > 0 {
        let front = samples.drop_last();
        let n = front.len() as int;
        let before = scanned(d, t, front).0;
        let after = scanned(d, t, samples).0;
        lemma_count_is_a_held_row(key, t, front);
        lemma_last_step(d, t, samples);
        lemma_warm_after_long_window(key, t, samples);
        assert forall|j: int| 0 <= j < n implies holds_at(d, t, samples, j) == #[trigger] holds_at(
            d,
            t,
            front,
            j,
        ) by {
            assert(front.take(j + 1) =~= samples.take(j + 1));
        }
        if samples.len() < at_least_one(t.lta_capacity) {
            lemma_silent_while_warming_up(d, t, samples);
        } else {
            lemma_step_windows(before, t, samples.last());
            lemma_warm_step(before, t, samples.last());
            let r = after.current_ratio;
            if after.above_samples > 0 {
                assert(holds_at(d, t, samples, n));
            }
            assert forall|j: int|
                samples.len() - after.above_samples <= j
                    < samples.len() implies #[trigger] holds_at(d, t, samples, j) by {
                if j < n {
                    assert(holds_at(d, t, front, j));
                }
            }
        }
    }
}

proof fn lemma_step_windows(d: Detector, t: Tuning, sample: i32)
    ensures
        stepped(d, t, sample).0.lta_values == fed(d, t, sample).lta_values,
{
}

/// Where a minimum duration is asked for, an alarm is raised only after the ratio has held for it:
/// after each of the last samples, as many as the duration takes and one at least, the long-term
/// window was full and the ratio did not lie below the threshold; after the last of them it had
/// reached it.
pub proof fn lemma_alarm_needs_held_ratio(key: Option<AlertKey>, t: Tuning, samples: Seq<i32>, j: int)
    requires
        samples.len() > 0,
        !t.immediate,
        ({
            let told = stepped_events(
                scanned(fresh(key), t, samples.drop_last()).0,
                t,
                samples.last(),
            );
            told.len() > 0 && told[0] is Alarm
        }),
    ensures
        at_least_one(t.duration_samples) <= samples.len(),
        samples.len() - at_least_one(t.duration_samples) <= j < samples.len() ==> holds_at(
            fresh(key),
            t,
            samples,
            j,
        ),
        !t.threshold.is_nan(),
        !ratio_at(fresh(key), t, samples, samples.len() - 1).is_nan(),
        t.threshold.scaled() <= ratio_at(fresh(key), t, samples, samples.len() - 1).scaled(),
{
    let d = fresh(key);
    let before = scanned(d, t, samples.drop_last()).0;
    lemma_last_step(d, t, samples);
    if fed(before, t, samples.last()).lta_values.len() < at_least_one(t.lta_capacity) {
        lemma_cold_step(before, t, samples.last());
    }
    lemma_warm_step(before, t, samples.last());
    lemma_count_is_a_held_row(key, t, samples);
}

/// While neither window spans 2^22 samples or more, the ratio after a full long-term window is that
/// of the true moving means: the sum of the absolute values of the newest samples over their
/// number, short-term over long-term, and zero where the long-term mean is no larger than 2^-52.
pub proof fn lemma_ratio_is_of_moving_means(key: Option<AlertKey>, t: Tuning, samples: Seq<i32>)
    requires
        t.sta_capacity < 0x40_0000,
        t.lta_capacity < 0x40_0000,
        samples.len() >= at_least_one(t.lta_capacity),
    ensures
        ({
            let short_row = latest(samples, at_least_one(t.sta_capacity));
            let long_row = latest(samples, at_least_one(t.lta_capacity));
            let short = quotient(of_whole(total(short_row)), of_whole(short_row.len()));
            let long = quotient(of_whole(total(long_row)), of_whole(long_row.len()));
            let r = scanned(fresh(key), t, samples).0.current_ratio;
            &&& pow2(1022) < long.scaled() ==> r == quotient(short, long)
            &&& long.scaled() <= pow2(1022) ==> r.bits == 0
            &&& !r.is_nan()
            &&& !long.is_nan()
        }),
{
    let d = fresh(key);
    let front = samples.drop_last();
    let before = scanned(d, t, front).0;
    let after = scanned(d, t, samples).0;
    lemma_last_step(d, t, samples);
    lemma_warm_after_long_window(key, t, samples);
    lemma_step_windows(before, t, samples.last());
    lemma_warm_step(before, t, samples.last());
    lemma_sums_do_not_drift(key, t, samples);
    lemma_windows_hold_newest(key, t, samples);
    lemma_silence();
    let short_row = latest(samples, at_least_one(t.sta_capacity));
    let long_row = latest(samples, at_least_one(t.lta_capacity));
    lemma_mean_is_number(short_row);
    lemma_mean_is_number(long_row);
    let short = quotient(of_whole(total(short_row)), of_whole(short_row.len()));
    let long = quotient(of_whole(total(long_row)), of_whole(long_row.len()));
    assert(short == mean(after.sta_sum, after.sta_values.len()));
    assert(long == mean(after.lta_sum, after.lta_values.len()));
    assert(units(0) == 0);
    lemma_nearest_exists(units(short.magnitude()) * one(), units(long.magnitude()));
}

proof fn lemma_silence()
    ensures
        units(SILENCE as nat) == pow2(1022),
{
    vstd::arithmetic::div_mod::lemma_fundamental_div_mod_converse(
        SILENCE as int,
        BINADE as int,
        971,
        0,
    );
    vstd::arithmetic::power2::lemma2_to64();
    vstd::arithmetic::power2::lemma2_to64_rest();
    lemma_pow2_adds(52, 970);
}

/// The absolute value of a sample is the sample without its sign.
pub proof fn lemma_total_is_sum_of_absolutes(samples: Seq<i32>, sample: i32)
    ensures
        total(Seq::<i32>::empty()) == 0,
        sample >= 0 ==> total(samples.push(sample)) == total(samples) + sample,
        sample < 0 ==> total(samples.push(sample)) == total(samples) - sample,
{
    assert(samples.push(sample).drop_last() =~= samples);
}

proof fn lemma_total_at_most(samples: Seq<i32>)
    ensures
        total(samples) <= samples.len() * 0x8000_0000,
    decreases samples.len(),
{
    if samples.len() > 0 {
        lemma_total_at_most(samples.drop_last());
    }
}

/// The mean of a row that is not empty is a finite number that is not negative.
proof fn lemma_mean_is_number(row: Seq<i32>)
    requires
        0 < row.len() <= 0x40_0000,
    ensures
        ({
            let m = quotient(of_whole(total(row)), of_whole(row.len()));
            m.is_finite() && !m.negative()
        }),
{
    let a = total(row);
    let n = row.len();
    lemma_total_at_most(row);
    lemma_whole_exact(a);
    lemma_whole_exact(n);
    lemma_pow2_pos(1074);
    let o = one() as int;
    let x = a * one();
    let y = n * one();
    assert(y > 0) by (nonlinear_arith)
        requires
            y == n * o,
            n > 0,
            o > 0,
    ;
    assert((x * o) * 1 <= x * y) by (nonlinear_arith)
        requires
            y == n * o,
            n >= 1,
            x >= 0,
            o >= 0,
    ;
    lemma_nearest_ordered_quotients((x * one()) as nat, y, x, 1);
    lemma_nearest_exists((x * one()) as nat, y);
    assert(of_whole(a).magnitude() == nearest(x, 1)) by {
        lemma_nearest_exists(x, 1);
    }
}

/// The same as `lemma_alarm_needs_held_ratio` in full where neither window spans 2^22 samples or
/// more: after each of the last samples the ratio was at or above the threshold.
pub proof fn lemma_alarm_needs_ratio_at_threshold(
    key: Option<AlertKey>,
    t: Tuning,
    samples: Seq<i32>,
    j: int,
)
    requires
        t.sta_capacity < 0x40_0000,
        t.lta_capacity < 0x40_0000,
        samples.len() > 0,
        !t.immediate,
        ({
            let told = stepped_events(
                scanned(fresh(key), t, samples.drop_last()).0,
                t,
                samples.last(),
            );
            told.len() > 0 && told[0] is Alarm
        }),
        samples.len() - at_least_one(t.duration_samples) <= j < samples.len(),
    ensures
        0 <= j,
        warm_at(fresh(key), t, samples, j),
        !ratio_at(fresh(key), t, samples, j).is_nan(),
        t.threshold.scaled() <= ratio_at(fresh(key), t, samples, j).scaled(),
{
    lemma_alarm_needs_held_ratio(key, t, samples, j);
    lemma_warm_after_long_window(key, t, samples.take(j + 1));
    lemma_ratio_is_of_moving_means(key, t, samples.take(j + 1));
}

/// A ratio that lies below the threshold interrupts what has been counted: after it the count is
/// zero, however long the row before it was.
pub proof fn lemma_dip_sets_count_back(key: Option<AlertKey>, t: Tuning, samples: Seq<i32>)
    requires
        samples.len() > 0,
        warm_at(fresh(key), t, samples, samples.len() - 1),
        ratio_at(fresh(key), t, samples, samples.len() - 1).below(t.threshold),
    ensures
        scanned(fresh(key), t, samples).0.above_samples == 0,
{
    lemma_last_step(fresh(key), t, samples);
    lemma_step_windows(
        scanned(fresh(key), t, samples.drop_last()).0,
        t,
        samples.last(),
    );
    lemma_warm_step(scanned(fresh(key), t, samples.drop_last()).0, t, samples.last());
}

/// A ratio that holds at or above the threshold for the minimum duration, and above the reset ratio,
/// makes the detector active.
pub proof fn lemma_held_ratio_raises_alarm(d: Detector, t: Tuning, samples: Seq<i32>)
    requires
        samples.len() > 0,
        t.immediate || samples.len() >= at_least_one(t.duration_samples),
        forall|i: int|
            0 <= i < samples.len() ==> #[trigger] alarming_at(d, t, samples, i),
    ensures
        scanned(d, t, samples).0.active,
{
    lemma_held_so_far(d, t, samples);
}

proof fn lemma_held_so_far(d: Detector, t: Tuning, samples: Seq<i32>)
    requires
        samples.len() > 0,
        forall|i: int|
            0 <= i < samples.len() ==> #[trigger] alarming_at(d, t, samples, i),
    ensures
        scanned(d, t, samples).0.active || !t.immediate && samples.len() < at_least_one(
            t.duration_samples,
        ) && scanned(d, t, samples).0.above_samples >= samples.len(),
    decreases samples.len(),
{
    let front = samples.drop_last();
    let n = front.len() as int;
    let before = scanned(d, t, front).0;
    lemma_last_step(d, t, samples);
    assert(alarming_at(d, t, samples, n));
    lemma_step_windows(before, t, samples.last());
    lemma_warm_step(before, t, samples.last());
    if n > 0 {
        assert forall|i: int| 0 <= i < n implies #[trigger] alarming_at(d, t, front, i) by {
            assert(front.take(i + 1) =~= samples.take(i + 1));
            assert(alarming_at(d, t, samples, i));
        }
        lemma_held_so_far(d, t, front);
    }
}

/// The highest ratio is remembered from one reset to the next: a sample that tells no reset leaves a
/// peak that is no lower than the peak before and than the ratio, and is one of the two.
pub proof fn lemma_peak_is_highest(d: Detector, t: Tuning, sample: i32)
    requires
        fed(d, t, sample).lta_values.len() >= at_least_one(t.lta_capacity),
        stepped(d, t, sample).1 is None || stepped(d, t, sample).1->0 is Alarm,
        !d.peak_ratio.is_nan(),
    ensures
        ({
            let after = stepped(d, t, sample).0;
            &&& !after.peak_ratio.is_nan()
            &&& after.peak_ratio.scaled() >= d.peak_ratio.scaled()
            &&& !after.current_ratio.is_nan() ==> after.peak_ratio.scaled()
                >= after.current_ratio.scaled()
            &&& after.peak_ratio == d.peak_ratio || after.peak_ratio == after.current_ratio
        }),
{
    lemma_warm_step(d, t, sample);
}

/// A detector state belongs to a configuration exactly if it was made for one with the same channel,
/// windows, threshold and reset ratio; what is no number counts as the same.
pub proof fn lemma_state_belongs_to_configuration(key: AlertKey, config: AlertSettings)
    ensures
        !key_fits(None, config),
        key_fits(Some(key_of(config)), config),
        key_fits(Some(key), config) ==> {
            &&& key.channel@ == config.channel@
            &&& key.sta_seconds.bits == config.sta_seconds.bits || key.sta_seconds.is_nan()
                && config.sta_seconds.is_nan()
            &&& key.lta_seconds.bits == config.lta_seconds.bits || key.lta_seconds.is_nan()
                && config.lta_seconds.is_nan()
            &&& key.threshold.bits == config.threshold.bits || key.threshold.is_nan()
                && config.threshold.is_nan()
            &&& key.reset.bits == config.reset.bits || key.reset.is_nan() && config.reset.is_nan()
        },
        key.channel@ == config.channel@ && key.sta_seconds == config.sta_seconds && key.lta_seconds
            == config.lta_seconds && key.threshold == config.threshold && key.reset == config.reset
            ==> key_fits(Some(key), config),
{
}

/// After a block under a configuration the state belongs to it, so that the next block goes on where
/// this one ended; the sound, the minimum duration and the other values make no difference.
pub proof fn lemma_same_configuration_goes_on(
    d: Detector,
    config: AlertSettings,
    block: WaveBlock,
    next_config: AlertSettings,
    next: WaveBlock,
)
    requires
        config.enabled,
        next_config.enabled,
        block.channel@ == config.channel@,
        next.channel@ == next_config.channel@,
        next_config.channel@ == config.channel@,
        next_config.sta_seconds == config.sta_seconds,
        next_config.lta_seconds == config.lta_seconds,
        next_config.threshold == config.threshold,
        next_config.reset == config.reset,
    ensures
        ({
            let middle = detected(d, config, block).0;
            &&& key_fits(middle.config_key, config)
            &&& detected(middle, next_config, next) == scanned(
                middle,
                tuning(next_config, next),
                next.samples@,
            )
        }),
{
    let start = if key_fits(d.config_key, config) {
        d
    } else {
        fresh(Some(key_of(config)))
    };
    lemma_key_stays(start, tuning(config, block), block.samples@);
}

/// A fresh detector has seen nothing.
pub proof fn lemma_fresh_has_seen_nothing(key: Option<AlertKey>)
    ensures
        !fresh(key).active,
        fresh(key).current_ratio.bits == 0,
        fresh(key).peak_ratio.bits == 0,
        fresh(key).last_event_ms is None,
        fresh(key).config_key == key,
        fresh(key).sta_values.len() == 0,
        fresh(key).lta_values.len() == 0,
        fresh(key).sta_sum.bits == 0,
        fresh(key).lta_sum.bits == 0,
        fresh(key).above_samples == 0,
{
}

/// Scanning one more sample takes one more step, and adds what it tells.
pub proof fn lemma_scan_takes_steps(d: Detector, t: Tuning, samples: Seq<i32>, sample: i32)
    ensures
        scanned(d, t, Seq::<i32>::empty()).0 == d,
        all_events(d, t, Seq::<i32>::empty()).len() == 0,
        scanned(d, t, samples.push(sample)).0 == stepped(scanned(d, t, samples).0, t, sample).0,
        all_events(d, t, samples.push(sample)) == all_events(d, t, samples) + stepped_events(
            scanned(d, t, samples).0,
            t,
            sample,
        ),
{
    assert(samples.push(sample).drop_last() =~= samples);
}

/// A block that the detector is to look at is scanned sample by sample, from the state at hand
/// where it belongs to the configuration.
pub proof fn lemma_block_is_scanned(d: Detector, config: AlertSettings, block: WaveBlock)
    requires
        config.enabled,
        block.channel@ == config.channel@,
        key_fits(d.config_key, config),
    ensures
        detected(d, config, block).0 == scanned(d, tuning(config, block), block.samples@).0,
        block_events(d, config, block) == all_events(d, tuning(config, block), block.samples@),
{
}

/// The ratio is that of the two sums over the lengths of their windows, and zero where the long-term
/// mean is no number or no larger than 2^-52.
pub proof fn lemma_window_ratio(d: Detector)
    ensures
        ({
            let short = quotient(d.sta_sum, of_whole(d.sta_values.len()));
            let long = quotient(d.lta_sum, of_whole(d.lta_values.len()));
            &&& !long.is_nan() && pow2(1022) < long.scaled() ==> window_ratio(d) == quotient(
                short,
                long,
            )
            &&& long.is_nan() || long.scaled() <= pow2(1022) ==> window_ratio(d).bits == 0
        }),
{
    lemma_silence();
}

/// A value enters a window at its end and is added to the sum; where the window is full, the oldest
/// value leaves and is taken from the sum.
pub proof fn lemma_window_moves(values: Seq<Double>, before: Double, capacity: usize, value: Double)
    ensures
        values.len() + 1 <= at_least_one(capacity) ==> pushed(values, before, capacity, value) == (
            values.push(value),
            sum(before, value),
        ),
        values.len() == at_least_one(capacity) ==> pushed(values, before, capacity, value) == (
            values.drop_first().push(value),
            difference(sum(before, value), values[0]),
        ),
{
    if values.len() == at_least_one(capacity) {
        reveal_with_fuel(drained, 2);
        assert(values.push(value).drop_first() =~= values.drop_first().push(value));
    }
}

/// A sample enters both windows with its absolute value.
pub proof fn lemma_sample_enters_windows(d: Detector, t: Tuning, sample: i32)
    ensures
        ({
            let value = of_whole(
                (if sample < 0 {
                    -(sample as int)
                } else {
                    sample as int
                }) as nat,
            );
            let full = fed(d, t, sample);
            &&& (full.sta_values, full.sta_sum) == pushed(
                d.sta_values,
                d.sta_sum,
                t.sta_capacity,
                value,
            )
            &&& (full.lta_values, full.lta_sum) == pushed(
                d.lta_values,
                d.lta_sum,
                t.lta_capacity,
                value,
            )
            &&& full.active == d.active
            &&& full.current_ratio == d.current_ratio
            &&& full.peak_ratio == d.peak_ratio
            &&& full.last_event_ms == d.last_event_ms
            &&& full.config_key == d.config_key
            &&& full.above_samples == d.above_samples
        }),
{
}

} // verus!
