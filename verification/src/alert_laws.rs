//! What holds of the alert detector whatever it is fed.

use crate::alert::{
    absolute, all_events, amplitude, any_alarm, at_least_one, block_events, detected, drained, fed,
    fresh, is_warm, key_fits, key_of, lemma_scan_gives_last_event, pushed, scanned, starts_alert,
    stepped, stepped_events, tuning, window_ratio, AlertKey, Detector, ServerEvent, Tuning,
};
use crate::arithmetic::{
    difference, lemma_difference_of_wholes, lemma_sum_of_wholes, lemma_zero_whole, of_whole,
    EXACT_LIMIT,
};
use crate::buffer::latest;
use crate::double::Double;
use crate::packet::WaveBlock;
use crate::settings::{settings_fault, AlertSettings, Settings, ZERO};
use vstd::prelude::*;

verus! {

/// Whether a sample starts an alert.
pub open spec fn step_starts(d: Detector, t: Tuning, sample: i32) -> bool {
    let full = fed(d, t, sample);
    is_warm(full, t) && starts_alert(full, t, window_ratio(full))
}

/// Whether the sample at `i` starts an alert.
pub open spec fn starts_at(d: Detector, t: Tuning, samples: Seq<i32>, i: int) -> bool {
    step_starts(scanned(d, t, samples.take(i)).0, t, samples[i])
}

/// A block of another channel, or one that comes while alerts are off, changes nothing and
/// brings no event.
pub proof fn lemma_other_blocks_ignored(d: Detector, config: AlertSettings, block: WaveBlock)
    requires
        !config.enabled || block.channel@ != config.channel@,
    ensures
        detected(d, config, block) == (d, None::<ServerEvent>),
        block_events(d, config, block).len() == 0,
{
}

/// Under a configuration that the detector state does not belong to, the detector starts afresh:
/// nothing of the old state is left.
pub proof fn lemma_new_configuration_restarts(
    d: Detector,
    config: AlertSettings,
    block: WaveBlock,
)
    requires
        config.enabled,
        block.channel@ == config.channel@,
        !key_fits(d.config_key, config),
    ensures
        detected(d, config, block) == scanned(
            fresh(Some(key_of(config))),
            tuning(config, block),
            block.samples@,
        ),
        block_events(d, config, block) == all_events(
            fresh(Some(key_of(config))),
            tuning(config, block),
            block.samples@,
        ),
{
}

/// Scanning does not touch the key of the detector.
pub proof fn lemma_key_stays(d: Detector, t: Tuning, samples: Seq<i32>)
    ensures
        scanned(d, t, samples).0.config_key == d.config_key,
    decreases samples.len(),
{
    if samples.len() > 0 {
        lemma_key_stays(d, t, samples.drop_last());
    }
}

/// A window keeps its newest values.
proof fn lemma_drained_values(values: Seq<Double>, total: Double, limit: nat)
    ensures
        drained(values, total, limit).0 == if values.len() <= limit {
            values
        } else {
            values.skip(values.len() - limit)
        },
    decreases values.len(),
{
    if values.len() > limit {
        let rest = values.drop_first();
        lemma_drained_values(rest, difference(total, values[0]), limit);
        assert(drained(values, total, limit).0 =~= values.skip(values.len() - limit));
    }
}

/// The amplitudes of a row of samples.
pub open spec fn amplitudes(samples: Seq<i32>) -> Seq<Double> {
    samples.map_values(|s: i32| amplitude(s))
}

proof fn lemma_pushed_amplitudes(samples: Seq<i32>, sample: i32, total: Double, capacity: usize)
    ensures
        pushed(
            amplitudes(latest(samples, at_least_one(capacity))),
            total,
            capacity,
            amplitude(sample),
        ).0 == amplitudes(latest(samples.push(sample), at_least_one(capacity))),
{
    let n = at_least_one(capacity);
    let values = amplitudes(latest(samples, n)).push(amplitude(sample));
    lemma_drained_values(values, crate::arithmetic::sum(total, amplitude(sample)), n);
    assert(drained(values, crate::arithmetic::sum(total, amplitude(sample)), n).0
        =~= amplitudes(latest(samples.push(sample), n)));
}

/// The two windows of a detector hold the amplitudes of the newest samples that it has seen,
/// as many as each window spans.
pub proof fn lemma_windows_hold_newest(key: Option<AlertKey>, t: Tuning, samples: Seq<i32>)
    ensures
        scanned(fresh(key), t, samples).0.sta_values == amplitudes(
            latest(samples, at_least_one(t.sta_capacity)),
        ),
        scanned(fresh(key), t, samples).0.lta_values == amplitudes(
            latest(samples, at_least_one(t.lta_capacity)),
        ),
    decreases samples.len(),
{
    if samples.len() == 0 {
        assert(amplitudes(latest(samples, at_least_one(t.sta_capacity))) =~= Seq::empty());
        assert(amplitudes(latest(samples, at_least_one(t.lta_capacity))) =~= Seq::empty());
    } else {
        let front = samples.drop_last();
        let before = scanned(fresh(key), t, front).0;
        lemma_windows_hold_newest(key, t, front);
        lemma_pushed_amplitudes(front, samples.last(), before.sta_sum, t.sta_capacity);
        lemma_pushed_amplitudes(front, samples.last(), before.lta_sum, t.lta_capacity);
        assert(front.push(samples.last()) =~= samples);
    }
}

/// The sum of the absolute values of a row of samples.
pub open spec fn total(samples: Seq<i32>) -> nat
    decreases samples.len(),
{
    if samples.len() == 0 {
        0
    } else {
        total(samples.drop_last()) + absolute(samples.last())
    }
}

proof fn lemma_total_front(samples: Seq<i32>)
    requires
        samples.len() > 0,
    ensures
        total(samples) == absolute(samples[0]) + total(samples.drop_first()),
    decreases samples.len(),
{
    if samples.len() == 1 {
        assert(samples.drop_last() =~= Seq::empty());
        assert(samples.drop_first() =~= Seq::empty());
    } else {
        lemma_total_front(samples.drop_last());
        assert(samples.drop_last().drop_first() =~= samples.drop_first().drop_last());
    }
}

proof fn lemma_total_bound(samples: Seq<i32>)
    ensures
        total(samples) <= samples.len() * 0x8000_0000,
    decreases samples.len(),
{
    if samples.len() > 0 {
        lemma_total_bound(samples.drop_last());
    }
}

proof fn lemma_drained_total(samples: Seq<i32>, limit: nat)
    requires
        total(samples) <= EXACT_LIMIT,
    ensures
        drained(amplitudes(samples), of_whole(total(samples)), limit).1 == of_whole(
            total(latest(samples, limit)),
        ),
    decreases samples.len(),
{
    if samples.len() > limit {
        let rest = samples.drop_first();
        lemma_total_front(samples);
        lemma_difference_of_wholes(total(samples), absolute(samples[0]));
        lemma_drained_total(rest, limit);
        assert(amplitudes(samples).drop_first() =~= amplitudes(rest));
        assert(latest(rest, limit) =~= latest(samples, limit));
    }
}

proof fn lemma_pushed_total(samples: Seq<i32>, sample: i32, capacity: usize)
    requires
        capacity < 0x40_0000,
    ensures
        pushed(
            amplitudes(latest(samples, at_least_one(capacity))),
            of_whole(total(latest(samples, at_least_one(capacity)))),
            capacity,
            amplitude(sample),
        ).1 == of_whole(total(latest(samples.push(sample), at_least_one(capacity)))),
{
    let n = at_least_one(capacity);
    let kept = latest(samples, n);
    let longer = kept.push(sample);
    lemma_total_bound(kept);
    assert(longer.drop_last() =~= kept);
    lemma_sum_of_wholes(total(kept), absolute(sample));
    lemma_drained_total(longer, n);
    assert(amplitudes(longer) =~= amplitudes(kept).push(amplitude(sample)));
    assert(latest(longer, n) =~= latest(samples.push(sample), n));
}

/// While neither window spans 2^22 samples or more, the running sums do not drift: each is
/// exactly the sum of the absolute values in its window, so that the detector compares the true
/// moving means.
pub proof fn lemma_sums_do_not_drift(key: Option<AlertKey>, t: Tuning, samples: Seq<i32>)
    requires
        t.sta_capacity < 0x40_0000,
        t.lta_capacity < 0x40_0000,
    ensures
        scanned(fresh(key), t, samples).0.sta_sum == of_whole(
            total(latest(samples, at_least_one(t.sta_capacity))),
        ),
        scanned(fresh(key), t, samples).0.lta_sum == of_whole(
            total(latest(samples, at_least_one(t.lta_capacity))),
        ),
    decreases samples.len(),
{
    if samples.len() == 0 {
        lemma_zero_whole();
    } else {
        let front = samples.drop_last();
        lemma_sums_do_not_drift(key, t, front);
        lemma_windows_hold_newest(key, t, front);
        lemma_pushed_total(front, samples.last(), t.sta_capacity);
        lemma_pushed_total(front, samples.last(), t.lta_capacity);
        assert(front.push(samples.last()) =~= samples);
    }
}

proof fn lemma_fed_length(d: Detector, t: Tuning, sample: i32)
    ensures
        fed(d, t, sample).lta_values.len() <= d.lta_values.len() + 1,
        fed(d, t, sample).lta_values.len() <= at_least_one(t.lta_capacity),
        fed(d, t, sample).sta_values.len() <= at_least_one(t.sta_capacity),
{
    let value = amplitude(sample);
    lemma_drained_values(
        d.lta_values.push(value),
        crate::arithmetic::sum(d.lta_sum, value),
        at_least_one(t.lta_capacity),
    );
    lemma_drained_values(
        d.sta_values.push(value),
        crate::arithmetic::sum(d.sta_sum, value),
        at_least_one(t.sta_capacity),
    );
}

/// After any sample neither window holds more values than it spans.
pub proof fn lemma_windows_bounded(d: Detector, t: Tuning, sample: i32)
    ensures
        stepped(d, t, sample).0.sta_values.len() <= at_least_one(t.sta_capacity),
        stepped(d, t, sample).0.lta_values.len() <= at_least_one(t.lta_capacity),
{
    lemma_fed_length(d, t, sample);
}

/// Before the long-term window is full the detector brings no event, and neither its activity nor
/// its ratios change.
pub proof fn lemma_silent_while_warming_up(d: Detector, t: Tuning, samples: Seq<i32>)
    requires
        d.lta_values.len() + samples.len() < at_least_one(t.lta_capacity),
    ensures
        all_events(d, t, samples).len() == 0,
        scanned(d, t, samples).1 is None,
        scanned(d, t, samples).0.active == d.active,
        scanned(d, t, samples).0.current_ratio == d.current_ratio,
        scanned(d, t, samples).0.peak_ratio == d.peak_ratio,
        scanned(d, t, samples).0.above_samples == d.above_samples,
        scanned(d, t, samples).0.lta_values.len() <= d.lta_values.len() + samples.len(),
    decreases samples.len(),
{
    if samples.len() > 0 {
        lemma_silent_while_warming_up(d, t, samples.drop_last());
        lemma_fed_length(scanned(d, t, samples.drop_last()).0, t, samples.last());
    }
}

/// An event tells what the detector has become: active after an alarm, inactive after a reset,
/// and as active as before where there is none.
pub proof fn lemma_event_tells_activity(d: Detector, t: Tuning, samples: Seq<i32>)
    ensures
        match scanned(d, t, samples).1 {
            None => scanned(d, t, samples).0.active == d.active,
            Some(ServerEvent::Alarm { .. }) => scanned(d, t, samples).0.active,
            Some(ServerEvent::Reset { .. }) => !scanned(d, t, samples).0.active,
        },
    decreases samples.len(),
{
    if samples.len() > 0 {
        lemma_event_tells_activity(d, t, samples.drop_last());
    }
}

/// Every event carries the time and the channel of the block that brought it.
pub proof fn lemma_event_names_block(d: Detector, t: Tuning, samples: Seq<i32>, i: int)
    requires
        0 <= i < all_events(d, t, samples).len(),
    ensures
        match all_events(d, t, samples)[i] {
            ServerEvent::Alarm { event_time_ms, channel, .. } => event_time_ms == t.start_ms
                && channel == t.channel,
            ServerEvent::Reset { event_time_ms, channel, .. } => event_time_ms == t.start_ms
                && channel == t.channel,
        },
    decreases samples.len(),
{
    if samples.len() > 0 {
        let front = samples.drop_last();
        if i < all_events(d, t, front).len() {
            lemma_event_names_block(d, t, front, i);
        }
    }
}

/// Alarms and resets alternate: an inactive detector is first told to have become active, and each
/// event is of the other kind than the one before it.
pub proof fn lemma_events_alternate(d: Detector, t: Tuning, samples: Seq<i32>, i: int)
    requires
        0 <= i < all_events(d, t, samples).len(),
    ensures
        all_events(d, t, samples)[i] is Alarm <==> if i == 0 {
            !d.active
        } else {
            all_events(d, t, samples)[i - 1] is Reset
        },
    decreases samples.len(),
{
    if samples.len() > 0 {
        let front = samples.drop_last();
        if i < all_events(d, t, front).len() {
            lemma_events_alternate(d, t, front, i);
        } else {
            lemma_event_tells_activity(d, t, front);
            lemma_scan_gives_last_event(d, t, front);
        }
    }
}

proof fn lemma_any_alarm_joined(a: Seq<ServerEvent>, b: Seq<ServerEvent>)
    ensures
        any_alarm(a + b) <==> any_alarm(a) || any_alarm(b),
{
    if any_alarm(a) {
        let i = choose|i: int| 0 <= i < a.len() && #[trigger] a[i] is Alarm;
        assert((a + b)[i] is Alarm);
    }
    if any_alarm(b) {
        let i = choose|i: int| 0 <= i < b.len() && #[trigger] b[i] is Alarm;
        assert((a + b)[a.len() + i] is Alarm);
    }
    if any_alarm(a + b) {
        let i = choose|i: int| 0 <= i < (a + b).len() && #[trigger] (a + b)[i] is Alarm;
        if i < a.len() {
            assert(a[i] is Alarm);
        } else {
            assert(b[i - a.len()] is Alarm);
        }
    }
}

proof fn lemma_step_tells_start(d: Detector, t: Tuning, sample: i32)
    ensures
        any_alarm(stepped_events(d, t, sample)) <==> step_starts(d, t, sample),
{
    if step_starts(d, t, sample) {
        assert(stepped_events(d, t, sample)[0] is Alarm);
    }
}

/// An alarm is told exactly where some sample starts an alert.
pub proof fn lemma_alarm_told_iff_alert_starts(d: Detector, t: Tuning, samples: Seq<i32>)
    ensures
        any_alarm(all_events(d, t, samples)) <==> exists|i: int|
            0 <= i < samples.len() && #[trigger] starts_at(d, t, samples, i),
    decreases samples.len(),
{
    if samples.len() > 0 {
        let front = samples.drop_last();
        let n = front.len() as int;
        lemma_alarm_told_iff_alert_starts(d, t, front);
        lemma_step_tells_start(scanned(d, t, front).0, t, samples.last());
        lemma_any_alarm_joined(
            all_events(d, t, front),
            stepped_events(scanned(d, t, front).0, t, samples.last()),
        );
        assert(samples.take(n) =~= front);
        assert(starts_at(d, t, samples, n) == step_starts(
            scanned(d, t, front).0,
            t,
            samples.last(),
        ));
        assert forall|i: int| 0 <= i < n implies #[trigger] starts_at(d, t, front, i) == starts_at(
            d,
            t,
            samples,
            i,
        ) by {
            assert(front.take(i) =~= samples.take(i));
        }
        if exists|i: int| 0 <= i < samples.len() && #[trigger] starts_at(d, t, samples, i) {
            let i = choose|i: int| 0 <= i < samples.len() && #[trigger] starts_at(d, t, samples, i);
            if i < n {
                assert(starts_at(d, t, front, i));
            }
        }
    }
}

/// Where some sample makes an inactive detector active, an alarm is told; the block may end the
/// alert again.
pub proof fn lemma_every_start_is_told(d: Detector, t: Tuning, samples: Seq<i32>, i: int)
    requires
        0 <= i < samples.len(),
        !scanned(d, t, samples.take(i)).0.active,
        scanned(d, t, samples.take(i + 1)).0.active,
    ensures
        any_alarm(all_events(d, t, samples)),
{
    assert(samples.take(i + 1).drop_last() =~= samples.take(i));
    assert(starts_at(d, t, samples, i));
    lemma_alarm_told_iff_alert_starts(d, t, samples);
}

/// A sample raises the alarm only where the detector was inactive, the ratio has reached the
/// threshold, and it has stayed there for the minimum duration.
pub proof fn lemma_alarm_needs_threshold(d: Detector, t: Tuning, sample: i32)
    requires
        stepped_events(d, t, sample).len() > 0,
        stepped_events(d, t, sample)[0] is Alarm,
    ensures
        !d.active,
        is_warm(fed(d, t, sample), t),
        t.threshold.at_most(stepped(d, t, sample).0.current_ratio),
        stepped_events(d, t, sample)[0]->ratio == stepped(d, t, sample).0.current_ratio,
        stepped(d, t, sample).0.last_event_ms == Some(t.start_ms),
        t.immediate || stepped(d, t, sample).0.above_samples >= at_least_one(t.duration_samples),
{
}

/// A sample ends the alert only where the ratio has fallen to the reset ratio; the peak that it
/// reports is no lower than that ratio, and the next peak is sought from zero.
pub proof fn lemma_reset_needs_low_ratio(d: Detector, t: Tuning, sample: i32)
    requires
        stepped(d, t, sample).1 is Some,
        stepped(d, t, sample).1->0 is Reset,
    ensures
        !stepped(d, t, sample).0.active,
        stepped(d, t, sample).0.current_ratio.at_most(t.reset),
        stepped(d, t, sample).0.peak_ratio.bits == ZERO,
        !stepped(d, t, sample).1->0->peak_ratio.below(stepped(d, t, sample).0.current_ratio),
{
}

/// An inactive detector raises the alarm as soon as the ratio reaches the threshold, where no
/// minimum duration is asked for and the ratio lies above the reset ratio.
pub proof fn lemma_threshold_raises_alarm(d: Detector, t: Tuning, sample: i32)
    requires
        !d.active,
        t.immediate,
        is_warm(fed(d, t, sample), t),
        t.threshold.at_most(window_ratio(fed(d, t, sample))),
        t.reset.below(window_ratio(fed(d, t, sample))),
    ensures
        stepped(d, t, sample).0.active,
        stepped(d, t, sample).1 == Some(
            ServerEvent::Alarm {
                event_time_ms: t.start_ms,
                channel: t.channel,
                ratio: window_ratio(fed(d, t, sample)),
            },
        ),
        stepped(d, t, sample).0.last_event_ms == Some(t.start_ms),
{
}

/// With settings that pass their rules no ratio both reaches the threshold and falls to the reset
/// ratio, so that no sample starts and ends an alert at once.
pub proof fn lemma_valid_settings_have_hysteresis(settings: Settings, ratio: Double)
    requires
        settings_fault(settings) is None,
        settings.alert.threshold.at_most(ratio),
    ensures
        !ratio.at_most(settings.alert.reset),
{
}

/// Scanning two rows of samples one after the other leads to the same detector as scanning them
/// as one, brings the same events in the same order, and gives the last event of the second row, or
/// of the first where the second brings none.
pub proof fn lemma_scan_splits(d: Detector, t: Tuning, first: Seq<i32>, second: Seq<i32>)
    ensures
        scanned(d, t, first + second).0 == scanned(scanned(d, t, first).0, t, second).0,
        scanned(d, t, first + second).1 == match scanned(scanned(d, t, first).0, t, second).1 {
            Some(event) => Some(event),
            None => scanned(d, t, first).1,
        },
        all_events(d, t, first + second) == all_events(d, t, first) + all_events(
            scanned(d, t, first).0,
            t,
            second,
        ),
    decreases second.len(),
{
    if second.len() == 0 {
        assert(first + second =~= first);
        assert(all_events(d, t, first + second) =~= all_events(d, t, first) + all_events(
            scanned(d, t, first).0,
            t,
            second,
        ));
    } else {
        lemma_scan_splits(d, t, first, second.drop_last());
        assert((first + second).drop_last() =~= first + second.drop_last());
        assert(all_events(d, t, first + second) =~= all_events(d, t, first) + all_events(
            scanned(d, t, first).0,
            t,
            second,
        ));
    }
}

} // verus!
