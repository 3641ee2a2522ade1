//! The alert detector: a short-term average of the amplitude against a long-term one.

use crate::arithmetic::{difference, of_whole, product, quotient, sum};
use crate::buffer::{limit_to_usize, within_usize};
use crate::double::{Double, INFINITE};
use crate::packet::WaveBlock;
use crate::settings::{AlertSettings, ZERO};
use std::collections::VecDeque;
use vstd::prelude::*;

verus! {

/// The distance from one to the next larger number, as a bit pattern; a long-term average that
/// is no larger counts as silence.
pub const SILENCE: u64 = 0x3cb0_0000_0000_0000;

/// What a client is told when an alert starts or ends.
#[derive(Debug)]
pub enum ServerEvent {
    Alarm { event_time_ms: u64, channel: String, ratio: Double },
    Reset { event_time_ms: u64, channel: String, peak_ratio: Double },
}

/// The part of the configuration that a detector state belongs to.
#[derive(Debug)]
pub struct AlertKey {
    pub channel: String,
    pub sta_seconds: Double,
    pub lta_seconds: Double,
    pub threshold: Double,
    pub reset: Double,
}

/// The state of the detector.
#[derive(Debug)]
pub struct AlertRuntime {
    pub active: bool,
    pub current_ratio: Double,
    pub peak_ratio: Double,
    pub last_event_ms: Option<u64>,
    pub config_key: Option<AlertKey>,
    pub sta_values: VecDeque<Double>,
    pub lta_values: VecDeque<Double>,
    pub sta_sum: Double,
    pub lta_sum: Double,
    pub above_samples: usize,
}

/// The state of the detector as a mathematical value.
pub struct Detector {
    pub active: bool,
    pub current_ratio: Double,
    pub peak_ratio: Double,
    pub last_event_ms: Option<u64>,
    pub config_key: Option<AlertKey>,
    pub sta_values: Seq<Double>,
    pub lta_values: Seq<Double>,
    pub sta_sum: Double,
    pub lta_sum: Double,
    pub above_samples: usize,
}

impl View for AlertRuntime {
    type V = Detector;

    open spec fn view(&self) -> Detector {
        Detector {
            active: self.active,
            current_ratio: self.current_ratio,
            peak_ratio: self.peak_ratio,
            last_event_ms: self.last_event_ms,
            config_key: self.config_key,
            sta_values: self.sta_values@,
            lta_values: self.lta_values@,
            sta_sum: self.sta_sum,
            lta_sum: self.lta_sum,
            above_samples: self.above_samples,
        }
    }
}

/// What the configuration comes to at the rate of a block.
pub struct Tuning {
    pub sta_capacity: usize,
    pub lta_capacity: usize,
    pub threshold: Double,
    pub reset: Double,
    pub immediate: bool,
    pub duration_samples: usize,
    pub start_ms: u64,
    pub channel: String,
}

/// `n`, or one where `n` is zero.
pub open spec fn at_least_one(n: usize) -> nat {
    if n == 0 {
        1
    } else {
        n as nat
    }
}

/// The number of samples that a time takes, to the nearest whole sample.
pub open spec fn samples_in(seconds: Double, sample_rate_hz: Double) -> usize {
    within_usize(product(seconds, sample_rate_hz).closest_whole())
}

/// What the configuration comes to for a block.
pub open spec fn tuning(config: AlertSettings, block: WaveBlock) -> Tuning {
    Tuning {
        sta_capacity: samples_in(config.sta_seconds, block.sample_rate_hz),
        lta_capacity: samples_in(config.lta_seconds, block.sample_rate_hz),
        threshold: config.threshold,
        reset: config.reset,
        immediate: config.minimum_duration_seconds.same_value(Double { bits: ZERO }),
        duration_samples: samples_in(config.minimum_duration_seconds, block.sample_rate_hz),
        start_ms: block.start_ms,
        channel: block.channel,
    }
}

/// Whether two numbers are written alike: the same number, sign of zero included, or both none.
pub open spec fn written_alike(a: Double, b: Double) -> bool {
    a.bits == b.bits || a.is_nan() && b.is_nan()
}

/// Whether a detector state with this key belongs to the configuration.
pub open spec fn key_fits(key: Option<AlertKey>, config: AlertSettings) -> bool {
    match key {
        None => false,
        Some(k) => {
            &&& k.channel@ == config.channel@
            &&& written_alike(k.sta_seconds, config.sta_seconds)
            &&& written_alike(k.lta_seconds, config.lta_seconds)
            &&& written_alike(k.threshold, config.threshold)
            &&& written_alike(k.reset, config.reset)
        },
    }
}

/// The key of a configuration.
pub open spec fn key_of(config: AlertSettings) -> AlertKey {
    AlertKey {
        channel: config.channel,
        sta_seconds: config.sta_seconds,
        lta_seconds: config.lta_seconds,
        threshold: config.threshold,
        reset: config.reset,
    }
}

/// The detector before it has seen a sample.
pub open spec fn fresh(key: Option<AlertKey>) -> Detector {
    Detector {
        active: false,
        current_ratio: Double { bits: ZERO },
        peak_ratio: Double { bits: ZERO },
        last_event_ms: None,
        config_key: key,
        sta_values: Seq::empty(),
        lta_values: Seq::empty(),
        sta_sum: Double { bits: ZERO },
        lta_sum: Double { bits: ZERO },
        above_samples: 0,
    }
}

/// A window cut down to `limit` values, and its running sum: the oldest values leave one by one.
pub open spec fn drained(values: Seq<Double>, total: Double, limit: nat) -> (Seq<Double>, Double)
    decreases values.len(),
{
    if values.len() > limit {
        drained(values.drop_first(), difference(total, values[0]), limit)
    } else {
        (values, total)
    }
}

/// A window and its running sum after `value` has entered it.
pub open spec fn pushed(values: Seq<Double>, total: Double, capacity: usize, value: Double) -> (
    Seq<Double>,
    Double,
) {
    drained(values.push(value), sum(total, value), at_least_one(capacity))
}

/// The mean of a window.
pub open spec fn mean(total: Double, count: nat) -> Double {
    quotient(total, of_whole(count))
}

/// The short-term mean over the long-term mean; zero where there is silence.
pub open spec fn ratio_of(short: Double, long: Double) -> Double {
    if (Double { bits: SILENCE }).below(long) {
        quotient(short, long)
    } else {
        Double { bits: ZERO }
    }
}

/// The absolute value of a sample.
pub open spec fn absolute(sample: i32) -> nat {
    if sample < 0 {
        (-(sample as int)) as nat
    } else {
        sample as nat
    }
}

/// The amplitude of a sample.
pub open spec fn amplitude(sample: i32) -> Double {
    of_whole(absolute(sample))
}

/// The detector after a sample has entered both windows.
pub open spec fn fed(d: Detector, t: Tuning, sample: i32) -> Detector {
    let short = pushed(d.sta_values, d.sta_sum, t.sta_capacity, amplitude(sample));
    let long = pushed(d.lta_values, d.lta_sum, t.lta_capacity, amplitude(sample));
    Detector {
        sta_values: short.0,
        sta_sum: short.1,
        lta_values: long.0,
        lta_sum: long.1,
        ..d
    }
}

/// Whether the long-term window is full.
pub open spec fn is_warm(d: Detector, t: Tuning) -> bool {
    d.lta_values.len() >= at_least_one(t.lta_capacity)
}

/// The ratio that the windows give.
pub open spec fn window_ratio(d: Detector) -> Double {
    ratio_of(mean(d.sta_sum, d.sta_values.len()), mean(d.lta_sum, d.lta_values.len()))
}

/// `n + 1`, or `n` where that is the largest `usize`.
pub open spec fn capped_next(n: usize) -> usize {
    if n < usize::MAX {
        (n + 1) as usize
    } else {
        n
    }
}

/// How many samples in a row have reached the threshold, with one that gives `ratio`.
pub open spec fn above_after(d: Detector, t: Tuning, ratio: Double) -> usize {
    if !d.active && t.threshold.at_most(ratio) {
        capped_next(d.above_samples)
    } else if ratio.below(t.threshold) {
        0
    } else {
        d.above_samples
    }
}

/// Whether an alert starts when the windows give `ratio`.
pub open spec fn starts_alert(d: Detector, t: Tuning, ratio: Double) -> bool {
    &&& !d.active
    &&& t.threshold.at_most(ratio)
    &&& t.immediate || above_after(d, t, ratio) >= at_least_one(t.duration_samples)
}

/// Whether an alert ends when the windows give `ratio`.
pub open spec fn ends_alert(d: Detector, t: Tuning, ratio: Double) -> bool {
    (d.active || starts_alert(d, t, ratio)) && ratio.at_most(t.reset)
}

/// What clients are told when the windows give `ratio`: first that an alert starts, then that it
/// ends.
pub open spec fn judged_events(d: Detector, t: Tuning, ratio: Double) -> Seq<ServerEvent> {
    let alarm = ServerEvent::Alarm { event_time_ms: t.start_ms, channel: t.channel, ratio };
    let reset = ServerEvent::Reset {
        event_time_ms: t.start_ms,
        channel: t.channel,
        peak_ratio: d.peak_ratio.larger_of(ratio),
    };
    let first = if starts_alert(d, t, ratio) {
        seq![alarm]
    } else {
        Seq::empty()
    };
    if ends_alert(d, t, ratio) {
        first.push(reset)
    } else {
        first
    }
}

/// Whether an alarm is among some events.
pub open spec fn any_alarm(events: Seq<ServerEvent>) -> bool {
    exists|i: int| 0 <= i < events.len() && #[trigger] events[i] is Alarm
}

/// The last of some events.
pub open spec fn last_event(events: Seq<ServerEvent>) -> Option<ServerEvent> {
    if events.len() == 0 {
        None
    } else {
        Some(events.last())
    }
}

/// The detector after the windows have given `ratio`.
pub open spec fn judged(d: Detector, t: Tuning, ratio: Double) -> Detector {
    let starts = starts_alert(d, t, ratio);
    let ends = ends_alert(d, t, ratio);
    Detector {
        active: (d.active || starts) && !ends,
        current_ratio: ratio,
        peak_ratio: if ends {
            Double { bits: ZERO }
        } else {
            d.peak_ratio.larger_of(ratio)
        },
        last_event_ms: if starts {
            Some(t.start_ms)
        } else {
            d.last_event_ms
        },
        above_samples: above_after(d, t, ratio),
        ..d
    }
}

/// What clients are told after one sample.
pub open spec fn stepped_events(d: Detector, t: Tuning, sample: i32) -> Seq<ServerEvent> {
    let full = fed(d, t, sample);
    if is_warm(full, t) {
        judged_events(full, t, window_ratio(full))
    } else {
        Seq::empty()
    }
}

/// The detector after one sample, and the last event that it brings.
pub open spec fn stepped(d: Detector, t: Tuning, sample: i32) -> (Detector, Option<ServerEvent>) {
    let full = fed(d, t, sample);
    (
        if is_warm(full, t) {
            judged(full, t, window_ratio(full))
        } else {
            full
        },
        last_event(stepped_events(d, t, sample)),
    )
}

/// The detector after a row of samples, and the last event among them.
pub open spec fn scanned(d: Detector, t: Tuning, samples: Seq<i32>) -> (
    Detector,
    Option<ServerEvent>,
)
    decreases samples.len(),
{
    if samples.len() == 0 {
        (d, None)
    } else {
        let before = scanned(d, t, samples.drop_last());
        let after = stepped(before.0, t, samples.last());
        (
            after.0,
            if after.1 is Some {
                after.1
            } else {
                before.1
            },
        )
    }
}

/// Everything that clients are told of a row of samples: for each sample the alarm that it raises,
/// then the reset where the alert ends.
pub open spec fn all_events(d: Detector, t: Tuning, samples: Seq<i32>) -> Seq<ServerEvent>
    decreases samples.len(),
{
    if samples.len() == 0 {
        Seq::empty()
    } else {
        let front = samples.drop_last();
        all_events(d, t, front) + stepped_events(scanned(d, t, front).0, t, samples.last())
    }
}

/// The detector with which a configuration goes on: the one at hand where it belongs to the
/// configuration, and a fresh one otherwise.
pub open spec fn resumed(d: Detector, config: AlertSettings) -> Detector {
    if key_fits(d.config_key, config) {
        d
    } else {
        fresh(Some(key_of(config)))
    }
}

/// The detector after a block, and the last event that it brings.
pub open spec fn detected(d: Detector, config: AlertSettings, block: WaveBlock) -> (
    Detector,
    Option<ServerEvent>,
) {
    if !config.enabled || block.channel@ != config.channel@ {
        (d, None)
    } else {
        scanned(resumed(d, config), tuning(config, block), block.samples@)
    }
}

/// Everything that clients are told of a block.
pub open spec fn block_events(d: Detector, config: AlertSettings, block: WaveBlock) -> Seq<
    ServerEvent,
> {
    if !config.enabled || block.channel@ != config.channel@ {
        Seq::empty()
    } else {
        all_events(resumed(d, config), tuning(config, block), block.samples@)
    }
}

/// The event that a scan gives is the last of all that it brings.
pub proof fn lemma_scan_gives_last_event(d: Detector, t: Tuning, samples: Seq<i32>)
    ensures
        scanned(d, t, samples).1 == last_event(all_events(d, t, samples)),
    decreases samples.len(),
{
    if samples.len() > 0 {
        lemma_scan_gives_last_event(d, t, samples.drop_last());
    }
}

/// The event that a block gives is the last of all that it brings.
pub proof fn lemma_block_gives_last_event(d: Detector, config: AlertSettings, block: WaveBlock)
    ensures
        detected(d, config, block).1 == last_event(block_events(d, config, block)),
{
    lemma_scan_gives_last_event(
        resumed(d, config),
        tuning(config, block),
        block.samples@,
    );
}

/// Takes `value` into a window that keeps at most `capacity` values, one at least, and keeps its
/// running sum.
pub fn window_push(values: &mut VecDeque<Double>, total: &mut Double, capacity: usize, value: Double)
    ensures
        (final(values)@, *final(total)) == pushed(old(values)@, *old(total), capacity, value),
{
    let limit: usize = if capacity == 0 {
        1
    } else {
        capacity
    };
    values.push_back(value);
    *total = total.plus(value);
    while values.len() > limit
        invariant
            drained(values@, *total, limit as nat) == pushed(
                old(values)@,
                *old(total),
                capacity,
                value,
            ),
            limit as nat == at_least_one(capacity),
        decreases values@.len(),
    {
        let ghost before = values@;
        if let Some(removed) = values.pop_front() {
            assert(values@ =~= before.drop_first());
            *total = total.minus(removed);
        }
    }
}

/// Whether an alarm is among some events.
pub fn has_alarm(events: &Vec<ServerEvent>) -> (r: bool)
    ensures
        r == any_alarm(events@),
{
    let mut i: usize = 0;
    while i < events.len()
        invariant
            i <= events@.len(),
            forall|j: int| 0 <= j < i ==> !(#[trigger] events@[j] is Alarm),
        decreases events@.len() - i,
    {
        if let ServerEvent::Alarm { .. } = &events[i] {
            assert(events@[i as int] is Alarm);
            return true;
        }
        i = i + 1;
    }
    false
}

fn same_writing(a: Double, b: Double) -> (r: bool)
    ensures
        r == written_alike(a, b),
{
    a.bits == b.bits || (a.unsigned_bits() > INFINITE && b.unsigned_bits() > INFINITE)
}

/// The number of samples that a time takes, to the nearest whole sample.
pub fn count_samples(seconds: Double, sample_rate_hz: Double) -> (r: usize)
    ensures
        r == samples_in(seconds, sample_rate_hz),
{
    limit_to_usize(seconds.times(sample_rate_hz).round_to_u64())
}

fn amplitude_of(sample: i32) -> (r: Double)
    ensures
        r == amplitude(sample),
{
    let wide: i64 = sample as i64;
    if wide < 0 {
        Double::from_u64((-wide) as u64)
    } else {
        Double::from_u64(wide as u64)
    }
}

impl AlertRuntime {
    /// A detector that has seen nothing.
    pub fn new(key: Option<AlertKey>) -> (r: AlertRuntime)
        ensures
            r@ == fresh(key),
    {
        AlertRuntime {
            active: false,
            current_ratio: Double { bits: ZERO },
            peak_ratio: Double { bits: ZERO },
            last_event_ms: None,
            config_key: key,
            sta_values: VecDeque::new(),
            lta_values: VecDeque::new(),
            sta_sum: Double { bits: ZERO },
            lta_sum: Double { bits: ZERO },
            above_samples: 0,
        }
    }

    fn belongs_to(&self, config: &AlertSettings) -> (r: bool)
        ensures
            r == key_fits(self.config_key, *config),
    {
        match &self.config_key {
            None => false,
            Some(k) => k.channel == config.channel && same_writing(
                k.sta_seconds,
                config.sta_seconds,
            ) && same_writing(k.lta_seconds, config.lta_seconds) && same_writing(
                k.threshold,
                config.threshold,
            ) && same_writing(k.reset, config.reset),
        }
    }

    fn step(&mut self, t: &Tuning, sample: i32) -> (r: Vec<ServerEvent>)
        ensures
            final(self)@ == stepped(old(self)@, *t, sample).0,
            r@ == stepped_events(old(self)@, *t, sample),
    {
        let value: Double = amplitude_of(sample);
        window_push(&mut self.sta_values, &mut self.sta_sum, t.sta_capacity, value);
        window_push(&mut self.lta_values, &mut self.lta_sum, t.lta_capacity, value);
        let needed: usize = if t.lta_capacity == 0 {
            1
        } else {
            t.lta_capacity
        };
        if self.lta_values.len() < needed {
            return Vec::new();
        }
        let short: Double = self.sta_sum.over(Double::from_u64(self.sta_values.len() as u64));
        let long: Double = self.lta_sum.over(Double::from_u64(self.lta_values.len() as u64));
        let silence: Double = Double { bits: SILENCE };
        let ratio: Double = if silence.is_below(long) {
            short.over(long)
        } else {
            Double { bits: ZERO }
        };
        self.judge(t, ratio)
    }

    /// Decides on the ratio that the windows give.
    pub fn judge(&mut self, t: &Tuning, ratio: Double) -> (r: Vec<ServerEvent>)
        ensures
            final(self)@ == judged(old(self)@, *t, ratio),
            r@ == judged_events(old(self)@, *t, ratio),
    {
        let mut events: Vec<ServerEvent> = Vec::new();
        self.current_ratio = ratio;
        self.peak_ratio = self.peak_ratio.larger(ratio);
        if !self.active && t.threshold.is_at_most(ratio) {
            self.above_samples = self.above_samples.saturating_add(1);
            let needed: usize = if t.duration_samples == 0 {
                1
            } else {
                t.duration_samples
            };
            if t.immediate || self.above_samples >= needed {
                self.active = true;
                self.last_event_ms = Some(t.start_ms);
                events.push(
                    ServerEvent::Alarm {
                        event_time_ms: t.start_ms,
                        channel: t.channel.clone(),
                        ratio,
                    },
                );
            }
        } else if ratio.is_below(t.threshold) {
            self.above_samples = 0;
        }
        if self.active && ratio.is_at_most(t.reset) {
            self.active = false;
            events.push(
                ServerEvent::Reset {
                    event_time_ms: t.start_ms,
                    channel: t.channel.clone(),
                    peak_ratio: self.peak_ratio,
                },
            );
            self.peak_ratio = Double { bits: ZERO };
        }
        events
    }

    /// Takes in a block; every alarm and reset that it brings is returned, in order.
    pub fn observe_all(&mut self, config: &AlertSettings, block: &WaveBlock) -> (r: Vec<ServerEvent>)
        ensures
            final(self)@ == detected(old(self)@, *config, *block).0,
            r@ == block_events(old(self)@, *config, *block),
    {
        let mut events: Vec<ServerEvent> = Vec::new();
        if !config.enabled || block.channel != config.channel {
            return events;
        }
        if !self.belongs_to(config) {
            let key: AlertKey = AlertKey {
                channel: config.channel.clone(),
                sta_seconds: config.sta_seconds,
                lta_seconds: config.lta_seconds,
                threshold: config.threshold,
                reset: config.reset,
            };
            *self = AlertRuntime::new(Some(key));
        }
        let ghost start = self@;
        let t: Tuning = Tuning {
            sta_capacity: count_samples(config.sta_seconds, block.sample_rate_hz),
            lta_capacity: count_samples(config.lta_seconds, block.sample_rate_hz),
            threshold: config.threshold,
            reset: config.reset,
            immediate: config.minimum_duration_seconds.is_same(Double { bits: ZERO }),
            duration_samples: count_samples(config.minimum_duration_seconds, block.sample_rate_hz),
            start_ms: block.start_ms,
            channel: block.channel.clone(),
        };
        let mut i: usize = 0;
        while i < block.samples.len()
            invariant
                i <= block.samples@.len(),
                self@ == scanned(start, t, block.samples@.take(i as int)).0,
                events@ == all_events(start, t, block.samples@.take(i as int)),
            decreases block.samples@.len() - i,
        {
            assert(block.samples@.take(i + 1).drop_last() =~= block.samples@.take(i as int));
            let mut brought: Vec<ServerEvent> = self.step(&t, block.samples[i]);
            events.append(&mut brought);
            i = i + 1;
        }
        assert(block.samples@.take(i as int) =~= block.samples@);
        events
    }

    /// Takes in a block; the last alarm or reset that it brings is returned.
    pub fn observe(&mut self, config: &AlertSettings, block: &WaveBlock) -> (r: Option<ServerEvent>)
        ensures
            (final(self)@, r) == detected(old(self)@, *config, *block),
    {
        let ghost before = self@;
        proof {
            lemma_block_gives_last_event(before, *config, *block);
        }
        let mut events: Vec<ServerEvent> = self.observe_all(config, block);
        events.pop()
    }
}

} // verus!
