//! The bounded sample buffer of one channel.

use crate::arithmetic::{of_whole, product, quotient};
use crate::double::Double;
use std::collections::VecDeque;
use vstd::prelude::*;

verus! {

/// The number 600, as a bit pattern: the seconds that a buffer spans.
pub const SPAN_SECONDS: u64 = 0x4082_c000_0000_0000;

/// The number 1000, as a bit pattern: milliseconds per second, and the smallest buffer.
pub const THOUSAND: u64 = 0x408f_4000_0000_0000;

/// How many milliseconds a packet may be late before a gap is counted.
pub const GAP_TOLERANCE_MS: u64 = 20;

/// The samples of one channel, the newest last, and what is known of its packets.
#[derive(Debug)]
pub struct ChannelBuffer {
    pub sample_rate_hz: Double,
    pub samples: VecDeque<i32>,
    pub max_samples: usize,
    pub last_start_ms: Option<u64>,
    pub last_sample_count: usize,
    pub packets: u64,
    pub gaps: u64,
}

/// `n`, or the largest `usize` where `n` lies above it.
pub open spec fn within_usize(n: u64) -> usize {
    if n <= usize::MAX {
        n as usize
    } else {
        usize::MAX
    }
}

/// `a + b`, or the largest `u64` where the sum lies above it.
pub open spec fn capped_sum(a: u64, b: u64) -> u64 {
    if a + b <= u64::MAX {
        (a + b) as u64
    } else {
        u64::MAX
    }
}

/// `a - b`, or zero where the difference is negative.
pub open spec fn floored_difference(a: u64, b: u64) -> u64 {
    if a >= b {
        (a - b) as u64
    } else {
        0
    }
}

/// The last `n` items of a sequence, or all of it where it has no more.
pub open spec fn latest(s: Seq<i32>, n: nat) -> Seq<i32> {
    if s.len() <= n {
        s
    } else {
        s.skip(s.len() - n)
    }
}

/// How many samples a channel keeps: ten minutes of them, and a thousand at least.
pub open spec fn buffer_capacity(sample_rate_hz: Double) -> usize {
    within_usize(
        product(sample_rate_hz, Double { bits: SPAN_SECONDS }).larger_of(
            Double { bits: THOUSAND },
        ).cut(),
    )
}

/// Whether room for a channel at this rate can be set aside at all.
pub open spec fn can_reserve(sample_rate_hz: Double) -> bool {
    buffer_capacity(sample_rate_hz) * 4 <= isize::MAX
}

/// The time that `count` samples take, in milliseconds.
pub open spec fn duration_ms(count: nat, sample_rate_hz: Double) -> Double {
    product(quotient(of_whole(count), sample_rate_hz), Double { bits: THOUSAND })
}

/// `n`, or the largest `usize` where `n` lies above it.
pub fn limit_to_usize(n: u64) -> (r: usize)
    ensures
        r == within_usize(n),
{
    if n <= usize::MAX as u64 {
        n as usize
    } else {
        usize::MAX
    }
}

/// The time that `count` samples take, in milliseconds.
pub fn duration_of(count: usize, sample_rate_hz: Double) -> (r: Double)
    ensures
        r == duration_ms(count as nat, sample_rate_hz),
{
    Double::from_u64(count as u64).over(sample_rate_hz).times(Double { bits: THOUSAND })
}

impl ChannelBuffer {
    /// A buffer never holds more samples than it may.
    pub open spec fn well_formed(self) -> bool {
        self.samples@.len() <= self.max_samples
    }

    /// When the next packet is due at the earliest, as far as the last one tells: its start and
    /// the time that its samples take, a packet without samples counting as one sample.
    pub open spec fn expected_ms(self) -> int
        recommends
            self.last_start_ms is Some,
    {
        let count = if self.last_sample_count == 0 {
            1
        } else {
            self.last_sample_count as nat
        };
        self.last_start_ms->0 + duration_ms(count, self.sample_rate_hz).cut()
    }

    /// Whether the time of the next packet can be told in 64 bits.
    pub open spec fn can_append(self) -> bool {
        self.last_start_ms is Some ==> self.expected_ms() + GAP_TOLERANCE_MS <= u64::MAX
    }

    /// Whether a packet that starts at `start_ms` leaves a gap after the last one.
    pub open spec fn leaves_gap(self, start_ms: u64) -> bool {
        self.last_start_ms is Some && start_ms > self.expected_ms() + GAP_TOLERANCE_MS
    }

    /// Whether `self` is what `before` becomes when a packet arrives.
    pub open spec fn is_appended(self, before: ChannelBuffer, start_ms: u64, samples: Seq<i32>) -> bool {
        &&& self.sample_rate_hz == before.sample_rate_hz
        &&& self.samples@ == latest(before.samples@ + samples, before.max_samples as nat)
        &&& self.max_samples == before.max_samples
        &&& self.last_start_ms == Some(start_ms)
        &&& self.last_sample_count == samples.len()
        &&& self.packets == capped_sum(before.packets, 1)
        &&& self.gaps == if before.leaves_gap(start_ms) {
            capped_sum(before.gaps, 1)
        } else {
            before.gaps
        }
    }

    /// Whether `self` is an empty buffer for the given rate.
    pub open spec fn is_new(self, sample_rate_hz: Double) -> bool {
        &&& self.sample_rate_hz == sample_rate_hz
        &&& self.samples@ == Seq::<i32>::empty()
        &&& self.max_samples == buffer_capacity(sample_rate_hz)
        &&& self.last_start_ms is None
        &&& self.last_sample_count == 0
        &&& self.packets == 0
        &&& self.gaps == 0
    }

    /// Whether room for a channel at this rate can be set aside at all.
    pub fn fits(sample_rate_hz: Double) -> (r: bool)
        ensures
            r == can_reserve(sample_rate_hz),
    {
        let span: Double = sample_rate_hz.times(Double { bits: SPAN_SECONDS });
        let capacity: usize = limit_to_usize(span.larger(Double { bits: THOUSAND }).to_u64());
        capacity <= (isize::MAX as usize) / 4
    }

    /// An empty buffer for a channel with the given rate.
    pub fn new(sample_rate_hz: Double) -> (r: ChannelBuffer)
        requires
            can_reserve(sample_rate_hz),
        ensures
            r.is_new(sample_rate_hz),
            r.well_formed(),
    {
        let span: Double = sample_rate_hz.times(Double { bits: SPAN_SECONDS });
        let max_samples: usize = limit_to_usize(span.larger(Double { bits: THOUSAND }).to_u64());
        ChannelBuffer {
            sample_rate_hz,
            samples: VecDeque::with_capacity(max_samples),
            max_samples,
            last_start_ms: None,
            last_sample_count: 0,
            packets: 0,
            gaps: 0,
        }
    }

    fn last_packet_ms(&self) -> (r: u64)
        ensures
            self.last_start_ms is Some ==> self.expected_ms() == self.last_start_ms->0 + r,
    {
        let count: usize = if self.last_sample_count == 0 {
            1
        } else {
            self.last_sample_count
        };
        duration_of(count, self.sample_rate_hz).to_u64()
    }

    /// Whether the time of the next packet can be told in 64 bits.
    pub fn has_room_in_time(&self) -> (r: bool)
        ensures
            r == self.can_append(),
    {
        match self.last_start_ms {
            None => true,
            Some(start) => {
                let taken: u64 = self.last_packet_ms();
                taken <= u64::MAX - start && GAP_TOLERANCE_MS <= u64::MAX - start - taken
            },
        }
    }

    /// Takes in the samples of a packet that starts at `start_ms`.
    pub fn append(&mut self, start_ms: u64, samples: &[i32])
        requires
            old(self).can_append(),
        ensures
            final(self).is_appended(*old(self), start_ms, samples@),
            final(self).well_formed(),
    {
        if let Some(previous) = self.last_start_ms {
            let expected: u64 = previous + self.last_packet_ms();
            if start_ms > expected + GAP_TOLERANCE_MS {
                self.gaps = self.gaps.saturating_add(1);
            }
        }
        let ghost stored = self.samples@;
        let mut i: usize = 0;
        while i < samples.len()
            invariant
                i <= samples@.len(),
                self.samples@ =~= stored + samples@.take(i as int),
                self.gaps == if old(self).leaves_gap(start_ms) {
                    capped_sum(old(self).gaps, 1)
                } else {
                    old(self).gaps
                },
                self.sample_rate_hz == old(self).sample_rate_hz,
                self.max_samples == old(self).max_samples,
                self.packets == old(self).packets,
            decreases samples@.len() - i,
        {
            self.samples.push_back(samples[i]);
            i = i + 1;
        }
        let ghost all = stored + samples@;
        assert(self.samples@ =~= all);
        while self.samples.len() > self.max_samples
            invariant
                self.samples@.len() <= all.len(),
                self.samples@ =~= all.skip(all.len() - self.samples@.len()),
                self.samples@.len() >= self.max_samples || self.samples@ == all,
                self.gaps == if old(self).leaves_gap(start_ms) {
                    capped_sum(old(self).gaps, 1)
                } else {
                    old(self).gaps
                },
                self.sample_rate_hz == old(self).sample_rate_hz,
                self.max_samples == old(self).max_samples,
                self.packets == old(self).packets,
            decreases self.samples@.len(),
        {
            self.samples.pop_front();
        }
        assert(self.samples@ =~= latest(all, self.max_samples as nat));
        self.last_start_ms = Some(start_ms);
        self.last_sample_count = samples.len();
        self.packets = self.packets.saturating_add(1);
    }
}

/// When the oldest sample of a buffer was taken, as far as the last packet tells.
pub open spec fn retained_start(buffer: ChannelBuffer) -> Option<u64> {
    match buffer.last_start_ms {
        None => None,
        Some(start) => {
            let last = duration_of_rounded(buffer.last_sample_count as nat, buffer.sample_rate_hz);
            let kept = duration_of_rounded(buffer.samples@.len(), buffer.sample_rate_hz);
            Some(floored_difference(capped_sum(start, last), kept))
        },
    }
}

/// The time that `count` samples take, in whole milliseconds.
pub open spec fn duration_of_rounded(count: nat, sample_rate_hz: Double) -> u64 {
    duration_ms(count, sample_rate_hz).closest_whole()
}

/// When the oldest sample of a buffer was taken, as far as the last packet tells.
pub fn retained_start_time_ms(buffer: &ChannelBuffer) -> (r: Option<u64>)
    ensures
        r == retained_start(*buffer),
{
    match buffer.last_start_ms {
        None => None,
        Some(start) => {
            let last: u64 = duration_of(
                buffer.last_sample_count,
                buffer.sample_rate_hz,
            ).round_to_u64();
            let kept: u64 = duration_of(buffer.samples.len(), buffer.sample_rate_hz).round_to_u64();
            Some(start.saturating_add(last).saturating_sub(kept))
        },
    }
}

/// Taking in two packets keeps the samples that taking in both at once would keep.
pub proof fn lemma_latest_composes(s: Seq<i32>, t: Seq<i32>, n: nat)
    ensures
        latest(latest(s, n) + t, n) == latest(s + t, n),
{
    assert(latest(latest(s, n) + t, n) =~= latest(s + t, n));
}

/// Whatever packets a buffer has taken in since it was made, it holds exactly the newest samples
/// of all of them, as many as it may hold. It has counted every packet, up to the largest count,
/// and no more gaps than packets.
pub proof fn lemma_buffer_holds_newest(
    states: Seq<ChannelBuffer>,
    sample_rate_hz: Double,
    starts: Seq<u64>,
    packets: Seq<Seq<i32>>,
)
    requires
        states.len() == packets.len() + 1,
        starts.len() == packets.len(),
        states[0].is_new(sample_rate_hz),
        forall|i: int|
            0 <= i < packets.len() ==> (#[trigger] states[i + 1]).is_appended(
                states[i],
                starts[i],
                packets[i],
            ),
    ensures
        states.last().samples@ == latest(
            packets.flatten(),
            buffer_capacity(sample_rate_hz) as nat,
        ),
        states.last().max_samples == buffer_capacity(sample_rate_hz),
        states.last().packets == if packets.len() <= u64::MAX {
            packets.len() as u64
        } else {
            u64::MAX
        },
        states.last().gaps <= states.last().packets,
    decreases packets.len(),
{
    packets.lemma_flatten_and_flatten_alt_are_equivalent();
    if packets.len() == 0 {
        assert(packets.flatten() =~= Seq::<i32>::empty());
    } else {
        let n = packets.len() as int;
        let front = packets.drop_last();
        lemma_buffer_holds_newest(states.drop_last(), sample_rate_hz, starts.drop_last(), front);
        front.lemma_flatten_and_flatten_alt_are_equivalent();
        assert(states[n - 1 + 1].is_appended(states[n - 1], starts[n - 1], packets[n - 1]));
        lemma_latest_composes(
            front.flatten(),
            packets.last(),
            buffer_capacity(sample_rate_hz) as nat,
        );
    }
}

/// The first packet of a channel leaves no gap, and neither does a packet that comes at most 20 ms
/// after it was due.
pub proof fn lemma_no_gap_on_time(buffer: ChannelBuffer, start_ms: u64)
    requires
        buffer.last_start_ms is None || start_ms <= buffer.expected_ms() + 20,
    ensures
        !buffer.leaves_gap(start_ms),
{
}

/// A buffer that holds nothing but its last packet starts where that packet starts.
pub proof fn lemma_single_packet_start(buffer: ChannelBuffer)
    requires
        buffer.last_start_ms is Some,
        buffer.samples@.len() == buffer.last_sample_count,
        buffer.last_start_ms->0 + duration_of_rounded(
            buffer.samples@.len(),
            buffer.sample_rate_hz,
        ) <= u64::MAX,
    ensures
        retained_start(buffer) == buffer.last_start_ms,
{
}

} // verus!
