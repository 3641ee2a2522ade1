//! The schedule of the demo source.

use crate::channels::can_take;
use crate::clock::is_shown;
use crate::double::Double;
use crate::packet::WaveBlock;
use crate::runtime::{accept_block, is_accepted, Accepted, RuntimeState};
use crate::settings::{Settings, DEFAULT_SAMPLE_RATE};
use vstd::prelude::*;

verus! {

/// The number of samples in one demo block.
pub const DEMO_BLOCK_SAMPLES: u64 = 25;

/// The time between two demo blocks, in milliseconds.
pub const DEMO_PERIOD_MS: u64 = 250;

/// The channels that the demo generates.
pub fn demo_channels() -> (r: Vec<String>)
    ensures
        r@.len() == 4,
        r@[0]@ == "EHZ"@,
        r@[1]@ == "EHE"@,
        r@[2]@ == "EHN"@,
        r@[3]@ == "ENZ"@,
{
    vec!["EHZ".to_string(), "EHE".to_string(), "EHN".to_string(), "ENZ".to_string()]
}

/// Whether the test pulse is on in block `sequence`: it is in the last 23 of every 80 blocks.
pub fn pulse_on(sequence: u64) -> (r: bool)
    ensures
        r == (sequence % 80 > 56),
{
    sequence % 80 > 56
}

/// The running number of sample `index` of block `sequence`.
pub fn sample_number(sequence: u64, index: u64) -> (r: u64)
    requires
        sequence * DEMO_BLOCK_SAMPLES + index <= u64::MAX,
    ensures
        r == sequence * DEMO_BLOCK_SAMPLES + index,
{
    sequence * DEMO_BLOCK_SAMPLES + index
}

/// The number of the block after block `sequence`; the largest number stays.
pub fn next_sequence(sequence: u64) -> (r: u64)
    ensures
        r == if sequence < u64::MAX {
            (sequence + 1) as u64
        } else {
            sequence
        },
{
    sequence.saturating_add(1)
}

/// A demo block, at the default sample rate.
pub fn demo_block(channel: String, start_ms: u64, samples: Vec<i32>) -> (r: WaveBlock)
    ensures
        r.channel == channel,
        r.start_ms == start_ms,
        r.sample_rate_hz.bits == DEFAULT_SAMPLE_RATE,
        r.samples == samples,
{
    WaveBlock {
        channel,
        start_ms,
        sample_rate_hz: Double { bits: DEFAULT_SAMPLE_RATE },
        samples,
    }
}

/// Takes in a demo block, with the source `demo` and no bytes; nothing is changed where the block
/// cannot be accounted for.
pub fn receive_demo(runtime: &mut RuntimeState, settings: &Settings, block: &WaveBlock) -> (r: Option<
    Accepted,
>)
    requires
        old(runtime).well_formed(),
    ensures
        final(runtime).well_formed(),
        r is Some <==> can_take(old(runtime).channels@, block.channel@, block.sample_rate_hz),
        match r {
            Some(accepted) => {
                &&& final(runtime).last_packet_at_ms is Some
                &&& is_shown(final(runtime).last_packet_at_ms->0)
                &&& exists|source: String|
                    {
                        &&& #[trigger] source@ == "demo"@
                        &&& is_accepted(
                            *old(runtime),
                            *final(runtime),
                            accepted,
                            *settings,
                            *block,
                            Some(source),
                            0,
                            final(runtime).last_packet_at_ms->0,
                        )
                    }
            },
            None => *final(runtime) == *old(runtime),
        },
{
    if !runtime.has_room_for(block) {
        return None;
    }
    let source: String = "demo".to_string();
    let ghost text = source;
    let accepted: Accepted = accept_block(runtime, settings, block, Some(source), 0);
    assert(text@ == "demo"@);
    Some(accepted)
}

} // verus!
