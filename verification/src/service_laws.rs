//! What holds of the service as a whole: what a packet changes, what is told, and how a session
//! reacts.

use crate::alert::{block_events, detected};
use crate::buffer::{can_reserve, retained_start, ChannelBuffer};
use crate::channels::{comes_before, lemma_entry_is_held, ChannelTable};
use crate::clock::{is_shown, reading_at, unix_nanos};
use crate::display::{reduced, visible};
use crate::double::Double;
use crate::packet::{Packet, WaveBlock};
use crate::runtime::{
    in_range, is_accepted, is_channel_snapshot, is_channel_status, is_snapshot, is_status, Accepted,
    LiveSnapshot, RuntimeState, StatusResponse,
};
use crate::session::{reaction, SessionAction, SessionInput};
use crate::settings::Settings;
use std::time::SystemTime;
use vstd::prelude::*;

verus! {

/// Accepting a block counts one packet and its bytes, up to the largest count, tells the time, keeps
/// the first source that was named, and leaves the start of the service, the invalid packets and
/// the demo flag alone.
pub proof fn lemma_accepting_counts(
    before: RuntimeState,
    after: RuntimeState,
    accepted: Accepted,
    settings: Settings,
    block: WaveBlock,
    source_ip: Option<String>,
    byte_count: usize,
    now: u64,
)
    requires
        is_accepted(before, after, accepted, settings, block, source_ip, byte_count, now),
    ensures
        before.packets_received < u64::MAX ==> after.packets_received == before.packets_received + 1,
        before.packets_received == u64::MAX ==> after.packets_received == u64::MAX,
        before.bytes_received + byte_count <= u64::MAX ==> after.bytes_received
            == before.bytes_received + byte_count,
        before.bytes_received + byte_count > u64::MAX ==> after.bytes_received == u64::MAX,
        after.last_packet_at_ms == Some(now),
        before.source_ip is Some ==> after.source_ip == before.source_ip,
        before.source_ip is None ==> after.source_ip == source_ip,
        after.started_at_ms == before.started_at_ms,
        after.packets_invalid == before.packets_invalid,
        after.demo == before.demo,
{
}

/// Accepting a block changes the buffer of its channel and no other: a new channel starts empty, at
/// the rate of the block, and the samples of the block come last.
pub proof fn lemma_accepting_fills_one_channel(
    before: RuntimeState,
    after: RuntimeState,
    accepted: Accepted,
    settings: Settings,
    block: WaveBlock,
    source_ip: Option<String>,
    byte_count: usize,
    now: u64,
    name: Seq<char>,
)
    requires
        is_accepted(before, after, accepted, settings, block, source_ip, byte_count, now),
    ensures
        name != block.channel@ ==> (after.channels@.contains_key(name)
            <==> before.channels@.contains_key(name)),
        name != block.channel@ && before.channels@.contains_key(name) ==> after.channels@[name]
            == before.channels@[name],
        after.channels@.contains_key(block.channel@),
        after.channels@[block.channel@].last_start_ms == Some(block.start_ms),
        after.channels@[block.channel@].last_sample_count == block.samples@.len(),
        before.channels@.contains_key(block.channel@) ==> {
            let old_buffer = before.channels@[block.channel@];
            let new_buffer = after.channels@[block.channel@];
            &&& new_buffer.sample_rate_hz == old_buffer.sample_rate_hz
            &&& new_buffer.max_samples == old_buffer.max_samples
            &&& old_buffer.samples@.len() + block.samples@.len() <= old_buffer.max_samples
                ==> new_buffer.samples@ == old_buffer.samples@ + block.samples@
        },
        !before.channels@.contains_key(block.channel@) ==> {
            let buffer = after.channels@[block.channel@];
            &&& buffer.sample_rate_hz == block.sample_rate_hz
            &&& buffer.packets == 1
            &&& buffer.gaps == 0
            &&& block.samples@.len() <= buffer.max_samples ==> buffer.samples@ == block.samples@
        },
{
    if !before.channels@.contains_key(block.channel@) {
        let buffer = after.channels@[block.channel@];
        let empty = choose|empty: ChannelBuffer| #[trigger]
            empty.is_new(block.sample_rate_hz) && buffer.is_appended(
                empty,
                block.start_ms,
                block.samples@,
            );
        assert(empty.samples@ + block.samples@ =~= block.samples@);
    }
}

/// Accepting a block runs the detector over it: the clients are told everything that it brings, and
/// the sound is played exactly if one of these events is an alarm, sound is on, and a file is named.
pub proof fn lemma_accepting_runs_detector(
    before: RuntimeState,
    after: RuntimeState,
    accepted: Accepted,
    settings: Settings,
    block: WaveBlock,
    source_ip: Option<String>,
    byte_count: usize,
    now: u64,
)
    requires
        is_accepted(before, after, accepted, settings, block, source_ip, byte_count, now),
    ensures
        after.alert@ == detected(before.alert@, settings.alert, block).0,
        accepted.events@ == block_events(before.alert@, settings.alert, block),
        accepted.sound is Some ==> accepted.sound->0@ == settings.alert.sound_file@,
        accepted.sound is Some <==> {
            &&& settings.alert.sound_enabled
            &&& settings.alert.sound_file@ != Seq::<char>::empty()
            &&& exists|i: int|
                0 <= i < accepted.events@.len() && (#[trigger] accepted.events@[i]) is Alarm
        },
{
    if settings.alert.sound_file@.len() == 0 {
        assert(settings.alert.sound_file@ =~= Seq::<char>::empty());
    }
}

/// A known channel can take a packet exactly if the time at which the next one is due, and the time
/// that it may be late, can be told in 64 bits; a new channel exactly if its samples can be held.
pub proof fn lemma_packet_in_range(runtime: RuntimeState, packet: Packet, rate: Double)
    ensures
        runtime.channels@.contains_key(packet.channel)
            && runtime.channels@[packet.channel].last_start_ms is None ==> in_range(
            runtime,
            Ok(packet),
            rate,
        ),
        runtime.channels@.contains_key(packet.channel)
            && runtime.channels@[packet.channel].last_start_ms is Some ==> (in_range(
            runtime,
            Ok(packet),
            rate,
        ) <==> runtime.channels@[packet.channel].expected_ms() + 20 <= u64::MAX),
        !runtime.channels@.contains_key(packet.channel) ==> (in_range(runtime, Ok(packet), rate)
            <==> can_reserve(rate)),
{
}

/// An invalid packet is counted unless the count is full.
pub proof fn lemma_invalid_in_range(runtime: RuntimeState, text: Seq<char>, rate: Double)
    ensures
        in_range(runtime, Err(text), rate) <==> runtime.packets_invalid != u64::MAX,
{
}

/// The status tells every counter, the detector and, for each channel, what its buffer holds.
pub proof fn lemma_status_tells_state(status: StatusResponse, runtime: RuntimeState, i: int)
    requires
        is_status(status, runtime),
    ensures
        status.started_at_ms == runtime.started_at_ms,
        status.packets_received == runtime.packets_received,
        status.packets_invalid == runtime.packets_invalid,
        status.bytes_received == runtime.bytes_received,
        status.last_packet_at_ms == runtime.last_packet_at_ms,
        status.source_ip == runtime.source_ip,
        status.demo == runtime.demo,
        status.alert_active == runtime.alert.active,
        status.current_ratio == runtime.alert.current_ratio,
        status.peak_ratio == runtime.alert.peak_ratio,
        status.channels@.len() == runtime.channels.entries@.len(),
        0 <= i < status.channels@.len() ==> {
            let told = status.channels@[i];
            let entry = runtime.channels.entries@[i];
            &&& told.channel@ == entry.channel@
            &&& told.sample_rate_hz == entry.buffer.sample_rate_hz
            &&& told.sample_count == entry.buffer.samples@.len()
            &&& told.packet_count == entry.buffer.packets
            &&& told.gap_count == entry.buffer.gaps
        },
{
    if 0 <= i < status.channels@.len() {
        assert(is_channel_status(status.channels@[i], runtime.channels.entries@[i]));
    }
}

/// The live stream tells the time, the window and the status, and shows of each channel its visible
/// samples and when the oldest retained one was taken.
pub proof fn lemma_snapshot_shows_state(
    shown: LiveSnapshot,
    runtime: RuntimeState,
    settings: Settings,
    now: u64,
    i: int,
)
    requires
        is_snapshot(shown, runtime, settings, now),
    ensures
        shown.kind@ == seq!['s', 'n', 'a', 'p', 's', 'h', 'o', 't'],
        shown.server_time_ms == now,
        shown.display_window_seconds == settings.display.window_seconds,
        is_status(shown.status, runtime),
        shown.channels@.len() == runtime.channels.entries@.len(),
        0 <= i < shown.channels@.len() ==> {
            let told = shown.channels@[i];
            let entry = runtime.channels.entries@[i];
            &&& told.channel@ == entry.channel@
            &&& told.sample_rate_hz == entry.buffer.sample_rate_hz
            &&& told.start_time_ms == retained_start(entry.buffer)
            &&& told.samples@ == reduced(visible(entry.buffer, settings.display))
            &&& told.packet_count == entry.buffer.packets
            &&& told.gap_count == entry.buffer.gaps
        },
{
    reveal_strlit("snapshot");
    assert("snapshot"@ =~= seq!['s', 'n', 'a', 'p', 's', 'h', 'o', 't']);
    if 0 <= i < shown.channels@.len() {
        assert(is_channel_snapshot(
            shown.channels@[i],
            runtime.channels.entries@[i],
            settings.display,
        ));
    }
}

/// What the table holds under a name is the buffer of the one entry with that name, and it holds
/// nothing else.
pub proof fn lemma_table_holds_entries(table: ChannelTable, name: Seq<char>)
    requires
        table.well_formed(),
    ensures
        table@.contains_key(name) <==> exists|i: int|
            0 <= i < table.entries@.len() && #[trigger] table.entries@[i].channel@ == name,
        forall|i: int|
            0 <= i < table.entries@.len() && #[trigger] table.entries@[i].channel@ == name
                ==> table@[name] == table.entries@[i].buffer,
        forall|i: int|
            0 <= i < table.entries@.len() ==> (#[trigger] table.entries@[i]).buffer.samples@.len()
                <= table.entries@[i].buffer.max_samples,
{
    if table@.contains_key(name) {
        let i = choose|i: int| table.holds_at(i, name);
        assert(table.entries@[i].channel@ == name);
    }
    assert forall|i: int|
        0 <= i < table.entries@.len() && #[trigger] table.entries@[i].channel@
            == name implies table@.contains_key(name) && table@[name] == table.entries@[i].buffer by {
        lemma_entry_is_held(table, i);
    }
}

/// Of two names that agree up to some place the one with the smaller character there comes first,
/// and a name comes before every longer one that it begins.
pub proof fn lemma_first_difference_decides(a: Seq<char>, b: Seq<char>, i: int)
    requires
        0 <= i <= a.len(),
        i < b.len(),
        forall|j: int| 0 <= j < i ==> a[j] == b[j],
        i < a.len() ==> a[i] != b[i],
    ensures
        comes_before(a, b) <==> i == a.len() || (a[i] as u32) < (b[i] as u32),
    decreases i,
{
    if i > 0 {
        assert(a[0] == b[0]);
        assert forall|j: int| 0 <= j < i - 1 implies a.drop_first()[j] == b.drop_first()[j] by {
            assert(a[j + 1] == b[j + 1]);
        }
        lemma_first_difference_decides(a.drop_first(), b.drop_first(), i - 1);
    }
}

/// A session sends every text that it is given, answers every ping with its own bytes, stops when
/// the client or the events are gone or a snapshot cannot be encoded, and otherwise goes on.
pub proof fn lemma_session_reacts(text: String, count: u64, bytes: Vec<u8>)
    ensures
        reaction(SessionInput::Tick(Some(text))) == SessionAction::Send(text),
        reaction(SessionInput::Event(Some(text))) == SessionAction::Send(text),
        reaction(SessionInput::Ping(bytes)) == SessionAction::Pong(bytes),
        reaction(SessionInput::Tick(None)) is Stop,
        reaction(SessionInput::EventsClosed) is Stop,
        reaction(SessionInput::Close) is Stop,
        reaction(SessionInput::Gone) is Stop,
        reaction(SessionInput::Event(None)) is Wait,
        reaction(SessionInput::Missed(count)) is Wait,
        reaction(SessionInput::Other) is Wait,
{
}

/// A clock that shows `ms` has run that many whole milliseconds since the epoch and not one more,
/// as far as 64 bits tell them; before the epoch it shows zero.
pub proof fn lemma_clock_shows_whole_milliseconds(nanos: int, ms: int)
    requires
        0 <= ms <= u64::MAX,
        ms * 1_000_000 <= nanos < (ms + 1) * 1_000_000,
    ensures
        reading_at(nanos) == ms,
        reading_at(nanos + 0x1_0000_0000_0000_0000 * 1_000_000) == ms,
        nanos > 0 ==> reading_at(-nanos) == 0,
{
}

/// A time that a clock shows is that of some point in time: zero before the epoch, and the whole
/// milliseconds since then, as far as 64 bits tell them.
pub proof fn lemma_shown_time_is_of_a_point(ms: u64)
    requires
        is_shown(ms),
    ensures
        exists|time: SystemTime|
            {
                let nanos = #[trigger] unix_nanos(time);
                ||| nanos < 0 && ms == 0
                ||| nanos >= 0 && ms == nanos / 1_000_000 % 0x1_0000_0000_0000_0000
            },
{
    let time = choose|time: SystemTime| ms == reading_at(#[trigger] unix_nanos(time));
    assert(unix_nanos(time) < 0 || unix_nanos(time) >= 0);
}

} // verus!
