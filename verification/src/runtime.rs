//! The state of the running service: counters, buffers and the alert detector.

use crate::alert::{
    any_alarm, block_events, detected, fresh, has_alarm, resumed, tuning, AlertRuntime, ServerEvent,
};
use crate::alert_laws::{lemma_alarm_told_iff_alert_starts, starts_at};
use crate::buffer::{capped_sum, retained_start, retained_start_time_ms, ChannelBuffer};
use crate::channels::{can_take, comes_before, is_taken, ChannelEntry, ChannelTable};
use crate::clock::{is_shown, now_ms};
use crate::display::{display_samples, reduced, visible, MAX_DISPLAY_POINTS};
use crate::double::Double;
use crate::packet::{is_parsed, packet_of_bytes, parse_datagram, Packet, WaveBlock};
use crate::settings::{DisplaySettings, Settings};
use vstd::prelude::*;

verus! {

/// The state of the running service.
#[derive(Debug)]
pub struct RuntimeState {
    pub started_at_ms: u64,
    pub packets_received: u64,
    pub packets_invalid: u64,
    pub bytes_received: u64,
    pub last_packet_at_ms: Option<u64>,
    pub source_ip: Option<String>,
    pub demo: bool,
    pub channels: ChannelTable,
    pub alert: AlertRuntime,
}

impl RuntimeState {
    /// The channel table is in order.
    pub open spec fn well_formed(self) -> bool {
        self.channels.well_formed()
    }

    /// A service that has received nothing.
    pub fn new(started_at_ms: u64, demo: bool) -> (r: RuntimeState)
        ensures
            r.well_formed(),
            r.started_at_ms == started_at_ms,
            r.packets_received == 0,
            r.packets_invalid == 0,
            r.bytes_received == 0,
            r.last_packet_at_ms is None,
            r.source_ip is None,
            r.demo == demo,
            r.channels@ == Map::<Seq<char>, ChannelBuffer>::empty(),
            r.alert@ == fresh(None),
    {
        RuntimeState {
            started_at_ms,
            packets_received: 0,
            packets_invalid: 0,
            bytes_received: 0,
            last_packet_at_ms: None,
            source_ip: None,
            demo,
            channels: ChannelTable::new(),
            alert: AlertRuntime::new(None),
        }
    }

    /// Whether a block can be taken in.
    pub fn has_room_for(&self, block: &WaveBlock) -> (r: bool)
        requires
            self.well_formed(),
        ensures
            r == can_take(self.channels@, block.channel@, block.sample_rate_hz),
    {
        self.channels.has_room_for(block)
    }
}

impl Default for RuntimeState {
    fn default() -> (r: RuntimeState)
        ensures
            r.well_formed(),
            r.started_at_ms == 0,
            r.packets_received == 0,
            r.packets_invalid == 0,
            r.bytes_received == 0,
            r.last_packet_at_ms is None,
            r.source_ip is None,
            !r.demo,
            r.channels@ == Map::<Seq<char>, ChannelBuffer>::empty(),
            r.alert@ == fresh(None),
    {
        RuntimeState::new(0, false)
    }
}

/// Runs the alert detector over a block; the last event that it brings is returned.
pub fn detect_alert(runtime: &mut RuntimeState, settings: &Settings, block: &WaveBlock) -> (r:
    Option<ServerEvent>)
    ensures
        (final(runtime).alert@, r) == detected(old(runtime).alert@, settings.alert, *block),
        *final(runtime) == (RuntimeState { alert: final(runtime).alert, ..*old(runtime) }),
{
    runtime.alert.observe(&settings.alert, block)
}

/// What an accepted block calls for.
#[derive(Debug)]
pub struct Accepted {
    /// The events that the clients are told, in order.
    pub events: Vec<ServerEvent>,
    /// The sound file to play.
    pub sound: Option<String>,
}

/// The sound file that some events call for: none unless an alert starts, sound is on, and a file
/// is named.
pub open spec fn sound_for(events: Seq<ServerEvent>, settings: Settings) -> Option<String> {
    if any_alarm(events) && settings.alert.sound_enabled && settings.alert.sound_file@.len() > 0 {
        Some(settings.alert.sound_file)
    } else {
        None
    }
}

/// Whether `after` is what `before` becomes when a block is accepted at `now`, and `accepted`
/// what that calls for.
pub open spec fn is_accepted(
    before: RuntimeState,
    after: RuntimeState,
    accepted: Accepted,
    settings: Settings,
    block: WaveBlock,
    source_ip: Option<String>,
    byte_count: usize,
    now: u64,
) -> bool {
    &&& after.started_at_ms == before.started_at_ms
    &&& after.packets_received == capped_sum(before.packets_received, 1)
    &&& after.packets_invalid == before.packets_invalid
    &&& after.bytes_received == capped_sum(before.bytes_received, byte_count as u64)
    &&& after.last_packet_at_ms == Some(now)
    &&& after.source_ip == if before.source_ip is None {
        source_ip
    } else {
        before.source_ip
    }
    &&& after.demo == before.demo
    &&& after.channels@.contains_key(block.channel@)
    &&& after.channels@ == before.channels@.insert(
        block.channel@,
        after.channels@[block.channel@],
    )
    &&& is_taken(before.channels@, block, after.channels@[block.channel@])
    &&& after.alert@ == detected(before.alert@, settings.alert, block).0
    &&& accepted.events@ == block_events(before.alert@, settings.alert, block)
    &&& accepted.sound == sound_for(accepted.events@, settings)
}

/// Accepts a block at the time `now`.
pub fn accept_block_at(
    runtime: &mut RuntimeState,
    settings: &Settings,
    block: &WaveBlock,
    source_ip: Option<String>,
    byte_count: usize,
    now: u64,
) -> (r: Accepted)
    requires
        old(runtime).well_formed(),
        can_take(old(runtime).channels@, block.channel@, block.sample_rate_hz),
    ensures
        final(runtime).well_formed(),
        is_accepted(
            *old(runtime),
            *final(runtime),
            r,
            *settings,
            *block,
            source_ip,
            byte_count,
            now,
        ),
{
    runtime.packets_received = runtime.packets_received.saturating_add(1);
    runtime.bytes_received = runtime.bytes_received.saturating_add(byte_count as u64);
    runtime.last_packet_at_ms = Some(now);
    if runtime.source_ip.is_none() {
        runtime.source_ip = source_ip;
    }
    runtime.channels.take(block);
    let events: Vec<ServerEvent> = runtime.alert.observe_all(&settings.alert, block);
    let sound: Option<String> = if has_alarm(&events) && settings.alert.sound_enabled
        && !settings.alert.sound_file.as_str().is_empty() {
        Some(settings.alert.sound_file.clone())
    } else {
        None
    };
    Accepted { events, sound }
}

/// Accepts a block now.
pub fn accept_block(
    runtime: &mut RuntimeState,
    settings: &Settings,
    block: &WaveBlock,
    source_ip: Option<String>,
    byte_count: usize,
) -> (r: Accepted)
    requires
        old(runtime).well_formed(),
        can_take(old(runtime).channels@, block.channel@, block.sample_rate_hz),
    ensures
        final(runtime).well_formed(),
        final(runtime).last_packet_at_ms is Some,
        is_shown(final(runtime).last_packet_at_ms->0),
        is_accepted(
            *old(runtime),
            *final(runtime),
            r,
            *settings,
            *block,
            source_ip,
            byte_count,
            final(runtime).last_packet_at_ms->0,
        ),
{
    let now: u64 = now_ms();
    accept_block_at(runtime, settings, block, source_ip, byte_count, now)
}

/// What became of a datagram.
#[derive(Debug)]
pub enum Received {
    /// It was taken in.
    Accepted(Accepted),
    /// It is no valid packet.
    Rejected(String),
    /// It cannot be accounted for: the time of its channel runs over 64 bits, no room can be set
    /// aside for its channel, or the count of invalid packets is full. Nothing was changed.
    OutOfRange,
}

/// Whether a packet can be accounted for.
pub open spec fn in_range(runtime: RuntimeState, owed: Result<Packet, Seq<char>>, rate: Double) -> bool {
    match owed {
        Ok(packet) => can_take(runtime.channels@, packet.channel, rate),
        Err(_) => runtime.packets_invalid < u64::MAX,
    }
}

/// Takes in a datagram from `source_ip`.
pub fn receive(runtime: &mut RuntimeState, settings: &Settings, bytes: &[u8], source_ip: String) -> (r:
    Received)
    requires
        old(runtime).well_formed(),
    ensures
        final(runtime).well_formed(),
        r is OutOfRange <==> !in_range(
            *old(runtime),
            packet_of_bytes(bytes@),
            settings.station.sample_rate_hz,
        ),
        match r {
            Received::Accepted(accepted) => {
                &&& packet_of_bytes(bytes@) is Ok
                &&& final(runtime).last_packet_at_ms is Some
                &&& is_shown(final(runtime).last_packet_at_ms->0)
                &&& exists|block: WaveBlock|
                    {
                        &&& #[trigger] is_parsed(
                            Ok(block),
                            packet_of_bytes(bytes@),
                            settings.station.sample_rate_hz,
                        )
                        &&& is_accepted(
                            *old(runtime),
                            *final(runtime),
                            accepted,
                            *settings,
                            block,
                            Some(source_ip),
                            bytes@.len() as usize,
                            final(runtime).last_packet_at_ms->0,
                        )
                    }
            },
            Received::Rejected(message) => {
                &&& packet_of_bytes(bytes@) == Err::<Packet, Seq<char>>(message@)
                &&& *final(runtime) == (RuntimeState {
                    packets_invalid: (old(runtime).packets_invalid + 1) as u64,
                    ..*old(runtime)
                })
            },
            Received::OutOfRange => *final(runtime) == *old(runtime),
        },
{
    match parse_datagram(bytes, settings.station.sample_rate_hz) {
        Err(message) => {
            if runtime.packets_invalid == u64::MAX {
                return Received::OutOfRange;
            }
            runtime.packets_invalid = runtime.packets_invalid + 1;
            Received::Rejected(message)
        },
        Ok(block) => {
            if !runtime.has_room_for(&block) {
                return Received::OutOfRange;
            }
            let count: usize = bytes.len();
            let accepted: Accepted = accept_block(
                runtime,
                settings,
                &block,
                Some(source_ip),
                count,
            );
            Received::Accepted(accepted)
        },
    }
}

/// What is told of one channel.
#[derive(Debug)]
pub struct ChannelStatus {
    pub channel: String,
    pub sample_rate_hz: Double,
    pub sample_count: usize,
    pub packet_count: u64,
    pub gap_count: u64,
}

/// What is told of the service.
#[derive(Debug)]
pub struct StatusResponse {
    pub started_at_ms: u64,
    pub packets_received: u64,
    pub packets_invalid: u64,
    pub bytes_received: u64,
    pub last_packet_at_ms: Option<u64>,
    pub source_ip: Option<String>,
    pub demo: bool,
    pub alert_active: bool,
    pub current_ratio: Double,
    pub peak_ratio: Double,
    pub channels: Vec<ChannelStatus>,
}

/// What is shown of one channel.
#[derive(Debug)]
pub struct ChannelSnapshot {
    pub channel: String,
    pub sample_rate_hz: Double,
    pub start_time_ms: Option<u64>,
    pub samples: Vec<i32>,
    pub packet_count: u64,
    pub gap_count: u64,
}

/// What the live stream sends.
#[derive(Debug)]
pub struct LiveSnapshot {
    pub kind: &'static str,
    pub server_time_ms: u64,
    pub display_window_seconds: u32,
    pub status: StatusResponse,
    pub channels: Vec<ChannelSnapshot>,
}

/// Whether `status` is what is told of a channel.
pub open spec fn is_channel_status(status: ChannelStatus, entry: ChannelEntry) -> bool {
    &&& status.channel == entry.channel
    &&& status.sample_rate_hz == entry.buffer.sample_rate_hz
    &&& status.sample_count == entry.buffer.samples@.len()
    &&& status.packet_count == entry.buffer.packets
    &&& status.gap_count == entry.buffer.gaps
}

/// Whether `status` is what is told of the service.
pub open spec fn is_status(status: StatusResponse, runtime: RuntimeState) -> bool {
    &&& status.started_at_ms == runtime.started_at_ms
    &&& status.packets_received == runtime.packets_received
    &&& status.packets_invalid == runtime.packets_invalid
    &&& status.bytes_received == runtime.bytes_received
    &&& status.last_packet_at_ms == runtime.last_packet_at_ms
    &&& status.source_ip == runtime.source_ip
    &&& status.demo == runtime.demo
    &&& status.alert_active == runtime.alert.active
    &&& status.current_ratio == runtime.alert.current_ratio
    &&& status.peak_ratio == runtime.alert.peak_ratio
    &&& status.channels@.len() == runtime.channels.entries@.len()
    &&& forall|i: int|
        0 <= i < status.channels@.len() ==> is_channel_status(
            #[trigger] status.channels@[i],
            runtime.channels.entries@[i],
        )
}

/// Whether `shown` is what is shown of a channel.
pub open spec fn is_channel_snapshot(
    shown: ChannelSnapshot,
    entry: ChannelEntry,
    display: DisplaySettings,
) -> bool {
    &&& shown.channel == entry.channel
    &&& shown.sample_rate_hz == entry.buffer.sample_rate_hz
    &&& shown.start_time_ms == retained_start(entry.buffer)
    &&& shown.samples@ == reduced(visible(entry.buffer, display))
    &&& shown.packet_count == entry.buffer.packets
    &&& shown.gap_count == entry.buffer.gaps
}

/// Whether `shown` is what the live stream sends at `now`.
pub open spec fn is_snapshot(
    shown: LiveSnapshot,
    runtime: RuntimeState,
    settings: Settings,
    now: u64,
) -> bool {
    &&& shown.kind@ == "snapshot"@
    &&& shown.server_time_ms == now
    &&& shown.display_window_seconds == settings.display.window_seconds
    &&& is_status(shown.status, runtime)
    &&& shown.channels@.len() == runtime.channels.entries@.len()
    &&& forall|i: int|
        0 <= i < shown.channels@.len() ==> is_channel_snapshot(
            #[trigger] shown.channels@[i],
            runtime.channels.entries@[i],
            settings.display,
        )
}

/// What is told of the service, its channels in the order of their names.
pub fn current_status(runtime: &RuntimeState) -> (r: StatusResponse)
    ensures
        is_status(r, *runtime),
{
    let mut channels: Vec<ChannelStatus> = Vec::new();
    let mut i: usize = 0;
    while i < runtime.channels.entries.len()
        invariant
            i <= runtime.channels.entries@.len(),
            channels@.len() == i,
            forall|j: int|
                0 <= j < i ==> is_channel_status(
                    #[trigger] channels@[j],
                    runtime.channels.entries@[j],
                ),
        decreases runtime.channels.entries@.len() - i,
    {
        let entry: &ChannelEntry = &runtime.channels.entries[i];
        channels.push(
            ChannelStatus {
                channel: entry.channel.clone(),
                sample_rate_hz: entry.buffer.sample_rate_hz,
                sample_count: entry.buffer.samples.len(),
                packet_count: entry.buffer.packets,
                gap_count: entry.buffer.gaps,
            },
        );
        i = i + 1;
    }
    let source_ip: Option<String> = match &runtime.source_ip {
        None => None,
        Some(text) => Some(text.clone()),
    };
    StatusResponse {
        started_at_ms: runtime.started_at_ms,
        packets_received: runtime.packets_received,
        packets_invalid: runtime.packets_invalid,
        bytes_received: runtime.bytes_received,
        last_packet_at_ms: runtime.last_packet_at_ms,
        source_ip,
        demo: runtime.demo,
        alert_active: runtime.alert.active,
        current_ratio: runtime.alert.current_ratio,
        peak_ratio: runtime.alert.peak_ratio,
        channels,
    }
}

/// What the live stream sends at the time `now`.
pub fn snapshot_at(runtime: &RuntimeState, settings: &Settings, now: u64) -> (r: LiveSnapshot)
    ensures
        is_snapshot(r, *runtime, *settings, now),
{
    let mut channels: Vec<ChannelSnapshot> = Vec::new();
    let mut i: usize = 0;
    while i < runtime.channels.entries.len()
        invariant
            i <= runtime.channels.entries@.len(),
            channels@.len() == i,
            forall|j: int|
                0 <= j < i ==> is_channel_snapshot(
                    #[trigger] channels@[j],
                    runtime.channels.entries@[j],
                    settings.display,
                ),
        decreases runtime.channels.entries@.len() - i,
    {
        let entry: &ChannelEntry = &runtime.channels.entries[i];
        channels.push(
            ChannelSnapshot {
                channel: entry.channel.clone(),
                sample_rate_hz: entry.buffer.sample_rate_hz,
                start_time_ms: retained_start_time_ms(&entry.buffer),
                samples: display_samples(&entry.buffer, &settings.display),
                packet_count: entry.buffer.packets,
                gap_count: entry.buffer.gaps,
            },
        );
        i = i + 1;
    }
    LiveSnapshot {
        kind: "snapshot",
        server_time_ms: now,
        display_window_seconds: settings.display.window_seconds,
        status: current_status(runtime),
        channels,
    }
}

/// What the live stream sends now.
pub fn snapshot(runtime: &RuntimeState, settings: &Settings) -> (r: LiveSnapshot)
    ensures
        is_snapshot(r, *runtime, *settings, r.server_time_ms),
        is_shown(r.server_time_ms),
{
    let now: u64 = now_ms();
    snapshot_at(runtime, settings, now)
}

/// The status tells of every channel that has sent a packet, once each, with ascending names.
pub proof fn lemma_status_tells_every_channel(status: StatusResponse, runtime: RuntimeState)
    requires
        runtime.well_formed(),
        is_status(status, runtime),
    ensures
        forall|name: Seq<char>| #[trigger]
            runtime.channels@.contains_key(name) <==> exists|i: int|
                0 <= i < status.channels@.len() && #[trigger] status.channels@[i].channel@ == name,
        forall|i: int, j: int|
            0 <= i < j < status.channels@.len() ==> comes_before(
                #[trigger] status.channels@[i].channel@,
                #[trigger] status.channels@[j].channel@,
            ),
{
    assert forall|name: Seq<char>| #[trigger]
        runtime.channels@.contains_key(name) implies exists|i: int|
        0 <= i < status.channels@.len() && #[trigger] status.channels@[i].channel@ == name by {
        let i = choose|i: int| runtime.channels.holds_at(i, name);
        assert(is_channel_status(status.channels@[i], runtime.channels.entries@[i]));
        assert(status.channels@[i].channel@ == name);
    }
    assert forall|name: Seq<char>|
        (exists|i: int|
            0 <= i < status.channels@.len() && #[trigger] status.channels@[i].channel@
                == name) implies #[trigger] runtime.channels@.contains_key(name) by {
        let i = choose|i: int|
            0 <= i < status.channels@.len() && #[trigger] status.channels@[i].channel@ == name;
        assert(is_channel_status(status.channels@[i], runtime.channels.entries@[i]));
        assert(runtime.channels.holds_at(i, name));
    }
    assert forall|i: int, j: int| 0 <= i < j < status.channels@.len() implies comes_before(
        #[trigger] status.channels@[i].channel@,
        #[trigger] status.channels@[j].channel@,
    ) by {
        assert(is_channel_status(status.channels@[i], runtime.channels.entries@[i]));
        assert(is_channel_status(status.channels@[j], runtime.channels.entries@[j]));
        assert(comes_before(
            runtime.channels.entries@[i].channel@,
            runtime.channels.entries@[j].channel@,
        ));
    }
}

/// The live stream sends a bounded array for each channel, whatever the channel holds.
pub proof fn lemma_snapshot_bounded(
    shown: LiveSnapshot,
    runtime: RuntimeState,
    settings: Settings,
    now: u64,
    i: int,
)
    requires
        is_snapshot(shown, runtime, settings, now),
        0 <= i < shown.channels@.len(),
    ensures
        shown.channels@[i].samples@.len() <= MAX_DISPLAY_POINTS,
        shown.channels@[i].samples@.len() <= runtime.channels.entries@[i].buffer.samples@.len(),
{
    assert(is_channel_snapshot(
        shown.channels@[i],
        runtime.channels.entries@[i],
        settings.display,
    ));
}

/// Accepting a block plays the sound exactly where some sample of the block starts an alert, sound
/// is on, and the file has a name; that the block also ends the alert makes no difference.
pub proof fn lemma_sound_iff_alert_starts(
    before: RuntimeState,
    after: RuntimeState,
    accepted: Accepted,
    settings: Settings,
    block: WaveBlock,
    source_ip: Option<String>,
    byte_count: usize,
    now: u64,
)
    requires
        is_accepted(before, after, accepted, settings, block, source_ip, byte_count, now),
        settings.alert.enabled,
        block.channel@ == settings.alert.channel@,
    ensures
        accepted.sound is Some <==> {
            &&& settings.alert.sound_enabled
            &&& settings.alert.sound_file@.len() > 0
            &&& exists|i: int|
                0 <= i < block.samples@.len() && #[trigger] starts_at(
                    resumed(before.alert@, settings.alert),
                    tuning(settings.alert, block),
                    block.samples@,
                    i,
                )
        },
        accepted.sound is Some ==> accepted.sound == Some(settings.alert.sound_file),
{
    lemma_alarm_told_iff_alert_starts(
        resumed(before.alert@, settings.alert),
        tuning(settings.alert, block),
        block.samples@,
    );
}

} // verus!
