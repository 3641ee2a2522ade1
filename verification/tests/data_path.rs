use lpudp::alert::{count_samples, has_alarm, window_push, AlertRuntime, ServerEvent};
use lpudp::buffer::{retained_start_time_ms, ChannelBuffer};
use lpudp::channels::{is_before, ChannelTable};
use lpudp::clock::{now_ms, reading};
use lpudp::demo::{
    demo_block, demo_channels, next_sequence, pulse_on, receive_demo, sample_number,
};
use lpudp::display::{display_samples, reduce};
use lpudp::double::Double;
use lpudp::packet::WaveBlock;
use lpudp::runtime::{
    accept_block, accept_block_at, current_status, receive, snapshot, snapshot_at, Received,
    RuntimeState,
};
use lpudp::session::{react, refresh_period_ms, SessionAction, SessionInput};
use lpudp::settings::{AlertSettings, DisplaySettings, Settings};
use std::collections::VecDeque;

fn double(value: f64) -> Double {
    Double::from_bits(value.to_bits())
}

fn number(value: Double) -> f64 {
    f64::from_bits(value.bits)
}

fn block(channel: &str, start_ms: u64, rate: f64, samples: Vec<i32>) -> WaveBlock {
    WaveBlock {
        channel: channel.into(),
        start_ms,
        sample_rate_hz: double(rate),
        samples,
    }
}

#[test]
fn buffer_spans_ten_minutes() {
    assert_eq!(ChannelBuffer::new(double(100.0)).max_samples, 60_000);
    assert_eq!(ChannelBuffer::new(double(1.0)).max_samples, 1000);
    assert_eq!(ChannelBuffer::new(double(-5.0)).max_samples, 1000);
    assert_eq!(ChannelBuffer::new(double(f64::NAN)).max_samples, 1000);
    assert_eq!(ChannelBuffer::new(double(1.6675)).max_samples, 1000);
    assert_eq!(ChannelBuffer::new(double(1.67)).max_samples, 1002);
    assert!(ChannelBuffer::fits(double(1000.0)));
    assert!(!ChannelBuffer::fits(double(1.0e300)));
}

#[test]
fn buffer_keeps_the_newest_samples() {
    let mut buffer = ChannelBuffer::new(double(1.0));
    for start in 0..5u64 {
        let samples = (0..300).map(|i| (start as i32) * 300 + i).collect::<Vec<_>>();
        buffer.append(start * 300_000, &samples);
    }
    assert_eq!(buffer.samples.len(), 1000);
    assert_eq!(buffer.samples.front(), Some(&500));
    assert_eq!(buffer.samples.back(), Some(&1499));
    assert_eq!(buffer.packets, 5);
    assert_eq!(buffer.gaps, 0);
    assert_eq!(buffer.last_start_ms, Some(1_200_000));
    assert_eq!(buffer.last_sample_count, 300);
}

#[test]
fn gap_needs_more_than_twenty_milliseconds() {
    let mut buffer = ChannelBuffer::new(double(100.0));
    buffer.append(1000, &[1; 25]);
    buffer.append(1270, &[1; 25]);
    assert_eq!(buffer.gaps, 0);
    buffer.append(1541, &[1; 25]);
    assert_eq!(buffer.gaps, 1);
    buffer.append(0, &[]);
    assert_eq!(buffer.gaps, 1);
    buffer.append(31, &[1]);
    assert_eq!(buffer.gaps, 2);
}

#[test]
fn time_that_runs_over_is_seen_beforehand() {
    let mut buffer = ChannelBuffer::new(double(100.0));
    assert!(buffer.has_room_in_time());
    buffer.append(u64::MAX - 270, &[1; 25]);
    assert!(buffer.has_room_in_time());
    buffer.append(u64::MAX - 269, &[1; 25]);
    assert!(!buffer.has_room_in_time());
}

#[test]
fn oldest_sample_is_dated_from_the_last_packet() {
    let mut buffer = ChannelBuffer::new(double(100.0));
    assert_eq!(retained_start_time_ms(&buffer), None);
    buffer.append(5000, &[1; 25]);
    assert_eq!(retained_start_time_ms(&buffer), Some(5000));
    buffer.append(5250, &[1; 25]);
    assert_eq!(retained_start_time_ms(&buffer), Some(5000));
    buffer.append(100, &[1; 25]);
    assert_eq!(retained_start_time_ms(&buffer), Some(0));
}

#[test]
fn short_window_is_shown_as_it_is() {
    let mut buffer = ChannelBuffer::new(double(10.0));
    buffer.append(0, &(0..500).collect::<Vec<_>>());
    let mut display = DisplaySettings::default();
    display.window_seconds = 2;
    assert_eq!(
        display_samples(&buffer, &display),
        (480..500).collect::<Vec<_>>()
    );
    display.window_seconds = 0;
    assert_eq!(display_samples(&buffer, &display), vec![499]);
    display.window_seconds = 1000;
    assert_eq!(display_samples(&buffer, &display).len(), 500);
}

#[test]
fn bucket_extremes_come_in_time_order() {
    let mut values = vec![0; 3200];
    values[0] = 5;
    values[3] = -5;
    values[4] = -7;
    values[6] = 7;
    let points = reduce(values);
    assert_eq!(points.len(), 1600);
    assert_eq!(&points[..4], &[5, -5, -7, 7]);
    assert_eq!(&points[4..8], &[0, 0, 0, 0]);
    assert_eq!(reduce((0..1600).collect()).len(), 1600);
    assert_eq!(reduce((0..1600).collect()), (0..1600).collect::<Vec<_>>());
}

#[test]
fn reduction_keeps_extremes_of_any_window() {
    let mut state: u32 = 12345;
    let values = (0..5003)
        .map(|_| {
            state = state.wrapping_mul(1_664_525).wrapping_add(1_013_904_223);
            state as i32
        })
        .collect::<Vec<_>>();
    let points = reduce(values.clone());
    assert_eq!(points.len(), 1600);
    assert_eq!(points.iter().min(), values.iter().min());
    assert_eq!(points.iter().max(), values.iter().max());
    assert!(points.iter().all(|point| values.contains(point)));
}

#[test]
fn window_keeps_its_sum() {
    let mut values = VecDeque::new();
    let mut sum = double(0.0);
    for value in [1.0, 2.0, 3.0, 4.0] {
        window_push(&mut values, &mut sum, 3, double(value));
    }
    assert_eq!(values.iter().map(|v| number(*v)).collect::<Vec<_>>(), vec![2.0, 3.0, 4.0]);
    assert_eq!(number(sum), 9.0);
    window_push(&mut values, &mut sum, 0, double(7.0));
    assert_eq!(values.len(), 1);
    assert_eq!(number(sum), 7.0);
}

#[test]
fn times_become_sample_counts() {
    assert_eq!(count_samples(double(6.0), double(100.0)), 600);
    assert_eq!(count_samples(double(0.125), double(100.0)), 13);
    assert_eq!(count_samples(double(-1.0), double(100.0)), 0);
    assert_eq!(count_samples(double(f64::INFINITY), double(1.0)), usize::MAX);
}

fn quick_alert() -> AlertSettings {
    AlertSettings {
        sta_seconds: double(1.0),
        lta_seconds: double(2.0),
        threshold: double(1.5),
        reset: double(1.1),
        ..AlertSettings::default()
    }
}

/// The detector in plain floating point.
struct Plain {
    sta: VecDeque<f64>,
    lta: VecDeque<f64>,
    sta_sum: f64,
    lta_sum: f64,
    ratio: f64,
    peak: f64,
}

impl Plain {
    fn push(&mut self, sample: i32, sta_capacity: usize, lta_capacity: usize) {
        let value = (sample as f64).abs();
        self.sta.push_back(value);
        self.sta_sum += value;
        while self.sta.len() > sta_capacity {
            self.sta_sum -= self.sta.pop_front().unwrap();
        }
        self.lta.push_back(value);
        self.lta_sum += value;
        while self.lta.len() > lta_capacity {
            self.lta_sum -= self.lta.pop_front().unwrap();
        }
        if self.lta.len() == lta_capacity {
            let sta = self.sta_sum / self.sta.len() as f64;
            let lta = self.lta_sum / self.lta.len() as f64;
            self.ratio = if lta > f64::EPSILON { sta / lta } else { 0.0 };
            self.peak = self.peak.max(self.ratio);
        }
    }
}

#[test]
fn detector_follows_plain_arithmetic() {
    let mut config = quick_alert();
    config.threshold = double(1.0e9);
    config.sta_seconds = double(0.7);
    let mut detector = AlertRuntime::new(None);
    let mut plain = Plain {
        sta: VecDeque::new(),
        lta: VecDeque::new(),
        sta_sum: 0.0,
        lta_sum: 0.0,
        ratio: 0.0,
        peak: 0.0,
    };
    let mut state: u32 = 7;
    for round in 0..60 {
        let samples = (0..10)
            .map(|_| {
                state = state.wrapping_mul(1_664_525).wrapping_add(1_013_904_223);
                (state as i32) >> (round % 20)
            })
            .collect::<Vec<_>>();
        for sample in &samples {
            plain.push(*sample, 7, 20);
        }
        assert!(detector
            .observe(&config, &block("EHZ", round, 10.0, samples))
            .is_none());
        assert_eq!(detector.sta_sum.bits, plain.sta_sum.to_bits());
        assert_eq!(detector.lta_sum.bits, plain.lta_sum.to_bits());
        assert_eq!(detector.current_ratio.bits, plain.ratio.to_bits());
        assert_eq!(detector.peak_ratio.bits, plain.peak.to_bits());
    }
}

#[test]
fn alarm_and_reset_follow_the_ratio() {
    let config = quick_alert();
    let mut detector = AlertRuntime::new(None);
    assert!(detector
        .observe(&config, &block("EHZ", 0, 10.0, vec![1; 20]))
        .is_none());
    assert_eq!(number(detector.current_ratio), 1.0);
    assert!(detector
        .observe(&config, &block("EHZ", 2000, 10.0, vec![-10]))
        .is_none());
    assert_eq!(number(detector.current_ratio), (19.0 / 10.0) / (29.0 / 20.0));
    match detector.observe(&config, &block("EHZ", 2100, 10.0, vec![-10; 9])) {
        Some(ServerEvent::Alarm {
            event_time_ms,
            channel,
            ratio,
        }) => {
            assert_eq!(event_time_ms, 2100);
            assert_eq!(channel, "EHZ");
            assert_eq!(number(ratio), (37.0 / 10.0) / (47.0 / 20.0));
        }
        other => panic!("{other:?}"),
    }
    assert!(detector.active);
    assert_eq!(detector.last_event_ms, Some(2100));
    let peak = number(detector.peak_ratio);
    match detector.observe(&config, &block("EHZ", 3000, 10.0, vec![1; 12])) {
        Some(ServerEvent::Reset {
            event_time_ms,
            channel,
            peak_ratio,
        }) => {
            assert_eq!(event_time_ms, 3000);
            assert_eq!(channel, "EHZ");
            assert_eq!(number(peak_ratio), peak);
        }
        other => panic!("{other:?}"),
    }
    assert!(!detector.active);
    assert_eq!(detector.last_event_ms, Some(2100));
}

#[test]
fn detector_is_silent_while_warming_up() {
    let config = quick_alert();
    let mut detector = AlertRuntime::new(None);
    let mut samples = vec![0; 9];
    samples.extend(vec![1000; 10]);
    assert!(detector
        .observe(&config, &block("EHZ", 0, 10.0, samples))
        .is_none());
    assert_eq!(number(detector.current_ratio), 0.0);
    assert!(!detector.active);
    assert!(detector
        .observe(&config, &block("EHZ", 0, 10.0, vec![1000]))
        .is_some());
}

#[test]
fn detector_ignores_other_blocks() {
    let mut config = quick_alert();
    let mut detector = AlertRuntime::new(None);
    assert!(detector
        .observe(&config, &block("EHN", 0, 10.0, vec![1; 20]))
        .is_none());
    assert!(detector.config_key.is_none());
    config.enabled = false;
    assert!(detector
        .observe(&config, &block("EHZ", 0, 10.0, vec![1; 20]))
        .is_none());
    assert!(detector.lta_values.is_empty());
}

#[test]
fn new_configuration_restarts_the_detector() {
    let mut config = quick_alert();
    let mut detector = AlertRuntime::new(None);
    detector.observe(&config, &block("EHZ", 0, 10.0, vec![1; 20]));
    detector.observe(&config, &block("EHZ", 0, 10.0, vec![100; 10]));
    assert!(detector.active);
    config.minimum_duration_seconds = double(1.0);
    detector.observe(&config, &block("EHZ", 0, 10.0, vec![]));
    assert!(detector.active);
    config.threshold = double(1.6);
    detector.observe(&config, &block("EHZ", 0, 10.0, vec![100]));
    assert!(!detector.active);
    assert_eq!(detector.lta_values.len(), 1);
    config.reset = double(-0.0);
    detector.observe(&config, &block("EHZ", 0, 10.0, vec![100; 3]));
    assert_eq!(detector.lta_values.len(), 3);
    config.reset = double(0.0);
    detector.observe(&config, &block("EHZ", 0, 10.0, vec![100]));
    assert_eq!(detector.lta_values.len(), 1);
    config.reset = double(f64::NAN);
    detector.observe(&config, &block("EHZ", 0, 10.0, vec![100]));
    config.reset = double(-f64::NAN);
    detector.observe(&config, &block("EHZ", 0, 10.0, vec![100]));
    assert_eq!(detector.lta_values.len(), 2);
}

#[test]
fn alarm_waits_for_the_minimum_duration() {
    let mut config = quick_alert();
    config.minimum_duration_seconds = double(0.3);
    let mut detector = AlertRuntime::new(None);
    detector.observe(&config, &block("EHZ", 0, 10.0, vec![1; 20]));
    assert!(detector
        .observe(&config, &block("EHZ", 1, 10.0, vec![100; 2]))
        .is_none());
    assert_eq!(detector.above_samples, 2);
    assert!(detector
        .observe(&config, &block("EHZ", 2, 10.0, vec![100]))
        .is_some());
}

#[test]
fn silence_has_ratio_zero() {
    let config = quick_alert();
    let mut detector = AlertRuntime::new(None);
    assert!(detector
        .observe(&config, &block("EHZ", 0, 10.0, vec![0; 40]))
        .is_none());
    assert_eq!(detector.current_ratio.bits, 0);
    assert_eq!(detector.lta_sum.bits, 0);
    assert_eq!(detector.sta_values.len(), 10);
    assert_eq!(detector.lta_values.len(), 20);
}

#[test]
fn scanning_in_pieces_changes_nothing() {
    let config = quick_alert();
    let samples = (0..45).map(|i| (i * i) % 37 - 18).collect::<Vec<i32>>();
    let mut whole = AlertRuntime::new(None);
    whole.observe(&config, &block("EHZ", 0, 10.0, samples.clone()));
    let mut pieces = AlertRuntime::new(None);
    for part in samples.chunks(7) {
        pieces.observe(&config, &block("EHZ", 0, 10.0, part.to_vec()));
    }
    assert_eq!(whole.active, pieces.active);
    assert_eq!(whole.current_ratio.bits, pieces.current_ratio.bits);
    assert_eq!(whole.peak_ratio.bits, pieces.peak_ratio.bits);
    assert_eq!(whole.sta_sum.bits, pieces.sta_sum.bits);
    assert_eq!(whole.lta_sum.bits, pieces.lta_sum.bits);
    assert_eq!(whole.above_samples, pieces.above_samples);
}

#[test]
fn names_are_ordered_like_strings() {
    let names = ["", "E", "EHE", "EHN", "EHZ", "EHZ0", "SHZ", "a", "\u{e9}", "\u{10000}"];
    for a in names {
        for b in names {
            assert_eq!(is_before(&a.to_string(), &b.to_string()), a < b, "{a} {b}");
        }
    }
}

#[test]
fn table_keeps_channels_in_order() {
    let mut table = ChannelTable::new();
    for channel in ["SHZ", "EHZ", "HDF", "EHE", "EHZ"] {
        let packet = block(channel, 0, 100.0, vec![1]);
        assert!(table.has_room_for(&packet));
        table.take(&packet);
    }
    let names = table
        .entries
        .iter()
        .map(|entry| (entry.channel.as_str(), entry.buffer.packets))
        .collect::<Vec<_>>();
    assert_eq!(names, vec![("EHE", 1), ("EHZ", 2), ("HDF", 1), ("SHZ", 1)]);
    assert!(!table.has_room_for(&block("ENZ", 0, 1.0e300, vec![1])));
    assert!(table.has_room_for(&block("EHZ", 0, 1.0e300, vec![1])));
}

#[test]
fn datagrams_are_counted() {
    let settings = Settings::default();
    let mut runtime = RuntimeState::new(77, false);
    let before = now_ms();
    match receive(&mut runtime, &settings, b"{'EHZ', 1.0, 1, 2}", "10.0.0.1".into()) {
        Received::Accepted(accepted) => {
            assert!(accepted.events.is_empty());
            assert!(accepted.sound.is_none());
        }
        other => panic!("{other:?}"),
    }
    assert!(runtime.last_packet_at_ms.unwrap() >= before);
    match receive(&mut runtime, &settings, b"nothing", "10.0.0.2".into()) {
        Received::Rejected(text) => assert_eq!(text, "packet has no surrounding braces"),
        other => panic!("{other:?}"),
    }
    assert!(matches!(
        receive(&mut runtime, &settings, b"{'EHE', 1.0, 1}", "10.0.0.3".into()),
        Received::Accepted(_)
    ));
    let status = current_status(&runtime);
    assert_eq!(status.started_at_ms, 77);
    assert_eq!(status.packets_received, 2);
    assert_eq!(status.packets_invalid, 1);
    assert_eq!(status.bytes_received, 33);
    assert_eq!(status.source_ip, Some("10.0.0.1".to_string()));
    assert!(!status.demo);
    assert!(!status.alert_active);
    assert_eq!(status.channels.len(), 2);
    assert_eq!(status.channels[0].channel, "EHE");
    assert_eq!(status.channels[1].channel, "EHZ");
    assert_eq!(status.channels[1].sample_count, 2);
    assert_eq!(status.channels[1].packet_count, 1);
    assert_eq!(status.channels[1].gap_count, 0);
    assert_eq!(number(status.channels[1].sample_rate_hz), 100.0);
}

#[test]
fn datagram_that_runs_over_changes_nothing() {
    let settings = Settings::default();
    let mut runtime = RuntimeState::default();
    let far = b"{EHZ, 1e300, 1}";
    assert!(matches!(
        receive(&mut runtime, &settings, far, "a".into()),
        Received::Accepted(_)
    ));
    assert!(matches!(
        receive(&mut runtime, &settings, far, "a".into()),
        Received::OutOfRange
    ));
    assert_eq!(runtime.packets_received, 1);
    runtime.packets_invalid = u64::MAX;
    assert!(matches!(
        receive(&mut runtime, &settings, b"", "a".into()),
        Received::OutOfRange
    ));
}

#[test]
fn alarm_calls_for_its_sound() {
    let mut settings = Settings::default();
    settings.alert = quick_alert();
    let mut runtime = RuntimeState::default();
    let quiet = block("EHZ", 0, 10.0, vec![1; 20]);
    let loud = block("EHZ", 2000, 10.0, vec![10; 10]);
    let first = accept_block_at(&mut runtime, &settings, &quiet, Some("demo".into()), 7, 11);
    assert!(first.events.is_empty() && first.sound.is_none());
    let second = accept_block_at(&mut runtime, &settings, &loud, Some("other".into()), 8, 12);
    assert!(matches!(second.events[..], [ServerEvent::Alarm { .. }]));
    assert_eq!(second.sound, Some("alert.wav".to_string()));
    assert_eq!(runtime.bytes_received, 15);
    assert_eq!(runtime.last_packet_at_ms, Some(12));
    assert_eq!(runtime.source_ip, Some("demo".to_string()));
    let third = accept_block(&mut runtime, &settings, &quiet, None, 0);
    assert!(matches!(third.events[..], [ServerEvent::Reset { .. }]));
    assert_eq!(third.sound, None);
    settings.alert.sound_file = String::new();
    assert_eq!(accept_block(&mut runtime, &settings, &loud, None, 0).sound, None);
    assert!(runtime.alert.active);
}

#[test]
fn snapshot_shows_every_channel() {
    let mut settings = Settings::default();
    settings.display.window_seconds = 1;
    let mut runtime = RuntimeState::default();
    accept_block_at(
        &mut runtime,
        &settings,
        &block("EHZ", 5000, 100.0, (0..250).collect()),
        None,
        0,
        1,
    );
    accept_block_at(&mut runtime, &settings, &block("EHE", 6000, 100.0, vec![4]), None, 0, 2);
    let shown = snapshot_at(&runtime, &settings, 99);
    assert_eq!(shown.kind, "snapshot");
    assert_eq!(shown.server_time_ms, 99);
    assert_eq!(shown.display_window_seconds, 1);
    assert_eq!(shown.status.packets_received, 2);
    assert_eq!(shown.channels.len(), 2);
    assert_eq!(shown.channels[0].channel, "EHE");
    assert_eq!(shown.channels[0].samples, vec![4]);
    assert_eq!(shown.channels[1].samples, (150..250).collect::<Vec<_>>());
    assert_eq!(shown.channels[1].start_time_ms, Some(5000));
    assert_eq!(shown.channels[1].packet_count, 1);
    assert_eq!(shown.channels[1].gap_count, 0);
    let before = now_ms();
    assert!(snapshot(&runtime, &settings).server_time_ms >= before);
}

#[test]
fn clock_shows_milliseconds_since_the_epoch() {
    let elapsed = || {
        std::time::SystemTime::now()
            .duration_since(std::time::SystemTime::UNIX_EPOCH)
            .unwrap()
            .as_millis() as u64
    };
    let before = elapsed();
    let shown = now_ms();
    assert!(before <= shown && shown <= elapsed());
    assert_eq!(reading(None), 0);
    assert_eq!(reading(Some(1234)), 1234);
    assert_eq!(reading(Some(u64::MAX as u128 + 3)), 2);
}

#[test]
fn session_reacts_to_each_input() {
    let text = || Some("t".to_string());
    assert!(matches!(react(SessionInput::Tick(text())), SessionAction::Send(t) if t == "t"));
    assert!(matches!(react(SessionInput::Tick(None)), SessionAction::Stop));
    assert!(matches!(react(SessionInput::Event(text())), SessionAction::Send(t) if t == "t"));
    assert!(matches!(react(SessionInput::Event(None)), SessionAction::Wait));
    assert!(matches!(react(SessionInput::Missed(3)), SessionAction::Wait));
    assert!(matches!(react(SessionInput::EventsClosed), SessionAction::Stop));
    assert!(matches!(react(SessionInput::Close), SessionAction::Stop));
    assert!(matches!(react(SessionInput::Ping(vec![1, 2])), SessionAction::Pong(b) if b == [1, 2]));
    assert!(matches!(react(SessionInput::Other), SessionAction::Wait));
    assert!(matches!(react(SessionInput::Gone), SessionAction::Stop));
}

#[test]
fn refresh_rate_becomes_a_period() {
    assert_eq!(refresh_period_ms(10), 100);
    assert_eq!(refresh_period_ms(0), 1000);
    assert_eq!(refresh_period_ms(3), 333);
    assert_eq!(refresh_period_ms(2000), 0);
}

#[test]
fn demo_has_four_channels_and_a_repeating_pulse() {
    assert_eq!(demo_channels(), vec!["EHZ", "EHE", "EHN", "ENZ"]);
    assert_eq!((0..160).filter(|n| pulse_on(*n)).count(), 46);
    assert!(!pulse_on(56) && pulse_on(57) && pulse_on(79) && !pulse_on(80));
    assert_eq!(sample_number(4, 3), 103);
    assert_eq!(next_sequence(7), 8);
    assert_eq!(next_sequence(u64::MAX), u64::MAX);
    let made = demo_block("EHN".into(), 9, vec![5]);
    assert_eq!(made.channel, "EHN");
    assert_eq!(made.start_ms, 9);
    assert_eq!(number(made.sample_rate_hz), 100.0);
    assert_eq!(made.samples, vec![5]);
}

#[test]
fn default_tuning_raises_the_alarm() {
    let settings = Settings::default();
    let mut detector = AlertRuntime::new(None);
    assert!(detector
        .observe(&settings.alert, &block("EHZ", 0, 100.0, vec![10; 3000]))
        .is_none());
    assert!(detector
        .observe(&settings.alert, &block("EHZ", 30_000, 100.0, vec![1000; 600]))
        .is_some());
}

fn one_hertz_alert() -> AlertSettings {
    AlertSettings {
        sta_seconds: double(1.0),
        lta_seconds: double(4.0),
        threshold: double(2.0),
        reset: double(0.5),
        ..AlertSettings::default()
    }
}

#[test]
fn alert_that_starts_and_ends_in_one_block_is_told_and_heard() {
    let mut settings = Settings::default();
    settings.alert = one_hertz_alert();
    let mut runtime = RuntimeState::default();
    let short = block("EHZ", 7000, 1.0, vec![0, 0, 8, -8, 0]);
    let accepted = accept_block(&mut runtime, &settings, &short, None, 0);
    match &accepted.events[..] {
        [ServerEvent::Alarm {
            event_time_ms: start,
            channel,
            ratio,
        }, ServerEvent::Reset {
            event_time_ms: end,
            channel: other,
            peak_ratio,
        }] => {
            assert_eq!((*start, *end), (7000, 7000));
            assert_eq!((channel.as_str(), other.as_str()), ("EHZ", "EHZ"));
            assert_eq!(number(*ratio), 2.0);
            assert_eq!(number(*peak_ratio), 2.0);
        }
        other => panic!("{other:?}"),
    }
    assert_eq!(accepted.sound, Some("alert.wav".to_string()));
    assert!(!runtime.alert.active);
    assert_eq!(runtime.alert.last_event_ms, Some(7000));
}

#[test]
fn sound_that_is_off_stays_off() {
    let mut settings = Settings::default();
    settings.alert = one_hertz_alert();
    settings.alert.sound_enabled = false;
    let mut runtime = RuntimeState::default();
    let short = block("EHZ", 0, 1.0, vec![0, 0, 8, -8, 0]);
    let accepted = accept_block(&mut runtime, &settings, &short, None, 0);
    assert_eq!(accepted.events.len(), 2);
    assert_eq!(accepted.sound, None);
}

#[test]
fn events_alternate_and_the_last_is_observed() {
    let config = one_hertz_alert();
    let row = block("EHZ", 1, 1.0, vec![0, 0, 8, 8, 0, 0, 0, 0, 8, 8, 0, 0, 0, 0, 9]);
    let mut all = AlertRuntime::new(None);
    let events = all.observe_all(&config, &row);
    assert_eq!(events.len(), 5);
    for (i, event) in events.iter().enumerate() {
        assert_eq!(matches!(event, ServerEvent::Alarm { .. }), i % 2 == 0);
    }
    assert!(has_alarm(&events) && !has_alarm(&Vec::new()));
    let mut last = AlertRuntime::new(None);
    assert!(matches!(
        last.observe(&config, &row),
        Some(ServerEvent::Alarm { .. })
    ));
    assert!(all.active && last.active);
    let mut pieces = AlertRuntime::new(None);
    let mut count = 0;
    for part in row.samples.chunks(4) {
        count += pieces
            .observe_all(&config, &block("EHZ", 1, 1.0, part.to_vec()))
            .len();
    }
    assert_eq!(count, 5);
}

#[test]
fn data_without_gaps_start_with_the_first_packet() {
    for rate in [100.0, 50.0, 0.5, 31.25, 1000.0] {
        let mut buffer = ChannelBuffer::new(double(rate));
        let mut start = 1_700_000_000_125_u64;
        for round in 0..9_u64 {
            let count = 25 * (round as usize % 3);
            buffer.append(start, &vec![1; count]);
            start += (count as f64 * 1000.0 / rate) as u64;
            assert_eq!(retained_start_time_ms(&buffer), Some(1_700_000_000_125));
        }
        assert_eq!(buffer.gaps, 0);
    }
}

#[test]
fn points_are_shown_in_time_order() {
    let values = (0..7001).map(|i| i * 3).collect::<Vec<i32>>();
    let points = reduce(values);
    assert!(points.windows(2).all(|pair| pair[0] < pair[1]));
}

#[test]
fn demo_blocks_are_taken_in() {
    let settings = Settings::default();
    let mut runtime = RuntimeState::new(0, true);
    let far = demo_block("EHZ".into(), u64::MAX, vec![1]);
    assert!(receive_demo(&mut runtime, &settings, &far).is_some());
    assert!(receive_demo(&mut runtime, &settings, &far).is_none());
    assert_eq!(runtime.packets_received, 1);
    assert_eq!(runtime.bytes_received, 0);
    assert_eq!(runtime.source_ip, Some("demo".to_string()));
}
