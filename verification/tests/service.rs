use lpudp::alert::ServerEvent;
use lpudp::buffer::ChannelBuffer;
use lpudp::display::{display_samples, MAX_DISPLAY_POINTS};
use lpudp::double::Double;
use lpudp::packet::{parse_datagram, WaveBlock};
use lpudp::runtime::{detect_alert, RuntimeState};
use lpudp::settings::{DisplaySettings, Settings};

fn double(value: f64) -> Double {
    Double::from_bits(value.to_bits())
}

#[test]
fn parses_raspberry_shake_datagram() {
    let block = parse_datagram(b"{'EHZ', 1700000000.125, 1, -2, 3}", double(100.0))
        .expect("valid Raspberry Shake packet");
    assert_eq!(block.channel, "EHZ");
    assert_eq!(block.start_ms, 1_700_000_000_125);
    assert_eq!(block.samples, vec![1, -2, 3]);
}

#[test]
fn rejects_unknown_or_empty_datagrams() {
    assert!(parse_datagram(b"{'XYZ', 1700000000.0, 1}", double(100.0)).is_err());
    assert!(parse_datagram(b"{'EHZ', 1700000000.0}", double(100.0)).is_err());
}

#[test]
fn counts_gaps_from_packet_length() {
    let mut buffer = ChannelBuffer::new(double(100.0));
    buffer.append(0, &[1; 25]);
    buffer.append(250, &[1; 25]);
    assert_eq!(buffer.gaps, 0);
    buffer.append(600, &[1; 25]);
    assert_eq!(buffer.gaps, 1);
}

#[test]
fn keeps_display_payload_bounded_and_preserves_extrema() {
    let mut buffer = ChannelBuffer::new(double(100.0));
    let samples = (0..10_000).map(|value| value as i32).collect::<Vec<_>>();
    buffer.append(0, &samples);
    let display = DisplaySettings {
        window_seconds: 100,
        ..DisplaySettings::default()
    };
    let reduced = display_samples(&buffer, &display);
    assert!(reduced.len() <= MAX_DISPLAY_POINTS);
    assert!(reduced.contains(&0));
    assert!(reduced.contains(&9_999));
}

#[test]
fn alert_triggers_after_lta_warmup() {
    let mut settings = Settings::default();
    settings.station.sample_rate_hz = double(10.0);
    settings.alert.sta_seconds = double(1.0);
    settings.alert.lta_seconds = double(2.0);
    settings.alert.threshold = double(1.5);
    settings.alert.reset = double(1.1);
    let mut runtime = RuntimeState::default();
    let quiet = WaveBlock {
        channel: "EHZ".into(),
        start_ms: 0,
        sample_rate_hz: double(10.0),
        samples: vec![1; 20],
    };
    assert!(detect_alert(&mut runtime, &settings, &quiet).is_none());
    let signal = WaveBlock {
        channel: "EHZ".into(),
        start_ms: 2_000,
        sample_rate_hz: double(10.0),
        samples: vec![10; 10],
    };
    assert!(matches!(
        detect_alert(&mut runtime, &settings, &signal),
        Some(ServerEvent::Alarm { .. })
    ));
    assert!(runtime.alert.active);
}
