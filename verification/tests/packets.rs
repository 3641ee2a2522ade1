use lpudp::double::Double;
use lpudp::packet::{parse_datagram, parse_text, WaveBlock};
use lpudp::text::{characters, field_ranges, strip_range, Margin};

fn double(value: f64) -> Double {
    Double::from_bits(value.to_bits())
}

fn parse(text: &str) -> Result<WaveBlock, String> {
    parse_datagram(text.as_bytes(), double(100.0))
}

fn message(text: &str) -> String {
    parse(text).err().expect("the packet is refused")
}

#[test]
fn packet_without_utf8_is_refused_with_the_place() {
    let bytes = b"{'EHZ', \xff 1}";
    let error = std::str::from_utf8(bytes).unwrap_err();
    assert_eq!(
        parse_datagram(bytes, double(100.0)).err(),
        Some(format!("invalid UTF-8: {error}"))
    );
    assert_eq!(
        parse_datagram(b"\xe2\x82", double(100.0)).err(),
        Some("invalid UTF-8: incomplete utf-8 byte sequence from index 0".to_string())
    );
}

#[test]
fn packet_needs_both_braces() {
    for text in ["", "{", "}", "'EHZ', 1, 2", "{'EHZ', 1, 2", "'EHZ', 1, 2}", "x{'EHZ',1,2}"] {
        assert_eq!(message(text), "packet has no surrounding braces", "{text}");
    }
}

#[test]
fn packet_needs_a_channel() {
    for text in ["{}", "{,1,2}", "{'',1,2}", "{ \"' ,1,2}"] {
        assert_eq!(message(text), "packet has no channel", "{text}");
    }
}

#[test]
fn packet_channel_must_be_supported() {
    assert_eq!(message("{'xyz', 1, 2}"), "unsupported channel XYZ");
    assert_eq!(message("{' EHZ', 1, 2}"), "unsupported channel  EHZ");
    assert_eq!(message("{\u{e9}hz, 1, 2}"), "unsupported channel \u{e9}HZ");
}

#[test]
fn every_supported_channel_is_read() {
    for channel in ["SHZ", "EHZ", "EHE", "EHN", "ENZ", "ENE", "ENN", "HDF"] {
        let text = format!("{{'{channel}', 1, 2}}");
        assert_eq!(parse(&text).unwrap().channel, channel);
        assert_eq!(parse(&text.to_lowercase()).unwrap().channel, channel);
    }
}

#[test]
fn packet_needs_a_timestamp() {
    assert_eq!(message("{'EHZ'}"), "packet has no timestamp");
    assert_eq!(
        message("{'EHZ',}"),
        "invalid timestamp: cannot parse float from empty string"
    );
    assert_eq!(
        message("{'EHZ', x, 1}"),
        "invalid timestamp: invalid float literal"
    );
    for text in ["{EHZ, inf, 1}", "{EHZ, NaN, 1}", "{EHZ, -1, 1}", "{EHZ, 1e999, 1}"] {
        assert_eq!(
            message(text),
            "timestamp is not a finite positive value",
            "{text}"
        );
    }
    assert_eq!(parse("{EHZ, -0, 1}").unwrap().start_ms, 0);
}

#[test]
fn packet_samples_are_checked_from_the_left() {
    assert_eq!(
        message("{EHZ, 1, 2,}"),
        "invalid sample: cannot parse integer from empty string"
    );
    assert_eq!(
        message("{EHZ, 1, 2, 3.5, 9999999999}"),
        "invalid sample: invalid digit found in string"
    );
    assert_eq!(
        message("{EHZ, 1, 2147483648, x}"),
        "invalid sample: number too large to fit in target type"
    );
    assert_eq!(
        message("{EHZ, 1, -2147483649}"),
        "invalid sample: number too small to fit in target type"
    );
    assert_eq!(message("{EHZ, 1}"), "packet contains no samples");
}

#[test]
fn white_space_around_fields_does_not_count() {
    let block = parse("\u{3000}\t{ \u{a0}\"ehn\" ,\n1.5 , +1,\u{2003}-2 ,3}\r\n").unwrap();
    assert_eq!(block.channel, "EHN");
    assert_eq!(block.start_ms, 1500);
    assert_eq!(block.samples, vec![1, -2, 3]);
    assert_eq!(block.sample_rate_hz.bits, 100.0_f64.to_bits());
}

#[test]
fn times_become_whole_milliseconds() {
    for (text, expected) in [
        ("1700000000.1234", 1_700_000_000_123),
        ("1700000000.1235", (1_700_000_000.1235_f64 * 1000.0).round() as u64),
        ("0.0005", 1),
        ("0.00049", 0),
        ("1e300", u64::MAX),
        ("18446744073709551", (18_446_744_073_709_551.0_f64 * 1000.0).round() as u64),
    ] {
        let block = parse_text(&format!("{{EHZ,{text},1}}"), double(100.0)).unwrap();
        assert_eq!(block.start_ms, expected, "{text}");
    }
}

#[test]
fn accepted_packets_have_one_sample_per_field() {
    let block = parse("{EHZ,1,1,2,3,4,5}").unwrap();
    assert_eq!(block.samples.len(), 5);
}

#[test]
fn margins_and_fields_are_found() {
    let text = characters(" 'a','b', ");
    assert_eq!(text.len(), 10);
    assert_eq!(strip_range(&text, 0, 10, Margin::WhiteSpace), (1, 9));
    assert_eq!(strip_range(&text, 1, 4, Margin::Quotes), (2, 3));
    assert_eq!(field_ranges(&text, 1, 9), vec![(1, 4), (5, 8), (9, 9)]);
    assert_eq!(field_ranges(&text, 0, 0), vec![(0, 0)]);
    for c in (0..0x11_0000).filter_map(char::from_u32) {
        assert_eq!(lpudp::text::belongs(Margin::WhiteSpace, c), c.is_whitespace());
    }
}

#[test]
fn written_packets_are_read_back() {
    let limit = lpudp::timing::MILLISECOND_LIMIT;
    let rows = [vec![0], vec![1, -2, 3], vec![i32::MIN, i32::MAX, 10, -10]];
    for channel in ["SHZ", "EHZ", "HDF"] {
        for ms in [0, 1, 999, 1000, 1_700_000_000_125, 9_999_999_999_999, limit - 1, limit] {
            for row in &rows {
                let samples = row.iter().map(i32::to_string).collect::<Vec<_>>().join(", ");
                let text = format!("{{'{channel}', {}.{:03}, {samples}}}", ms / 1000, ms % 1000);
                let block = parse(&text).unwrap();
                assert_eq!(block.channel, channel);
                assert_eq!(block.start_ms, ms, "{text}");
                assert_eq!(&block.samples, row);
            }
        }
    }
    assert_eq!(
        parse("{'EHZ', 4398046511104.021, 1}").unwrap().start_ms,
        4_398_046_511_104_022
    );
}
