//! Datagrams of a Raspberry Shake: `{'EHZ', 1700000000.125, 1, -2, 3}`.

use crate::arithmetic::product;
use crate::buffer::THOUSAND;
use crate::double::{Double, INFINITE};
use crate::number::{
    decimal_number, parse_decimal, parse_whole, whole_number, DecimalFault, WholeFault,
};
use crate::settings::{is_supported_channel, supports_channel, ZERO};
use crate::text::{
    characters, field_ranges, fields, lemma_fields_not_empty, strip, strip_range, Margin,
};
use vstd::prelude::*;
use vstd::string::{StrSliceExecFns, StringExecFns};
use vstd::utf8::{decode_utf8, valid_utf8};

verus! {

/// The samples of one packet.
#[derive(Debug)]
pub struct WaveBlock {
    pub channel: String,
    pub start_ms: u64,
    pub sample_rate_hz: Double,
    pub samples: Vec<i32>,
}

/// What a packet says, as a mathematical value.
pub struct Packet {
    pub channel: Seq<char>,
    pub start_ms: u64,
    pub samples: Seq<i32>,
}

/// What `core::str::Utf8Error` says of bytes that are not UTF-8.
pub uninterp spec fn utf8_error_text(bytes: Seq<u8>) -> Seq<char>;

/// Decodes UTF-8 with `core::str::from_utf8`.
///
/// Claimed of it: it succeeds on exactly the valid byte sequences, with the text that they
/// encode, and the message of its error depends on the bytes alone.
#[verifier::external_body]
fn decode(bytes: &[u8]) -> (r: Result<String, String>)
    ensures
        match r {
            Ok(text) => valid_utf8(bytes@) && text@ == decode_utf8(bytes@),
            Err(message) => !valid_utf8(bytes@) && message@ == utf8_error_text(bytes@),
        },
{
    match std::str::from_utf8(bytes) {
        Ok(text) => Ok(text.to_string()),
        Err(error) => Err(error.to_string()),
    }
}

/// The capital of an ASCII letter, and every other character as it is.
pub open spec fn capital(c: char) -> char {
    if 0x61 <= c as u32 <= 0x7a {
        (c as u32 - 0x20) as char
    } else {
        c
    }
}

/// The text with every ASCII letter made a capital.
pub open spec fn capitals(s: Seq<char>) -> Seq<char> {
    s.map_values(|c: char| capital(c))
}

/// `str::to_ascii_uppercase`: the letters `a` to `z` become `A` to `Z`, and nothing else changes.
pub assume_specification [str::to_ascii_uppercase] (s: &str) -> (r: String)
    ensures
        r@ == capitals(s@),
;

/// What stands between the braces of a packet.
pub open spec fn body(text: Seq<char>) -> Option<Seq<char>> {
    let t = strip(text, Margin::WhiteSpace);
    if t.len() >= 2 && t[0] == '{' && t.last() == '}' {
        Some(t.subrange(1, t.len() - 1))
    } else {
        None
    }
}

/// The words for a fault in a time.
pub open spec fn decimal_fault_text(fault: DecimalFault) -> Seq<char> {
    match fault {
        DecimalFault::Empty => "cannot parse float from empty string"@,
        DecimalFault::Invalid => "invalid float literal"@,
    }
}

/// The words for a fault in a sample.
pub open spec fn whole_fault_text(fault: WholeFault) -> Seq<char> {
    match fault {
        WholeFault::Empty => "cannot parse integer from empty string"@,
        WholeFault::InvalidDigit => "invalid digit found in string"@,
        WholeFault::TooLarge => "number too large to fit in target type"@,
        WholeFault::TooSmall => "number too small to fit in target type"@,
    }
}

/// The samples that a row of fields writes; the first fault from the left wins.
pub open spec fn field_samples(f: Seq<Seq<char>>) -> Result<Seq<i32>, WholeFault>
    decreases f.len(),
{
    if f.len() == 0 {
        Ok(Seq::<i32>::empty())
    } else {
        match field_samples(f.drop_last()) {
            Err(fault) => Err(fault),
            Ok(before) => match whole_number(strip(f.last(), Margin::WhiteSpace)) {
                Err(fault) => Err(fault),
                Ok(sample) => Ok(before.push(sample)),
            },
        }
    }
}

/// The channel that a field names: quotes do not count, and letters are made capitals.
pub open spec fn channel_name(field: Seq<char>) -> Seq<char> {
    capitals(strip(strip(field, Margin::WhiteSpace), Margin::Quotes))
}

/// A time in seconds as whole milliseconds.
pub open spec fn milliseconds(seconds: Double) -> u64 {
    product(seconds, Double { bits: THOUSAND }).closest_whole()
}

/// What the fields of a packet say, or what is wrong with them.
pub open spec fn packet_of_fields(f: Seq<Seq<char>>) -> Result<Packet, Seq<char>> {
    let channel = channel_name(f[0]);
    if channel.len() == 0 {
        Err("packet has no channel"@)
    } else if !is_supported_channel(channel) {
        Err("unsupported channel "@ + channel)
    } else if f.len() < 2 {
        Err("packet has no timestamp"@)
    } else {
        match decimal_number(strip(f[1], Margin::WhiteSpace)) {
            Err(fault) => Err("invalid timestamp: "@ + decimal_fault_text(fault)),
            Ok(seconds) => if !seconds.is_finite() || seconds.below(Double { bits: ZERO }) {
                Err("timestamp is not a finite positive value"@)
            } else {
                match field_samples(f.skip(2)) {
                    Err(fault) => Err("invalid sample: "@ + whole_fault_text(fault)),
                    Ok(samples) => if samples.len() == 0 {
                        Err("packet contains no samples"@)
                    } else {
                        Ok(Packet { channel, start_ms: milliseconds(seconds), samples })
                    },
                }
            },
        }
    }
}

/// What the text of a packet says, or what is wrong with it.
pub open spec fn packet_of_text(text: Seq<char>) -> Result<Packet, Seq<char>> {
    match body(text) {
        None => Err("packet has no surrounding braces"@),
        Some(inner) => packet_of_fields(fields(inner)),
    }
}

/// What a datagram says, or what is wrong with it.
pub open spec fn packet_of_bytes(bytes: Seq<u8>) -> Result<Packet, Seq<char>> {
    if valid_utf8(bytes) {
        packet_of_text(decode_utf8(bytes))
    } else {
        Err("invalid UTF-8: "@ + utf8_error_text(bytes))
    }
}

/// Whether the result of parsing is the one that is owed.
pub open spec fn is_parsed(
    r: Result<WaveBlock, String>,
    owed: Result<Packet, Seq<char>>,
    sample_rate_hz: Double,
) -> bool {
    match r {
        Ok(block) => {
            &&& owed is Ok
            &&& block.channel@ == owed->Ok_0.channel
            &&& block.start_ms == owed->Ok_0.start_ms
            &&& block.sample_rate_hz == sample_rate_hz
            &&& block.samples@ == owed->Ok_0.samples
        },
        Err(message) => owed == Err::<Packet, Seq<char>>(message@),
    }
}

fn joined(start: &str, end: &str) -> (r: String)
    ensures
        r@ == start@ + end@,
{
    start.to_string().concat(end)
}

fn decimal_fault_words(fault: DecimalFault) -> (r: &'static str)
    ensures
        r@ == decimal_fault_text(fault),
{
    match fault {
        DecimalFault::Empty => "cannot parse float from empty string",
        DecimalFault::Invalid => "invalid float literal",
    }
}

fn whole_fault_words(fault: WholeFault) -> (r: &'static str)
    ensures
        r@ == whole_fault_text(fault),
{
    match fault {
        WholeFault::Empty => "cannot parse integer from empty string",
        WholeFault::InvalidDigit => "invalid digit found in string",
        WholeFault::TooLarge => "number too large to fit in target type",
        WholeFault::TooSmall => "number too small to fit in target type",
    }
}

/// A fault in the first samples is the fault of the row.
pub proof fn lemma_sample_fault_stays(f: Seq<Seq<char>>, n: nat)
    requires
        n <= f.len(),
        field_samples(f.take(n as int)) is Err,
    ensures
        field_samples(f) == field_samples(f.take(n as int)),
    decreases f.len(),
{
    if n == f.len() {
        assert(f.take(n as int) =~= f);
    } else {
        assert(f.drop_last().take(n as int) =~= f.take(n as int));
        lemma_sample_fault_stays(f.drop_last(), n);
    }
}

/// Reads the fields after the first two as samples.
fn parse_samples(text: &Vec<char>, ranges: &Vec<(usize, usize)>, Ghost(f): Ghost<Seq<Seq<char>>>) -> (r:
    Result<Vec<i32>, WholeFault>)
    requires
        ranges@.len() == f.len(),
        f.len() >= 2,
        forall|i: int|
            #![trigger ranges@[i]]
            0 <= i < f.len() ==> {
                &&& ranges@[i].0 <= ranges@[i].1 <= text@.len()
                &&& text@.subrange(ranges@[i].0 as int, ranges@[i].1 as int) == f[i]
            },
    ensures
        match r {
            Ok(samples) => field_samples(f.skip(2)) == Ok::<Seq<i32>, WholeFault>(samples@),
            Err(fault) => field_samples(f.skip(2)) == Err::<Seq<i32>, WholeFault>(fault),
        },
{
    let ghost rest = f.skip(2);
    let mut samples: Vec<i32> = Vec::new();
    let mut i: usize = 2;
    assert(rest.take(0) =~= Seq::empty());
    while i < ranges.len()
        invariant
            2 <= i <= ranges@.len(),
            ranges@.len() == f.len(),
            rest == f.skip(2),
            forall|i: int|
                #![trigger ranges@[i]]
                0 <= i < f.len() ==> {
                    &&& ranges@[i].0 <= ranges@[i].1 <= text@.len()
                    &&& text@.subrange(ranges@[i].0 as int, ranges@[i].1 as int) == f[i]
                },
            field_samples(rest.take(i - 2)) == Ok::<Seq<i32>, WholeFault>(samples@),
        decreases ranges@.len() - i,
    {
        let range: (usize, usize) = ranges[i];
        assert(ranges@[i as int] == range);
        let (from, to): (usize, usize) = strip_range(text, range.0, range.1, Margin::WhiteSpace);
        let ghost seen = rest.take(i - 1);
        assert(seen.drop_last() =~= rest.take(i - 2));
        assert(seen.last() == f[i as int]);
        match parse_whole(text, from, to) {
            Err(fault) => {
                proof {
                    lemma_sample_fault_stays(rest, (i - 1) as nat);
                }
                return Err(fault);
            },
            Ok(sample) => {
                samples.push(sample);
            },
        }
        i = i + 1;
    }
    assert(rest.take(i - 2) =~= rest);
    Ok(samples)
}

/// Reads the text of a packet.
pub fn parse_text(text: &str, sample_rate_hz: Double) -> (r: Result<WaveBlock, String>)
    ensures
        is_parsed(r, packet_of_text(text@), sample_rate_hz),
{
    let chars: Vec<char> = characters(text);
    let (start, end): (usize, usize) = strip_range(&chars, 0, chars.len(), Margin::WhiteSpace);
    let ghost trimmed = strip(text@, Margin::WhiteSpace);
    assert(chars@.subrange(0, chars@.len() as int) =~= text@);
    assert(chars@.subrange(start as int, end as int) == trimmed);
    if end - start < 2 || chars[start] != '{' || chars[end - 1] != '}' {
        return Err("packet has no surrounding braces".to_string());
    }
    assert(trimmed[0] == chars@[start as int]);
    assert(trimmed.last() == chars@[end - 1]);
    assert(chars@.subrange(start + 1, end - 1) =~= trimmed.subrange(1, trimmed.len() - 1));
    let ranges: Vec<(usize, usize)> = field_ranges(&chars, start + 1, end - 1);
    let ghost f = fields(trimmed.subrange(1, trimmed.len() - 1));
    proof {
        lemma_fields_not_empty(trimmed.subrange(1, trimmed.len() - 1));
    }
    let first: (usize, usize) = ranges[0];
    assert(ranges@[0] == first);
    let (a, b): (usize, usize) = strip_range(&chars, first.0, first.1, Margin::WhiteSpace);
    let (c, d): (usize, usize) = strip_range(&chars, a, b, Margin::Quotes);
    let channel: String = text.substring_char(c, d).to_ascii_uppercase();
    assert(channel@ == channel_name(f[0]));
    if c == d {
        return Err("packet has no channel".to_string());
    }
    if !supports_channel(&channel) {
        return Err(joined("unsupported channel ", channel.as_str()));
    }
    if ranges.len() < 2 {
        return Err("packet has no timestamp".to_string());
    }
    let second: (usize, usize) = ranges[1];
    assert(ranges@[1] == second);
    let (e, g): (usize, usize) = strip_range(&chars, second.0, second.1, Margin::WhiteSpace);
    let seconds: Double;
    match parse_decimal(&chars, e, g) {
        Err(fault) => {
            return Err(joined("invalid timestamp: ", decimal_fault_words(fault)));
        },
        Ok(value) => {
            seconds = value;
        },
    }
    if seconds.unsigned_bits() >= INFINITE || seconds.is_below(Double { bits: ZERO }) {
        return Err("timestamp is not a finite positive value".to_string());
    }
    match parse_samples(&chars, &ranges, Ghost(f)) {
        Err(fault) => Err(joined("invalid sample: ", whole_fault_words(fault))),
        Ok(samples) => {
            if samples.len() == 0 {
                return Err("packet contains no samples".to_string());
            }
            let start_ms: u64 = seconds.times(Double { bits: THOUSAND }).round_to_u64();
            Ok(WaveBlock { channel, start_ms, sample_rate_hz, samples })
        },
    }
}

/// Reads a datagram.
pub fn parse_datagram(bytes: &[u8], sample_rate_hz: Double) -> (r: Result<WaveBlock, String>)
    ensures
        is_parsed(r, packet_of_bytes(bytes@), sample_rate_hz),
{
    match decode(bytes) {
        Ok(text) => parse_text(text.as_str(), sample_rate_hz),
        Err(message) => Err(joined("invalid UTF-8: ", message.as_str())),
    }
}

proof fn lemma_samples_counted(f: Seq<Seq<char>>)
    ensures
        field_samples(f) is Ok ==> field_samples(f)->Ok_0.len() == f.len(),
    decreases f.len(),
{
    if f.len() > 0 {
        lemma_samples_counted(f.drop_last());
    }
}

/// A datagram that is accepted names a channel of a Raspberry Shake and brings at least one
/// sample: one for each field after the channel and the time.
pub proof fn lemma_accepted_packet(bytes: Seq<u8>)
    requires
        packet_of_bytes(bytes) is Ok,
    ensures
        is_supported_channel(packet_of_bytes(bytes)->Ok_0.channel),
        packet_of_bytes(bytes)->Ok_0.samples.len() >= 1,
        body(decode_utf8(bytes)) is Some,
        packet_of_bytes(bytes)->Ok_0.samples.len() + 2 == fields(
            body(decode_utf8(bytes))->0,
        ).len(),
{
    lemma_samples_counted(fields(body(decode_utf8(bytes))->0).skip(2));
}

} // verus!
