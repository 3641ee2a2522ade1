//! What holds of packets that are written out and read again.

use crate::arithmetic::{product, EXACT_LIMIT};
use crate::buffer::THOUSAND;
use crate::buffer_laws::lemma_scaled_bounds;
use crate::double::{one, signed, units, Double};
use crate::number::{
    decimal, decimal_number, digits_end, digits_value, exponent, read_digits, spells, ten_to,
    whole_number, Decimal, DecimalFault, WholeFault,
};
use crate::packet::{
    body, capitals, channel_name, field_samples, lemma_accepted_packet, lemma_sample_fault_stays,
    milliseconds, packet_of_bytes, packet_of_text, utf8_error_text, Packet,
};
use crate::number_laws::{is_exponent_text, lemma_ten_to_adds, lemma_time_read_exactly};
use crate::rounding::nearest;
use crate::settings::{is_supported_channel, settings_fault, AlertSettings, Settings};
use crate::text::{
    digit_value, fields, is_digit, is_white_space, lemma_fields_not_empty, strip, strip_end,
    strip_start, Margin,
};
use crate::timing::{
    lemma_milliseconds_exact, lemma_product_to_whole, lemma_quotient_to_milliseconds, lemma_thousand,
    seconds_of, MILLISECOND_LIMIT,
};
use vstd::prelude::*;
use vstd::utf8::{decode_utf8, encode_utf8, valid_utf8};

verus! {

/// The character for a digit.
pub open spec fn digit_char(d: nat) -> char
    recommends
        d < 10,
{
    (0x30 + d) as char
}

/// A number in decimal digits.
pub open spec fn decimal_digits(n: nat) -> Seq<char>
    decreases n,
{
    if n < 10 {
        seq![digit_char(n)]
    } else {
        decimal_digits(n / 10).push(digit_char(n % 10))
    }
}

/// A sample in decimal digits, with its sign where it is negative.
pub open spec fn sample_text(sample: i32) -> Seq<char> {
    if sample < 0 {
        seq!['-'] + decimal_digits((-(sample as int)) as nat)
    } else {
        decimal_digits(sample as nat)
    }
}

/// A time in seconds with three digits after the point.
pub open spec fn time_text(ms: nat) -> Seq<char> {
    (decimal_digits(ms / 1000) + seq!['.']).push(digit_char(ms % 1000 / 100)).push(
        digit_char(ms % 100 / 10),
    ).push(digit_char(ms % 10))
}

/// A text after a space.
pub open spec fn spaced(s: Seq<char>) -> Seq<char> {
    seq![' '] + s
}

/// The samples of a packet, each after a comma and a space.
pub open spec fn samples_text(samples: Seq<i32>) -> Seq<char>
    decreases samples.len(),
{
    if samples.len() == 0 {
        Seq::empty()
    } else {
        samples_text(samples.drop_last()) + seq![','] + spaced(sample_text(samples.last()))
    }
}

/// What stands between the braces of a packet that is written out.
pub open spec fn inner_text(channel: Seq<char>, ms: nat, samples: Seq<i32>) -> Seq<char> {
    seq!['\''] + channel + seq!['\''] + seq![','] + spaced(time_text(ms)) + samples_text(samples)
}

/// A packet that is written out.
pub open spec fn packet_text(channel: Seq<char>, ms: nat, samples: Seq<i32>) -> Seq<char> {
    seq!['{'] + inner_text(channel, ms, samples) + seq!['}']
}

proof fn lemma_digit_char(d: nat)
    requires
        d < 10,
    ensures
        is_digit(digit_char(d)),
        digit_value(digit_char(d)) == d,
{
}

/// Whether all characters are digits.
pub open spec fn all_digits(s: Seq<char>) -> bool {
    forall|i: int| 0 <= i < s.len() ==> is_digit(#[trigger] s[i])
}

/// The digits of a number stand for it.
pub proof fn lemma_decimal_digits(n: nat)
    ensures
        decimal_digits(n).len() > 0,
        all_digits(decimal_digits(n)),
        digits_value(decimal_digits(n)) == n,
    decreases n,
{
    let s = decimal_digits(n);
    if n < 10 {
        lemma_digit_char(n);
        assert(s.drop_last() =~= Seq::empty());
        assert(digits_value(s.drop_last()) == 0);
    } else {
        lemma_decimal_digits(n / 10);
        lemma_digit_char(n % 10);
        assert(s.drop_last() =~= decimal_digits(n / 10));
    }
}

proof fn lemma_digits_read(n: nat, negative: bool)
    requires
        n <= if negative {
            0x8000_0000nat
        } else {
            0x7fff_ffffnat
        },
    ensures
        read_digits(decimal_digits(n), negative) == Ok::<i32, WholeFault>(
            (if negative {
                -(n as int)
            } else {
                n as int
            }) as i32,
        ),
    decreases n,
{
    let s = decimal_digits(n);
    if n < 10 {
        lemma_digit_char(n);
        assert(s.drop_last() =~= Seq::empty());
        assert(read_digits(s.drop_last(), negative) == Ok::<i32, WholeFault>(0));
    } else {
        lemma_digits_read(n / 10, negative);
        lemma_digit_char(n % 10);
        assert(s.drop_last() =~= decimal_digits(n / 10));
    }
}

proof fn lemma_sample_read(sample: i32)
    ensures
        whole_number(sample_text(sample)) == Ok::<i32, WholeFault>(sample),
{
    let s = sample_text(sample);
    if sample < 0 {
        let n = (-(sample as int)) as nat;
        lemma_decimal_digits(n);
        lemma_digits_read(n, true);
        assert(s.drop_first() =~= decimal_digits(n));
    } else {
        lemma_decimal_digits(sample as nat);
        lemma_digits_read(sample as nat, false);
        assert(is_digit(s[0]));
    }
}

/// Stripping takes one space away from a text that has none at its ends.
proof fn lemma_strip_spaced(s: Seq<char>)
    requires
        s.len() > 0,
        !is_white_space(s[0]),
        !is_white_space(s.last()),
    ensures
        strip(s, Margin::WhiteSpace) == s,
        strip(spaced(s), Margin::WhiteSpace) == s,
{
    assert(strip_start(s, Margin::WhiteSpace) == s);
    assert(strip_end(s, Margin::WhiteSpace) == s);
    assert(spaced(s).drop_first() =~= s);
    assert(is_white_space(spaced(s)[0]));
    assert(strip_start(spaced(s), Margin::WhiteSpace) == strip_start(s, Margin::WhiteSpace));
}

/// Whether no character is a comma.
pub open spec fn no_comma(s: Seq<char>) -> bool {
    forall|i: int| 0 <= i < s.len() ==> #[trigger] s[i] != ','
}

/// A text without a comma extends the last field.
pub proof fn lemma_fields_extended(s: Seq<char>, w: Seq<char>)
    requires
        no_comma(w),
    ensures
        fields(s + w) == fields(s).update(fields(s).len() - 1, fields(s).last() + w),
    decreases w.len(),
{
    lemma_fields_not_empty(s);
    if w.len() == 0 {
        assert(s + w =~= s);
        assert(fields(s).last() + w =~= fields(s).last());
        assert(fields(s).update(fields(s).len() - 1, fields(s).last() + w) =~= fields(s));
    } else {
        let v = w.drop_last();
        lemma_fields_extended(s, v);
        assert((s + w).drop_last() =~= s + v);
        assert((s + w).last() == w.last());
        assert((fields(s).last() + v).push(w.last()) =~= fields(s).last() + w);
        assert(fields(s + w) =~= fields(s).update(fields(s).len() - 1, fields(s).last() + w));
    }
}

/// A comma and a text without one add a field.
pub proof fn lemma_fields_next(s: Seq<char>, w: Seq<char>)
    requires
        no_comma(w),
    ensures
        fields(s + seq![','] + w) == fields(s).push(w),
{
    let t = s + seq![','];
    assert(t.drop_last() =~= s);
    assert(fields(t) == fields(s).push(Seq::empty()));
    lemma_fields_extended(t, w);
    assert(Seq::<char>::empty() + w =~= w);
    assert(fields(t + w) =~= fields(s).push(w));
}

proof fn lemma_sample_text(sample: i32)
    ensures
        sample_text(sample).len() > 0,
        no_comma(sample_text(sample)),
        no_comma(spaced(sample_text(sample))),
        !is_white_space(sample_text(sample)[0]),
        !is_white_space(sample_text(sample).last()),
{
    let s = sample_text(sample);
    let n = (if sample < 0 {
        -(sample as int)
    } else {
        sample as int
    }) as nat;
    let digits = decimal_digits(n);
    lemma_decimal_digits(n);
    assert(digits.last() == digits[digits.len() - 1]);
    assert(is_digit(digits.last()));
    assert(is_digit(digits[0]));
    assert(s.last() == digits.last());
    assert forall|i: int| 0 <= i < s.len() implies #[trigger] s[i] != ',' by {
        if sample < 0 {
            if i > 0 {
                assert(is_digit(digits[i - 1]));
            }
        } else {
            assert(is_digit(digits[i]));
        }
    }
}

/// The fields that the samples of a packet make.
spec fn sample_fields(samples: Seq<i32>) -> Seq<Seq<char>> {
    samples.map_values(|sample: i32| spaced(sample_text(sample)))
}

proof fn lemma_fields_of_samples(s: Seq<char>, samples: Seq<i32>)
    ensures
        fields(s + samples_text(samples)) == fields(s) + sample_fields(samples),
    decreases samples.len(),
{
    if samples.len() == 0 {
        assert(s + samples_text(samples) =~= s);
        assert(fields(s) + sample_fields(samples) =~= fields(s));
    } else {
        let front = samples.drop_last();
        let w = spaced(sample_text(samples.last()));
        lemma_fields_of_samples(s, front);
        lemma_sample_text(samples.last());
        lemma_fields_next(s + samples_text(front), w);
        assert(s + samples_text(samples) =~= s + samples_text(front) + seq![','] + w);
        assert(fields(s) + sample_fields(samples) =~= (fields(s) + sample_fields(front)).push(w));
    }
}

proof fn lemma_samples_read(samples: Seq<i32>)
    ensures
        field_samples(sample_fields(samples)) == Ok::<Seq<i32>, WholeFault>(samples),
    decreases samples.len(),
{
    let f = sample_fields(samples);
    if samples.len() == 0 {
        assert(samples =~= Seq::empty());
    } else {
        lemma_samples_read(samples.drop_last());
        assert(f.drop_last() =~= sample_fields(samples.drop_last()));
        lemma_sample_text(samples.last());
        lemma_strip_spaced(sample_text(samples.last()));
        lemma_sample_read(samples.last());
        assert(f.last() == spaced(sample_text(samples.last())));
        assert(samples.drop_last().push(samples.last()) =~= samples);
    }
}

/// Digits end at the first character that is none.
pub proof fn lemma_digits_end(s: Seq<char>, i: nat, end: nat)
    requires
        i <= end <= s.len(),
        forall|j: int| i <= j < end ==> is_digit(#[trigger] s[j]),
        end < s.len() ==> !is_digit(s[end as int]),
    ensures
        digits_end(s, i) == end,
    decreases end - i,
{
    if i < end {
        assert(is_digit(s[i as int]));
        lemma_digits_end(s, i + 1, end);
    }
}

proof fn lemma_digits_pushed(s: Seq<char>, d: nat)
    requires
        d < 10,
    ensures
        digits_value(s.push(digit_char(d))) == digits_value(s) * 10 + d,
{
    lemma_digit_char(d);
    assert(s.push(digit_char(d)).drop_last() =~= s);
}

proof fn lemma_three_digits(ms: nat)
    ensures
        ((ms / 1000 * 10 + ms % 1000 / 100) * 10 + ms % 100 / 10) * 10 + ms % 10 == ms,
        ms % 1000 / 100 < 10,
        ms % 100 / 10 < 10,
        ms % 10 < 10,
{
}

/// The value of a time without its point.
proof fn lemma_time_value(ms: nat)
    ensures
        digits_value(
            decimal_digits(ms / 1000).push(digit_char(ms % 1000 / 100)).push(
                digit_char(ms % 100 / 10),
            ).push(digit_char(ms % 10)),
        ) == ms,
{
    let whole = decimal_digits(ms / 1000);
    let b = ms % 1000 / 100;
    let c = ms % 100 / 10;
    let d = ms % 10;
    lemma_three_digits(ms);
    lemma_decimal_digits(ms / 1000);
    lemma_digits_pushed(whole, b);
    lemma_digits_pushed(whole.push(digit_char(b)), c);
    lemma_digits_pushed(whole.push(digit_char(b)).push(digit_char(c)), d);
}

proof fn lemma_time_text(ms: nat)
    ensures
        ({
            let s = time_text(ms);
            let whole = decimal_digits(ms / 1000);
            &&& s.len() == whole.len() + 4
            &&& whole.len() > 0
            &&& all_digits(whole)
            &&& s.subrange(0, whole.len() as int) == whole
            &&& s[whole.len() as int] == '.'
            &&& forall|i: int| 0 <= i < s.len() && i != whole.len() ==> is_digit(#[trigger] s[i])
            &&& digits_value(whole + s.subrange(whole.len() as int + 1, s.len() as int)) == ms
        }),
{
    let s = time_text(ms);
    let whole = decimal_digits(ms / 1000);
    let n = whole.len() as int;
    let b = ms % 1000 / 100;
    let c = ms % 100 / 10;
    let d = ms % 10;
    lemma_decimal_digits(ms / 1000);
    lemma_three_digits(ms);
    lemma_time_value(ms);
    lemma_digit_char(b);
    lemma_digit_char(c);
    lemma_digit_char(d);
    assert(s.subrange(0, n) =~= whole);
    assert forall|i: int| 0 <= i < s.len() && i != n implies is_digit(#[trigger] s[i]) by {
        if i < n {
            assert(is_digit(whole[i]));
        }
    }
    assert(whole + s.subrange(n + 1, s.len() as int) =~= whole.push(digit_char(b)).push(
        digit_char(c),
    ).push(digit_char(d)));
}

proof fn lemma_time_read(ms: nat)
    ensures
        decimal_number(time_text(ms)) == Ok::<Double, DecimalFault>(seconds_of(ms)),
{
    let s = time_text(ms);
    let n = decimal_digits(ms / 1000).len();
    lemma_time_text(ms);
    assert(is_digit(s[0]));
    lemma_digits_end(s, 0, n);
    lemma_digits_end(s, n + 1, s.len());
    let rest = s.subrange(s.len() as int, s.len() as int);
    assert(rest.len() == 0);
    assert(exponent(rest) == Some(0int));
    assert(decimal(s) == Some(Decimal { mantissa: ms, exponent: -3 }));
    reveal_with_fuel(ten_to, 4);
    assert(ten_to(3) == 1000);
    assert(!spells(s, seq!['n', 'a', 'n']));
    assert(!spells(s, seq!['i', 'n', 'f']));
    assert(!spells(s, seq!['i', 'n', 'f', 'i', 'n', 'i', 't', 'y']));
}

proof fn lemma_supported_letters(channel: Seq<char>)
    requires
        is_supported_channel(channel),
    ensures
        channel.len() == 3,
        forall|i: int| 0 <= i < 3 ==> 'A' <= #[trigger] channel[i] <= 'Z',
{
    reveal_strlit("SHZ");
    reveal_strlit("EHZ");
    reveal_strlit("EHE");
    reveal_strlit("EHN");
    reveal_strlit("ENZ");
    reveal_strlit("ENE");
    reveal_strlit("ENN");
    reveal_strlit("HDF");
}

proof fn lemma_channel_read(channel: Seq<char>)
    requires
        is_supported_channel(channel),
    ensures
        no_comma(seq!['\''] + channel + seq!['\'']),
        channel_name(seq!['\''] + channel + seq!['\'']) == channel,
{
    lemma_supported_letters(channel);
    let quoted = seq!['\''] + channel + seq!['\''];
    let half = channel + seq!['\''];
    lemma_strip_spaced(quoted);
    assert(quoted.drop_first() =~= half);
    assert(half[0] == channel[0]);
    assert(strip_start(half, Margin::Quotes) == half);
    assert(strip_start(quoted, Margin::Quotes) == half);
    assert(half.drop_last() =~= channel);
    assert(channel.last() == channel[2]);
    assert(strip_end(channel, Margin::Quotes) == channel);
    assert(strip_end(half, Margin::Quotes) == channel);
    assert(capitals(channel) =~= channel);
}

/// A packet that is written out with its time in the given words.
pub open spec fn timed_packet_text(channel: Seq<char>, time: Seq<char>, samples: Seq<i32>) -> Seq<
    char,
> {
    seq!['{'] + (seq!['\''] + channel + seq!['\''] + seq![','] + spaced(time) + samples_text(samples))
        + seq!['}']
}

/// A packet that is written out is read back with its channel and samples, and with the time that
/// its words give.
pub proof fn lemma_timed_packet_is_read(
    channel: Seq<char>,
    time: Seq<char>,
    seconds: Double,
    samples: Seq<i32>,
)
    requires
        is_supported_channel(channel),
        samples.len() > 0,
        time.len() > 0,
        no_comma(time),
        !is_white_space(time[0]),
        !is_white_space(time.last()),
        decimal_number(time) == Ok::<Double, DecimalFault>(seconds),
        seconds.is_finite(),
        seconds.scaled() >= 0,
    ensures
        packet_of_bytes(encode_utf8(timed_packet_text(channel, time, samples))) == Ok::<
            Packet,
            Seq<char>,
        >(Packet { channel, start_ms: milliseconds(seconds), samples }),
{
    let text = timed_packet_text(channel, time, samples);
    let quoted = seq!['\''] + channel + seq!['\''];
    let inner = quoted + seq![','] + spaced(time) + samples_text(samples);
    vstd::utf8::encode_utf8_valid_utf8(text);
    vstd::utf8::encode_utf8_decode_utf8(text);
    lemma_strip_spaced(text);
    assert(text.subrange(1, text.len() - 1) =~= inner);
    assert(body(text) == Some(inner));
    lemma_channel_read(channel);
    lemma_strip_spaced(time);
    assert(no_comma(spaced(time))) by {
        assert forall|i: int| 0 <= i < spaced(time).len() implies #[trigger] spaced(time)[i]
            != ',' by {
            if i > 0 {
                assert(spaced(time)[i] == time[i - 1]);
            }
        }
    }
    assert(fields(Seq::<char>::empty()) =~= seq![Seq::<char>::empty()]);
    lemma_fields_extended(Seq::empty(), quoted);
    assert(Seq::<char>::empty() + quoted =~= quoted);
    assert(fields(quoted) =~= seq![quoted]);
    lemma_fields_next(quoted, spaced(time));
    lemma_fields_of_samples(quoted + seq![','] + spaced(time), samples);
    let f = fields(inner);
    assert(f =~= seq![quoted, spaced(time)] + sample_fields(samples));
    assert(f.skip(2) =~= sample_fields(samples));
    lemma_samples_read(samples);
    lemma_supported_letters(channel);
    assert(units(0) == 0);
}

/// A packet that is written out, with its time to the millisecond, is read back as it was. Times
/// up to 2^42 seconds are told to the millisecond.
pub proof fn lemma_written_packet_is_read_back(channel: Seq<char>, ms: nat, samples: Seq<i32>)
    requires
        is_supported_channel(channel),
        ms <= MILLISECOND_LIMIT,
        samples.len() > 0,
    ensures
        packet_of_bytes(encode_utf8(packet_text(channel, ms, samples))) == Ok::<Packet, Seq<char>>(
            Packet { channel, start_ms: ms as u64, samples },
        ),
{
    let time = time_text(ms);
    lemma_time_text(ms);
    assert(time.last() == time[time.len() - 1]);
    assert(is_digit(time[0]));
    lemma_time_read(ms);
    lemma_milliseconds_exact(ms);
    lemma_timed_packet_is_read(channel, time, seconds_of(ms), samples);
    assert(packet_text(channel, ms, samples) =~= timed_packet_text(channel, time, samples));
}

/// A packet whose time is written with any number of digits before and after the point is read back
/// with that time: where it is a whole number of milliseconds, exactly that one, and otherwise one
/// of the two next to it.
pub proof fn lemma_any_decimals_are_read(
    channel: Seq<char>,
    whole: Seq<char>,
    part: Seq<char>,
    samples: Seq<i32>,
    ms: nat,
)
    requires
        is_supported_channel(channel),
        samples.len() > 0,
        all_digits(whole),
        all_digits(part),
        whole.len() + part.len() > 0,
        ms + 1 <= MILLISECOND_LIMIT,
        ms * ten_to(part.len()) <= digits_value(whole + part) * 1000 <= (ms + 1) * ten_to(
            part.len(),
        ),
    ensures
        ({
            let read = packet_of_bytes(
                encode_utf8(timed_packet_text(channel, whole + seq!['.'] + part, samples)),
            );
            &&& read is Ok
            &&& read->Ok_0.channel == channel
            &&& read->Ok_0.samples == samples
            &&& ms <= read->Ok_0.start_ms <= ms + 1
            &&& ms * ten_to(part.len()) == digits_value(whole + part) * 1000
                ==> read->Ok_0.start_ms == ms
        }),
{
    let time = whole + seq!['.'] + part;
    let empty = Seq::<char>::empty();
    let v = digits_value(whole + part);
    let k = part.len();
    assert(is_exponent_text(empty, 0));
    lemma_time_read_exactly(empty, whole, seq!['.'], part, empty, 0, 0, k);
    assert(empty + whole + seq!['.'] + part + empty =~= time);
    if empty == seq!['-'] {
        assert(seq!['-'].len() == 1);
    }
    let seconds = decimal_number(time)->Ok_0;
    lemma_ten_to_adds(k, 0);
    let q = ten_to(k);
    let p = v * ten_to(0) * one();
    assert(v * 1 * one() == v * one());
    assert(p == v * one());
    let o = one() as int;
    assert(ms * o * q <= (v * o) * 1000) by (nonlinear_arith)
        requires
            ms * q <= v * 1000,
            o >= 0,
    ;
    assert((v * o) * 1000 <= (ms + 1) * o * q) by (nonlinear_arith)
        requires
            v * 1000 <= (ms + 1) * q,
            o >= 0,
    ;
    if ms * q == v * 1000 {
        assert(ms * o * q == (v * o) * 1000) by (nonlinear_arith)
            requires
                ms * q == v * 1000,
        ;
    }
    lemma_quotient_to_milliseconds(p, q, ms);
    assert(seconds == signed(false, nearest(p, q)));
    assert forall|i: int| 0 <= i < time.len() implies #[trigger] time[i] != ',' && !is_white_space(
        time[i],
    ) by {
        if i < whole.len() {
            assert(is_digit(whole[i]));
        } else if i > whole.len() {
            assert(is_digit(part[i - whole.len() - 1]));
        }
    }
    assert(time.last() == time[time.len() - 1]);
    lemma_timed_packet_is_read(channel, time, seconds, samples);
}

/// The channels that can be alerted on are exactly those that a datagram can name.
pub proof fn lemma_alert_channels_are_packet_channels(settings: Settings, channel: String)
    requires
        settings_fault(settings) is None,
    ensures
        settings_fault(
            Settings { alert: AlertSettings { channel, ..settings.alert }, ..settings },
        ) is None <==> exists|bytes: Seq<u8>|
            (#[trigger] packet_of_bytes(bytes)) is Ok && packet_of_bytes(bytes)->Ok_0.channel
                == channel@,
{
    if is_supported_channel(channel@) {
        lemma_written_packet_is_read_back(channel@, 0, seq![0i32]);
        let bytes = encode_utf8(packet_text(channel@, 0, seq![0i32]));
        assert(packet_of_bytes(bytes) is Ok && packet_of_bytes(bytes)->Ok_0.channel == channel@);
    } else {
        assert forall|bytes: Seq<u8>| (#[trigger] packet_of_bytes(bytes)) is Ok implies
            packet_of_bytes(bytes)->Ok_0.channel != channel@ by {
            lemma_accepted_packet(bytes);
        }
    }
}

/// A time that is not negative comes to the nearest whole number of milliseconds: `n` is a thousand
/// times the seconds with the fraction cut off.
pub proof fn lemma_milliseconds_are_nearest(seconds: Double, n: nat)
    requires
        seconds.is_finite(),
        !seconds.negative(),
        4 * n + 4 <= EXACT_LIMIT,
        n * one() <= 1000 * seconds.scaled() <= (n + 1) * one(),
    ensures
        n <= milliseconds(seconds) <= n + 1,
        4 * (1000 * seconds.scaled()) <= (4 * n + 1) * one() ==> milliseconds(seconds) == n,
        4 * (1000 * seconds.scaled()) >= (4 * n + 2) * one() ==> milliseconds(seconds) == n + 1,
{
    lemma_thousand();
    vstd::arithmetic::power2::lemma_pow2_pos(1074);
    let o = one() as int;
    let v = seconds.scaled();
    let x = 1000 * v;
    assert(v * (1000 * o) == x * o) by (nonlinear_arith)
        requires
            x == 1000 * v,
    ;
    lemma_scaled_bounds(n as int, x, o);
    lemma_product_to_whole(seconds, Double { bits: THOUSAND }, n);
}

/// Capitals replace the letters a to z, each by its own, and nothing else.
pub proof fn lemma_capitals_replace_letters(s: Seq<char>, i: int)
    requires
        0 <= i < s.len(),
    ensures
        capitals(s).len() == s.len(),
        'a' as u32 <= s[i] as u32 <= 'z' as u32 ==> capitals(s)[i] as u32 == s[i] as u32 - 'a' as u32
            + 'A' as u32,
        !('a' as u32 <= s[i] as u32 <= 'z' as u32) ==> capitals(s)[i] == s[i],
{
}

proof fn lemma_field_samples_each(f: Seq<Seq<char>>, samples: Seq<i32>)
    ensures
        field_samples(f) == Ok::<Seq<i32>, WholeFault>(samples) <==> {
            &&& samples.len() == f.len()
            &&& forall|i: int|
                0 <= i < f.len() ==> whole_number(strip(#[trigger] f[i], Margin::WhiteSpace)) == Ok::<
                    i32,
                    WholeFault,
                >(samples[i])
        },
    decreases f.len(),
{
    if f.len() == 0 {
        if samples.len() == 0 {
            assert(samples =~= Seq::empty());
        }
    } else {
        let n = f.len() - 1;
        let front = f.drop_last();
        assert(f.last() == f[n]);
        if samples.len() > 0 {
            lemma_field_samples_each(front, samples.drop_last());
            assert(samples.drop_last().push(samples.last()) =~= samples);
        }
        if field_samples(f) == Ok::<Seq<i32>, WholeFault>(samples) {
            let before = field_samples(front)->Ok_0;
            assert(samples.drop_last() =~= before);
            assert forall|i: int| 0 <= i < f.len() implies whole_number(
                strip(#[trigger] f[i], Margin::WhiteSpace),
            ) == Ok::<i32, WholeFault>(samples[i]) by {
                if i < n {
                    assert(front[i] == f[i]);
                }
            }
        }
        if samples.len() == f.len() && (forall|i: int|
            0 <= i < f.len() ==> whole_number(strip(#[trigger] f[i], Margin::WhiteSpace)) == Ok::<
                i32,
                WholeFault,
            >(samples[i])) {
            assert forall|i: int| 0 <= i < front.len() implies whole_number(
                strip(#[trigger] front[i], Margin::WhiteSpace),
            ) == Ok::<i32, WholeFault>(samples.drop_last()[i]) by {
                assert(front[i] == f[i]);
            }
        }
    }
}

/// What the text of a packet must be for it to be accepted: braces around fields, of which the
/// first names a channel, the second writes a time that is neither negative nor infinite, and the
/// others, one at least, write samples. White space around the text and its fields does not count,
/// nor do quotes around the channel, nor whether its letters are capitals.
pub open spec fn is_packet(
    text: Seq<char>,
    inner: Seq<char>,
    channel: Seq<char>,
    seconds: Double,
    samples: Seq<i32>,
) -> bool {
    let f = fields(inner);
    &&& strip(text, Margin::WhiteSpace) == seq!['{'] + inner + seq!['}']
    &&& f.len() >= 3
    &&& capitals(strip(strip(f[0], Margin::WhiteSpace), Margin::Quotes)) == channel
    &&& is_supported_channel(channel)
    &&& decimal_number(strip(f[1], Margin::WhiteSpace)) == Ok::<Double, DecimalFault>(seconds)
    &&& seconds.is_finite()
    &&& seconds.scaled() >= 0
    &&& samples.len() == f.len() - 2
    &&& forall|i: int|
        2 <= i < f.len() ==> whole_number(strip(#[trigger] f[i], Margin::WhiteSpace)) == Ok::<
            i32,
            WholeFault,
        >(samples[i - 2])
}

/// A packet is accepted exactly if it is one, and then it says what its fields say.
pub proof fn lemma_accepted_iff_packet(
    text: Seq<char>,
    inner: Seq<char>,
    channel: Seq<char>,
    seconds: Double,
    samples: Seq<i32>,
)
    ensures
        is_packet(text, inner, channel, seconds, samples) ==> packet_of_text(text) == Ok::<
            Packet,
            Seq<char>,
        >(Packet { channel, start_ms: milliseconds(seconds), samples }),
        packet_of_text(text) is Ok ==> exists|i: Seq<char>, x: Double| #[trigger]
            is_packet(
                text,
                i,
                packet_of_text(text)->Ok_0.channel,
                x,
                packet_of_text(text)->Ok_0.samples,
            ) && packet_of_text(text)->Ok_0.start_ms == milliseconds(x),
{
    assert(units(0) == 0);
    let t = strip(text, Margin::WhiteSpace);
    if is_packet(text, inner, channel, seconds, samples) {
        let f = fields(inner);
        assert(t.subrange(1, t.len() - 1) =~= inner);
        assert(t[0] == '{');
        assert(t.last() == '}');
        lemma_supported_letters(channel);
        lemma_field_samples_each(f.skip(2), samples);
        assert forall|i: int| 0 <= i < f.skip(2).len() implies whole_number(
            strip(#[trigger] f.skip(2)[i], Margin::WhiteSpace),
        ) == Ok::<i32, WholeFault>(samples[i]) by {
            assert(f.skip(2)[i] == f[i + 2]);
        }
    }
    if packet_of_text(text) is Ok {
        let p = packet_of_text(text)->Ok_0;
        let i = t.subrange(1, t.len() - 1);
        let f = fields(i);
        let x = decimal_number(strip(f[1], Margin::WhiteSpace))->Ok_0;
        assert(t =~= seq!['{'] + i + seq!['}']);
        lemma_field_samples_each(f.skip(2), p.samples);
        assert forall|j: int| 2 <= j < f.len() implies whole_number(
            strip(#[trigger] f[j], Margin::WhiteSpace),
        ) == Ok::<i32, WholeFault>(p.samples[j - 2]) by {
            assert(f.skip(2)[j - 2] == f[j]);
        }
        assert(is_packet(text, i, p.channel, x, p.samples));
    }
}

/// A datagram says what its bytes say as UTF-8; other bytes are refused.
pub proof fn lemma_datagram_is_its_text(bytes: Seq<u8>, text: Seq<char>)
    ensures
        packet_of_bytes(encode_utf8(text)) == packet_of_text(text),
        valid_utf8(bytes) ==> packet_of_bytes(bytes) == packet_of_text(decode_utf8(bytes)),
        !valid_utf8(bytes) ==> packet_of_bytes(bytes) == Err::<Packet, Seq<char>>(
            "invalid UTF-8: "@ + utf8_error_text(bytes),
        ),
{
    vstd::utf8::encode_utf8_valid_utf8(text);
    vstd::utf8::encode_utf8_decode_utf8(text);
}

/// What a refused packet is told, from the outside in and from the left to the right: no braces, no
/// channel, an unknown one, no time, a time that is none, a negative or infinite one, the first
/// field that is no sample, no samples. The fields are those between the braces.
pub proof fn lemma_refusals(text: Seq<char>, f: Seq<Seq<char>>, bad: int)
    ensures
        ({
            let t = strip(text, Margin::WhiteSpace);
            let told = packet_of_text(text);
            let channel = capitals(strip(strip(f[0], Margin::WhiteSpace), Margin::Quotes));
            let time = decimal_number(strip(f[1], Margin::WhiteSpace));
            let braced = t.len() >= 2 && t[0] == '{' && t[t.len() - 1] == '}';
            let named = braced && f == fields(t.subrange(1, t.len() - 1));
            let known = named && is_supported_channel(channel);
            let timed = known && f.len() >= 2 && time is Ok && time->Ok_0.is_finite()
                && time->Ok_0.scaled() >= 0;
            &&& !braced ==> told == Err::<Packet, Seq<char>>("packet has no surrounding braces"@)
            &&& named && channel.len() == 0 ==> told == Err::<Packet, Seq<char>>(
                "packet has no channel"@,
            )
            &&& named && channel.len() > 0 && !known ==> told == Err::<Packet, Seq<char>>(
                "unsupported channel "@ + channel,
            )
            &&& known && f.len() == 1 ==> told == Err::<Packet, Seq<char>>(
                "packet has no timestamp"@,
            )
            &&& known && f.len() >= 2 && time == Err::<Double, DecimalFault>(DecimalFault::Empty)
                ==> told == Err::<Packet, Seq<char>>(
                "invalid timestamp: "@ + "cannot parse float from empty string"@,
            )
            &&& known && f.len() >= 2 && time == Err::<Double, DecimalFault>(DecimalFault::Invalid)
                ==> told == Err::<Packet, Seq<char>>(
                "invalid timestamp: "@ + "invalid float literal"@,
            )
            &&& known && f.len() >= 2 && time is Ok && !timed ==> told == Err::<Packet, Seq<char>>(
                "timestamp is not a finite positive value"@,
            )
            &&& timed && f.len() == 2 ==> told == Err::<Packet, Seq<char>>(
                "packet contains no samples"@,
            )
            &&& timed && 2 <= bad < f.len() && (forall|i: int|
                2 <= i < bad ==> whole_number(strip(#[trigger] f[i], Margin::WhiteSpace)) is Ok) ==> (
            match whole_number(strip(f[bad], Margin::WhiteSpace)) {
                Ok(_) => true,
                Err(WholeFault::Empty) => told == Err::<Packet, Seq<char>>(
                    "invalid sample: "@ + "cannot parse integer from empty string"@,
                ),
                Err(WholeFault::InvalidDigit) => told == Err::<Packet, Seq<char>>(
                    "invalid sample: "@ + "invalid digit found in string"@,
                ),
                Err(WholeFault::TooLarge) => told == Err::<Packet, Seq<char>>(
                    "invalid sample: "@ + "number too large to fit in target type"@,
                ),
                Err(WholeFault::TooSmall) => told == Err::<Packet, Seq<char>>(
                    "invalid sample: "@ + "number too small to fit in target type"@,
                ),
            })
        }),
{
    assert(units(0) == 0);
    let t = strip(text, Margin::WhiteSpace);
    lemma_fields_not_empty(t.subrange(1, t.len() - 1));
    let channel = capitals(strip(strip(f[0], Margin::WhiteSpace), Margin::Quotes));
    if is_supported_channel(channel) {
        lemma_supported_letters(channel);
    }
    if 2 <= bad < f.len() && (forall|i: int|
        2 <= i < bad ==> whole_number(strip(#[trigger] f[i], Margin::WhiteSpace)) is Ok)
        && whole_number(strip(f[bad], Margin::WhiteSpace)) is Err {
        let g = f.skip(2);
        assert forall|i: int| 0 <= i < bad - 2 implies whole_number(
            strip(#[trigger] g[i], Margin::WhiteSpace),
        ) is Ok by {
            assert(g[i] == f[i + 2]);
        }
        assert(g[bad - 2] == f[bad]);
        lemma_first_bad_sample(g, (bad - 2) as nat);
    }
}

proof fn lemma_first_bad_sample(g: Seq<Seq<char>>, bad: nat)
    requires
        bad < g.len(),
        forall|i: int|
            0 <= i < bad ==> whole_number(strip(#[trigger] g[i], Margin::WhiteSpace)) is Ok,
        whole_number(strip(g[bad as int], Margin::WhiteSpace)) is Err,
    ensures
        field_samples(g) == Err::<Seq<i32>, WholeFault>(
            whole_number(strip(g[bad as int], Margin::WhiteSpace))->Err_0,
        ),
{
    let front = g.take(bad as int);
    lemma_good_samples(front);
    let more = g.take(bad as int + 1);
    assert(more.drop_last() =~= front);
    assert(more.last() == g[bad as int]);
    lemma_sample_fault_stays(g, bad + 1);
}

proof fn lemma_good_samples(g: Seq<Seq<char>>)
    requires
        forall|i: int|
            0 <= i < g.len() ==> whole_number(strip(#[trigger] g[i], Margin::WhiteSpace)) is Ok,
    ensures
        field_samples(g) is Ok,
    decreases g.len(),
{
    if g.len() > 0 {
        let front = g.drop_last();
        assert forall|i: int| 0 <= i < front.len() implies whole_number(
            strip(#[trigger] front[i], Margin::WhiteSpace),
        ) is Ok by {
            assert(front[i] == g[i]);
        }
        lemma_good_samples(front);
        assert(g.last() == g[g.len() - 1]);
    }
}

/// How a time in seconds comes to milliseconds, whatever it is: times a thousand, to the nearest
/// whole number.
pub proof fn lemma_milliseconds_formula(seconds: Double)
    ensures
        milliseconds(seconds) == product(
            seconds,
            Double { bits: 0x408f_4000_0000_0000 },
        ).closest_whole(),
{
}

} // verus!
