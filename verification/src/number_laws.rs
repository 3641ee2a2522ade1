//! What holds of text that is taken apart and of the numbers that are read from it.

use crate::double::{one, signed, Double, INFINITE};
use crate::number::{
    decimal, decimal_magnitude, decimal_number, digits_end, digits_value, exponent, is_sign,
    lemma_fault_stays, read_digits, spells, ten_to, whole_number, Decimal,
    DecimalFault, WholeFault,
};
use crate::packet_laws::{
    all_digits, lemma_digits_end, lemma_fields_extended, lemma_fields_next, no_comma,
};
use crate::rounding::{lemma_nearest_exists, nearest};
use crate::text::{
    fields, in_margin, is_digit, lemma_fields_not_empty, strip, strip_end, strip_start,
    Margin,
};
use crate::timing::lemma_nearest_of_equal;
use vstd::prelude::*;

verus! {

/// Fields with a comma between each two.
pub open spec fn joined(f: Seq<Seq<char>>) -> Seq<char>
    decreases f.len(),
{
    if f.len() == 0 {
        Seq::empty()
    } else if f.len() == 1 {
        f[0]
    } else {
        joined(f.drop_last()) + seq![','] + f.last()
    }
}

proof fn lemma_joined_extended(f: Seq<Seq<char>>, c: char)
    requires
        f.len() > 0,
    ensures
        joined(f.update(f.len() - 1, f.last().push(c))) == joined(f).push(c),
{
    let g = f.update(f.len() - 1, f.last().push(c));
    if f.len() > 1 {
        assert(g.drop_last() =~= f.drop_last());
        assert(joined(f.drop_last()) + seq![','] + f.last().push(c) =~= (joined(f.drop_last())
            + seq![','] + f.last()).push(c));
    }
}

/// The fields of a text, with a comma between each two, are the text, and none holds a comma.
pub proof fn lemma_fields_rejoin(s: Seq<char>)
    ensures
        fields(s).len() >= 1,
        joined(fields(s)) == s,
        forall|i: int| 0 <= i < fields(s).len() ==> no_comma(#[trigger] fields(s)[i]),
    decreases s.len(),
{
    lemma_fields_not_empty(s);
    if s.len() == 0 {
        assert(joined(fields(s)) =~= s);
    } else {
        let t = s.drop_last();
        lemma_fields_rejoin(t);
        let before = fields(t);
        assert(t.push(s.last()) =~= s);
        if s.last() == ',' {
            assert(fields(s).drop_last() =~= before);
            assert(joined(before) + seq![','] + Seq::<char>::empty() =~= s);
        } else {
            lemma_joined_extended(before, s.last());
        }
    }
}

/// Fields without commas, joined by commas, are the fields of what they make.
pub proof fn lemma_joined_fields(f: Seq<Seq<char>>)
    requires
        f.len() > 0,
        forall|i: int| 0 <= i < f.len() ==> no_comma(#[trigger] f[i]),
    ensures
        fields(joined(f)) == f,
    decreases f.len(),
{
    if f.len() == 1 {
        let empty = Seq::<char>::empty();
        lemma_fields_extended(empty, f[0]);
        assert(empty + f[0] =~= f[0]);
        assert(fields(empty) =~= seq![empty]);
        assert(fields(f[0]) =~= f);
    } else {
        lemma_joined_fields(f.drop_last());
        assert(no_comma(f[f.len() - 1]));
        lemma_fields_next(joined(f.drop_last()), f.last());
        assert(f.drop_last().push(f.last()) =~= f);
    }
}

/// Whether `t` is what is left of `s` when the margin `from..` and `..to` is cut off: everything
/// before and after belongs to the margin, and neither end of `t` does.
pub open spec fn is_cut(s: Seq<char>, t: Seq<char>, margin: Margin, from: int, to: int) -> bool {
    &&& 0 <= from <= to <= s.len()
    &&& t == s.subrange(from, to)
    &&& forall|i: int| 0 <= i < from ==> in_margin(margin, #[trigger] s[i])
    &&& forall|i: int| to <= i < s.len() ==> in_margin(margin, #[trigger] s[i])
    &&& t.len() > 0 ==> !in_margin(margin, t[0]) && !in_margin(margin, t.last())
}

proof fn lemma_strip_start_cut(s: Seq<char>, margin: Margin) -> (from: int)
    ensures
        0 <= from <= s.len(),
        strip_start(s, margin) == s.skip(from),
        forall|i: int| 0 <= i < from ==> in_margin(margin, #[trigger] s[i]),
        from < s.len() ==> !in_margin(margin, s[from]),
    decreases s.len(),
{
    if s.len() > 0 && in_margin(margin, s[0]) {
        let rest = s.drop_first();
        let n = lemma_strip_start_cut(rest, margin);
        assert(rest.skip(n) =~= s.skip(n + 1));
        assert forall|i: int| 0 <= i < n + 1 implies in_margin(margin, #[trigger] s[i]) by {
            if i > 0 {
                assert(rest[i - 1] == s[i]);
            }
        }
        n + 1
    } else {
        assert(s.skip(0) =~= s);
        0
    }
}

proof fn lemma_strip_end_cut(s: Seq<char>, margin: Margin) -> (to: int)
    ensures
        0 <= to <= s.len(),
        strip_end(s, margin) == s.take(to),
        forall|i: int| to <= i < s.len() ==> in_margin(margin, #[trigger] s[i]),
        to > 0 ==> !in_margin(margin, s[to - 1]),
    decreases s.len(),
{
    if s.len() > 0 && in_margin(margin, s.last()) {
        let rest = s.drop_last();
        let n = lemma_strip_end_cut(rest, margin);
        assert(rest.take(n) =~= s.take(n));
        assert forall|i: int| n <= i < s.len() implies in_margin(margin, #[trigger] s[i]) by {
            if i < rest.len() {
                assert(rest[i] == s[i]);
            }
        }
        n
    } else {
        assert(s.take(s.len() as int) =~= s);
        s.len() as int
    }
}

/// Stripping cuts off exactly the margins.
pub proof fn lemma_strip_cuts_margins(s: Seq<char>, margin: Margin)
    ensures
        exists|from: int, to: int| is_cut(s, strip(s, margin), margin, from, to),
{
    let from = lemma_strip_start_cut(s, margin);
    let rest = s.skip(from);
    let n = lemma_strip_end_cut(rest, margin);
    let to = from + n;
    let t = strip(s, margin);
    assert(rest.take(n) =~= s.subrange(from, to));
    assert forall|i: int| to <= i < s.len() implies in_margin(margin, #[trigger] s[i]) by {
        assert(rest[i - from] == s[i]);
    }
    if t.len() > 0 {
        assert(t[0] == s[from]);
        assert(t.last() == rest[n - 1]);
    }
    assert(is_cut(s, t, margin, from, to));
}

/// Ten to a sum is the product of the powers.
pub proof fn lemma_ten_to_adds(a: nat, b: nat)
    ensures
        ten_to(0) == 1,
        ten_to(1) == 10,
        ten_to(2) == 100,
        ten_to(3) == 1000,
        ten_to(a + b) == ten_to(a) * ten_to(b),
        ten_to(a) > 0,
    decreases a,
{
    reveal_with_fuel(ten_to, 4);
    if a == 0 {
        assert(1 * ten_to(b) == ten_to(b));
    } else {
        lemma_ten_to_adds((a - 1) as nat, b);
        let x = ten_to((a - 1) as nat) as int;
        let y = ten_to(b) as int;
        assert((10 * x) * y == 10 * (x * y)) by (nonlinear_arith);
        assert((a - 1) as nat + b == (a + b - 1) as nat);
    }
}

/// Digits count by their place: those in front of `n` others count ten to the power `n` times.
pub proof fn lemma_digits_positional(s: Seq<char>, t: Seq<char>)
    ensures
        digits_value(s + t) == digits_value(s) * ten_to(t.len()) + digits_value(t),
    decreases t.len(),
{
    if t.len() == 0 {
        assert(s + t =~= s);
        assert(digits_value(s) * 1 == digits_value(s));
    } else {
        let u = t.drop_last();
        lemma_digits_positional(s, u);
        assert((s + t).drop_last() =~= s + u);
        let a = digits_value(s) as int;
        let p = ten_to(u.len()) as int;
        assert((a * p) * 10 == a * (10 * p)) by (nonlinear_arith);
    }
}

/// The digits from zero to nine stand for these numbers.
pub proof fn lemma_single_digits(d: int)
    requires
        0 <= d <= 9,
    ensures
        digits_value(Seq::<char>::empty()) == 0,
        digits_value(seq!['0']) == 0,
        digits_value(seq!['1']) == 1,
        digits_value(seq!['2']) == 2,
        digits_value(seq!['3']) == 3,
        digits_value(seq!['4']) == 4,
        digits_value(seq!['5']) == 5,
        digits_value(seq!['6']) == 6,
        digits_value(seq!['7']) == 7,
        digits_value(seq!['8']) == 8,
        digits_value(seq!['9']) == 9,
        is_digit((0x30 + d) as char),
{
    reveal_with_fuel(digits_value, 2);
}

/// A character is a digit exactly if it is one of ten.
pub proof fn lemma_ten_digits(c: char)
    ensures
        is_digit(c) <==> c == '0' || c == '1' || c == '2' || c == '3' || c == '4' || c == '5' || c
            == '6' || c == '7' || c == '8' || c == '9',
{
}

/// The signed value of some digits.
pub open spec fn signed_value(digits: Seq<char>, negative: bool) -> int {
    if negative {
        -(digits_value(digits) as int)
    } else {
        digits_value(digits) as int
    }
}

proof fn lemma_digits_read_exactly(s: Seq<char>, negative: bool)
    requires
        all_digits(s),
    ensures
        i32::MIN <= signed_value(s, negative) <= i32::MAX ==> read_digits(s, negative) == Ok::<
            i32,
            WholeFault,
        >(signed_value(s, negative) as i32),
        signed_value(s, negative) > i32::MAX ==> read_digits(s, negative) == Err::<i32, WholeFault>(
            WholeFault::TooLarge,
        ),
        signed_value(s, negative) < i32::MIN ==> read_digits(s, negative) == Err::<i32, WholeFault>(
            WholeFault::TooSmall,
        ),
    decreases s.len(),
{
    if s.len() > 0 {
        let t = s.drop_last();
        assert forall|i: int| 0 <= i < t.len() implies is_digit(#[trigger] t[i]) by {
            assert(is_digit(s[i]));
        }
        lemma_digits_read_exactly(t, negative);
        assert(is_digit(s[s.len() - 1]));
    }
}

/// A sample is read from an optional sign and digits. The digits run up to `n`, where the text ends
/// or another character stands: their value is the sample if nothing else follows and it fits in 32
/// bits; a value that does not fit is told first, then another character.
pub proof fn lemma_sample_read_exactly(sign: Seq<char>, s: Seq<char>, n: nat)
    requires
        sign == Seq::<char>::empty() || sign == seq!['+'] || sign == seq!['-'],
        n <= s.len(),
        sign.len() == 0 && s.len() > 0 ==> s[0] != '+' && s[0] != '-',
        all_digits(s.take(n as int)),
        n < s.len() ==> !is_digit(s[n as int]),
    ensures
        ({
            let read = whole_number(sign + s);
            let value = signed_value(s.take(n as int), sign == seq!['-']);
            if s.len() == 0 {
                read == Err::<i32, WholeFault>(
                    if sign.len() == 0 {
                        WholeFault::Empty
                    } else {
                        WholeFault::InvalidDigit
                    },
                )
            } else if value > i32::MAX {
                read == Err::<i32, WholeFault>(WholeFault::TooLarge)
            } else if value < i32::MIN {
                read == Err::<i32, WholeFault>(WholeFault::TooSmall)
            } else if n < s.len() {
                read == Err::<i32, WholeFault>(WholeFault::InvalidDigit)
            } else {
                read == Ok::<i32, WholeFault>(value as i32)
            }
        }),
{
    let text = sign + s;
    let negative = sign == seq!['-'];
    if sign.len() == 0 {
        assert(text =~= s);
        assert(!negative) by {
            if negative {
                assert(sign[0] == '-');
            }
        }
    } else {
        assert(text.drop_first() =~= s);
        assert(text[0] == sign[0]);
        if negative {
            assert(sign[0] == '-');
        } else {
            assert(sign == seq!['+']);
            assert(sign[0] == '+');
        }
    }
    if s.len() > 0 {
        let front = s.take(n as int);
        lemma_digits_read_exactly(front, negative);
        if n < s.len() {
            if read_digits(front, negative) is Err {
                lemma_fault_stays(s, n, negative);
            } else {
                let more = s.take(n as int + 1);
                assert(more.drop_last() =~= front);
                assert(more.last() == s[n as int]);
                lemma_fault_stays(s, n + 1, negative);
            }
        } else {
            assert(front =~= s);
        }
    }
}

/// Whether `tail` is an exponent that stands for `e`: nothing for zero, or the letter e in either
/// case, an optional sign, and digits.
pub open spec fn is_exponent_text(tail: Seq<char>, e: int) -> bool {
    ||| tail.len() == 0 && e == 0
    ||| exists|letter: char, sign: Seq<char>, digits: Seq<char>|
        #[trigger] is_exponent_of(tail, letter, sign, digits, e)
}

/// The parts of an exponent.
pub open spec fn is_exponent_of(
    tail: Seq<char>,
    letter: char,
    sign: Seq<char>,
    digits: Seq<char>,
    e: int,
) -> bool {
    &&& letter == 'e' || letter == 'E'
    &&& sign == Seq::<char>::empty() || sign == seq!['+'] || sign == seq!['-']
    &&& digits.len() > 0
    &&& all_digits(digits)
    &&& tail == seq![letter] + sign + digits
    &&& e == if sign == seq!['-'] {
        -(digits_value(digits) as int)
    } else {
        digits_value(digits) as int
    }
}

proof fn lemma_exponent_read(tail: Seq<char>, e: int)
    requires
        is_exponent_text(tail, e),
    ensures
        exponent(tail) == Some(e),
        tail.len() > 0 ==> !is_digit(tail[0]) && tail[0] != '.',
{
    if tail.len() > 0 {
        let (letter, sign, digits) = choose|letter: char, sign: Seq<char>, digits: Seq<char>|
            #[trigger] is_exponent_of(tail, letter, sign, digits, e);
        let start = 1 + sign.len();
        assert(tail[0] == letter);
        assert forall|j: int| start <= j < tail.len() implies is_digit(#[trigger] tail[j]) by {
            assert(tail[j] == digits[j - start]);
        }
        if sign.len() == 0 {
            assert(tail[1] == digits[0]);
            assert(is_digit(tail[1]));
        } else {
            assert(tail[1] == sign[0]);
            if sign == seq!['-'] {
                assert(sign[0] == '-');
            } else {
                assert(sign == seq!['+']);
                assert(sign[0] == '+');
            }
        }
        lemma_digits_end(tail, start, tail.len());
        assert(tail.subrange(start as int, tail.len() as int) =~= digits);
    }
}

/// A time is read from an optional sign, digits with an optional point among them, and an optional
/// exponent: the number is the one nearest to what is written, whatever the number of digits on
/// either side of the point. With `a - b` the exponent less the digits after the point, that is all
/// digits as one number, times ten to the power `a`, over ten to the power `b`.
pub proof fn lemma_time_read_exactly(
    sign: Seq<char>,
    whole: Seq<char>,
    point: Seq<char>,
    part: Seq<char>,
    tail: Seq<char>,
    e: int,
    a: nat,
    b: nat,
)
    requires
        sign == Seq::<char>::empty() || sign == seq!['+'] || sign == seq!['-'],
        all_digits(whole),
        all_digits(part),
        whole.len() + part.len() > 0,
        point == seq!['.'] || point.len() == 0 && part.len() == 0,
        is_exponent_text(tail, e),
        a - b == e - part.len(),
    ensures
        ({
            let read = decimal_number(sign + whole + point + part + tail);
            &&& read is Ok
            &&& read->Ok_0.negative() == (sign == seq!['-'])
            &&& read->Ok_0.magnitude() == nearest(
                digits_value(whole + part) * ten_to(a) * one(),
                ten_to(b),
            )
            &&& !read->Ok_0.is_nan()
        }),
{
    let s = whole + point + part + tail;
    let d = Decimal { mantissa: digits_value(whole + part), exponent: e - part.len() };
    lemma_unsigned_read(whole, point, part, tail, e);
    lemma_signed_read(sign, s, d);
    assert(sign + whole + point + part + tail =~= sign + s);
    lemma_decimal_scaled(d, a, b);
}

proof fn lemma_unsigned_read(
    whole: Seq<char>,
    point: Seq<char>,
    part: Seq<char>,
    tail: Seq<char>,
    e: int,
)
    requires
        all_digits(whole),
        all_digits(part),
        whole.len() + part.len() > 0,
        point == seq!['.'] || point.len() == 0 && part.len() == 0,
        is_exponent_text(tail, e),
    ensures
        ({
            let s = whole + point + part + tail;
            &&& decimal(s) == Some(
                Decimal { mantissa: digits_value(whole + part), exponent: e - part.len() },
            )
            &&& s.len() > 0
            &&& is_digit(s[0]) || s[0] == '.'
        }),
{
    let s = whole + point + part + tail;
    let n = whole.len();
    let m = n + point.len() + part.len();
    lemma_exponent_read(tail, e);
    assert forall|j: int| 0 <= j < n implies is_digit(#[trigger] s[j]) by {
        assert(s[j] == whole[j]);
    }
    assert forall|j: int| n + point.len() <= j < m implies is_digit(#[trigger] s[j]) by {
        assert(s[j] == part[j - n - point.len()]);
    }
    if m < s.len() {
        assert(s[m as int] == tail[0]);
    }
    if point.len() > 0 {
        assert(s[n as int] == point[0]);
        lemma_digits_end(s, 0, n);
        lemma_digits_end(s, n + 1, m);
        assert(s.subrange(n as int + 1, m as int) =~= part);
    } else {
        lemma_digits_end(s, 0, n);
        assert(s.subrange(n as int, n as int) =~= part);
    }
    assert(s.subrange(0, n as int) =~= whole);
    assert(s.subrange(m as int, s.len() as int) =~= tail);
    if n == 0 {
        assert(s[0] == point[0]);
    }
}

proof fn lemma_signed_read(sign: Seq<char>, s: Seq<char>, d: Decimal)
    requires
        sign == Seq::<char>::empty() || sign == seq!['+'] || sign == seq!['-'],
        s.len() > 0,
        is_digit(s[0]) || s[0] == '.',
        decimal(s) == Some(d),
    ensures
        decimal_number(sign + s) == Ok::<Double, DecimalFault>(
            signed(sign == seq!['-'], decimal_magnitude(d)),
        ),
{
    let text = sign + s;
    if sign.len() > 0 {
        assert(text.drop_first() =~= s);
        assert(text[0] == sign[0]);
        if sign == seq!['-'] {
            assert(sign[0] == '-');
        } else {
            assert(sign == seq!['+']);
            assert(sign[0] == '+');
        }
    } else {
        assert(text =~= s);
        if sign == seq!['-'] {
            assert(sign[0] == '-');
        }
    }
    assert(!spells(s, seq!['n', 'a', 'n']));
    assert(!spells(s, seq!['i', 'n', 'f']));
    assert(!spells(s, seq!['i', 'n', 'f', 'i', 'n', 'i', 't', 'y']));
}

/// A decimal number may be written over any power of ten.
proof fn lemma_decimal_scaled(d: Decimal, a: nat, b: nat)
    requires
        a - b == d.exponent,
    ensures
        decimal_magnitude(d) == nearest(d.mantissa * ten_to(a) * one(), ten_to(b)),
        decimal_magnitude(d) <= INFINITE,
{
    let x = d.mantissa as int;
    let o = one() as int;
    lemma_ten_to_adds(a, 0);
    lemma_ten_to_adds(b, 0);
    let p = ten_to(a) as int;
    let q = ten_to(b) as int;
    if d.exponent >= 0 {
        let k = d.exponent as nat;
        lemma_ten_to_adds(k, b);
        let t = ten_to(k) as int;
        assert((x * t * o) * q == (x * (t * q) * o) * 1) by (nonlinear_arith);
        assert(k + b == a);
        lemma_nearest_of_equal((x * t * o) as nat, 1, (x * p * o) as nat, q as nat);
        lemma_nearest_exists((x * t * o) as nat, 1);
    } else {
        let k = (-d.exponent) as nat;
        lemma_ten_to_adds(k, a);
        lemma_ten_to_adds(k, 0);
        let t = ten_to(k) as int;
        assert((x * o) * (t * p) == (x * p * o) * t) by (nonlinear_arith);
        assert(k + a == b);
        lemma_nearest_of_equal((x * o) as nat, t as nat, (x * p * o) as nat, q as nat);
        lemma_nearest_exists((x * o) as nat, t as nat);
    }
}

proof fn lemma_digits_up_to_end(s: Seq<char>, i: nat)
    requires
        i <= s.len(),
    ensures
        i <= digits_end(s, i) <= s.len(),
        forall|j: int| i <= j < digits_end(s, i) ==> is_digit(#[trigger] s[j]),
    decreases s.len() - i,
{
    if i < s.len() && is_digit(s[i as int]) {
        lemma_digits_up_to_end(s, i + 1);
    }
}

proof fn lemma_exponent_shape(tail: Seq<char>)
    requires
        exponent(tail) is Some,
    ensures
        is_exponent_text(tail, exponent(tail)->0),
{
    if tail.len() > 0 {
        let start: nat = if tail.len() > 1 && is_sign(tail[1]) {
            2
        } else {
            1
        };
        let sign = tail.subrange(1, start as int);
        let digits = tail.subrange(start as int, tail.len() as int);
        lemma_digits_up_to_end(tail, start);
        assert forall|i: int| 0 <= i < digits.len() implies is_digit(#[trigger] digits[i]) by {
            assert(digits[i] == tail[start + i]);
        }
        assert(tail =~= seq![tail[0]] + sign + digits);
        if start == 2 {
            assert(sign =~= seq![tail[1]]);
            if tail[1] == '-' {
                assert(sign == seq!['-']);
            } else {
                assert(sign == seq!['+']);
                assert(sign[0] == '+');
            }
        } else {
            assert(sign =~= Seq::<char>::empty());
            assert(is_digit(tail[1]));
            if sign == seq!['-'] {
                assert(sign[0] == '-');
            }
        }
        assert(is_exponent_of(tail, tail[0], sign, digits, exponent(tail)->0));
    }
}

/// Whether a text is an optional sign, digits with an optional point among them, and an optional
/// exponent.
pub open spec fn is_time_of(
    text: Seq<char>,
    sign: Seq<char>,
    whole: Seq<char>,
    point: Seq<char>,
    part: Seq<char>,
    tail: Seq<char>,
    e: int,
) -> bool {
    &&& sign == Seq::<char>::empty() || sign == seq!['+'] || sign == seq!['-']
    &&& all_digits(whole)
    &&& all_digits(part)
    &&& whole.len() + part.len() > 0
    &&& point == seq!['.'] || point.len() == 0 && part.len() == 0
    &&& is_exponent_text(tail, e)
    &&& text == sign + whole + point + part + tail
}

/// Whether a text is one of the words for the infinities and for no number, in letters of either
/// case.
pub open spec fn is_word(s: Seq<char>) -> bool {
    ||| s.len() == 3 && is_letter(s[0], 'n') && is_letter(s[1], 'a') && is_letter(s[2], 'n')
    ||| is_infinity_word(s)
}

/// Whether a text is one of the words for the infinities, in letters of either case.
pub open spec fn is_infinity_word(s: Seq<char>) -> bool {
    &&& s.len() == 3 || s.len() == 8
    &&& is_letter(s[0], 'i') && is_letter(s[1], 'n') && is_letter(s[2], 'f')
    &&& s.len() == 8 ==> is_letter(s[3], 'i') && is_letter(s[4], 'n') && is_letter(s[5], 'i')
        && is_letter(s[6], 't') && is_letter(s[7], 'y')
}

/// Whether `c` is the small letter `small` or its capital.
pub open spec fn is_letter(c: char, small: char) -> bool {
    c == small || c as u32 + 0x20 == small as u32
}

proof fn lemma_words(s: Seq<char>)
    ensures
        spells(s, seq!['i', 'n', 'f']) || spells(
            s,
            seq!['i', 'n', 'f', 'i', 'n', 'i', 't', 'y'],
        ) <==> is_infinity_word(s),
        spells(s, seq!['n', 'a', 'n']) || is_infinity_word(s) <==> is_word(s),
{
}

/// A text that is read as a time is a number as it is written, or an optional sign and one of the
/// words; nothing else is, and of the empty text it is told that it is empty.
pub proof fn lemma_only_times_are_read(text: Seq<char>)
    ensures
        decimal_number(text) is Ok ==> {
            ||| exists|
                sign: Seq<char>,
                whole: Seq<char>,
                point: Seq<char>,
                part: Seq<char>,
                tail: Seq<char>,
                e: int,
            | #[trigger] is_time_of(text, sign, whole, point, part, tail, e)
            ||| is_word(text)
            ||| text.len() > 0 && (text[0] == '+' || text[0] == '-') && is_word(text.drop_first())
        },
        decimal_number(text) == Err::<Double, DecimalFault>(DecimalFault::Empty) <==> text.len()
            == 0,
{
    if decimal_number(text) is Ok {
        let has_sign = is_sign(text[0]);
        let sign = if has_sign {
            seq![text[0]]
        } else {
            Seq::empty()
        };
        let s = if has_sign {
            text.drop_first()
        } else {
            text
        };
        lemma_words(s);
        if !is_word(s) {
            let (whole, point, part, tail) = lemma_decimal_shape(s);
            let e = exponent(tail)->0;
            if has_sign {
                assert(text =~= sign + s);
                if text[0] == '-' {
                    assert(sign == seq!['-']);
                } else {
                    assert(sign == seq!['+']);
                }
            } else {
                assert(text =~= sign + s);
            }
            assert(sign + s =~= sign + whole + point + part + tail);
            assert(is_time_of(text, sign, whole, point, part, tail, e));
        }
    }
}

proof fn lemma_decimal_shape(s: Seq<char>) -> (r: (Seq<char>, Seq<char>, Seq<char>, Seq<char>))
    requires
        decimal(s) is Some,
    ensures
        all_digits(r.0),
        r.1 == seq!['.'] || r.1.len() == 0 && r.2.len() == 0,
        all_digits(r.2),
        r.0.len() + r.2.len() > 0,
        exponent(r.3) is Some,
        is_exponent_text(r.3, exponent(r.3)->0),
        s == r.0 + r.1 + r.2 + r.3,
{
    let whole_end = digits_end(s, 0);
    let pointed = whole_end < s.len() && s[whole_end as int] == '.';
    lemma_digits_up_to_end(s, 0);
    let part_start = if pointed {
        whole_end + 1
    } else {
        whole_end
    };
    if pointed {
        lemma_digits_up_to_end(s, part_start);
    }
    let part_end = if pointed {
        digits_end(s, part_start)
    } else {
        whole_end
    };
    let whole = s.subrange(0, whole_end as int);
    let point = s.subrange(whole_end as int, part_start as int);
    let part = s.subrange(part_start as int, part_end as int);
    let tail = s.subrange(part_end as int, s.len() as int);
    lemma_exponent_shape(tail);
    assert forall|i: int| 0 <= i < whole.len() implies is_digit(#[trigger] whole[i]) by {
        assert(whole[i] == s[i]);
    }
    assert forall|i: int| 0 <= i < part.len() implies is_digit(#[trigger] part[i]) by {
        assert(part[i] == s[part_start + i]);
    }
    if pointed {
        assert(point =~= seq!['.']);
    }
    assert(whole + point + part + tail =~= s);
    (whole, point, part, tail)
}

/// The words are read as what they say, with their sign.
pub proof fn lemma_words_read(sign: Seq<char>, word: Seq<char>)
    requires
        sign == Seq::<char>::empty() || sign == seq!['+'] || sign == seq!['-'],
        is_word(word),
    ensures
        ({
            let read = decimal_number(sign + word);
            &&& read is Ok
            &&& read->Ok_0.negative() == (sign == seq!['-'])
            &&& read->Ok_0.is_infinite() <==> is_infinity_word(word)
            &&& read->Ok_0.is_nan() <==> !is_infinity_word(word)
        }),
{
    let text = sign + word;
    lemma_words(word);
    if sign.len() > 0 {
        assert(text.drop_first() =~= word);
        assert(text[0] == sign[0]);
        if sign == seq!['-'] {
            assert(sign[0] == '-');
        } else {
            assert(sign == seq!['+']);
            assert(sign[0] == '+');
        }
    } else {
        assert(text =~= word);
        if sign == seq!['-'] {
            assert(sign[0] == '-');
        }
    }
}

} // verus!
