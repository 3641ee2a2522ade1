//! Numbers in text: whole samples and decimal times.

use crate::bignat::{BigNat, Relation};
use crate::double::{
    lemma_units_increase, one, signed, units, Double, BINADE, INFINITE, NOT_A_NUMBER, SIGN,
};
use crate::rounding::{lemma_nearest_is, nearest, round_quotient, rounds_above};
use crate::text::{digit_value, is_digit};
use vstd::arithmetic::power2::{
    lemma2_to64, lemma2_to64_rest, lemma_pow2_adds, lemma_pow2_pos, lemma_pow2_strictly_increases,
    pow2,
};
use vstd::prelude::*;

verus! {

/// Why a text is no whole number of 32 bits.
#[derive(Clone, Copy, Debug, PartialEq, Eq, Structural)]
pub enum WholeFault {
    Empty,
    InvalidDigit,
    TooLarge,
    TooSmall,
}

/// Why a text is no decimal number.
#[derive(Clone, Copy, Debug, PartialEq, Eq, Structural)]
pub enum DecimalFault {
    Empty,
    Invalid,
}

/// Reads digits from the left and stops at the first fault.
pub open spec fn read_digits(s: Seq<char>, negative: bool) -> Result<i32, WholeFault>
    decreases s.len(),
{
    if s.len() == 0 {
        Ok(0)
    } else {
        match read_digits(s.drop_last(), negative) {
            Err(fault) => Err(fault),
            Ok(v) => {
                let d = digit_value(s.last()) as int;
                let w = if negative { v * 10 - d } else { v * 10 + d };
                if !is_digit(s.last()) {
                    Err(WholeFault::InvalidDigit)
                } else if w > i32::MAX {
                    Err(WholeFault::TooLarge)
                } else if w < i32::MIN {
                    Err(WholeFault::TooSmall)
                } else {
                    Ok(w as i32)
                }
            },
        }
    }
}

/// Whether `c` is a sign.
pub open spec fn is_sign(c: char) -> bool {
    c == '+' || c == '-'
}

/// The whole number that a text writes: an optional sign, then digits.
pub open spec fn whole_number(s: Seq<char>) -> Result<i32, WholeFault> {
    if s.len() == 0 {
        Err(WholeFault::Empty)
    } else if is_sign(s[0]) && s.len() == 1 {
        Err(WholeFault::InvalidDigit)
    } else if is_sign(s[0]) {
        read_digits(s.drop_first(), s[0] == '-')
    } else {
        read_digits(s, false)
    }
}

fn is_digit_char(c: char) -> (r: bool)
    ensures
        r == is_digit(c),
{
    let n: u32 = c as u32;
    0x30 <= n && n <= 0x39
}

fn parse_digits(text: &Vec<char>, from: usize, to: usize, negative: bool) -> (r: Result<
    i32,
    WholeFault,
>)
    requires
        from <= to <= text@.len(),
    ensures
        r == read_digits(text@.subrange(from as int, to as int), negative),
{
    let ghost part = text@.subrange(from as int, to as int);
    let mut value: i32 = 0;
    let mut i: usize = from;
    while i < to
        invariant
            from <= i <= to <= text@.len(),
            part == text@.subrange(from as int, to as int),
            read_digits(part.take(i - from), negative) == Ok::<i32, WholeFault>(value),
        decreases to - i,
    {
        let c: char = text[i];
        let ghost seen = part.take(i + 1 - from);
        proof {
            assert(seen.drop_last() =~= part.take(i - from));
            assert(seen.last() == c);
            if read_digits(seen, negative) is Err {
                lemma_fault_stays(part, (i + 1 - from) as nat, negative);
            }
        }
        if !is_digit_char(c) {
            return Err(WholeFault::InvalidDigit);
        }
        let d: i64 = (c as u32 - 0x30) as i64;
        let w: i64 = if negative {
            (value as i64) * 10 - d
        } else {
            (value as i64) * 10 + d
        };
        if w > 0x7fff_ffff {
            return Err(WholeFault::TooLarge);
        }
        if w < -0x8000_0000 {
            return Err(WholeFault::TooSmall);
        }
        value = w as i32;
        i = i + 1;
    }
    assert(part.take(to - from) =~= part);
    Ok(value)
}

/// Reads the part `from..to` of a text as a whole number.
pub fn parse_whole(text: &Vec<char>, from: usize, to: usize) -> (r: Result<i32, WholeFault>)
    requires
        from <= to <= text@.len(),
    ensures
        r == whole_number(text@.subrange(from as int, to as int)),
{
    let ghost part = text@.subrange(from as int, to as int);
    if from == to {
        return Err(WholeFault::Empty);
    }
    assert(part[0] == text@[from as int]);
    let first: char = text[from];
    if first == '+' || first == '-' {
        if to - from == 1 {
            return Err(WholeFault::InvalidDigit);
        }
        assert(text@.subrange(from + 1, to as int) =~= part.drop_first());
        parse_digits(text, from + 1, to, first == '-')
    } else {
        parse_digits(text, from, to, false)
    }
}

/// A fault in the first digits is the fault of the whole.
pub proof fn lemma_fault_stays(s: Seq<char>, n: nat, negative: bool)
    requires
        n <= s.len(),
        read_digits(s.take(n as int), negative) is Err,
    ensures
        read_digits(s, negative) == read_digits(s.take(n as int), negative),
    decreases s.len(),
{
    if n == s.len() {
        assert(s.take(n as int) =~= s);
    } else {
        assert(s.drop_last().take(n as int) =~= s.take(n as int));
        lemma_fault_stays(s.drop_last(), n, negative);
    }
}

/// The place of the first character at or after `i` that is no digit.
pub open spec fn digits_end(s: Seq<char>, i: nat) -> nat
    decreases s.len() - i,
{
    if i < s.len() && is_digit(s[i as int]) {
        digits_end(s, i + 1)
    } else {
        i
    }
}

/// The number that a row of digits writes.
pub open spec fn digits_value(s: Seq<char>) -> nat
    decreases s.len(),
{
    if s.len() == 0 {
        0
    } else {
        digits_value(s.drop_last()) * 10 + digit_value(s.last())
    }
}

/// A decimal number: `mantissa` times ten to the power `exponent`.
pub struct Decimal {
    pub mantissa: nat,
    pub exponent: int,
}

/// Reads digits with an optional point among them, then an optional exponent.
pub open spec fn decimal(s: Seq<char>) -> Option<Decimal> {
    let whole_end = digits_end(s, 0);
    let pointed = whole_end < s.len() && s[whole_end as int] == '.';
    let part_start = if pointed {
        whole_end + 1
    } else {
        whole_end
    };
    let part_end = if pointed {
        digits_end(s, part_start)
    } else {
        whole_end
    };
    let digits = s.subrange(0, whole_end as int) + s.subrange(part_start as int, part_end as int);
    if digits.len() == 0 {
        None
    } else {
        match exponent(s.subrange(part_end as int, s.len() as int)) {
            None => None,
            Some(e) => Some(
                Decimal { mantissa: digits_value(digits), exponent: e - (part_end - part_start) },
            ),
        }
    }
}

/// Reads what follows the digits: nothing, or the letter e, an optional sign and digits.
pub open spec fn exponent(s: Seq<char>) -> Option<int> {
    if s.len() == 0 {
        Some(0)
    } else if s[0] != 'e' && s[0] != 'E' {
        None
    } else {
        let start: nat = if s.len() > 1 && is_sign(s[1]) {
            2
        } else {
            1
        };
        if start < s.len() && digits_end(s, start) == s.len() {
            let n = digits_value(s.subrange(start as int, s.len() as int)) as int;
            Some(
                if s[1] == '-' {
                    -n
                } else {
                    n
                },
            )
        } else {
            None
        }
    }
}

/// Ten to the power `n`.
pub open spec fn ten_to(n: nat) -> nat
    decreases n,
{
    if n == 0 {
        1
    } else {
        10 * ten_to((n - 1) as nat)
    }
}

/// The magnitude nearest to a decimal number.
pub open spec fn decimal_magnitude(d: Decimal) -> nat {
    if d.exponent >= 0 {
        nearest(d.mantissa * ten_to(d.exponent as nat) * one(), 1)
    } else {
        nearest(d.mantissa * one(), ten_to((-d.exponent) as nat))
    }
}

/// Whether `s` is `word` in letters of either case.
pub open spec fn spells(s: Seq<char>, word: Seq<char>) -> bool {
    &&& s.len() == word.len()
    &&& forall|i: int|
        0 <= i < s.len() ==> (#[trigger] s[i] == word[i] || s[i] as u32 + 0x20 == word[i] as u32)
}

/// The number that a text writes: an optional sign, then a decimal number, the nearest binary64
/// number of which is taken, or one of the words for the infinities and for no number.
pub open spec fn decimal_number(s: Seq<char>) -> Result<Double, DecimalFault> {
    if s.len() == 0 {
        Err(DecimalFault::Empty)
    } else {
        let negative = s[0] == '-';
        let rest = if is_sign(s[0]) {
            s.drop_first()
        } else {
            s
        };
        if spells(rest, seq!['n', 'a', 'n']) {
            Ok(signed(negative, NOT_A_NUMBER as nat))
        } else if spells(rest, seq!['i', 'n', 'f']) || spells(
            rest,
            seq!['i', 'n', 'f', 'i', 'n', 'i', 't', 'y'],
        ) {
            Ok(signed(negative, INFINITE as nat))
        } else {
            match decimal(rest) {
                None => Err(DecimalFault::Invalid),
                Some(d) => Ok(signed(negative, decimal_magnitude(d))),
            }
        }
    }
}

/// Exponents at least this large are not kept exactly: they round to infinity or to zero.
const EXPONENT_CAP: u128 = 0x1_0000_0000_0000_0000_0000;

/// Whether `kept` decides as `exact` does where it is compared with a count of characters.
spec fn stands_for(kept: int, exact: int, cap: int) -> bool {
    ||| kept == exact
    ||| kept >= cap && exact >= cap
    ||| kept <= -cap && exact <= -cap
}

fn copy_range(text: &Vec<char>, from: usize, to: usize) -> (r: Vec<char>)
    requires
        from <= to <= text@.len(),
    ensures
        r@ == text@.subrange(from as int, to as int),
{
    let mut out: Vec<char> = Vec::new();
    let mut i: usize = from;
    while i < to
        invariant
            from <= i <= to <= text@.len(),
            out@ =~= text@.subrange(from as int, i as int),
        decreases to - i,
    {
        out.push(text[i]);
        i = i + 1;
    }
    out
}

fn skip_digits(s: &Vec<char>, from: usize) -> (r: usize)
    requires
        from <= s@.len(),
    ensures
        r as nat == digits_end(s@, from as nat),
        from <= r <= s@.len(),
        forall|i: int| from <= i < r ==> is_digit(#[trigger] s@[i]),
{
    let mut i: usize = from;
    while i < s.len() && is_digit_char(s[i])
        invariant
            from <= i <= s@.len(),
            digits_end(s@, from as nat) == digits_end(s@, i as nat),
            forall|j: int| from <= j < i ==> is_digit(#[trigger] s@[j]),
        decreases s@.len() - i,
    {
        i = i + 1;
    }
    i
}

fn capped_digits(s: &Vec<char>, from: usize, to: usize) -> (r: u128)
    requires
        from <= to <= s@.len(),
        forall|i: int| from <= i < to ==> is_digit(#[trigger] s@[i]),
    ensures
        r < EXPONENT_CAP ==> r == digits_value(s@.subrange(from as int, to as int)),
        r >= EXPONENT_CAP ==> digits_value(s@.subrange(from as int, to as int)) >= EXPONENT_CAP,
        r < 11 * EXPONENT_CAP,
{
    let mut value: u128 = 0;
    let mut i: usize = from;
    while i < to
        invariant
            from <= i <= to <= s@.len(),
            forall|i: int| from <= i < to ==> is_digit(#[trigger] s@[i]),
            value < EXPONENT_CAP ==> value == digits_value(s@.subrange(from as int, i as int)),
            value >= EXPONENT_CAP ==> digits_value(s@.subrange(from as int, i as int))
                >= EXPONENT_CAP,
            value < 11 * EXPONENT_CAP,
        decreases to - i,
    {
        let c: char = s[i];
        assert(is_digit(s@[i as int]));
        assert(s@.subrange(from as int, i + 1).drop_last() =~= s@.subrange(from as int, i as int));
        if value < EXPONENT_CAP {
            value = value * 10 + ((c as u32 - 0x30) as u128);
        }
        i = i + 1;
    }
    value
}

fn parse_exponent(s: &Vec<char>) -> (r: Option<i128>)
    ensures
        r is Some <==> exponent(s@) is Some,
        r is Some ==> stands_for(r->0 as int, exponent(s@)->0, EXPONENT_CAP as int),
        r is Some ==> -11 * EXPONENT_CAP < r->0 < 11 * EXPONENT_CAP,
{
    if s.len() == 0 {
        return Some(0);
    }
    if s[0] != 'e' && s[0] != 'E' {
        return None;
    }
    let has_sign: bool = s.len() > 1 && (s[1] == '+' || s[1] == '-');
    let start: usize = if has_sign {
        2
    } else {
        1
    };
    if start >= s.len() {
        return None;
    }
    let end: usize = skip_digits(s, start);
    if end != s.len() {
        return None;
    }
    let n: u128 = capped_digits(s, start, end);
    if s[1] == '-' {
        Some(-(n as i128))
    } else {
        Some(n as i128)
    }
}

fn big_digits(s: &Vec<char>) -> (r: BigNat)
    requires
        forall|i: int| 0 <= i < s@.len() ==> is_digit(#[trigger] s@[i]),
    ensures
        r@ == digits_value(s@),
        r@ < ten_to(s@.len()),
{
    let mut value: BigNat = BigNat::from_u64(0);
    let mut i: usize = 0;
    while i < s.len()
        invariant
            i <= s@.len(),
            forall|i: int| 0 <= i < s@.len() ==> is_digit(#[trigger] s@[i]),
            value@ == digits_value(s@.take(i as int)),
            value@ < ten_to(i as nat),
        decreases s@.len() - i,
    {
        let c: char = s[i];
        assert(is_digit(s@[i as int]));
        assert(s@.take(i + 1).drop_last() =~= s@.take(i as int));
        value = value.mul_add(10, (c as u32 - 0x30) as u64);
        i = i + 1;
    }
    assert(s@.take(i as int) =~= s@);
    value
}

fn big_ten_to(n: u128) -> (r: BigNat)
    ensures
        r@ == ten_to(n as nat),
{
    let mut value: BigNat = BigNat::from_u64(1);
    let mut i: u128 = 0;
    while i < n
        invariant
            i <= n,
            value@ == ten_to(i as nat),
        decreases n - i,
    {
        value = value.mul_add(10, 0);
        i = i + 1;
    }
    value
}

proof fn lemma_ten_exceeds_eight(n: nat)
    ensures
        ten_to(n) >= pow2(3 * n),
        ten_to(n) > 0,
    decreases n,
{
    lemma2_to64();
    if n > 0 {
        lemma_ten_exceeds_eight((n - 1) as nat);
        lemma_pow2_adds(3, (3 * (n - 1)) as nat);
    }
}

proof fn lemma_ten_adds(a: nat, b: nat)
    ensures
        ten_to(a + b) == ten_to(a) * ten_to(b),
    decreases a,
{
    if a > 0 {
        lemma_ten_adds((a - 1) as nat, b);
        let x = ten_to((a - 1) as nat) as int;
        let y = ten_to(b) as int;
        assert((10 * x) * y == 10 * (x * y)) by (nonlinear_arith);
    } else {
        assert(1 * ten_to(b) == ten_to(b));
    }
}

/// A decimal number with a large exponent is out of range.
proof fn lemma_large_decimal(d: Decimal)
    requires
        d.mantissa > 0,
        d.exponent > 400,
    ensures
        decimal_magnitude(d) == INFINITE,
{
    let e = d.exponent as nat;
    lemma_ten_exceeds_eight(e);
    lemma_pow2_strictly_increases(1200, 3 * e);
    lemma_pow2_adds(1200, 1074);
    lemma_pow2_pos(1074);
    let t = ten_to(e) as int;
    let o = one() as int;
    let p = d.mantissa * t * o;
    assert(d.mantissa * t * o >= pow2(1200) * o) by (nonlinear_arith)
        requires
            d.mantissa >= 1,
            t >= pow2(1200),
            o > 0,
    ;
    lemma2_to64();
    lemma2_to64_rest();
    assert(INFINITE as nat / BINADE as nat == 2047);
    assert(INFINITE as nat % BINADE as nat == 0);
    lemma_pow2_adds(52, 2046);
    assert(units(INFINITE as nat) == pow2(2098));
    lemma_pow2_strictly_increases(2098, 2274);
    lemma_units_increase((INFINITE - 1) as nat, INFINITE as nat);
    lemma_nearest_is(INFINITE as nat, p as nat, 1);
}

/// A decimal number with a large negative exponent rounds to zero.
proof fn lemma_small_decimal(d: Decimal, n: nat)
    requires
        d.mantissa < ten_to(n),
        d.exponent < -(400 + n),
    ensures
        decimal_magnitude(d) == 0,
{
    let e = (-d.exponent) as nat;
    let rest = (e - n) as nat;
    lemma_ten_adds(n, rest);
    lemma_ten_exceeds_eight(rest);
    lemma_ten_exceeds_eight(n);
    lemma_pow2_strictly_increases(1200, 3 * rest);
    lemma_pow2_strictly_increases(1075, 1200);
    lemma_pow2_adds(1, 1074);
    lemma2_to64();
    lemma_pow2_pos(1074);
    let m = d.mantissa as int;
    let o = one() as int;
    let t = ten_to(n) as int;
    let r = ten_to(rest) as int;
    assert(2 * (m * o) < t * r) by (nonlinear_arith)
        requires
            0 <= m < t,
            2 * o <= r,
            o > 0,
    ;
    assert(units(0) == 0);
    assert(units(1) == 1);
    let q = ten_to(e);
    assert(1 * q == q);
    assert(!rounds_above(0, (m * o) as nat, q));
    lemma_nearest_is(0, (m * o) as nat, q);
}

/// Nothing, whatever its exponent, is zero.
proof fn lemma_zero_decimal(d: Decimal)
    requires
        d.mantissa == 0,
    ensures
        decimal_magnitude(d) == 0,
{
    assert(units(0) == 0);
    assert(units(1) == 1);
    if d.exponent >= 0 {
        let t = ten_to(d.exponent as nat) as int;
        let o = one() as int;
        assert(d.mantissa * t * o == 0) by (nonlinear_arith)
            requires
                d.mantissa == 0,
        ;
        lemma_nearest_is(0, 0, 1);
    } else {
        let q = ten_to((-d.exponent) as nat);
        lemma_ten_exceeds_eight((-d.exponent) as nat);
        assert(1 * q == q);
        assert(d.mantissa * one() == 0) by (nonlinear_arith)
            requires
                d.mantissa == 0,
        ;
        lemma_nearest_is(0, 0, q);
    }
}

fn round_decimal(
    mantissa: &BigNat,
    digits: usize,
    exponent: i128,
    Ghost(exact): Ghost<int>,
) -> (r: u64)
    requires
        mantissa@ < ten_to(digits as nat),
        stands_for(exponent as int, exact, 0x40_0000_0000_0000_0000),
    ensures
        r == decimal_magnitude(Decimal { mantissa: mantissa@, exponent: exact }),
        r <= INFINITE,
{
    let ghost d = Decimal { mantissa: mantissa@, exponent: exact };
    match mantissa.relate(&BigNat::from_u64(0)) {
        Relation::More => {},
        _ => {
            proof {
                lemma_zero_decimal(d);
            }
            return 0;
        },
    }
    if exponent > 400 {
        proof {
            lemma_large_decimal(d);
        }
        return INFINITE;
    }
    if exponent < -400 - (digits as i128) {
        proof {
            lemma_small_decimal(d, digits as nat);
        }
        return 0;
    }
    if exponent >= 0 {
        let mut scaled: BigNat = mantissa.mul_add(1, 0);
        let mut i: i128 = 0;
        proof {
            assert(mantissa@ * ten_to(0) == mantissa@) by (nonlinear_arith)
                requires
                    ten_to(0) == 1,
            ;
        }
        while i < exponent
            invariant
                0 <= i <= exponent,
                scaled@ == mantissa@ * ten_to(i as nat),
            decreases exponent - i,
        {
            proof {
                let m = mantissa@ as int;
                let t = ten_to(i as nat) as int;
                assert((m * t) * 10 == m * (10 * t)) by (nonlinear_arith);
            }
            scaled = scaled.mul_add(10, 0);
            i = i + 1;
        }
        round_quotient(&scaled.shift_left(1074), &BigNat::from_u64(1))
    } else {
        proof {
            lemma_ten_exceeds_eight((-exact) as nat);
        }
        round_quotient(&mantissa.shift_left(1074), &big_ten_to((-exponent) as u128))
    }
}

fn is_spelled(s: &Vec<char>, word: &Vec<char>) -> (r: bool)
    ensures
        r == spells(s@, word@),
{
    if s.len() != word.len() {
        return false;
    }
    let mut i: usize = 0;
    while i < s.len()
        invariant
            i <= s@.len(),
            s@.len() == word@.len(),
            forall|j: int|
                0 <= j < i ==> (#[trigger] s@[j] == word@[j] || s@[j] as u32 + 0x20
                    == word@[j] as u32),
        decreases s@.len() - i,
    {
        let c: u64 = (s[i] as u32) as u64;
        let w: u64 = (word[i] as u32) as u64;
        if s[i] != word[i] && c + 0x20 != w {
            assert(!(s@[i as int] == word@[i as int] || s@[i as int] as u32 + 0x20
                == word@[i as int] as u32));
            return false;
        }
        i = i + 1;
    }
    true
}

fn parse_unsigned(s: &Vec<char>) -> (r: Option<u64>)
    ensures
        match r {
            None => decimal(s@) is None,
            Some(m) => decimal(s@) is Some && m == decimal_magnitude(decimal(s@)->0) && m
                <= INFINITE,
        },
{
    let whole_end: usize = skip_digits(s, 0);
    let pointed: bool = whole_end < s.len() && s[whole_end] == '.';
    let part_start: usize = if pointed {
        whole_end + 1
    } else {
        whole_end
    };
    let part_end: usize = if pointed {
        skip_digits(s, part_start)
    } else {
        whole_end
    };
    let mut digits: Vec<char> = copy_range(s, 0, whole_end);
    let mut i: usize = part_start;
    while i < part_end
        invariant
            0 <= whole_end <= part_start <= i <= part_end <= s@.len(),
            digits@ =~= s@.subrange(0, whole_end as int) + s@.subrange(part_start as int, i as int),
        decreases part_end - i,
    {
        digits.push(s[i]);
        i = i + 1;
    }
    if digits.len() == 0 {
        return None;
    }
    let tail: Vec<char> = copy_range(s, part_end, s.len());
    match parse_exponent(&tail) {
        None => None,
        Some(e) => {
            let mantissa: BigNat = big_digits(&digits);
            let shift: i128 = e - ((part_end - part_start) as i128);
            let m: u64 = round_decimal(
                &mantissa,
                digits.len(),
                shift,
                Ghost(exponent(tail@)->0 - (part_end - part_start)),
            );
            Some(m)
        },
    }
}

/// Reads the part `from..to` of a text as a decimal number.
pub fn parse_decimal(text: &Vec<char>, from: usize, to: usize) -> (r: Result<Double, DecimalFault>)
    requires
        from <= to <= text@.len(),
    ensures
        r == decimal_number(text@.subrange(from as int, to as int)),
{
    let ghost part = text@.subrange(from as int, to as int);
    if from == to {
        return Err(DecimalFault::Empty);
    }
    assert(part[0] == text@[from as int]);
    let first: char = text[from];
    let negative: bool = first == '-';
    let start: usize = if first == '+' || first == '-' {
        from + 1
    } else {
        from
    };
    let rest: Vec<char> = copy_range(text, start, to);
    assert(start > from ==> rest@ =~= part.drop_first());
    let sign: u64 = if negative {
        SIGN
    } else {
        0
    };
    let nan: Vec<char> = vec!['n', 'a', 'n'];
    let inf: Vec<char> = vec!['i', 'n', 'f'];
    let infinity: Vec<char> = vec!['i', 'n', 'f', 'i', 'n', 'i', 't', 'y'];
    assert(nan@ =~= seq!['n', 'a', 'n']);
    assert(inf@ =~= seq!['i', 'n', 'f']);
    assert(infinity@ =~= seq!['i', 'n', 'f', 'i', 'n', 'i', 't', 'y']);
    if is_spelled(&rest, &nan) {
        return Ok(Double { bits: sign + NOT_A_NUMBER });
    }
    if is_spelled(&rest, &inf) || is_spelled(&rest, &infinity) {
        return Ok(Double { bits: sign + INFINITE });
    }
    match parse_unsigned(&rest) {
        None => Err(DecimalFault::Invalid),
        Some(m) => Ok(Double { bits: sign + m }),
    }
}

} // verus!
