//! Text as a sequence of characters: margins, fields and digits.

use vstd::prelude::*;

verus! {

/// Characters that can be stripped from both ends of a text.
#[derive(Clone, Copy, Debug, PartialEq, Eq, Structural)]
pub enum Margin {
    WhiteSpace,
    Quotes,
}

/// Whether `c` has the Unicode property White_Space.
pub open spec fn is_white_space(c: char) -> bool {
    let n = c as u32;
    ||| 0x09 <= n <= 0x0d
    ||| n == 0x20
    ||| n == 0x85
    ||| n == 0xa0
    ||| n == 0x1680
    ||| 0x2000 <= n <= 0x200a
    ||| n == 0x2028
    ||| n == 0x2029
    ||| n == 0x202f
    ||| n == 0x205f
    ||| n == 0x3000
}

/// Whether `c` belongs to the margin.
pub open spec fn in_margin(margin: Margin, c: char) -> bool {
    match margin {
        Margin::WhiteSpace => is_white_space(c),
        Margin::Quotes => c == '\'' || c == '"',
    }
}

/// `s` without the margin at its start.
pub open spec fn strip_start(s: Seq<char>, margin: Margin) -> Seq<char>
    decreases s.len(),
{
    if s.len() > 0 && in_margin(margin, s[0]) {
        strip_start(s.drop_first(), margin)
    } else {
        s
    }
}

/// `s` without the margin at its end.
pub open spec fn strip_end(s: Seq<char>, margin: Margin) -> Seq<char>
    decreases s.len(),
{
    if s.len() > 0 && in_margin(margin, s.last()) {
        strip_end(s.drop_last(), margin)
    } else {
        s
    }
}

/// `s` without the margin at both ends.
pub open spec fn strip(s: Seq<char>, margin: Margin) -> Seq<char> {
    strip_end(strip_start(s, margin), margin)
}

/// The fields of a text: each comma opens a new field, every other character extends the last.
pub open spec fn fields(s: Seq<char>) -> Seq<Seq<char>>
    decreases s.len(),
{
    if s.len() == 0 {
        seq![Seq::<char>::empty()]
    } else {
        let before = fields(s.drop_last());
        if s.last() == ',' {
            before.push(Seq::<char>::empty())
        } else {
            before.update(before.len() - 1, before.last().push(s.last()))
        }
    }
}

/// Whether `c` is one of the ten ASCII digits.
pub open spec fn is_digit(c: char) -> bool {
    0x30 <= c as u32 <= 0x39
}

/// The number that a digit stands for.
pub open spec fn digit_value(c: char) -> nat
    recommends
        is_digit(c),
{
    (c as u32 - 0x30) as nat
}

/// There is always at least one field.
pub proof fn lemma_fields_not_empty(s: Seq<char>)
    ensures
        fields(s).len() >= 1,
    decreases s.len(),
{
    if s.len() > 0 {
        lemma_fields_not_empty(s.drop_last());
    }
}

/// The characters of a text.
pub fn characters(text: &str) -> (r: Vec<char>)
    ensures
        r@ == text@,
{
    let mut out: Vec<char> = Vec::new();
    for c in it: text.chars()
        invariant
            out@ == it.seq().take(it.index()),
            it.seq() == text@,
    {
        out.push(c);
    }
    assert(text@.take(text@.len() as int) =~= text@);
    out
}

/// Whether `c` belongs to the margin.
pub fn belongs(margin: Margin, c: char) -> (r: bool)
    ensures
        r == in_margin(margin, c),
{
    match margin {
        Margin::WhiteSpace => {
            let n: u32 = c as u32;
            (0x09 <= n && n <= 0x0d) || n == 0x20 || n == 0x85 || n == 0xa0 || n == 0x1680 || (
            0x2000 <= n && n <= 0x200a) || n == 0x2028 || n == 0x2029 || n == 0x202f || n == 0x205f
                || n == 0x3000
        },
        Margin::Quotes => c == '\'' || c == '"',
    }
}

/// Narrows the part `from..to` of a text so that no margin is left at its ends.
pub fn strip_range(text: &Vec<char>, from: usize, to: usize, margin: Margin) -> (r: (usize, usize))
    requires
        from <= to <= text@.len(),
    ensures
        from <= r.0 <= r.1 <= to,
        text@.subrange(r.0 as int, r.1 as int) == strip(
            text@.subrange(from as int, to as int),
            margin,
        ),
{
    let mut start: usize = from;
    let ghost part = text@.subrange(from as int, to as int);
    while start < to && belongs(margin, text[start])
        invariant
            from <= start <= to <= text@.len(),
            strip_start(text@.subrange(start as int, to as int), margin) == strip_start(part, margin),
        decreases to - start,
    {
        assert(text@.subrange(start as int, to as int).drop_first() =~= text@.subrange(
            start + 1,
            to as int,
        ));
        start = start + 1;
    }
    let mut end: usize = to;
    let ghost rest = text@.subrange(start as int, to as int);
    while end > start && belongs(margin, text[end - 1])
        invariant
            start <= end <= to <= text@.len(),
            strip_end(text@.subrange(start as int, end as int), margin) == strip_end(rest, margin),
        decreases end - start,
    {
        assert(text@.subrange(start as int, end as int).drop_last() =~= text@.subrange(
            start as int,
            end - 1,
        ));
        end = end - 1;
    }
    (start, end)
}

/// Where the fields of the part `from..to` of a text begin and end.
pub fn field_ranges(text: &Vec<char>, from: usize, to: usize) -> (r: Vec<(usize, usize)>)
    requires
        from <= to <= text@.len(),
    ensures
        r@.len() == fields(text@.subrange(from as int, to as int)).len(),
        forall|i: int|
            #![trigger r@[i]]
            0 <= i < r@.len() ==> {
                &&& from <= r@[i].0 <= r@[i].1 <= to
                &&& text@.subrange(r@[i].0 as int, r@[i].1 as int) == fields(
                    text@.subrange(from as int, to as int),
                )[i]
            },
{
    let mut out: Vec<(usize, usize)> = Vec::new();
    let mut start: usize = from;
    let mut i: usize = from;
    assert(text@.subrange(from as int, from as int) =~= Seq::<char>::empty());
    while i < to
        invariant
            from <= start <= i <= to <= text@.len(),
            out@.len() + 1 == fields(text@.subrange(from as int, i as int)).len(),
            text@.subrange(start as int, i as int) == fields(
                text@.subrange(from as int, i as int),
            ).last(),
            forall|j: int|
                #![trigger out@[j]]
                0 <= j < out@.len() ==> {
                    &&& from <= out@[j].0 <= out@[j].1 <= to
                    &&& text@.subrange(out@[j].0 as int, out@[j].1 as int) == fields(
                        text@.subrange(from as int, i as int),
                    )[j]
                },
        decreases to - i,
    {
        let ghost before = text@.subrange(from as int, i as int);
        let ghost after = text@.subrange(from as int, i + 1);
        assert(after.drop_last() =~= before);
        assert(after.last() == text@[i as int]);
        if text[i] == ',' {
            out.push((start, i));
            start = i + 1;
            assert(text@.subrange(i + 1, i + 1) =~= Seq::<char>::empty());
        } else {
            assert(text@.subrange(start as int, i + 1) =~= text@.subrange(
                start as int,
                i as int,
            ).push(text@[i as int]));
        }
        i = i + 1;
    }
    out.push((start, to));
    out
}

} // verus!
