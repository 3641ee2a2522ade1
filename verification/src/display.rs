//! What the browser is shown of a channel: the visible window, reduced to its extremes.

use crate::arithmetic::{of_whole, product};
use crate::buffer::{latest, limit_to_usize, within_usize, ChannelBuffer};
use crate::double::Double;
use crate::settings::DisplaySettings;
use vstd::prelude::*;

verus! {

/// The largest number of points that is shown of a channel.
pub const MAX_DISPLAY_POINTS: usize = 1600;

/// The number of buckets that a longer window is cut into; each gives two points.
pub const BUCKETS: usize = 800;

/// How many samples the visible window asks for, one at least.
pub open spec fn window_length(window_seconds: u32, sample_rate_hz: Double) -> nat {
    let requested = within_usize(
        product(of_whole(window_seconds as nat), sample_rate_hz).closest_whole(),
    );
    if requested == 0 {
        1
    } else {
        requested as nat
    }
}

/// The samples in the visible window.
pub open spec fn visible(buffer: ChannelBuffer, display: DisplaySettings) -> Seq<i32> {
    latest(buffer.samples@, window_length(display.window_seconds, buffer.sample_rate_hz))
}

/// Where bucket `k` of a window of `n` samples begins.
pub open spec fn bucket_edge(k: nat, n: nat) -> nat {
    k * n / BUCKETS as nat
}

/// The samples in bucket `k`.
pub open spec fn bucket(values: Seq<i32>, k: nat) -> Seq<i32> {
    values.subrange(
        bucket_edge(k, values.len()) as int,
        bucket_edge(k + 1, values.len()) as int,
    )
}

/// The place of the first lowest sample.
pub open spec fn first_lowest(s: Seq<i32>) -> int
    decreases s.len(),
{
    if s.len() <= 1 {
        0
    } else {
        let i = first_lowest(s.drop_last());
        if s.last() < s[i] {
            s.len() - 1
        } else {
            i
        }
    }
}

/// The place of the last highest sample.
pub open spec fn last_highest(s: Seq<i32>) -> int
    decreases s.len(),
{
    if s.len() <= 1 {
        0
    } else {
        let i = last_highest(s.drop_last());
        if s.last() >= s[i] {
            s.len() - 1
        } else {
            i
        }
    }
}

/// The two points that stand for a bucket: its lowest and its highest sample, in the order in
/// which they were taken.
pub open spec fn extremes(s: Seq<i32>) -> (i32, i32) {
    let low = first_lowest(s);
    let high = last_highest(s);
    if low <= high {
        (s[low], s[high])
    } else {
        (s[high], s[low])
    }
}

/// The points that are shown of a window.
pub open spec fn reduced(values: Seq<i32>) -> Seq<i32> {
    if values.len() <= MAX_DISPLAY_POINTS {
        values
    } else {
        Seq::new(
            MAX_DISPLAY_POINTS as nat,
            |i: int|
                {
                    let pair = extremes(bucket(values, (i / 2) as nat));
                    if i % 2 == 0 {
                        pair.0
                    } else {
                        pair.1
                    }
                },
        )
    }
}

/// The first lowest sample is one, no sample is lower, and none before it is as low.
pub proof fn lemma_first_lowest(s: Seq<i32>)
    requires
        s.len() > 0,
    ensures
        0 <= first_lowest(s) < s.len(),
        forall|i: int| 0 <= i < s.len() ==> s[first_lowest(s)] <= #[trigger] s[i],
        forall|i: int| 0 <= i < first_lowest(s) ==> s[first_lowest(s)] < #[trigger] s[i],
    decreases s.len(),
{
    if s.len() > 1 {
        let t = s.drop_last();
        lemma_first_lowest(t);
        assert forall|i: int| 0 <= i < s.len() implies s[first_lowest(s)] <= #[trigger] s[i] by {
            if i < s.len() - 1 {
                assert(t[i] == s[i]);
            }
        }
        assert forall|i: int| 0 <= i < first_lowest(s) implies s[first_lowest(s)]
            < #[trigger] s[i] by {
            assert(t[i] == s[i]);
        }
    }
}

/// The last highest sample is one, no sample is higher, and none after it is as high.
pub proof fn lemma_last_highest(s: Seq<i32>)
    requires
        s.len() > 0,
    ensures
        0 <= last_highest(s) < s.len(),
        forall|i: int| 0 <= i < s.len() ==> s[last_highest(s)] >= #[trigger] s[i],
        forall|i: int| last_highest(s) < i < s.len() ==> s[last_highest(s)] > #[trigger] s[i],
    decreases s.len(),
{
    if s.len() > 1 {
        let t = s.drop_last();
        lemma_last_highest(t);
        assert forall|i: int| 0 <= i < s.len() implies s[last_highest(s)] >= #[trigger] s[i] by {
            if i < s.len() - 1 {
                assert(t[i] == s[i]);
            }
        }
        assert forall|i: int| last_highest(s) < i < s.len() implies s[last_highest(s)]
            > #[trigger] s[i] by {
            if i < s.len() - 1 {
                assert(t[i] == s[i]);
            }
        }
    }
}

proof fn lemma_bucket_edges(k: nat, n: nat)
    requires
        n > MAX_DISPLAY_POINTS,
        k < BUCKETS,
    ensures
        bucket_edge(k, n) < bucket_edge(k + 1, n) <= n,
        bucket_edge(0, n) == 0,
        bucket_edge(BUCKETS as nat, n) == n,
{
    assert((k + 1) * n == k * n + n) by (nonlinear_arith);
    assert((k + 1) * n <= BUCKETS * n) by (nonlinear_arith)
        requires
            k + 1 <= BUCKETS,
    ;
    assert(0 * n == 0) by (nonlinear_arith);
}

/// The place in its bucket of the first lowest sample of `from..to`.
fn lowest_place(values: &Vec<i32>, from: usize, to: usize) -> (r: usize)
    requires
        from < to <= values@.len(),
    ensures
        r as int == first_lowest(values@.subrange(from as int, to as int)),
        from + r < to,
{
    let mut best: usize = 0;
    let mut i: usize = from + 1;
    while i < to
        invariant
            from < i <= to <= values@.len(),
            from + best < i,
            best as int == first_lowest(values@.subrange(from as int, i as int)),
        decreases to - i,
    {
        assert(values@.subrange(from as int, i + 1).drop_last() =~= values@.subrange(
            from as int,
            i as int,
        ));
        if values[i] < values[from + best] {
            best = i - from;
        }
        i = i + 1;
    }
    best
}

/// The place in its bucket of the last highest sample of `from..to`.
fn highest_place(values: &Vec<i32>, from: usize, to: usize) -> (r: usize)
    requires
        from < to <= values@.len(),
    ensures
        r as int == last_highest(values@.subrange(from as int, to as int)),
        from + r < to,
{
    let mut best: usize = 0;
    let mut i: usize = from + 1;
    while i < to
        invariant
            from < i <= to <= values@.len(),
            from + best < i,
            best as int == last_highest(values@.subrange(from as int, i as int)),
        decreases to - i,
    {
        assert(values@.subrange(from as int, i + 1).drop_last() =~= values@.subrange(
            from as int,
            i as int,
        ));
        if values[i] >= values[from + best] {
            best = i - from;
        }
        i = i + 1;
    }
    best
}

fn edge(k: usize, n: usize) -> (r: usize)
    requires
        k <= BUCKETS,
    ensures
        r == bucket_edge(k as nat, n as nat),
{
    assert(k * n <= BUCKETS * n) by (nonlinear_arith)
        requires
            k <= BUCKETS,
    ;
    assert(k * n >= 0) by (nonlinear_arith);
    ((k as u128) * (n as u128) / (BUCKETS as u128)) as usize
}

/// The points that are shown of a window.
pub fn reduce(values: Vec<i32>) -> (r: Vec<i32>)
    ensures
        r@ == reduced(values@),
{
    let n: usize = values.len();
    if n <= MAX_DISPLAY_POINTS {
        return values;
    }
    let mut points: Vec<i32> = Vec::with_capacity(MAX_DISPLAY_POINTS);
    let mut k: usize = 0;
    while k < BUCKETS
        invariant
            k <= BUCKETS,
            n == values@.len(),
            n > MAX_DISPLAY_POINTS,
            points@ =~= reduced(values@).take(2 * k),
        decreases BUCKETS - k,
    {
        proof {
            lemma_bucket_edges(k as nat, n as nat);
        }
        let from: usize = edge(k, n);
        let to: usize = edge(k + 1, n);
        let low: usize = lowest_place(&values, from, to);
        let high: usize = highest_place(&values, from, to);
        assert((2 * k) / 2 == k && (2 * k + 1) / 2 == k);
        if low <= high {
            points.push(values[from + low]);
            points.push(values[from + high]);
        } else {
            points.push(values[from + high]);
            points.push(values[from + low]);
        }
        k = k + 1;
    }
    assert(reduced(values@).take(2 * k) =~= reduced(values@));
    points
}

/// The points that are shown of a channel.
pub fn display_samples(buffer: &ChannelBuffer, display: &DisplaySettings) -> (r: Vec<i32>)
    ensures
        r@ == reduced(visible(*buffer, *display)),
        r@.len() <= MAX_DISPLAY_POINTS,
{
    let span: Double = Double::from_u64(display.window_seconds as u64).times(buffer.sample_rate_hz);
    let requested: usize = limit_to_usize(span.round_to_u64());
    let length: usize = if requested == 0 {
        1
    } else {
        requested
    };
    let total: usize = buffer.samples.len();
    let start: usize = total.saturating_sub(length);
    let mut values: Vec<i32> = Vec::new();
    let mut i: usize = start;
    while i < total
        invariant
            start <= i <= total,
            total == buffer.samples@.len(),
            values@ =~= buffer.samples@.subrange(start as int, i as int),
        decreases total - i,
    {
        values.push(buffer.samples[i]);
        i = i + 1;
    }
    assert(values@ =~= visible(*buffer, *display));
    reduce(values)
}

proof fn lemma_bucket_of(values: Seq<i32>, i: int, k: nat) -> (r: nat)
    requires
        values.len() > MAX_DISPLAY_POINTS,
        k < BUCKETS,
        0 <= i < bucket_edge(k + 1, values.len()),
    ensures
        r < BUCKETS,
        bucket_edge(r, values.len()) <= i < bucket_edge(r + 1, values.len()),
    decreases k,
{
    lemma_bucket_edges(k, values.len());
    if i >= bucket_edge(k, values.len()) {
        k
    } else {
        lemma_bucket_of(values, i, (k - 1) as nat)
    }
}

/// Reducing a window keeps its extremes: for each sample some point lies as low and some point
/// lies as high.
pub proof fn lemma_reduction_keeps_extremes(values: Seq<i32>, i: int)
    requires
        0 <= i < values.len(),
    ensures
        exists|j: int| 0 <= j < reduced(values).len() && #[trigger] reduced(values)[j] <= values[i],
        exists|j: int| 0 <= j < reduced(values).len() && #[trigger] reduced(values)[j] >= values[i],
{
    if values.len() <= MAX_DISPLAY_POINTS {
        assert(reduced(values)[i] == values[i]);
    } else {
        lemma_bucket_edges((BUCKETS - 1) as nat, values.len());
        let k = lemma_bucket_of(values, i, (BUCKETS - 1) as nat);
        lemma_bucket_edges(k, values.len());
        let s = bucket(values, k);
        lemma_first_lowest(s);
        lemma_last_highest(s);
        assert(s[i - bucket_edge(k, values.len())] == values[i]);
        let j = 2 * k as int;
        assert(j / 2 == k && (j + 1) / 2 == k);
        assert(reduced(values)[j] == extremes(s).0);
        assert(reduced(values)[j + 1] == extremes(s).1);
    }
}

/// Every point that is shown is a sample of the window.
pub proof fn lemma_points_are_samples(values: Seq<i32>, j: int)
    requires
        0 <= j < reduced(values).len(),
    ensures
        values.contains(reduced(values)[j]),
{
    if values.len() <= MAX_DISPLAY_POINTS {
        assert(reduced(values)[j] == values[j]);
    } else {
        let k = (j / 2) as nat;
        lemma_bucket_edges(k, values.len());
        let s = bucket(values, k);
        let from = bucket_edge(k, values.len());
        lemma_first_lowest(s);
        lemma_last_highest(s);
        assert(s[first_lowest(s)] == values[from + first_lowest(s)]);
        assert(s[last_highest(s)] == values[from + last_highest(s)]);
    }
}

/// The place in the window of the point at `j`.
pub open spec fn shown_place(values: Seq<i32>, j: int) -> int {
    if values.len() <= MAX_DISPLAY_POINTS {
        j
    } else {
        let k = (j / 2) as nat;
        let s = bucket(values, k);
        let low = first_lowest(s);
        let high = last_highest(s);
        bucket_edge(k, values.len()) + if (low <= high) == (j % 2 == 0) {
            low
        } else {
            high
        }
    }
}

proof fn lemma_bucket_edges_ordered(k: nat, l: nat, n: nat)
    requires
        k <= l,
    ensures
        bucket_edge(k, n) <= bucket_edge(l, n),
{
    assert(k * n <= l * n) by (nonlinear_arith)
        requires
            k <= l,
    ;
    vstd::arithmetic::div_mod::lemma_div_is_ordered((k * n) as int, (l * n) as int, BUCKETS as int);
}

/// A bucket has two samples at least.
proof fn lemma_bucket_has_two(k: nat, n: nat)
    requires
        n > MAX_DISPLAY_POINTS,
        k < BUCKETS,
    ensures
        bucket_edge(k + 1, n) - bucket_edge(k, n) >= 2,
{
    assert((k + 1) * n == k * n + n) by (nonlinear_arith);
}

proof fn lemma_shown_place(values: Seq<i32>, j: int)
    requires
        values.len() > MAX_DISPLAY_POINTS,
        0 <= j < MAX_DISPLAY_POINTS,
    ensures
        bucket_edge((j / 2) as nat, values.len()) <= shown_place(values, j),
        shown_place(values, j) < bucket_edge((j / 2 + 1) as nat, values.len()) <= values.len(),
        values[shown_place(values, j)] == reduced(values)[j],
        j % 2 == 0 ==> shown_place(values, j) < shown_place(values, j + 1),
{
    let k = (j / 2) as nat;
    let s = bucket(values, k);
    lemma_bucket_edges(k, values.len());
    lemma_bucket_has_two(k, values.len());
    lemma_first_lowest(s);
    lemma_last_highest(s);
    if first_lowest(s) == last_highest(s) {
        assert(s[0] == s[1]);
    }
    if j % 2 == 0 {
        assert((j + 1) / 2 == j / 2);
    }
}

/// The points that are shown are samples of the window at distinct places, in the order in which
/// they were taken.
pub proof fn lemma_points_in_time_order(values: Seq<i32>, i: int, j: int)
    requires
        0 <= i < j < reduced(values).len(),
    ensures
        0 <= shown_place(values, i) < shown_place(values, j) < values.len(),
        values[shown_place(values, i)] == reduced(values)[i],
        values[shown_place(values, j)] == reduced(values)[j],
{
    if values.len() > MAX_DISPLAY_POINTS {
        lemma_shown_place(values, i);
        lemma_shown_place(values, j);
        if i / 2 < j / 2 {
            lemma_bucket_edges_ordered((i / 2 + 1) as nat, (j / 2) as nat, values.len());
        }
    }
}

/// A window of at most 1600 samples is shown as it is, and a longer one in exactly 1600 points.
pub proof fn lemma_reduced_length(values: Seq<i32>)
    ensures
        values.len() <= 1600 ==> reduced(values) == values,
        values.len() > 1600 ==> reduced(values).len() == 1600,
{
}

/// A longer window is cut into 800 parts of equal length, and each part is shown by two points: no
/// sample of the part lies outside the two, both are samples of it, and the earlier one comes first.
pub proof fn lemma_each_part_keeps_extremes(values: Seq<i32>, k: int, i: int)
    requires
        values.len() > 1600,
        0 <= k < 800,
        k * values.len() / 800 <= i < (k + 1) * values.len() / 800,
    ensures
        ({
            let a = reduced(values)[2 * k];
            let b = reduced(values)[2 * k + 1];
            let p = shown_place(values, 2 * k);
            let q = shown_place(values, 2 * k + 1);
            &&& a <= values[i] <= b || b <= values[i] <= a
            &&& k * values.len() / 800 <= p < q < (k + 1) * values.len() / 800 <= values.len()
            &&& values[p] == a
            &&& values[q] == b
        }),
{
    let n = values.len();
    let s = bucket(values, k as nat);
    let j = 2 * k;
    assert(j / 2 == k && (j + 1) / 2 == k);
    lemma_bucket_edges(k as nat, n);
    lemma_shown_place(values, j);
    lemma_shown_place(values, j + 1);
    lemma_first_lowest(s);
    lemma_last_highest(s);
    assert(bucket_edge(k as nat, n) == k * n / 800);
    assert(bucket_edge((k + 1) as nat, n) == (k + 1) * n / 800);
    assert(s[i - bucket_edge(k as nat, n)] == values[i]);
}

} // verus!
