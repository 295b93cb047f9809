//! Drawing transfer events.
//!
//! An event falls into an interval with a chance proportional to the length
//! of the interval times the number of lineages alive in it. Weights are
//! kept as whole numbers: the weight of an interval is its length in ticks
//! times its lineage count, and a draw is a whole number between one and the
//! total weight.

use crate::mutator::Transfer;
use crate::timeline::{ascending, interval_at, interval_lists, intervals_of, is_ascending};
use vstd::arithmetic::div_mod::{
    lemma_fundamental_div_mod, lemma_fundamental_div_mod_converse, lemma_mod_pos_bound,
};
use rand::rngs::StdRng;
use rand::Rng;
use vstd::prelude::*;

verus! {

/// The standard generator of `rand`, `rand::rngs::StdRng`. Nothing is known
/// of what is inside: it is handed through to the calls that draw from it.
#[verifier::external_type_specification]
#[verifier::external_body]
pub struct ExStdRng(StdRng);

/// The weight of the first `n` intervals together.
pub open spec fn weight_sum(intervals: Seq<u64>, counts: Seq<usize>, n: int) -> int
    decreases n,
{
    if n <= 0 {
        0
    } else {
        weight_sum(intervals, counts, n - 1) + intervals[n - 1] * counts[n - 1]
    }
}

/// No entry is smaller than the one before it.
pub open spec fn non_decreasing(cdf: Seq<u128>) -> bool {
    forall|i: int, j: int| 0 <= i <= j < cdf.len() ==> cdf[i] <= cdf[j]
}

/// The weight of some intervals is at most that of more intervals.
pub proof fn lemma_weight_sum_grows(intervals: Seq<u64>, counts: Seq<usize>, m: int, n: int)
    requires
        m <= n,
    ensures
        0 <= weight_sum(intervals, counts, m) <= weight_sum(intervals, counts, n),
    decreases n,
{
    if n > 0 && m < n {
        lemma_weight_sum_grows(intervals, counts, m, n - 1);
        assert(intervals[n - 1] * counts[n - 1] >= 0) by (nonlinear_arith)
            requires
                intervals[n - 1] >= 0,
                counts[n - 1] >= 0,
        ;
    } else if n > 0 {
        lemma_weight_sum_grows(intervals, counts, n - 1, n - 1);
        assert(intervals[n - 1] * counts[n - 1] >= 0) by (nonlinear_arith)
            requires
                intervals[n - 1] >= 0,
                counts[n - 1] >= 0,
        ;
    }
}

/// The length of the first `n` intervals together.
pub open spec fn span_sum(intervals: Seq<u64>, n: int) -> int
    decreases n,
{
    if n <= 0 {
        0
    } else {
        span_sum(intervals, n - 1) + intervals[n - 1]
    }
}

/// Cumulative weights can be built: there is a count for each interval, the
/// intervals together span no more time than 64 bits hold, and the total
/// weight is not zero. A total of zero means that the tree spans no time or
/// that no lineage is ever alive; no event can be drawn then.
pub open spec fn can_be_weighed(intervals: Seq<u64>, counts: Seq<usize>) -> bool {
    &&& intervals.len() == counts.len()
    &&& span_sum(intervals, intervals.len() as int) <= u64::MAX
    &&& weight_sum(intervals, counts, intervals.len() as int) > 0
}

/// The cumulative weights of the intervals: entry `i` is the weight of the
/// intervals up to and including `i`.
pub open spec fn cumulative_weights(intervals: Seq<u64>, counts: Seq<usize>) -> Seq<u128> {
    Seq::new(intervals.len(), |i: int| weight_sum(intervals, counts, i + 1) as u128)
}

/// The length of some intervals is at most that of more intervals.
proof fn lemma_span_sum_grows(intervals: Seq<u64>, m: int, n: int)
    requires
        m <= n,
    ensures
        0 <= span_sum(intervals, m) <= span_sum(intervals, n),
    decreases n,
{
    if n > 0 && m < n {
        lemma_span_sum_grows(intervals, m, n - 1);
    } else if n > 0 {
        lemma_span_sum_grows(intervals, n - 1, n - 1);
    }
}

/// The weight of intervals is at most their length times the greatest count
/// there can be.
proof fn lemma_weight_bound(intervals: Seq<u64>, counts: Seq<usize>, n: int)
    requires
        0 <= n <= intervals.len(),
        intervals.len() == counts.len(),
    ensures
        0 <= weight_sum(intervals, counts, n) <= span_sum(intervals, n) * 0xffff_ffff_ffff_ffff,
    decreases n,
{
    if n > 0 {
        lemma_weight_bound(intervals, counts, n - 1);
        let length = intervals[n - 1] as int;
        let count = counts[n - 1] as int;
        assert(0 <= length * count <= length * 0xffff_ffff_ffff_ffff) by (nonlinear_arith)
            requires
                0 <= length,
                0 <= count <= 0xffff_ffff_ffff_ffff,
        ;
        assert((span_sum(intervals, n - 1) + length) * 0xffff_ffff_ffff_ffff == span_sum(
            intervals,
            n - 1,
        ) * 0xffff_ffff_ffff_ffff + length * 0xffff_ffff_ffff_ffff) by (nonlinear_arith);
    }
}

/// Where the intervals span no more than 64 bits hold, the weight of any of
/// them fits in 128 bits.
proof fn lemma_weight_fits(intervals: Seq<u64>, counts: Seq<usize>, n: int)
    requires
        0 <= n <= intervals.len(),
        intervals.len() == counts.len(),
        span_sum(intervals, intervals.len() as int) <= u64::MAX,
    ensures
        0 <= weight_sum(intervals, counts, n) <= 0xffff_ffff_ffff_ffff * 0xffff_ffff_ffff_ffff,
{
    lemma_weight_bound(intervals, counts, n);
    lemma_span_sum_grows(intervals, n, intervals.len() as int);
    let span = span_sum(intervals, n);
    assert(span * 0xffff_ffff_ffff_ffff <= 0xffff_ffff_ffff_ffff * 0xffff_ffff_ffff_ffff)
        by (nonlinear_arith)
        requires
            0 <= span <= 0xffff_ffff_ffff_ffff,
    ;
}

/// The intervals between ascending breakpoints span the time from the first
/// breakpoint to the last, which is no more than 64 bits hold.
pub proof fn lemma_intervals_span(depths: Seq<i64>, n: int)
    requires
        ascending(depths),
        0 <= n <= depths.len(),
    ensures
        span_sum(intervals_of(depths), n) == (if n == 0 {
            0
        } else {
            depths[n - 1] - depths[0]
        }),
        span_sum(intervals_of(depths), n) <= u64::MAX,
    decreases n,
{
    if n > 0 {
        lemma_intervals_span(depths, n - 1);
        if n > 1 {
            assert(depths[n - 2] < depths[n - 1]);
        }
    }
}

/// Tells whether cumulative weights can be built.
pub fn can_weigh(intervals: &Vec<u64>, number_of_species: &Vec<usize>) -> (ok: bool)
    ensures
        ok == can_be_weighed(intervals@, number_of_species@),
{
    let n: usize = intervals.len();
    if n != number_of_species.len() {
        return false;
    }
    let mut span: u64 = 0;
    let mut total: u128 = 0;
    let mut i: usize = 0;
    while i < n
        invariant
            i <= n,
            n == intervals.len(),
            n == number_of_species.len(),
            span == span_sum(intervals@, i as int),
            total == weight_sum(intervals@, number_of_species@, i as int),
        decreases n - i,
    {
        if intervals[i] > u64::MAX - span {
            proof {
                lemma_span_sum_grows(intervals@, i + 1, n as int);
            }
            return false;
        }
        span = span + intervals[i];
        proof {
            lemma_weight_bound(intervals@, number_of_species@, i + 1);
            let reached = span_sum(intervals@, i + 1);
            assert(reached * 0xffff_ffff_ffff_ffff <= 0xffff_ffff_ffff_ffff
                * 0xffff_ffff_ffff_ffff) by (nonlinear_arith)
                requires
                    0 <= reached <= 0xffff_ffff_ffff_ffff,
            ;
            lemma_weight_bound(intervals@, number_of_species@, i as int);
        }
        total = total + (intervals[i] as u128) * (number_of_species[i] as u128);
        i += 1;
    }
    total > 0
}

/// The cumulative weights of the intervals: entry `i` is the weight of the
/// intervals up to and including `i`.
///
/// No entry is smaller than the one before it, and the last is the total
/// weight. The share of all weight that lies at or before breakpoint `i` is
/// entry `i` divided by the last entry; the last entry stands for one.
#[allow(non_snake_case)]
pub fn make_CDF(intervals: &Vec<u64>, number_of_species: &Vec<usize>) -> (cdf: Vec<u128>)
    requires
        can_be_weighed(intervals@, number_of_species@),
    ensures
        cdf@ == cumulative_weights(intervals@, number_of_species@),
        cdf.len() == intervals.len(),
        forall|i: int|
            0 <= i < cdf.len() ==> cdf@[i] == weight_sum(intervals@, number_of_species@, i + 1),
        non_decreasing(cdf@),
        cdf.len() > 0,
        cdf@.last() == weight_sum(intervals@, number_of_species@, intervals.len() as int),
        cdf@.last() > 0,
{
    let n: usize = intervals.len();
    let mut cdf: Vec<u128> = Vec::new();
    let mut total: u128 = 0;
    let mut i: usize = 0;
    while i < n
        invariant
            i <= n,
            n == intervals.len(),
            n == number_of_species.len(),
            span_sum(intervals@, n as int) <= u64::MAX,
            cdf.len() == i,
            total == weight_sum(intervals@, number_of_species@, i as int),
            forall|k: int|
                0 <= k < i ==> cdf@[k] == weight_sum(intervals@, number_of_species@, k + 1),
        decreases n - i,
    {
        proof {
            lemma_weight_fits(intervals@, number_of_species@, i + 1);
            lemma_weight_fits(intervals@, number_of_species@, i as int);
        }
        total = total + (intervals[i] as u128) * (number_of_species[i] as u128);
        cdf.push(total);
        i += 1;
    }
    proof {
        assert forall|a: int, b: int| 0 <= a <= b < cdf@.len() implies cdf@[a] <= cdf@[b] by {
            lemma_weight_sum_grows(intervals@, number_of_species@, a + 1, b + 1);
        }
        assert(cdf@ =~= cumulative_weights(intervals@, number_of_species@)) by {
            assert forall|k: int| 0 <= k < cdf@.len() implies cdf@[k] == cumulative_weights(
                intervals@,
                number_of_species@,
            )[k] by {
                lemma_weight_fits(intervals@, number_of_species@, k + 1);
            }
        }
    }
    cdf
}

/// A whole number below `bound`, each with the same chance.
///
/// Calls `Rng::gen_range` of `rand` on the half-open range from zero to
/// `bound`. All that is claimed of the outcome is that it lies in the range;
/// an empty range is left out because the call would panic on it.
#[verifier::external_body]
fn uniform_below(rng: &mut StdRng, bound: u128) -> (drawn: u128)
    requires
        bound > 0,
    ensures
        drawn < bound,
{
    rng.gen_range(0..bound)
}

/// The position of the first entry that is at least `r`, or `None` where
/// every entry is smaller.
pub fn locate(cdf: &Vec<u128>, r: u128) -> (found: Option<usize>)
    requires
        non_decreasing(cdf@),
    ensures
        match found {
            Some(i) => {
                &&& i < cdf.len()
                &&& cdf@[i as int] >= r
                &&& forall|j: int| 0 <= j < i ==> cdf@[j] < r
            },
            None => forall|j: int| 0 <= j < cdf.len() ==> cdf@[j] < r,
        },
{
    let mut low: usize = 0;
    let mut high: usize = cdf.len();
    while low < high
        invariant
            low <= high <= cdf.len(),
            non_decreasing(cdf@),
            forall|j: int| 0 <= j < low ==> cdf@[j] < r,
            forall|j: int| high <= j < cdf.len() ==> cdf@[j] >= r,
        decreases high - low,
    {
        let mid: usize = low + (high - low) / 2;
        if cdf[mid] < r {
            low = mid + 1;
        } else {
            high = mid;
        }
    }
    if low < cdf.len() {
        Some(low)
    } else {
        None
    }
}

/// The cumulative weights belong to the breakpoints: there is one entry for
/// each breakpoint, the first is zero, none is smaller than the one before
/// it, and the weight of each interval is a whole multiple of its length.
pub open spec fn cdf_matches(cdf: Seq<u128>, depths: Seq<i64>) -> bool {
    &&& cdf.len() == depths.len()
    &&& ascending(depths)
    &&& non_decreasing(cdf)
    &&& cdf.len() > 0 ==> cdf[0] == 0
    &&& forall|i: int|
        1 <= i < cdf.len() ==> (#[trigger] cdf[i] - cdf[i - 1]) % (depths[i] - depths[i - 1])
            == 0
}

/// The cumulative weights that `make_CDF` builds from the intervals between
/// ascending breakpoints belong to those breakpoints.
pub proof fn lemma_cdf_matches(
    depths: Seq<i64>,
    intervals: Seq<u64>,
    counts: Seq<usize>,
    cdf: Seq<u128>,
)
    requires
        ascending(depths),
        intervals.len() == depths.len(),
        counts.len() == depths.len(),
        cdf.len() == depths.len(),
        forall|i: int| 0 <= i < depths.len() ==> intervals[i] == interval_at(depths, i),
        forall|i: int| 0 <= i < cdf.len() ==> cdf[i] == weight_sum(intervals, counts, i + 1),
        non_decreasing(cdf),
    ensures
        cdf_matches(cdf, depths),
{
    if cdf.len() > 0 {
        assert(weight_sum(intervals, counts, 0) == 0);
        assert(intervals[0] == 0);
        assert(intervals[0] * counts[0] == 0) by (nonlinear_arith)
            requires
                intervals[0] == 0,
        ;
    }
    assert forall|i: int| 1 <= i < cdf.len() implies (#[trigger] cdf[i] - cdf[i - 1]) % (depths[i]
        - depths[i - 1]) == 0 by {
        let gap = depths[i] - depths[i - 1];
        assert(cdf[i] - cdf[i - 1] == intervals[i] * counts[i]);
        assert(intervals[i] == gap);
        assert(intervals[i] * counts[i] == counts[i] * gap) by (nonlinear_arith)
            requires
                intervals[i] == gap,
        ;
        vstd::arithmetic::div_mod::lemma_mod_multiples_basic(counts[i] as int, gap);
    }
}

/// Tells whether the cumulative weights belong to the breakpoints.
pub fn is_cdf_for(cdf: &Vec<u128>, depths: &Vec<i64>) -> (ok: bool)
    ensures
        ok == cdf_matches(cdf@, depths@),
{
    if cdf.len() != depths.len() {
        return false;
    }
    if !is_ascending(depths) {
        return false;
    }
    if cdf.len() == 0 {
        return true;
    }
    if cdf[0] != 0 {
        return false;
    }
    let mut i: usize = 1;
    while i < cdf.len()
        invariant
            1 <= i <= cdf.len(),
            cdf.len() == depths.len(),
            ascending(depths@),
            forall|a: int, b: int| 0 <= a <= b < i ==> cdf@[a] <= cdf@[b],
            forall|k: int|
                1 <= k < i ==> (#[trigger] cdf@[k] - cdf@[k - 1]) % (depths@[k] - depths@[k - 1])
                    == 0,
        decreases cdf.len() - i,
    {
        if cdf[i] < cdf[i - 1] {
            assert(!non_decreasing(cdf@));
            return false;
        }
        let gap: u128 = (depths[i] as i128 - depths[i - 1] as i128) as u128;
        if (cdf[i] - cdf[i - 1]) % gap != 0 {
            assert((#[trigger] cdf@[i as int] - cdf@[i - 1]) % (depths@[i as int] - depths@[i
                - 1]) != 0);
            return false;
        }
        assert forall|a: int, b: int| 0 <= a <= b < i + 1 implies cdf@[a] <= cdf@[b] by {
            if b == i && a < i {
                assert(cdf@[a] <= cdf@[i - 1]);
            }
        }
        i += 1;
    }
    true
}

/// `a` divided by `b`, rounded up.
pub open spec fn ceil_div(a: int, b: int) -> int {
    (a + b - 1) / b
}

/// The time that draw `r` stands for within interval `i`: the first tick at
/// which the weight, growing evenly over the interval from the cumulative
/// weight before it to the one at its end, has reached `r`.
pub open spec fn event_time_at(cdf: Seq<u128>, depths: Seq<i64>, i: int, r: int) -> int {
    depths[i - 1] + ceil_div(
        (r - cdf[i - 1]) * (depths[i] - depths[i - 1]),
        cdf[i] - cdf[i - 1],
    )
}

/// Rounding up `x * l / (k * l)` is rounding up `x / k`, and for `x` between
/// one and `k * l` the result lies between one and `l`.
proof fn lemma_scaled_ceil(x: int, k: int, l: int)
    requires
        1 <= x <= k * l,
        k >= 1,
        l >= 1,
    ensures
        ceil_div(x * l, k * l) == (x - 1) / k + 1,
        1 <= (x - 1) / k + 1 <= l,
{
    let q = (x - 1) / k;
    let rem = (x - 1) % k;
    lemma_fundamental_div_mod(x - 1, k);
    lemma_mod_pos_bound(x - 1, k);
    assert(x - 1 == k * q + rem);
    assert(q >= 0) by {
        vstd::arithmetic::div_mod::lemma_div_pos_is_pos(x - 1, k);
    }
    assert(q < l) by (nonlinear_arith)
        requires
            x - 1 == k * q + rem,
            0 <= rem,
            x <= k * l,
            k >= 1,
    ;
    let rest = (rem + 1) * l - 1;
    assert(0 <= rest < k * l) by (nonlinear_arith)
        requires
            rest == (rem + 1) * l - 1,
            0 <= rem < k,
            l >= 1,
    ;
    assert(x * l + k * l - 1 == (q + 1) * (k * l) + rest) by (nonlinear_arith)
        requires
            x - 1 == k * q + rem,
            rest == (rem + 1) * l - 1,
    ;
    assert(k * l >= 1) by (nonlinear_arith)
        requires
            k >= 1,
            l >= 1,
    ;
    lemma_fundamental_div_mod_converse(x * l + k * l - 1, k * l, q + 1, rest);
}

/// The time that draw `r` stands for within interval `index`.
pub fn event_time(cdf: &Vec<u128>, depths: &Vec<i64>, index: usize, r: u128) -> (time: i64)
    requires
        cdf_matches(cdf@, depths@),
        1 <= index < cdf.len(),
        cdf@[index - 1] < r <= cdf@[index as int],
    ensures
        time == event_time_at(cdf@, depths@, index as int, r as int),
        depths@[index - 1] < time <= depths@[index as int],
{
    let gap: u128 = (depths[index] as i128 - depths[index - 1] as i128) as u128;
    let weight: u128 = cdf[index] - cdf[index - 1];
    let x: u128 = r - cdf[index - 1];
    assert((#[trigger] cdf@[index as int] - cdf@[index - 1]) % (depths@[index as int]
        - depths@[index - 1]) == 0);
    let per_tick: u128 = weight / gap;
    proof {
        lemma_fundamental_div_mod(weight as int, gap as int);
        assert(weight == gap * per_tick);
        assert(per_tick >= 1) by (nonlinear_arith)
            requires
                weight == gap * per_tick,
                weight >= 1,
                gap >= 1,
                per_tick >= 0,
        ;
        assert(per_tick * gap == gap * per_tick) by (nonlinear_arith);
        lemma_scaled_ceil(x as int, per_tick as int, gap as int);
    }
    let ticks: u128 = (x - 1) / per_tick + 1;
    (depths[index - 1] as i128 + ticks as i128) as i64
}

/// The event that draw `r` stands for: its time and the interval it falls
/// into, the first one whose cumulative weight is at least `r`.
///
/// There is none for a draw of zero, which lies before every interval, nor
/// for a draw beyond the last cumulative weight.
pub fn event_at(cdf: &Vec<u128>, depths: &Vec<i64>, r: u128) -> (event: Option<(i64, usize)>)
    requires
        cdf_matches(cdf@, depths@),
    ensures
        match event {
            Some((time, index)) => {
                &&& 1 <= index < cdf.len()
                &&& cdf@[index - 1] < r <= cdf@[index as int]
                &&& time == event_time_at(cdf@, depths@, index as int, r as int)
                &&& depths@[index - 1] < time <= depths@[index as int]
            },
            None => r == 0 || cdf.len() == 0 || r > cdf@.last(),
        },
{
    match locate(cdf, r) {
        None => None,
        Some(index) => {
            if index == 0 {
                None
            } else {
                Some((event_time(cdf, depths, index, r), index))
            }
        },
    }
}

/// Draws the time of one event and the interval it falls into.
#[allow(non_snake_case)]
pub fn choose_from_CDF(cdf: &Vec<u128>, depths: &Vec<i64>, rng: &mut StdRng) -> (event: (
    i64,
    usize,
))
    requires
        cdf_matches(cdf@, depths@),
        cdf.len() > 0,
        cdf@.last() > 0,
    ensures
        1 <= event.1 < cdf.len(),
        depths@[event.1 - 1] < event.0 <= depths@[event.1 as int],
        exists|r: int|
            cdf@[event.1 - 1] < r <= cdf@[event.1 as int] && event.0 == #[trigger] event_time_at(
                cdf@,
                depths@,
                event.1 as int,
                r,
            ),
{
    let total: u128 = cdf[cdf.len() - 1];
    let r: u128 = uniform_below(rng, total) + 1;
    match event_at(cdf, depths, r) {
        Some(event) => event,
        None => {
            assert(false);
            (0, 0)
        },
    }
}

/// The position that the second draw stands for, which skips the first.
pub open spec fn skipping(first: int, second: int) -> int {
    if second >= first {
        second + 1
    } else {
        second
    }
}

/// The two lineages that a pair of draws stands for: the first draw is a
/// position in the list, the second a position among the others.
pub fn pair_at(vec: &Vec<usize>, first: usize, second: usize) -> (pair: (usize, usize))
    requires
        first < vec.len(),
        second + 1 < vec.len(),
    ensures
        pair == (vec@[first as int], vec@[skipping(first as int, second as int)]),
{
    let other: usize = if second >= first {
        second + 1
    } else {
        second
    };
    (vec[first], vec[other])
}

/// Draws two lineages at different positions of the list, donor first; every
/// such pair has the same chance. There is none where the list holds fewer
/// than two.
pub fn random_pair(vec: &Vec<usize>, rng: &mut StdRng) -> (pair: Option<(usize, usize)>)
    ensures
        pair is None <==> vec.len() < 2,
        pair matches Some((donor, recipient)) ==> exists|p: int, q: int|
            0 <= p < vec.len() && 0 <= q < vec.len() && p != q && #[trigger] vec@[p] == donor
                && #[trigger] vec@[q] == recipient,
{
    if vec.len() < 2 {
        return None;
    }
    let first: usize = uniform_below(rng, vec.len() as u128) as usize;
    let second: usize = uniform_below(rng, (vec.len() - 1) as u128) as usize;
    let pair = pair_at(vec, first, second);
    assert(vec@[first as int] == pair.0 && vec@[skipping(first as int, second as int)] == pair.1);
    Some(pair)
}

/// No transfer comes before an earlier one.
pub open spec fn sorted_by_time(transfers: Seq<Transfer>) -> bool {
    forall|i: int, j: int| 0 <= i <= j < transfers.len() ==> transfers[i].time <= transfers[j].time
}

/// Where a transfer at `time` goes into a list in time order: behind the
/// last transfer that is not later.
pub open spec fn insertion_point(transfers: Seq<Transfer>, time: i64) -> int
    decreases transfers.len(),
{
    if transfers.len() == 0 {
        0
    } else if transfers.last().time <= time {
        transfers.len() as int
    } else {
        insertion_point(transfers.drop_last(), time)
    }
}

/// The list with `transfer` put in behind the last transfer that is not
/// later.
pub open spec fn inserted(transfers: Seq<Transfer>, transfer: Transfer) -> Seq<Transfer> {
    transfers.insert(insertion_point(transfers, transfer.time), transfer)
}

/// The transfers in time order, those of equal time in the order in which
/// they stand in `transfers`.
pub open spec fn in_time_order(transfers: Seq<Transfer>) -> Seq<Transfer>
    decreases transfers.len(),
{
    if transfers.len() == 0 {
        Seq::empty()
    } else {
        inserted(in_time_order(transfers.drop_last()), transfers.last())
    }
}

/// In a list in time order, everything before the insertion point is not
/// later than `time` and everything from it on is later.
pub proof fn lemma_insertion_point(transfers: Seq<Transfer>, time: i64)
    requires
        sorted_by_time(transfers),
    ensures
        0 <= insertion_point(transfers, time) <= transfers.len(),
        forall|j: int| 0 <= j < insertion_point(transfers, time) ==> transfers[j].time <= time,
        forall|j: int|
            insertion_point(transfers, time) <= j < transfers.len() ==> transfers[j].time > time,
    decreases transfers.len(),
{
    if transfers.len() > 0 && transfers.last().time > time {
        let rest = transfers.drop_last();
        assert forall|i: int, j: int| 0 <= i <= j < rest.len() implies rest[i].time
            <= rest[j].time by {
            assert(rest[i] == transfers[i] && rest[j] == transfers[j]);
        }
        lemma_insertion_point(rest, time);
        assert forall|j: int| 0 <= j < insertion_point(transfers, time) implies transfers[j].time
            <= time by {
            assert(rest[j] == transfers[j]);
        }
        assert forall|j: int|
            insertion_point(transfers, time) <= j < transfers.len() implies transfers[j].time
            > time by {
            if j < rest.len() {
                assert(rest[j] == transfers[j]);
            }
        }
    }
}

/// Putting a transfer into a list in time order leaves it in time order,
/// with the same transfers and the new one.
pub proof fn lemma_inserted(transfers: Seq<Transfer>, transfer: Transfer)
    requires
        sorted_by_time(transfers),
    ensures
        sorted_by_time(inserted(transfers, transfer)),
        inserted(transfers, transfer).len() == transfers.len() + 1,
        inserted(transfers, transfer).to_multiset() == transfers.to_multiset().insert(transfer),
{
    lemma_insertion_point(transfers, transfer.time);
    let pos = insertion_point(transfers, transfer.time);
    let after = inserted(transfers, transfer);
    assert forall|i: int, j: int| 0 <= i <= j < after.len() implies after[i].time
        <= after[j].time by {
        if i < pos && j > pos {
            assert(after[i] == transfers[i] && after[j] == transfers[j - 1]);
        } else if i < pos && j < pos {
            assert(after[i] == transfers[i] && after[j] == transfers[j]);
        } else if i > pos {
            assert(after[i] == transfers[i - 1] && after[j] == transfers[j - 1]);
        }
    }
    vstd::seq_lib::to_multiset_insert(transfers, pos, transfer);
}

/// The transfers in time order are in time order, and are the same
/// transfers.
pub proof fn lemma_in_time_order(transfers: Seq<Transfer>)
    ensures
        sorted_by_time(in_time_order(transfers)),
        in_time_order(transfers).len() == transfers.len(),
        in_time_order(transfers).to_multiset() == transfers.to_multiset(),
    decreases transfers.len(),
{
    broadcast use vstd::seq_lib::group_to_multiset_ensures;

    if transfers.len() > 0 {
        lemma_in_time_order(transfers.drop_last());
        lemma_inserted(in_time_order(transfers.drop_last()), transfers.last());
        assert(transfers.drop_last().push(transfers.last()) =~= transfers);
    }
}

/// Two lists merged from their ends: the later of the two last transfers
/// goes last, and of two that are equally late the last of `other`.
pub open spec fn merged(one: Seq<Transfer>, other: Seq<Transfer>) -> Seq<Transfer>
    decreases one.len() + other.len(),
{
    if one.len() == 0 {
        other
    } else if other.len() == 0 {
        one
    } else if one.last().time > other.last().time {
        merged(one.drop_last(), other).push(one.last())
    } else {
        merged(one, other.drop_last()).push(other.last())
    }
}

/// Where a transfer goes into a list is a place of the list.
proof fn lemma_insertion_point_bound(transfers: Seq<Transfer>, time: i64)
    ensures
        0 <= insertion_point(transfers, time) <= transfers.len(),
    decreases transfers.len(),
{
    if transfers.len() > 0 && transfers.last().time > time {
        lemma_insertion_point_bound(transfers.drop_last(), time);
    }
}

/// Putting a transfer into a list with one more transfer at its end: it
/// goes behind that one unless that one is later.
proof fn lemma_inserted_push(transfers: Seq<Transfer>, last: Transfer, transfer: Transfer)
    ensures
        inserted(transfers.push(last), transfer) == (if last.time > transfer.time {
            inserted(transfers, transfer).push(last)
        } else {
            transfers.push(last).push(transfer)
        }),
{
    let longer = transfers.push(last);
    assert(longer.drop_last() =~= transfers);
    assert(longer.last() == last);
    lemma_insertion_point_bound(transfers, transfer.time);
    if last.time > transfer.time {
        let p = insertion_point(transfers, transfer.time);
        assert(longer.insert(p, transfer) =~= transfers.insert(p, transfer).push(last));
    } else {
        assert(longer.insert(longer.len() as int, transfer) =~= longer.push(transfer));
    }
}

/// Putting a transfer into two merged lists is putting it into the second
/// and merging then.
proof fn lemma_merged_inserted(one: Seq<Transfer>, other: Seq<Transfer>, transfer: Transfer)
    ensures
        inserted(merged(one, other), transfer) == merged(one, inserted(other, transfer)),
    decreases one.len() + other.len(),
{
    let longer = inserted(other, transfer);
    lemma_insertion_point_bound(other, transfer.time);
    if one.len() == 0 {
    } else if other.len() == 0 {
        assert(longer =~= seq![transfer]);
        assert(longer.drop_last() =~= Seq::<Transfer>::empty());
        assert(longer.last() == transfer);
        let a = one.last();
        assert(one =~= one.drop_last().push(a));
        lemma_inserted_push(one.drop_last(), a, transfer);
        if a.time > transfer.time {
            lemma_merged_inserted(one.drop_last(), other, transfer);
            assert(merged(one.drop_last(), other) == one.drop_last()) by {
                if one.drop_last().len() == 0 {
                    assert(one.drop_last() =~= other);
                }
            }
        } else {
            assert(merged(one, Seq::<Transfer>::empty()) == one);
        }
    } else {
        let a = one.last();
        let b = other.last();
        assert(other =~= other.drop_last().push(b));
        lemma_inserted_push(other.drop_last(), b, transfer);
        if b.time <= transfer.time {
            assert(longer == other.push(transfer));
            assert(longer.drop_last() =~= other);
            assert(longer.last() == transfer);
            if a.time > transfer.time {
                lemma_merged_inserted(one.drop_last(), other, transfer);
                lemma_inserted_push(merged(one.drop_last(), other), a, transfer);
            } else {
                let both = merged(one, other);
                let rest = if a.time > b.time {
                    merged(one.drop_last(), other)
                } else {
                    merged(one, other.drop_last())
                };
                let end = if a.time > b.time {
                    a
                } else {
                    b
                };
                assert(both == rest.push(end));
                lemma_inserted_push(rest, end, transfer);
            }
        } else {
            assert(longer == inserted(other.drop_last(), transfer).push(b));
            assert(longer.drop_last() =~= inserted(other.drop_last(), transfer));
            assert(longer.last() == b);
            if a.time > b.time {
                lemma_merged_inserted(one.drop_last(), other, transfer);
                lemma_inserted_push(merged(one.drop_last(), other), a, transfer);
            } else {
                lemma_merged_inserted(one, other.drop_last(), transfer);
                lemma_inserted_push(merged(one, other.drop_last()), b, transfer);
            }
        }
    }
}

/// Two lists put in time order and merged are the two lists, one after the
/// other, put in time order.
proof fn lemma_merged_in_time_order(one: Seq<Transfer>, other: Seq<Transfer>)
    ensures
        merged(in_time_order(one), in_time_order(other)) == in_time_order(one + other),
    decreases other.len(),
{
    if other.len() == 0 {
        assert(one + other =~= one);
        let sorted = in_time_order(one);
        assert(merged(sorted, Seq::<Transfer>::empty()) == sorted) by {
            if sorted.len() == 0 {
                assert(sorted =~= Seq::<Transfer>::empty());
            }
        }
    } else {
        let rest = other.drop_last();
        let last = other.last();
        lemma_merged_in_time_order(one, rest);
        lemma_merged_inserted(in_time_order(one), in_time_order(rest), last);
        assert((one + other).drop_last() =~= one + rest);
        assert((one + other).last() == last);
    }
}

/// Merges two lists from their ends.
fn merge_by_time(one: &Vec<Transfer>, other: &Vec<Transfer>) -> (out: Vec<Transfer>)
    requires
        one.len() + other.len() <= usize::MAX,
    ensures
        out@ == merged(one@, other@),
{
    let total: usize = one.len() + other.len();
    let mut out: Vec<Transfer> = Vec::new();
    let mut filled: usize = 0;
    while filled < total
        invariant
            filled <= total,
            out.len() == filled,
        decreases total - filled,
    {
        out.push(Transfer { donor: 0, recipient: 0, time: 0 });
        filled += 1;
    }
    let mut i: usize = one.len();
    let mut j: usize = other.len();
    let mut k: usize = total;
    assert(one@.take(i as int) =~= one@);
    assert(other@.take(j as int) =~= other@);
    assert(merged(one@, other@) + out@.skip(k as int) =~= merged(one@, other@));
    while k > 0
        invariant
            i <= one.len(),
            j <= other.len(),
            k == i + j,
            out.len() == total,
            total == one.len() + other.len(),
            merged(one@, other@) == merged(one@.take(i as int), other@.take(j as int)) + out@.skip(
                k as int,
            ),
        decreases k,
    {
        let ghost first = one@.take(i as int);
        let ghost second = other@.take(j as int);
        let ghost tail = out@.skip(k as int);
        let from_one: bool = j == 0 || (i > 0 && one[i - 1].time > other[j - 1].time);
        if from_one {
            assert(first.last() == one@[i - 1]);
            assert(first.drop_last() =~= one@.take(i - 1));
            assert(merged(first, second) == merged(first.drop_last(), second).push(first.last())) by {
                if second.len() == 0 {
                    assert(merged(first.drop_last(), second) == first.drop_last()) by {
                        if first.drop_last().len() == 0 {
                            assert(first.drop_last() =~= second);
                        }
                    }
                    assert(first =~= first.drop_last().push(first.last()));
                }
            }
            out[k - 1] = one[i - 1];
            i -= 1;
        } else {
            assert(second.last() == other@[j - 1]);
            assert(second.drop_last() =~= other@.take(j - 1));
            assert(merged(first, second) == merged(first, second.drop_last()).push(
                second.last(),
            )) by {
                if first.len() == 0 {
                    assert(merged(first, second.drop_last()) == second.drop_last());
                    assert(second =~= second.drop_last().push(second.last()));
                }
            }
            out[k - 1] = other[j - 1];
            j -= 1;
        }
        k -= 1;
        assert(out@.skip(k as int) =~= seq![out@[k as int]] + tail);
        assert(merged(one@, other@) =~= merged(one@.take(i as int), other@.take(j as int))
            + out@.skip(k as int));
    }
    assert(one@.take(0) =~= Seq::<Transfer>::empty());
    assert(out@.skip(0) =~= out@);
    assert(merged(one@, other@) =~= out@);
    out
}

/// The transfers from `low` up to `high`, in time order.
fn sort_range_by_time(transfers: &Vec<Transfer>, low: usize, high: usize) -> (sorted: Vec<Transfer>)
    requires
        low <= high <= transfers.len(),
    ensures
        sorted@ == in_time_order(transfers@.subrange(low as int, high as int)),
    decreases high - low,
{
    let ghost range = transfers@.subrange(low as int, high as int);
    if high - low <= 1 {
        let mut sorted: Vec<Transfer> = Vec::new();
        if high > low {
            sorted.push(transfers[low]);
            assert(range.drop_last() =~= Seq::<Transfer>::empty());
            assert(in_time_order(range.drop_last()) =~= Seq::<Transfer>::empty());
            assert(sorted@ =~= in_time_order(range));
        } else {
            assert(sorted@ =~= in_time_order(range));
        }
        return sorted;
    }
    let middle: usize = low + (high - low) / 2;
    let left = sort_range_by_time(transfers, low, middle);
    let right = sort_range_by_time(transfers, middle, high);
    proof {
        let first = transfers@.subrange(low as int, middle as int);
        let second = transfers@.subrange(middle as int, high as int);
        lemma_merged_in_time_order(first, second);
        assert(first + second =~= range);
        lemma_in_time_order(first);
        lemma_in_time_order(second);
    }
    merge_by_time(&left, &right)
}

/// The transfers in time order; transfers of equal time keep their order.
pub fn sort_by_time(transfers: &Vec<Transfer>) -> (sorted: Vec<Transfer>)
    ensures
        sorted@ == in_time_order(transfers@),
{
    assert(transfers@.subrange(0, transfers.len() as int) =~= transfers@);
    sort_range_by_time(transfers, 0, transfers.len())
}

/// The transfer is one that the tree allows: its time falls into some
/// interval, and donor and recipient stand at different positions of the
/// list of lineages alive in that interval.
pub open spec fn is_event(lists: Seq<Seq<usize>>, depths: Seq<i64>, transfer: Transfer) -> bool {
    exists|i: int, p: int, q: int|
        {
            &&& 1 <= i < depths.len()
            &&& i < lists.len()
            &&& depths[i - 1] < transfer.time <= depths[i]
            &&& 0 <= p < lists[i].len()
            &&& 0 <= q < lists[i].len()
            &&& p != q
            &&& transfer.donor == #[trigger] lists[i][p]
            &&& transfer.recipient == #[trigger] lists[i][q]
        }
}

/// What one draw of an event consists of: a position among the weights,
/// which picks the interval and the time, and two positions in the list of
/// that interval, the second counted among the lineages other than the
/// first.
pub ghost struct Draw {
    pub position: int,
    pub first: int,
    pub second: int,
}

/// The first interval at or after `from` whose cumulative weight reaches
/// `r`, or the number of intervals where none does.
pub open spec fn first_reaching(cdf: Seq<u128>, r: int, from: int) -> int
    decreases cdf.len() - from,
{
    if 0 <= from < cdf.len() && cdf[from] < r {
        first_reaching(cdf, r, from + 1)
    } else {
        from
    }
}

/// The draw is one that can be made: its position lies between one and the
/// total weight, and, where its interval lists two lineages or more, its
/// first pick is a position of that list and its second a position among
/// the others.
pub open spec fn is_draw(lists: Seq<Seq<usize>>, cdf: Seq<u128>, draw: Draw) -> bool {
    let i = first_reaching(cdf, draw.position, 0);
    &&& cdf.len() > 0
    &&& 1 <= draw.position <= cdf.last()
    &&& (0 <= i < lists.len() && lists[i].len() >= 2) ==> {
        &&& 0 <= draw.first < lists[i].len()
        &&& 0 <= draw.second < lists[i].len() - 1
    }
}

/// The event that a draw gives: it falls into the first interval whose
/// cumulative weight reaches the position, at the time that the position
/// stands for; the donor is the lineage at the first pick and the recipient
/// the one at the second. Where the interval lists fewer than two lineages
/// there is no event.
pub open spec fn drawn_transfer(
    lists: Seq<Seq<usize>>,
    cdf: Seq<u128>,
    depths: Seq<i64>,
    draw: Draw,
) -> Option<Transfer> {
    let i = first_reaching(cdf, draw.position, 0);
    if 0 <= i < lists.len() && lists[i].len() >= 2 {
        Some(
            Transfer {
                donor: lists[i][draw.first],
                recipient: lists[i][skipping(draw.first, draw.second)],
                time: event_time_at(cdf, depths, i, draw.position) as i64,
            },
        )
    } else {
        None
    }
}

/// The events that the draws give, in the order of the draws; a draw that
/// gives none is passed over.
pub open spec fn kept(
    lists: Seq<Seq<usize>>,
    cdf: Seq<u128>,
    depths: Seq<i64>,
    draws: Seq<Draw>,
) -> Seq<Transfer>
    decreases draws.len(),
{
    if draws.len() == 0 {
        Seq::empty()
    } else {
        let rest = kept(lists, cdf, depths, draws.drop_last());
        match drawn_transfer(lists, cdf, depths, draws.last()) {
            Some(transfer) => rest.push(transfer),
            None => rest,
        }
    }
}

/// `transfers` is what the draws come to: there are `n_transfers` of them,
/// each one that can be made, and the transfers are the events that they
/// give, in time order, those of equal time in the order of their draws.
pub open spec fn comes_of(
    transfers: Seq<Transfer>,
    n_transfers: usize,
    lists: Seq<Seq<usize>>,
    cdf: Seq<u128>,
    depths: Seq<i64>,
    draws: Seq<Draw>,
) -> bool {
    &&& draws.len() == n_transfers
    &&& forall|k: int| 0 <= k < draws.len() ==> is_draw(lists, cdf, #[trigger] draws[k])
    &&& transfers == in_time_order(kept(lists, cdf, depths, draws))
}

/// An interval whose cumulative weight reaches `r`, while none before it
/// does, is the first that reaches `r`.
proof fn lemma_first_reaching(cdf: Seq<u128>, r: int, from: int, index: int)
    requires
        0 <= from <= index < cdf.len(),
        forall|j: int| from <= j < index ==> cdf[j] < r,
        cdf[index] >= r,
    ensures
        first_reaching(cdf, r, from) == index,
    decreases index - from,
{
    if from < index {
        lemma_first_reaching(cdf, r, from + 1, index);
    }
}

/// Draws `n_transfers` times and returns the events in time order.
///
/// Each draw picks a time and an interval, then two lineages alive in that
/// interval. A draw that lands in an interval with fewer than two lineages
/// gives no event and is not repeated.
///
/// Whatever is drawn, the result is what `n_transfers` draws come to: the
/// events that they give, in time order.
pub fn generate_transfers(
    n_transfers: usize,
    contemporaneity: &Vec<Vec<usize>>,
    cdf: &Vec<u128>,
    depths: &Vec<i64>,
    rng: &mut StdRng,
) -> (transfers: Vec<Transfer>)
    requires
        cdf_matches(cdf@, depths@),
        cdf.len() > 0,
        cdf@.last() > 0,
        contemporaneity.len() == depths.len(),
    ensures
        exists|draws: Seq<Draw>| #[trigger]
            comes_of(
                transfers@,
                n_transfers,
                interval_lists(contemporaneity@),
                cdf@,
                depths@,
                draws,
            ),
        transfers.len() <= n_transfers,
        sorted_by_time(transfers@),
        forall|k: int|
            0 <= k < transfers.len() ==> is_event(interval_lists(contemporaneity@), depths@, #[trigger] transfers@[k]),
{
    let ghost lists = interval_lists(contemporaneity@);
    let ghost mut draws: Seq<Draw> = Seq::empty();
    let mut drawn: Vec<Transfer> = Vec::new();
    let mut n: usize = 0;
    while n < n_transfers
        invariant
            n <= n_transfers,
            drawn.len() <= n,
            cdf_matches(cdf@, depths@),
            cdf.len() > 0,
            cdf@.last() > 0,
            contemporaneity.len() == depths.len(),
            lists == interval_lists(contemporaneity@),
            draws.len() == n,
            forall|k: int| 0 <= k < draws.len() ==> is_draw(lists, cdf@, #[trigger] draws[k]),
            drawn@ == kept(lists, cdf@, depths@, draws),
            forall|k: int|
                0 <= k < drawn.len() ==> is_event(interval_lists(contemporaneity@), depths@, #[trigger] drawn@[k]),
        decreases n_transfers - n,
    {
        let (time, index) = choose_from_CDF(cdf, depths, rng);
        let ghost position = choose|r: int|
            cdf@[index - 1] < r <= cdf@[index as int] && time == #[trigger] event_time_at(
                cdf@,
                depths@,
                index as int,
                r,
            );
        proof {
            assert forall|j: int| 0 <= j < index implies cdf@[j] < position by {
                assert(cdf@[j] <= cdf@[index - 1]);
            }
            lemma_first_reaching(cdf@, position, 0, index as int);
            assert(cdf@[index as int] <= cdf@.last());
            assert(lists[index as int] == contemporaneity@[index as int]@);
        }
        let ghost earlier = draws;
        let ghost before = drawn@;
        let ghost mut draw = Draw { position: position, first: 0, second: 0 };
        if let Some((donor, recipient)) = random_pair(&contemporaneity[index], rng) {
            let transfer = Transfer { donor: donor, recipient: recipient, time: time };
            proof {
                let (p, q) = choose|p: int, q: int|
                    0 <= p < contemporaneity@[index as int]@.len() && 0 <= q
                        < contemporaneity@[index as int]@.len() && p != q
                        && #[trigger] contemporaneity@[index as int]@[p] == donor
                        && #[trigger] contemporaneity@[index as int]@[q] == recipient;
                assert(transfer.donor == lists[index as int][p]);
                assert(transfer.recipient == lists[index as int][q]);
                assert(is_event(interval_lists(contemporaneity@), depths@, transfer));
                let second = if q > p {
                    q - 1
                } else {
                    q
                };
                assert(skipping(p, second) == q);
                draw = Draw { position: position, first: p, second: second };
                assert(drawn_transfer(lists, cdf@, depths@, draw) == Some(transfer));
            }
            drawn.push(transfer);
            assert forall|k: int| 0 <= k < drawn.len() implies is_event(
                interval_lists(contemporaneity@),
                depths@,
                #[trigger] drawn@[k],
            ) by {
                if k < before.len() {
                    assert(drawn@[k] == before[k]);
                }
            }
        } else {
            assert(drawn_transfer(lists, cdf@, depths@, draw) is None);
        }
        proof {
            assert(is_draw(lists, cdf@, draw));
            draws = earlier.push(draw);
            assert(draws.drop_last() =~= earlier);
            assert(draws.last() == draw);
            assert forall|k: int| 0 <= k < draws.len() implies is_draw(
                lists,
                cdf@,
                #[trigger] draws[k],
            ) by {
                if k < earlier.len() {
                    assert(draws[k] == earlier[k]);
                }
            }
        }
        n += 1;
    }
    let transfers = sort_by_time(&drawn);
    proof {
        lemma_in_time_order(drawn@);
        assert(comes_of(transfers@, n_transfers, lists, cdf@, depths@, draws));
        assert forall|k: int| 0 <= k < transfers.len() implies is_event(
            interval_lists(contemporaneity@),
            depths@,
            #[trigger] transfers@[k],
        ) by {
            broadcast use vstd::seq_lib::group_to_multiset_ensures;

            assert(transfers@.to_multiset().count(transfers@[k]) > 0);
            assert(drawn@.to_multiset().count(transfers@[k]) > 0);
            assert(drawn@.contains(transfers@[k]));
            let m = choose|m: int| 0 <= m < drawn@.len() && drawn@[m] == transfers@[k];
            assert(is_event(interval_lists(contemporaneity@), depths@, drawn@[m]));
        }
    }
    transfers
}

} // verus!
