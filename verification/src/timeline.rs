//! Breakpoints, intervals and the lineages alive in each interval.
//!
//! The depths of all nodes cut time into intervals. Between two neighbouring
//! breakpoints the set of lineages that exist does not change, so one list of
//! lineages per interval says who can take part in a transfer at any time.

use crate::arena::FlatNode;
use vstd::prelude::*;

verus! {

/// Each entry is smaller than the next.
pub open spec fn ascending(times: Seq<i64>) -> bool {
    forall|i: int, j: int| 0 <= i < j < times.len() ==> times[i] < times[j]
}

/// Some record of the arena has depth `d`.
pub open spec fn is_depth_of(tree: Seq<FlatNode>, d: i64) -> bool {
    exists|i: int| 0 <= i < tree.len() && #[trigger] tree[i].depth == Some(d)
}

/// The distance between two times.
pub open spec fn distance(a: int, b: int) -> int {
    if a >= b {
        a - b
    } else {
        b - a
    }
}

/// Entry `r` is as close to `value` as any entry, and closer than every
/// entry before it.
pub open spec fn is_closest(breakpoints: Seq<i64>, value: int, r: int) -> bool {
    &&& 0 <= r < breakpoints.len()
    &&& forall|j: int|
        0 <= j < breakpoints.len() ==> distance(value, breakpoints[r] as int) <= distance(
            value,
            #[trigger] breakpoints[j] as int,
        )
    &&& forall|j: int|
        0 <= j < r ==> distance(value, breakpoints[r] as int) < distance(
            value,
            #[trigger] breakpoints[j] as int,
        )
}

/// The position of the breakpoint nearest to `value`, the earlier one where
/// two are equally near; zero where there is no breakpoint.
pub open spec fn closest_index(breakpoints: Seq<i64>, value: int) -> int {
    if breakpoints.len() == 0 {
        0
    } else {
        choose|r: int| is_closest(breakpoints, value, r)
    }
}

/// Only one entry is the closest.
pub proof fn lemma_closest_unique(breakpoints: Seq<i64>, value: int, r: int)
    requires
        is_closest(breakpoints, value, r),
    ensures
        closest_index(breakpoints, value) == r,
{
    let c = closest_index(breakpoints, value);
    assert(is_closest(breakpoints, value, c));
    assert(distance(value, breakpoints[r] as int) <= distance(value, breakpoints[c] as int));
    assert(distance(value, breakpoints[c] as int) <= distance(value, breakpoints[r] as int));
}

/// A time that is a breakpoint is its own nearest breakpoint.
pub proof fn lemma_snapping_exact(breakpoints: Seq<i64>, value: i64)
    requires
        ascending(breakpoints),
        breakpoints.contains(value),
    ensures
        0 <= closest_index(breakpoints, value as int) < breakpoints.len(),
        breakpoints[closest_index(breakpoints, value as int)] == value,
        is_closest(breakpoints, value as int, closest_index(breakpoints, value as int)),
{
    let k = choose|k: int| 0 <= k < breakpoints.len() && breakpoints[k] == value;
    assert(is_closest(breakpoints, value as int, k));
    lemma_closest_unique(breakpoints, value as int, k);
}

/// `depths` holds the depths of the arena, each once, in ascending order.
pub open spec fn is_subdivision(tree: Seq<FlatNode>, depths: Seq<i64>) -> bool {
    &&& ascending(depths)
    &&& forall|d: i64| depths.contains(d) <==> is_depth_of(tree, d)
}

/// The breakpoints of the arena: its distinct depths in ascending order.
pub open spec fn breakpoints_of(tree: Seq<FlatNode>) -> Seq<i64> {
    choose|depths: Seq<i64>| is_subdivision(tree, depths)
}

/// Two ascending sequences with the same entries are the same sequence.
pub proof fn lemma_ascending_unique(one: Seq<i64>, other: Seq<i64>)
    requires
        ascending(one),
        ascending(other),
        forall|d: i64| one.contains(d) <==> other.contains(d),
    ensures
        one == other,
    decreases one.len(),
{
    if one.len() == 0 {
        if other.len() > 0 {
            assert(other.contains(other[0]));
        }
        assert(one =~= other);
    } else {
        assert(one.contains(one[0]));
        assert(other.len() > 0);
        let top = one.last();
        assert(one.contains(top));
        assert(other.contains(other.last()));
        let k = choose|k: int| 0 <= k < other.len() && other[k] == top;
        let m = choose|m: int| 0 <= m < one.len() && one[m] == other.last();
        assert(top == other.last());
        let rest = one.drop_last();
        let others = other.drop_last();
        assert forall|d: i64| rest.contains(d) <==> others.contains(d) by {
            if rest.contains(d) {
                let i = choose|i: int| 0 <= i < rest.len() && rest[i] == d;
                assert(one[i] == d);
                assert(one.contains(d));
                let j = choose|j: int| 0 <= j < other.len() && other[j] == d;
                assert(j < other.len() - 1);
                assert(others[j] == d);
            }
            if others.contains(d) {
                let j = choose|j: int| 0 <= j < others.len() && others[j] == d;
                assert(other[j] == d);
                assert(other.contains(d));
                let i = choose|i: int| 0 <= i < one.len() && one[i] == d;
                assert(i < one.len() - 1);
                assert(rest[i] == d);
            }
        }
        lemma_ascending_unique(rest, others);
        assert(one =~= rest.push(top));
        assert(other =~= others.push(top));
    }
}

/// An arena has one sequence of breakpoints only.
pub proof fn lemma_subdivision_unique(tree: Seq<FlatNode>, depths: Seq<i64>)
    requires
        is_subdivision(tree, depths),
    ensures
        depths == breakpoints_of(tree),
{
    lemma_ascending_unique(depths, breakpoints_of(tree));
}

/// The depth of every record snaps to a breakpoint that holds just that
/// depth.
pub proof fn lemma_breakpoint_coverage(tree: Seq<FlatNode>, depths: Seq<i64>, i: int)
    requires
        is_subdivision(tree, depths),
        0 <= i < tree.len(),
        tree[i].depth is Some,
    ensures
        0 <= closest_index(depths, tree[i].depth->0 as int) < depths.len(),
        depths[closest_index(depths, tree[i].depth->0 as int)] == tree[i].depth->0,
{
    let d = tree[i].depth->0;
    assert(is_depth_of(tree, d));
    lemma_snapping_exact(depths, d);
}

/// The position of the first entry that is not smaller than `value`, or the
/// length where every entry is smaller.
fn lower_bound(times: &Vec<i64>, value: i64) -> (pos: usize)
    requires
        ascending(times@),
    ensures
        pos <= times.len(),
        forall|j: int| 0 <= j < pos ==> times@[j] < value,
        forall|j: int| pos <= j < times.len() ==> times@[j] >= value,
{
    let mut low: usize = 0;
    let mut high: usize = times.len();
    while low < high
        invariant
            low <= high <= times.len(),
            ascending(times@),
            forall|j: int| 0 <= j < low ==> times@[j] < value,
            forall|j: int| high <= j < times.len() ==> times@[j] >= value,
        decreases high - low,
    {
        let mid: usize = low + (high - low) / 2;
        if times[mid] < value {
            low = mid + 1;
        } else {
            high = mid;
        }
    }
    low
}

/// No entry is greater than a later one.
spec fn ordered(times: Seq<i64>) -> bool {
    forall|i: int, j: int| 0 <= i <= j < times.len() ==> times[i] <= times[j]
}

/// What a sequence with one more entry holds.
proof fn lemma_push_contains(s: Seq<i64>, v: i64, x: i64)
    ensures
        s.push(v).contains(x) <==> s.contains(x) || x == v,
{
    if s.push(v).contains(x) {
        let k = choose|k: int| 0 <= k < s.push(v).len() && s.push(v)[k] == x;
        if k < s.len() {
            assert(s[k] == x);
        }
    }
    if s.contains(x) {
        let k = choose|k: int| 0 <= k < s.len() && s[k] == x;
        assert(s.push(v)[k] == x);
    }
    if x == v {
        assert(s.push(v)[s.len() as int] == x);
    }
}

/// What the first `n + 1` entries hold beyond the first `n`.
proof fn lemma_take_contains(s: Seq<i64>, n: int, x: i64)
    requires
        0 <= n < s.len(),
    ensures
        s.take(n + 1).contains(x) <==> s.take(n).contains(x) || x == s[n],
{
    assert(s.take(n + 1) =~= s.take(n).push(s[n]));
    lemma_push_contains(s.take(n), s[n], x);
}

/// Merges two ordered lists into one.
fn merge(one: &Vec<i64>, other: &Vec<i64>) -> (out: Vec<i64>)
    requires
        ordered(one@),
        ordered(other@),
    ensures
        ordered(out@),
        forall|x: i64| out@.contains(x) <==> one@.contains(x) || other@.contains(x),
{
    let mut out: Vec<i64> = Vec::new();
    let mut i: usize = 0;
    let mut j: usize = 0;
    while i < one.len() || j < other.len()
        invariant
            i <= one.len(),
            j <= other.len(),
            ordered(one@),
            ordered(other@),
            ordered(out@),
            forall|k: int| 0 <= k < out.len() && i < one.len() ==> out@[k] <= one@[i as int],
            forall|k: int| 0 <= k < out.len() && j < other.len() ==> out@[k] <= other@[j as int],
            forall|x: i64|
                out@.contains(x) <==> one@.take(i as int).contains(x) || other@.take(
                    j as int,
                ).contains(x),
        decreases one.len() - i + other.len() - j,
    {
        let ghost before = out@;
        let from_one: bool = j >= other.len() || (i < one.len() && one[i] <= other[j]);
        if from_one {
            out.push(one[i]);
            assert forall|x: i64|
                out@.contains(x) <==> one@.take(i + 1).contains(x) || other@.take(
                    j as int,
                ).contains(x) by {
                lemma_push_contains(before, one@[i as int], x);
                lemma_take_contains(one@, i as int, x);
            }
            i += 1;
        } else {
            out.push(other[j]);
            assert forall|x: i64|
                out@.contains(x) <==> one@.take(i as int).contains(x) || other@.take(
                    j + 1,
                ).contains(x) by {
                lemma_push_contains(before, other@[j as int], x);
                lemma_take_contains(other@, j as int, x);
            }
            j += 1;
        }
        assert forall|a: int, b: int| 0 <= a <= b < out.len() implies out@[a] <= out@[b] by {
            if b < before.len() {
                assert(out@[a] == before[a] && out@[b] == before[b]);
            } else if a < before.len() {
                assert(out@[a] == before[a]);
            }
        }
        assert forall|k: int| 0 <= k < out.len() && i < one.len() implies out@[k]
            <= one@[i as int] by {
            if k < before.len() {
                assert(out@[k] == before[k]);
            }
        }
        assert forall|k: int| 0 <= k < out.len() && j < other.len() implies out@[k]
            <= other@[j as int] by {
            if k < before.len() {
                assert(out@[k] == before[k]);
            }
        }
    }
    assert(one@.take(i as int) =~= one@);
    assert(other@.take(j as int) =~= other@);
    out
}

/// The entries from `low` up to `high`, in order.
fn sort_range(times: &Vec<i64>, low: usize, high: usize) -> (out: Vec<i64>)
    requires
        low <= high <= times.len(),
    ensures
        ordered(out@),
        forall|x: i64| out@.contains(x) <==> times@.subrange(low as int, high as int).contains(x),
    decreases high - low,
{
    let ghost range = times@.subrange(low as int, high as int);
    if high - low <= 1 {
        let mut out: Vec<i64> = Vec::new();
        if high > low {
            out.push(times[low]);
        }
        assert(out@ =~= range);
        return out;
    }
    let middle: usize = low + (high - low) / 2;
    let left = sort_range(times, low, middle);
    let right = sort_range(times, middle, high);
    let out = merge(&left, &right);
    proof {
        let first = times@.subrange(low as int, middle as int);
        let second = times@.subrange(middle as int, high as int);
        assert forall|x: i64| range.contains(x) <==> first.contains(x) || second.contains(x) by {
            if range.contains(x) {
                let k = choose|k: int| 0 <= k < range.len() && range[k] == x;
                if k < middle - low {
                    assert(first[k] == x);
                } else {
                    assert(second[k - (middle - low)] == x);
                }
            }
            if first.contains(x) {
                let k = choose|k: int| 0 <= k < first.len() && first[k] == x;
                assert(range[k] == x);
            }
            if second.contains(x) {
                let k = choose|k: int| 0 <= k < second.len() && second[k] == x;
                assert(range[k + (middle - low)] == x);
            }
        }
    }
    out
}

/// The distinct depths of the arena, in ascending order.
pub fn make_subdivision(flat_tree: &Vec<FlatNode>) -> (depths: Vec<i64>)
    ensures
        is_subdivision(flat_tree@, depths@),
        depths@ == breakpoints_of(flat_tree@),
{
    let mut all: Vec<i64> = Vec::new();
    let mut i: usize = 0;
    while i < flat_tree.len()
        invariant
            i <= flat_tree.len(),
            forall|d: i64| all@.contains(d) <==> is_depth_of(flat_tree@.take(i as int), d),
        decreases flat_tree.len() - i,
    {
        let ghost seen = flat_tree@.take(i as int);
        let ghost next = flat_tree@.take(i + 1);
        let ghost before = all@;
        assert(next.drop_last() =~= seen);
        assert(next.last() == flat_tree@[i as int]);
        if let Some(depth) = flat_tree[i].depth {
            all.push(depth);
        }
        assert forall|d: i64| all@.contains(d) <==> is_depth_of(next, d) by {
            if let Some(depth) = flat_tree@[i as int].depth {
                lemma_push_contains(before, depth, d);
            }
            if is_depth_of(next, d) {
                let k = choose|k: int| 0 <= k < next.len() && next[k].depth == Some(d);
                if k < i {
                    assert(seen[k].depth == Some(d));
                }
            }
            if is_depth_of(seen, d) {
                let k = choose|k: int| 0 <= k < seen.len() && seen[k].depth == Some(d);
                assert(next[k].depth == Some(d));
            }
            if flat_tree@[i as int].depth == Some(d) {
                assert(next[i as int].depth == Some(d));
            }
        }
        i += 1;
    }
    assert(flat_tree@.take(i as int) =~= flat_tree@);
    let sorted = sort_range(&all, 0, all.len());
    assert(all@.subrange(0, all.len() as int) =~= all@);
    let mut depths: Vec<i64> = Vec::new();
    let mut k: usize = 0;
    while k < sorted.len()
        invariant
            k <= sorted.len(),
            ordered(sorted@),
            ascending(depths@),
            depths.len() > 0 ==> k > 0 && depths@.last() == sorted@[k - 1],
            forall|d: i64| depths@.contains(d) <==> sorted@.take(k as int).contains(d),
        decreases sorted.len() - k,
    {
        let ghost before = depths@;
        let value: i64 = sorted[k];
        let fresh: bool = depths.len() == 0 || depths[depths.len() - 1] != value;
        if fresh {
            depths.push(value);
            assert forall|a: int, b: int| 0 <= a < b < depths.len() implies depths@[a]
                < depths@[b] by {
                if b < before.len() {
                    assert(depths@[a] == before[a] && depths@[b] == before[b]);
                } else {
                    assert(depths@[a] == before[a]);
                    assert(before[a] <= before.last());
                    assert(sorted@[k - 1] <= sorted@[k as int]);
                }
            }
        } else {
            assert(depths@.contains(value)) by {
                assert(depths@[depths.len() - 1] == value);
            }
        }
        assert forall|d: i64| depths@.contains(d) <==> sorted@.take(k + 1).contains(d) by {
            lemma_take_contains(sorted@, k as int, d);
            if fresh {
                lemma_push_contains(before, value, d);
            }
        }
        k += 1;
    }
    assert(sorted@.take(k as int) =~= sorted@);
    proof {
        lemma_subdivision_unique(flat_tree@, depths@);
    }
    depths
}

/// The length of the interval that ends at each breakpoint: zero for the
/// first, and for every other one the time since the breakpoint before it.
pub open spec fn interval_at(depths: Seq<i64>, i: int) -> int {
    if i <= 0 {
        0
    } else {
        depths[i] - depths[i - 1]
    }
}

/// The lengths of all intervals, one for each breakpoint.
pub open spec fn intervals_of(depths: Seq<i64>) -> Seq<u64> {
    Seq::new(depths.len(), |i: int| interval_at(depths, i) as u64)
}

/// The lengths of the intervals between the breakpoints, as many as there
/// are breakpoints.
pub fn make_intervals(depths: &Vec<i64>) -> (intervals: Vec<u64>)
    requires
        ascending(depths@),
    ensures
        intervals@ == intervals_of(depths@),
        intervals.len() == depths.len(),
        forall|i: int| 0 <= i < depths.len() ==> intervals@[i] == interval_at(depths@, i),
{
    let mut intervals: Vec<u64> = Vec::new();
    if depths.len() == 0 {
        assert(intervals@ =~= intervals_of(depths@));
        return intervals;
    }
    intervals.push(0);
    let mut i: usize = 1;
    while i < depths.len()
        invariant
            1 <= i <= depths.len(),
            ascending(depths@),
            intervals.len() == i,
            forall|k: int| 0 <= k < i ==> intervals@[k] == interval_at(depths@, k),
        decreases depths.len() - i,
    {
        let gap: i128 = depths[i] as i128 - depths[i - 1] as i128;
        intervals.push(gap as u64);
        i += 1;
    }
    assert(intervals@ =~= intervals_of(depths@));
    intervals
}

/// The position of the breakpoint nearest to `value`, the earlier one where
/// two are equally near.
pub fn find_closest_index(breakpoints: &Vec<i64>, value: i64) -> (index: usize)
    requires
        ascending(breakpoints@),
    ensures
        index == closest_index(breakpoints@, value as int),
        breakpoints.len() > 0 ==> is_closest(breakpoints@, value as int, index as int),
        breakpoints@.contains(value) ==> breakpoints@[index as int] == value,
{
    if breakpoints.len() == 0 {
        return 0;
    }
    let pos: usize = lower_bound(breakpoints, value);
    let index: usize = if pos == breakpoints.len() {
        pos - 1
    } else if breakpoints[pos] == value || pos == 0 {
        pos
    } else {
        let below: i128 = value as i128 - breakpoints[pos - 1] as i128;
        let above: i128 = breakpoints[pos] as i128 - value as i128;
        if below <= above {
            pos - 1
        } else {
            pos
        }
    };
    proof {
        assert forall|j: int| 0 <= j < breakpoints.len() implies distance(
            value as int,
            breakpoints@[index as int] as int,
        ) <= distance(value as int, #[trigger] breakpoints@[j] as int) by {
            if j < pos {
                if pos >= 1 && j < pos - 1 {
                    assert(breakpoints@[j] < breakpoints@[pos - 1]);
                }
            } else if j > pos {
                assert(breakpoints@[pos as int] < breakpoints@[j]);
            }
        }
        assert forall|j: int| 0 <= j < index implies distance(
            value as int,
            breakpoints@[index as int] as int,
        ) < distance(value as int, #[trigger] breakpoints@[j] as int) by {
            if pos >= 1 && j < pos - 1 {
                assert(breakpoints@[j] < breakpoints@[pos - 1]);
            }
        }
        lemma_closest_unique(breakpoints@, value as int, index as int);
        if breakpoints@.contains(value) {
            lemma_snapping_exact(breakpoints@, value);
        }
    }
    index
}

/// Every record of the arena has a depth.
pub open spec fn all_dated(tree: Seq<FlatNode>) -> bool {
    forall|i: int| 0 <= i < tree.len() ==> (#[trigger] tree[i]).depth is Some
}

/// `t`, or the nearest time that fits in 64 bits.
pub open spec fn clamped(t: int) -> int {
    if t < i64::MIN {
        i64::MIN as int
    } else if t > i64::MAX {
        i64::MAX as int
    } else {
        t
    }
}

/// The breakpoint at which lineage `i` begins: the one nearest to its depth
/// less its length.
pub open spec fn birth_index(tree: Seq<FlatNode>, depths: Seq<i64>, i: int) -> int {
    closest_index(depths, clamped(tree[i].depth->0 - tree[i].length))
}

/// The breakpoint at which lineage `i` ends: the one nearest to its depth.
pub open spec fn end_index(tree: Seq<FlatNode>, depths: Seq<i64>, i: int) -> int {
    closest_index(depths, tree[i].depth->0 as int)
}

/// Lineage `i` exists during the interval that ends at breakpoint `j`: the
/// interval lies after the breakpoint at which the lineage begins and not
/// after the one at which it ends.
pub open spec fn alive(tree: Seq<FlatNode>, depths: Seq<i64>, i: int, j: int) -> bool {
    birth_index(tree, depths, i) < j <= end_index(tree, depths, i)
}

/// Those of the first `n` lineages that are alive during interval `j`, in
/// ascending order.
pub open spec fn alive_among(tree: Seq<FlatNode>, depths: Seq<i64>, j: int, n: int) -> Seq<usize>
    decreases n,
{
    if n <= 0 {
        Seq::empty()
    } else {
        let rest = alive_among(tree, depths, j, n - 1);
        if alive(tree, depths, n - 1, j) {
            rest.push((n - 1) as usize)
        } else {
            rest
        }
    }
}

/// For each interval, the lineages of the arena that are alive in it, in
/// ascending order.
pub open spec fn alive_lists(tree: Seq<FlatNode>, depths: Seq<i64>) -> Seq<Seq<usize>> {
    Seq::new(depths.len(), |j: int| alive_among(tree, depths, j, tree.len() as int))
}

/// The number of lineages of the arena alive in each interval.
pub open spec fn species_counts(tree: Seq<FlatNode>, depths: Seq<i64>) -> Seq<usize> {
    Seq::new(
        depths.len(),
        |j: int| alive_among(tree, depths, j, tree.len() as int).len() as usize,
    )
}

/// The lists as sequences.
pub open spec fn interval_lists(contemporaneity: Seq<Vec<usize>>) -> Seq<Seq<usize>> {
    Seq::new(contemporaneity.len(), |j: int| contemporaneity[j]@)
}

/// A lineage that begins and ends at the same breakpoint is alive in no
/// interval.
pub proof fn lemma_no_span_never_alive(tree: Seq<FlatNode>, depths: Seq<i64>, i: int, j: int)
    requires
        birth_index(tree, depths, i) == end_index(tree, depths, i),
    ensures
        !alive(tree, depths, i, j),
{
}

/// A lineage that ends at the first breakpoint and has no negative length is
/// alive in no interval. The root of a dated tree is such a lineage.
pub proof fn lemma_first_lineage_never_alive(tree: Seq<FlatNode>, depths: Seq<i64>, i: int, j: int)
    requires
        ascending(depths),
        depths.len() > 0,
        0 <= i < tree.len(),
        tree[i].depth == Some(depths[0]),
        tree[i].length >= 0,
    ensures
        !alive(tree, depths, i, j),
{
    let born = clamped(tree[i].depth->0 - tree[i].length);
    assert(is_closest(depths, born, 0));
    lemma_closest_unique(depths, born, 0);
    assert(is_closest(depths, depths[0] as int, 0));
    lemma_closest_unique(depths, depths[0] as int, 0);
}

/// Every lineage listed for an interval is a record of the arena, is alive
/// in that interval, and stands after the lineages listed before it.
pub proof fn lemma_alive_among(tree: Seq<FlatNode>, depths: Seq<i64>, j: int, n: int)
    requires
        0 <= n <= tree.len() <= usize::MAX,
    ensures
        alive_among(tree, depths, j, n).len() <= n,
        forall|k: int|
            0 <= k < alive_among(tree, depths, j, n).len() ==> {
                &&& (#[trigger] alive_among(tree, depths, j, n)[k]) < n
                &&& alive(tree, depths, alive_among(tree, depths, j, n)[k] as int, j)
            },
        forall|k: int, m: int|
            0 <= k < m < alive_among(tree, depths, j, n).len() ==> alive_among(
                tree,
                depths,
                j,
                n,
            )[k] < alive_among(tree, depths, j, n)[m],
        forall|i: int|
            0 <= i < n && alive(tree, depths, i, j) ==> alive_among(tree, depths, j, n).contains(
                i as usize,
            ),
    decreases n,
{
    if n > 0 {
        lemma_alive_among(tree, depths, j, n - 1);
        let rest = alive_among(tree, depths, j, n - 1);
        let all = alive_among(tree, depths, j, n);
        assert forall|i: int| 0 <= i < n && alive(tree, depths, i, j) implies all.contains(
            i as usize,
        ) by {
            if i < n - 1 {
                let k = choose|k: int| 0 <= k < rest.len() && rest[k] == i as usize;
                assert(all[k] == i as usize);
            } else {
                assert(all[all.len() - 1] == i as usize);
            }
        }
    }
}

/// For each interval, the lineages that are alive in it.
pub fn find_contemporaneity(flat_tree: &Vec<FlatNode>, depths: &Vec<i64>) -> (contemporaneity: Vec<
    Vec<usize>,
>)
    requires
        ascending(depths@),
        all_dated(flat_tree@),
    ensures
        interval_lists(contemporaneity@) == alive_lists(flat_tree@, depths@),
        contemporaneity.len() == depths.len(),
        forall|j: int|
            0 <= j < depths.len() ==> (#[trigger] contemporaneity@[j])@ == alive_among(
                flat_tree@,
                depths@,
                j,
                flat_tree.len() as int,
            ),
{
    let mut contemporaneity: Vec<Vec<usize>> = Vec::new();
    let mut j: usize = 0;
    while j < depths.len()
        invariant
            j <= depths.len(),
            contemporaneity.len() == j,
            forall|k: int| 0 <= k < j ==> (#[trigger] contemporaneity@[k])@ == Seq::<usize>::empty(),
        decreases depths.len() - j,
    {
        contemporaneity.push(Vec::new());
        j += 1;
    }
    let mut i: usize = 0;
    while i < flat_tree.len()
        invariant
            i <= flat_tree.len(),
            ascending(depths@),
            all_dated(flat_tree@),
            contemporaneity.len() == depths.len(),
            forall|k: int|
                0 <= k < depths.len() ==> (#[trigger] contemporaneity@[k])@ == alive_among(
                    flat_tree@,
                    depths@,
                    k,
                    i as int,
                ),
        decreases flat_tree.len() - i,
    {
        assert(flat_tree@[i as int].depth is Some);
        let end_time: i64 = flat_tree[i].depth.unwrap();
        let start: i128 = end_time as i128 - flat_tree[i].length as i128;
        let start_time: i64 = if start < i64::MIN as i128 {
            i64::MIN
        } else if start > i64::MAX as i128 {
            i64::MAX
        } else {
            start as i64
        };
        let first_index: usize = find_closest_index(depths, start_time);
        let last_index: usize = find_closest_index(depths, end_time);
        assert(first_index == birth_index(flat_tree@, depths@, i as int));
        assert(last_index == end_index(flat_tree@, depths@, i as int));
        let mut j: usize = first_index + 1;
        while j <= last_index
            invariant
                i < flat_tree.len(),
                first_index < j,
                depths.len() > 0 ==> last_index < depths.len(),
                depths.len() == 0 ==> last_index == 0,
                first_index == birth_index(flat_tree@, depths@, i as int),
                last_index == end_index(flat_tree@, depths@, i as int),
                contemporaneity.len() == depths.len(),
                forall|k: int|
                    0 <= k < depths.len() && k < j ==> (#[trigger] contemporaneity@[k])@
                        == alive_among(flat_tree@, depths@, k, i + 1),
                forall|k: int|
                    j <= k < depths.len() ==> (#[trigger] contemporaneity@[k])@ == alive_among(
                        flat_tree@,
                        depths@,
                        k,
                        i as int,
                    ),
            decreases last_index + 1 - j,
        {
            contemporaneity[j].push(i);
            j += 1;
        }
        i += 1;
    }
    assert(interval_lists(contemporaneity@) =~= alive_lists(flat_tree@, depths@));
    contemporaneity
}

/// The number of lineages alive in each interval.
pub fn number_of_species(contemporaneity: &Vec<Vec<usize>>) -> (counts: Vec<usize>)
    ensures
        counts.len() == contemporaneity.len(),
        forall|j: int| 0 <= j < counts.len() ==> counts@[j] == (#[trigger] contemporaneity@[j]).len(),
{
    let mut counts: Vec<usize> = Vec::new();
    let mut j: usize = 0;
    while j < contemporaneity.len()
        invariant
            j <= contemporaneity.len(),
            counts.len() == j,
            forall|k: int| 0 <= k < j ==> counts@[k] == (#[trigger] contemporaneity@[k]).len(),
        decreases contemporaneity.len() - j,
    {
        counts.push(contemporaneity[j].len());
        j += 1;
    }
    counts
}

/// Tells whether each entry is smaller than the next.
pub fn is_ascending(times: &Vec<i64>) -> (ok: bool)
    ensures
        ok == ascending(times@),
{
    let mut i: usize = 1;
    while i < times.len()
        invariant
            1 <= i,
            forall|a: int, b: int| 0 <= a < b < i && b < times.len() ==> times@[a] < times@[b],
        decreases times.len() - i,
    {
        if times[i - 1] >= times[i] {
            return false;
        }
        assert forall|a: int, b: int| 0 <= a < b < i + 1 && b < times.len() implies times@[a]
            < times@[b] by {
            if b == i && a < i - 1 {
                assert(times@[a] < times@[i - 1]);
            }
        }
        i += 1;
    }
    true
}

/// Tells whether every record of the arena has a depth.
pub fn is_all_dated(flat_tree: &Vec<FlatNode>) -> (ok: bool)
    ensures
        ok == all_dated(flat_tree@),
{
    let mut i: usize = 0;
    while i < flat_tree.len()
        invariant
            i <= flat_tree.len(),
            forall|k: int| 0 <= k < i ==> (#[trigger] flat_tree@[k]).depth is Some,
        decreases flat_tree.len() - i,
    {
        if flat_tree[i].depth.is_none() {
            assert(flat_tree@[i as int].depth is None);
            return false;
        }
        i += 1;
    }
    true
}

} // verus!
