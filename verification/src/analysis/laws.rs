//! What filters, histograms and statistics say of the data that they are made of.
use crate::analysis::histogram::{
    bin_count, bins_hold, greatest, in_bin, quartiles_of, stars, Bins, Quartiles,
};
use crate::analysis::stats::{
    ascending, ascending_is_sorted, middle, spread, squares, values, Stats,
};
use crate::trace::metrics::total;
use vstd::multiset::Multiset;
use vstd::prelude::*;

verus! {

/// The number is at most `bound`.
pub open spec fn no_more(bound: u32) -> spec_fn(u32) -> bool {
    |value: u32| value <= bound
}

/// The number is at least `bound`.
pub open spec fn no_less(bound: u32) -> spec_fn(u32) -> bool {
    |value: u32| value >= bound
}

/// The value is the one that `rank` of the datapoints stand before: it is a datapoint, more than
/// `rank` of them are no greater, and no more than `rank` of them are less.
pub open spec fn has_rank(data: Seq<u32>, value: u32, rank: int) -> bool {
    &&& data.contains(value)
    &&& data.filter(no_more(value)).len() > rank
    &&& data.filter(no_less(value)).len() >= data.len() - rank
}

proof fn filter_as_multiset(data: Seq<u32>, pred: spec_fn(u32) -> bool)
    ensures
        data.filter(pred).len() == data.to_multiset().filter(pred).len(),
    decreases data.len(),
{
    broadcast use vstd::multiset::group_multiset_axioms;

    reveal(Seq::filter);
    data.to_multiset_ensures();
    if data.len() == 0 {
        assert(data.to_multiset() =~= Multiset::empty());
        assert(data.to_multiset().filter(pred) =~= Multiset::empty());
    } else {
        let rest = data.drop_last();
        let last = data.last();
        filter_as_multiset(rest, pred);
        rest.to_multiset_ensures();
        assert(rest.push(last) =~= data);
        assert(data.to_multiset() =~= rest.to_multiset().insert(last));
        if pred(last) {
            assert(data.to_multiset().filter(pred) =~= rest.to_multiset().filter(pred).insert(last));
        } else {
            assert(data.to_multiset().filter(pred) =~= rest.to_multiset().filter(pred));
        }
    }
}

/// Where all of a part pass, no fewer of the whole do.
proof fn part_passes(data: Seq<u32>, pred: spec_fn(u32) -> bool, from: int, to: int)
    requires
        0 <= from <= to <= data.len(),
        forall|i: int| from <= i < to ==> pred(#[trigger] data[i]),
    ensures
        data.filter(pred).len() >= to - from,
    decreases data.len(),
{
    reveal(Seq::filter);
    if to == data.len() && from < to {
        assert(data.last() == data[to - 1]);
        part_passes(data.drop_last(), pred, from, to - 1);
    } else if data.len() > to {
        part_passes(data.drop_last(), pred, from, to);
    }
}

/// What stands at a place among the datapoints in ascending order has that rank among them.
pub proof fn ascending_has_rank(data: Seq<u32>, rank: int)
    requires
        0 <= rank < data.len(),
    ensures
        has_rank(data, ascending(data)[rank], rank),
{
    let sorted = ascending(data);
    let value = sorted[rank];
    ascending_is_sorted(data);
    data.to_multiset_ensures();
    sorted.to_multiset_ensures();
    assert(sorted.contains(value));
    assert(data.to_multiset().count(value) > 0);
    filter_as_multiset(data, no_more(value));
    filter_as_multiset(sorted, no_more(value));
    filter_as_multiset(data, no_less(value));
    filter_as_multiset(sorted, no_less(value));
    part_passes(sorted, no_more(value), 0, rank + 1);
    part_passes(sorted, no_less(value), rank, data.len() as int);
}

/// Not all datapoints pass both of two tests that none passes both of.
proof fn pass_one_at_most(data: Seq<u32>, a: spec_fn(u32) -> bool, b: spec_fn(u32) -> bool)
    requires
        forall|value: u32| !(#[trigger] a(value) && b(value)),
    ensures
        data.filter(a).len() + data.filter(b).len() <= data.len(),
    decreases data.len(),
{
    reveal(Seq::filter);
    if data.len() > 0 {
        pass_one_at_most(data.drop_last(), a, b);
    }
}

/// There is but one value of each rank.
pub proof fn rank_tells_value(data: Seq<u32>, a: u32, b: u32, rank: int)
    requires
        has_rank(data, a, rank),
        has_rank(data, b, rank),
    ensures
        a == b,
{
    if a < b {
        pass_one_at_most(data, no_more(a), no_less(b));
    } else if b < a {
        pass_one_at_most(data, no_more(b), no_less(a));
    }
}

/// The five numbers divide the datapoints: a quarter of them stands before the first quartile, one
/// half before the median, three quarters before the third quartile. Where the datapoints are odd in
/// number, quartiles lie half way to the next datapoint.
pub open spec fn quartered(data: Seq<u32>, q: Quartiles) -> bool {
    let n = data.len() as int;
    let next: int = n % 2;
    &&& has_rank(data, q.min, 0)
    &&& has_rank(data, q.q1.0, n / 4)
    &&& has_rank(data, q.q1.1, n / 4 + next)
    &&& has_rank(data, q.median.0, n / 2)
    &&& has_rank(data, q.median.1, n / 2 + next)
    &&& has_rank(data, q.q3.0, 3 * n / 4)
    &&& has_rank(data, q.q3.1, 3 * n / 4 + next)
    &&& has_rank(data, q.max, n - 1)
}

/// The quartiles of datapoints divide them into quarters, counted in the data itself.
pub proof fn quartiles_divide_data(data: Seq<u32>)
    requires
        data.len() > 0,
        data.len() % 2 == 0 || data.len() >= 5,
    ensures
        quartered(data, quartiles_of(data)),
{
    let n = data.len() as int;
    ascending_is_sorted(data);
    ascending_has_rank(data, 0);
    ascending_has_rank(data, n / 4);
    ascending_has_rank(data, n / 2);
    ascending_has_rank(data, 3 * n / 4);
    ascending_has_rank(data, n - 1);
    if n % 2 == 1 {
        ascending_has_rank(data, n / 4 + 1);
        ascending_has_rank(data, n / 2 + 1);
        ascending_has_rank(data, 3 * n / 4 + 1);
    }
}

/// The least datapoint is no greater than any, the greatest no less.
pub proof fn extremes_bound_data(data: Seq<u32>, low: u32, high: u32)
    requires
        has_rank(data, low, 0),
        has_rank(data, high, data.len() - 1),
    ensures
        forall|i: int| 0 <= i < data.len() ==> low <= #[trigger] data[i] <= high,
{
    assert forall|i: int| 0 <= i < data.len() implies low <= #[trigger] data[i] <= high by {
        ascending_is_sorted(data);
        let n = data.len() as int;
        ascending_has_rank(data, 0);
        ascending_has_rank(data, n - 1);
        rank_tells_value(data, low, ascending(data)[0], 0);
        rank_tells_value(data, high, ascending(data)[n - 1], n - 1);
        let sorted = ascending(data);
        data.to_multiset_ensures();
        sorted.to_multiset_ensures();
        assert(data.contains(data[i]));
        assert(sorted.to_multiset().count(data[i]) > 0);
        assert(sorted.contains(data[i]));
        let j = choose|j: int| 0 <= j < sorted.len() && sorted[j] == data[i];
        assert(sorted[0] <= sorted[j] <= sorted[n - 1]);
    }
}

/// The statistics of datapoints: the middle of all of them, and of their lower and upper halves. Of
/// an odd number of datapoints the one in the middle is in neither half.
pub open spec fn halved(data: Seq<u32>, stats: Stats) -> bool {
    let n = data.len() as int;
    let half = n / 2;
    &&& has_rank(data, stats.min, 0)
    &&& has_rank(data, stats.q1.0, (half - 1) / 2)
    &&& has_rank(data, stats.q1.1, half / 2)
    &&& has_rank(data, stats.median.0, (n - 1) / 2)
    &&& has_rank(data, stats.median.1, n / 2)
    &&& has_rank(data, stats.q3.0, n - half + (half - 1) / 2)
    &&& has_rank(data, stats.q3.1, n - half + half / 2)
    &&& has_rank(data, stats.max, n - 1)
}

/// What `Stats` take from the datapoints in ascending order divides the datapoints into halves, and
/// these into halves again.
pub proof fn stats_divide_data(data: Seq<u32>, stats: Stats)
    requires
        data.len() >= 2,
        ({
            let n = data.len() as int;
            let sorted = ascending(data);
            &&& stats.min == sorted[0]
            &&& stats.q1 == middle(sorted, 0, n / 2)
            &&& stats.median == middle(sorted, 0, n)
            &&& stats.q3 == middle(sorted, n - n / 2, n)
            &&& stats.max == sorted[n - 1]
        }),
    ensures
        halved(data, stats),
{
    let n = data.len() as int;
    let half = n / 2;
    ascending_has_rank(data, 0);
    ascending_has_rank(data, (half - 1) / 2);
    ascending_has_rank(data, half / 2);
    ascending_has_rank(data, (n - 1) / 2);
    ascending_has_rank(data, n / 2);
    ascending_has_rank(data, n - half + (half - 1) / 2);
    ascending_has_rank(data, n - half + half / 2);
    ascending_has_rank(data, n - 1);
}

/// The squares of the differences of the datapoints from a number.
pub open spec fn squared_from(data: Seq<u32>, a: int) -> Seq<int> {
    Seq::new(data.len(), |i: int| (data[i] - a) * (data[i] - a))
}

/// The datapoints less a number.
pub open spec fn less(data: Seq<u32>, a: int) -> Seq<int> {
    Seq::new(data.len(), |i: int| data[i] - a)
}

/// The spread is what squared differences from any number come to, beyond the difference of that
/// number from the mean. So it is the same wherever the datapoints lie, and from the mean itself it
/// is their variance, times `n * (n - 1)`.
pub proof fn spread_is_variance(data: Seq<u32>, a: int)
    ensures
        data.len() * total(squared_from(data, a)) == spread(data) + total(less(data, a)) * total(
            less(data, a),
        ),
{
    sums_of_shifted(data, a);
    let n = data.len() as int;
    let s1 = total(values(data));
    let s2 = total(squares(data));
    let sd = total(squared_from(data, a));
    let l = total(less(data, a));
    assert(n * sd == n * s2 - s1 * s1 + l * l) by (nonlinear_arith)
        requires
            sd == s2 - 2 * a * s1 + n * (a * a),
            l == s1 - n * a,
    ;
}

proof fn sums_of_shifted(data: Seq<u32>, a: int)
    ensures
        total(squared_from(data, a)) == total(squares(data)) - 2 * a * total(
            values(data),
        ) + data.len() * (a * a),
        total(less(data, a)) == total(values(data)) - data.len() * a,
    decreases data.len(),
{
    let n = data.len() as int;
    let s1 = total(values(data));
    let s2 = total(squares(data));
    if n == 0 {
        assert(2 * a * s1 == 0 && n * (a * a) == 0 && n * a == 0) by (nonlinear_arith)
            requires
                s1 == 0,
                n == 0,
        ;
    } else {
        let rest = data.drop_last();
        let x = data.last() as int;
        sums_of_shifted(rest, a);
        assert(values(data).drop_last()
            =~= values(rest));
        assert(squares(data).drop_last()
            =~= squares(rest));
        assert(squared_from(data, a).drop_last() =~= squared_from(rest, a));
        assert(less(data, a).drop_last() =~= less(rest, a));
        let r1 = total(values(rest));
        let r2 = total(squares(rest));
        let rd = total(squared_from(rest, a));
        let rl = total(less(rest, a));
        assert(rd + (x - a) * (x - a) == s2 - 2 * a * s1 + n * (a * a) && rl + (x - a) == s1 - n * a)
            by (nonlinear_arith)
            requires
                s1 == r1 + x,
                s2 == r2 + x * x,
                rd == r2 - 2 * a * r1 + (n - 1) * (a * a),
                rl == r1 - (n - 1) * a,
        ;
    }
}

/// The value lies from `low` on, and below `high`.
pub open spec fn lies_in(low: int, high: int) -> spec_fn(u32) -> bool {
    |value: u32| low <= value < high
}

proof fn filter_alike(data: Seq<u32>, a: spec_fn(u32) -> bool, b: spec_fn(u32) -> bool)
    requires
        forall|value: u32| #[trigger] a(value) == b(value),
    ensures
        data.filter(a) == data.filter(b),
    decreases data.len(),
{
    reveal(Seq::filter);
    if data.len() > 0 {
        filter_alike(data.drop_last(), a, b);
    }
}

/// Bins stand side by side, each as wide as the step, from the least datapoint on up to beyond the
/// greatest. Each counts the datapoints from its lower bound on and below its upper one.
pub proof fn bins_count_their_own(bins: Bins, data: Seq<u32>, step: u32, bin: int)
    requires
        step > 0,
        data.len() > 0,
        bins_hold(bins, data, step),
        0 <= bin < bins.counts.len(),
    ensures
        bins.counts@[bin] == data.filter(
            lies_in(bins.start + bin * step, bins.start + bin * step + step),
        ).len(),
        data.contains(bins.start as u32),
        forall|i: int|
            0 <= i < data.len() ==> bins.start <= #[trigger] data[i] < bins.start
                + bins.counts.len() * step,
        exists|i: int|
            0 <= i < data.len() && #[trigger] data[i] >= bins.start + (bins.counts.len() - 1) * step,
{
    let s = step as int;
    let low = bins.start + bin * s;
    assert((bin + 1) * s == bin * s + s) by (nonlinear_arith);
    filter_alike(data, in_bin(bins.start, step, bin), lies_in(low, low + s));
    assert(bins.counts@[bin] == bin_count(data, bins.start, step, bin));
    let (min, max) = choose|min: u32, max: u32|
        {
            &&& #[trigger] data.contains(min)
            &&& #[trigger] data.contains(max)
            &&& bins.start == min
            &&& bins.counts.len() == (max - min) / step as int + 1
            &&& forall|i: int| 0 <= i < data.len() ==> min <= #[trigger] data[i] <= max
        };
    let d = (max - min) as int;
    let q = d / s;
    vstd::arithmetic::div_mod::lemma_fundamental_div_mod(d, s);
    vstd::arithmetic::div_mod::lemma_mod_bound(d, s);
    let r = d % s;
    assert(q * s <= d < (q + 1) * s) by (nonlinear_arith)
        requires
            d == s * q + r,
            0 <= r < s,
    ;
    let at = choose|at: int| 0 <= at < data.len() && data[at] == max;
    assert(data[at] >= bins.start + (bins.counts.len() - 1) * step);
}

/// The bar of a bin is to the longest, of fifty stars, as its count is to the greatest count, to
/// within a star. The bin with the greatest count has the longest bar.
pub proof fn bars_are_in_proportion(counts: Seq<u64>, bin: int)
    requires
        0 <= bin < counts.len(),
        greatest(counts) > 0,
    ensures
        ({
            let length = stars(counts[bin], greatest(counts)).len();
            &&& length * greatest(counts) <= 50 * counts[bin] < (length + 1) * greatest(counts)
            &&& forall|i: int| 0 <= i < length ==> stars(counts[bin], greatest(counts))[i] == '*'
            &&& length <= 50
            &&& length == 50 <==> counts[bin] == greatest(counts)
        }),
        forall|i: int| 0 <= i < counts.len() ==> #[trigger] counts[i] <= greatest(counts),
        counts.contains(greatest(counts)),
{
    greatest_is_greatest(counts);
    let m = greatest(counts) as int;
    let c = counts[bin] as int;
    let d = 50 * c;
    let q = d / m;
    vstd::arithmetic::div_mod::lemma_fundamental_div_mod(d, m);
    vstd::arithmetic::div_mod::lemma_mod_bound(d, m);
    let r = d % m;
    assert(q * m <= d < (q + 1) * m && 0 <= q <= 50 && (q == 50 <==> c == m)) by (nonlinear_arith)
        requires
            d == m * q + r,
            d == 50 * c,
            0 <= r < m,
            0 <= c <= m,
    ;
}

proof fn greatest_is_greatest(counts: Seq<u64>)
    requires
        counts.len() > 0,
    ensures
        forall|i: int| 0 <= i < counts.len() ==> #[trigger] counts[i] <= greatest(counts),
        greatest(counts) > 0 ==> counts.contains(greatest(counts)),
    decreases counts.len(),
{
    let rest = counts.drop_last();
    assert(counts[counts.len() - 1] == counts.last());
    if rest.len() > 0 {
        greatest_is_greatest(rest);
        assert forall|i: int| 0 <= i < counts.len() implies #[trigger] counts[i] <= greatest(
            counts,
        ) by {
            if i < rest.len() {
                assert(counts[i] == rest[i]);
            }
        }
        if counts.last() <= greatest(rest) && greatest(rest) > 0 {
            let k = choose|k: int| 0 <= k < rest.len() && rest[k] == greatest(rest);
            assert(counts[k] == greatest(counts));
        }
    } else {
        assert(greatest(rest) == 0);
    }
}

} // verus!
