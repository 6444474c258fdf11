//! Statistics of datapoints.
use crate::analysis::laws;
use crate::trace::metrics::total;
use vstd::prelude::*;
use vstd::relations::{sorted_by, total_ordering};

verus! {

/// With fewer datapoints there are no statistics.
pub const MIN_DATAPOINTS_FOR_STATS: usize = 10;

/// The order of numbers.
pub open spec fn at_most() -> spec_fn(u32, u32) -> bool {
    |a: u32, b: u32| a <= b
}

/// The datapoints in ascending order.
pub open spec fn ascending(data: Seq<u32>) -> Seq<u32> {
    data.sort_by(at_most())
}

/// Datapoints in ascending order stand in order, and are the same as before.
pub proof fn ascending_is_sorted(data: Seq<u32>)
    ensures
        ascending(data).len() == data.len(),
        ascending(data).to_multiset() == data.to_multiset(),
        forall|i: int, j: int|
            0 <= i <= j < data.len() ==> #[trigger] ascending(data)[i] <= #[trigger] ascending(
                data,
            )[j],
{
    broadcast use vstd::seq_lib::group_to_multiset_ensures;

    let leq = at_most();
    data.lemma_sort_by_ensures(leq);
    let sorted = ascending(data);
    assert(sorted.to_multiset().len() == sorted.len());
    assert(data.to_multiset().len() == data.len());
    assert forall|i: int, j: int| 0 <= i <= j < data.len() implies #[trigger] sorted[i]
        <= #[trigger] sorted[j] by {
        if i < j {
            assert(leq(sorted[i], sorted[j]));
        }
    }
}

/// `slice::sort`: the same numbers, in ascending order.
#[verifier::external_body]
fn sort(values: &mut Vec<u32>)
    ensures
        final(values)@.to_multiset() == old(values)@.to_multiset(),
        forall|i: int, j: int|
            0 <= i <= j < final(values)@.len() ==> final(values)@[i] <= final(values)@[j],
{
    values.sort();
}

/// The datapoints in ascending order.
pub fn sort_data(data: &[u32]) -> (result: Vec<u32>)
    ensures
        result@ == ascending(data@),
        result.len() == data.len(),
        forall|i: int, j: int| 0 <= i <= j < result.len() ==> result@[i] <= result@[j],
{
    let mut result = vstd::slice::slice_to_vec(data);
    sort(&mut result);
    proof {
        let leq = at_most();
        assert(total_ordering(leq));
        data@.lemma_sort_by_ensures(leq);
        assert(sorted_by(result@, leq));
        vstd::seq_lib::lemma_sorted_unique(result@, ascending(data@), leq);
        ascending_is_sorted(data@);
    }
    result
}

/// The one or two numbers in the middle of a part of a list; one counts twice.
pub open spec fn middle(sorted: Seq<u32>, from: int, to: int) -> (u32, u32) {
    let half = (to - from) / 2;
    if (to - from) % 2 == 0 {
        (sorted[from + half - 1], sorted[from + half])
    } else {
        (sorted[from + half], sorted[from + half])
    }
}

/// The numbers as integers.
pub open spec fn values(data: Seq<u32>) -> Seq<int> {
    Seq::new(data.len(), |i: int| data[i] as int)
}

/// The squares of the numbers.
pub open spec fn squares(data: Seq<u32>) -> Seq<int> {
    Seq::new(data.len(), |i: int| data[i] * data[i])
}

/// The variance of the numbers times `n * (n - 1)`, where `n` is how many they are.
pub open spec fn spread(data: Seq<u32>) -> int {
    data.len() * total(squares(data)) - total(values(data)) * total(values(data))
}

/// Statistics of datapoints.
///
/// Quartiles and the median lie half way between two datapoints. The mean is `sum / count`, and the
/// variance is `spread / (count * (count - 1))`.
pub struct Stats {
    pub min: u32,
    pub q1: (u32, u32),
    pub median: (u32, u32),
    pub q3: (u32, u32),
    pub max: u32,
    pub sum: u64,
    pub spread: u128,
    pub count: u32,
}

/// The squares of the differences from a number.
spec fn squared_differences(data: Seq<u32>, a: int) -> Seq<int> {
    Seq::new(data.len(), |i: int| (data[i] - a) * (data[i] - a))
}

/// The sum of squared differences from a number, and that it is not negative.
proof fn differences_add_up(data: Seq<u32>, a: int)
    ensures
        total(squares(data)) - 2 * a * total(values(data)) + data.len() * (a * a) == total(
            squared_differences(data, a),
        ),
        total(squared_differences(data, a)) >= 0,
    decreases data.len(),
{
    let n = data.len() as int;
    let s1 = total(values(data));
    let s2 = total(squares(data));
    let sd = total(squared_differences(data, a));
    if n == 0 {
        assert(2 * a * s1 == 0 && n * (a * a) == 0) by (nonlinear_arith)
            requires
                s1 == 0,
                n == 0,
        ;
    } else {
        let rest = data.drop_last();
        let x = data.last() as int;
        differences_add_up(rest, a);
        assert(values(data).drop_last() =~= values(rest));
        assert(squares(data).drop_last() =~= squares(rest));
        assert(squared_differences(data, a).drop_last() =~= squared_differences(rest, a));
        let r1 = total(values(rest));
        let r2 = total(squares(rest));
        let rd = total(squared_differences(rest, a));
        assert(s2 - 2 * a * s1 + n * (a * a) == sd && sd >= 0) by (nonlinear_arith)
            requires
                s1 == r1 + x,
                s2 == r2 + x * x,
                sd == rd + (x - a) * (x - a),
                r2 - 2 * a * r1 + (n - 1) * (a * a) == rd,
                rd >= 0,
        ;
    }
}

/// The spread is not negative, as befits a variance.
pub proof fn spread_is_no_less_than_zero(data: Seq<u32>)
    ensures
        spread(data) >= 0,
    decreases data.len(),
{
    let n = data.len() as int;
    let s1 = total(values(data));
    let s2 = total(squares(data));
    if n == 0 {
        assert(n * s2 - s1 * s1 == 0) by (nonlinear_arith)
            requires
                n == 0,
                s1 == 0,
        ;
    } else {
        let rest = data.drop_last();
        let x = data.last() as int;
        spread_is_no_less_than_zero(rest);
        differences_add_up(rest, x);
        assert(values(data).drop_last() =~= values(rest));
        assert(squares(data).drop_last() =~= squares(rest));
        let r1 = total(values(rest));
        let r2 = total(squares(rest));
        assert(n * s2 - s1 * s1 >= 0) by (nonlinear_arith)
            requires
                s1 == r1 + x,
                s2 == r2 + x * x,
                (n - 1) * r2 - r1 * r1 >= 0,
                r2 - 2 * x * r1 + (n - 1) * (x * x) >= 0,
        ;
    }
}

/// Sums of as many datapoints as can be counted can be held.
proof fn sums_fit(data: Seq<u32>)
    requires
        data.len() <= u32::MAX,
    ensures
        0 <= total(values(data)) <= data.len() * 0xFFFF_FFFF,
        0 <= total(squares(data)) <= data.len() * 0xFFFF_FFFE_0000_0001,
    decreases data.len(),
{
    if data.len() > 0 {
        let rest = data.drop_last();
        sums_fit(rest);
        assert(values(data).drop_last() =~= values(rest));
        assert(squares(data).drop_last() =~= squares(rest));
        let x = data.last();
        assert(0 <= x * x <= 0xFFFF_FFFE_0000_0001) by (nonlinear_arith)
            requires
                0 <= x <= 0xFFFF_FFFF,
        ;
    }
}

impl Stats {
    /// The statistics of the datapoints, or none where they are too few.
    pub fn from_data(data: &[u32]) -> (result: Option<Stats>)
        requires
            data.len() <= u32::MAX,
        ensures
            match result {
                Some(stats) => {
                    let n = data@.len() as int;
                    let sorted = ascending(data@);
                    &&& n >= MIN_DATAPOINTS_FOR_STATS
                    &&& stats.min == sorted[0]
                    &&& stats.q1 == middle(sorted, 0, n / 2)
                    &&& stats.median == middle(sorted, 0, n)
                    &&& stats.q3 == middle(sorted, n - n / 2, n)
                    &&& stats.max == sorted[n - 1]
                    &&& stats.sum == total(values(data@))
                    &&& stats.spread == spread(data@)
                    &&& stats.count == n
                    &&& laws::halved(data@, stats)
                },
                None => data@.len() < MIN_DATAPOINTS_FOR_STATS,
            },
    {
        let n: usize = data.len();
        if n < MIN_DATAPOINTS_FOR_STATS {
            return None;
        }
        let sorted = sort_data(data);
        let mut sum: u64 = 0;
        let mut sum_of_squares: u128 = 0;
        let mut i: usize = 0;
        assert(values(data@.take(0)) =~= Seq::empty());
        assert(squares(data@.take(0)) =~= Seq::empty());
        while i < n
            invariant
                i <= n,
                n == data.len(),
                n <= u32::MAX,
                sum == total(values(data@.take(i as int))),
                sum_of_squares == total(squares(data@.take(i as int))),
            decreases n - i,
        {
            let x: u32 = data[i];
            proof {
                let now = data@.take(i as int);
                let next = data@.take(i + 1);
                assert(next.drop_last() =~= now);
                assert(values(next).drop_last() =~= values(now));
                assert(squares(next).drop_last() =~= squares(now));
                sums_fit(now);
                assert(0 <= x * x <= 0xFFFF_FFFE_0000_0001) by (nonlinear_arith)
                    requires
                        0 <= x <= 0xFFFF_FFFF,
                ;
            }
            sum += x as u64;
            sum_of_squares += x as u128 * x as u128;
            i += 1;
        }
        proof {
            assert(data@.take(n as int) =~= data@);
            sums_fit(data@);
            spread_is_no_less_than_zero(data@);
            let s1 = sum as int;
            let s2 = sum_of_squares as int;
            assert(n * s2 <= 0xFFFF_FFFF * (0xFFFF_FFFF * 0xFFFF_FFFE_0000_0001)) by (nonlinear_arith)
                requires
                    0 <= n <= 0xFFFF_FFFF,
                    0 <= s2 <= n * 0xFFFF_FFFE_0000_0001,
            ;
            assert(0 <= s1 * s1 <= n * s2) by (nonlinear_arith)
                requires
                    n * s2 - s1 * s1 >= 0,
            ;
        }
        let spread: u128 = n as u128 * sum_of_squares - sum as u128 * sum as u128;
        let stats = Stats {
            min: sorted[0],
            q1: middle_of(&sorted, 0, n / 2),
            median: middle_of(&sorted, 0, n),
            q3: middle_of(&sorted, n - n / 2, n),
            max: sorted[n - 1],
            sum,
            spread,
            count: n as u32,
        };
        proof {
            laws::stats_divide_data(data@, stats);
        }
        Some(stats)
    }
}

/// The one or two numbers in the middle of a part of a list.
fn middle_of(sorted: &Vec<u32>, from: usize, to: usize) -> (result: (u32, u32))
    requires
        from < to <= sorted.len(),
    ensures
        result == middle(sorted@, from as int, to as int),
{
    let half: usize = (to - from) / 2;
    if (to - from) % 2 == 0 {
        (sorted[from + half - 1], sorted[from + half])
    } else {
        (sorted[from + half], sorted[from + half])
    }
}

/// Minimum, quartiles and maximum stand in order.
pub proof fn stats_are_ordered(data: Seq<u32>)
    requires
        data.len() >= MIN_DATAPOINTS_FOR_STATS,
    ensures
        ({
            let n = data.len() as int;
            let sorted = ascending(data);
            let q1 = middle(sorted, 0, n / 2);
            let median = middle(sorted, 0, n);
            let q3 = middle(sorted, n - n / 2, n);
            &&& sorted[0] <= q1.0 <= q1.1 <= median.0 <= median.1 <= q3.0 <= q3.1 <= sorted[n - 1]
        }),
{
    ascending_is_sorted(data);
}

} // verus!
