//! How shares and counts are rounded, and what that means for the share that is enough.
use crate::merge::children::groups_of_frames;
use crate::merge::frequent::{division, frequent, frequent_groups, id_lists, Tally};
use crate::merge::group_laws::{
    groups_of_frames_lie, holders, holds, most_common_is_chosen, picked,
};
use crate::merge::index::{chunk_count, indexed};
use crate::merge::lcs::{is_subsequence, stands_at, without_repetition, Id};
use crate::merge::single::{
    self, constants, count_rounded, nearest_whole, over_count, rounded, rounded_within, share,
    times_count, ulp, ulp_known, ulp_positive, MANTISSA, ONE,
};
use crate::merge::traces::frequent_frame_thresh;
use crate::trace::frame::FrameModel;
use vstd::arithmetic::power2::{lemma2_to64, lemma_pow2_adds, lemma_pow2_unfold, pow2};
use vstd::prelude::*;

verus! {

/// The last significant bit of a number is a power of two, and leaves it just the significant bits
/// that there are.
pub proof fn last_bit_is_a_power(k: nat) -> (exponent: nat)
    ensures
        ulp(k) == pow2(exponent),
        k < 0x100_0000 ==> exponent == 0,
        k >= 0x100_0000 ==> 0x80_0000 * pow2(exponent) <= k < 0x100_0000 * pow2(exponent),
    decreases k,
{
    lemma2_to64();
    ulp_positive(k);
    if k >= MANTISSA {
        let e = last_bit_is_a_power(k / 2);
        lemma_pow2_unfold(e + 1);
        e + 1
    } else {
        0
    }
}

/// Rounding gives the nearest multiple of the last significant bit: no other is nearer. Half way, it
/// is the even one, unless the number lies a little above.
pub proof fn rounding_is_to_nearest(k: nat, more: bool)
    ensures
        rounded(k, more) % ulp(k) == 0,
        -(ulp(k) as int) <= 2 * (rounded(k, more) - k) <= ulp(k),
        2 * (k % ulp(k)) == ulp(k) && more ==> rounded(k, more) > k,
        2 * (k % ulp(k)) == ulp(k) && !more ==> (rounded(k, more) / ulp(k)) % 2 == 0,
{
    let p = ulp(k);
    ulp_positive(k);
    let q = k / p;
    let r = k % p;
    vstd::arithmetic::div_mod::lemma_fundamental_div_mod(k as int, p as int);
    vstd::arithmetic::div_mod::lemma_mod_bound(k as int, p as int);
    assert(p * q == q * p) by (nonlinear_arith);
    assert((q + 1) * p == q * p + p) by (nonlinear_arith);
    vstd::arithmetic::div_mod::lemma_mod_multiples_basic(q as int, p as int);
    vstd::arithmetic::div_mod::lemma_mod_multiples_basic((q + 1) as int, p as int);
    vstd::arithmetic::div_mod::lemma_div_multiples_vanish(q as int, p as int);
    vstd::arithmetic::div_mod::lemma_div_multiples_vanish((q + 1) as int, p as int);
    assert(q * p / p == q) by {
        assert(p * q == q * p) by (nonlinear_arith);
    }
    assert(((q + 1) * p) / p == q + 1) by {
        assert(p * (q + 1) == (q + 1) * p) by (nonlinear_arith);
    }
}

/// The nearest whole number is no further than a half away; half way, it is the higher one.
pub proof fn whole_is_nearest(a: nat)
    ensures
        2 * a < (2 * nearest_whole(a) + 1) * ONE,
        (2 * nearest_whole(a) - 1) * ONE <= 2 * a,
{
}

/// Counts below sixteen million are exact, and a share of them is the quotient, rounded.
pub proof fn shares_are_quotients(n: nat, of: nat)
    requires
        n < 0x100_0000,
        0 < of < 0x100_0000,
    ensures
        count_rounded(n) == n,
        share(n, of) == rounded((n * ONE as nat) / of, (n * ONE as nat) % of != 0),
        over_count(n, of) == rounded(n / of, n % of != 0),
        times_count(n, of) == rounded(n * of, false),
{
    single::count_rounded_bounds(n);
    single::count_rounded_bounds(of);
}

proof fn seven_tenths()
    ensures
        share(7, 10) == 11744051nat * 0x4_0000_0000_0000_0000nat,
        pow2(66) == 0x4_0000_0000_0000_0000nat,
        pow2(67) == 0x8_0000_0000_0000_0000nat,
        pow2(89) == 0x80_0000nat * 0x4_0000_0000_0000_0000nat,
        pow2(90) == 0x100_0000nat * 0x4_0000_0000_0000_0000nat,
        pow2(91) == 0x200_0000nat * 0x4_0000_0000_0000_0000nat,
{
    constants();
    lemma2_to64();
    lemma_pow2_adds(64, 2);
    lemma_pow2_unfold(67);
    lemma_pow2_unfold(90);
    lemma_pow2_unfold(91);
    single::count_rounded_bounds(7);
    single::count_rounded_bounds(10);
    let t = (7 * ONE as nat) / 10;
    assert(count_rounded(7) * ONE as nat == 7 * ONE as nat);
    ulp_known(t, 66);
}

/// With up to two million frames, calls are taken over by way of their frequency if and only if at
/// least seven in ten frames have them.
pub proof fn seven_in_ten_are_enough(n: nat, of: nat)
    requires
        n <= of <= 2396745,
        0 < of,
    ensures
        share(n, of) >= frequent_frame_thresh().units <==> 10 * n >= 7 * of,
{
    constants();
    seven_tenths();
    shares_are_quotients(n, of);
    let unit: nat = 0x4_0000_0000_0000_0000;
    let one = ONE as nat;
    assert(one == 0x100_0000 * unit);
    let a = n * one;
    let k = a / of;
    let more = a % of != 0;
    let p = ulp(k);
    vstd::arithmetic::div_mod::lemma_fundamental_div_mod(a as int, of as int);
    vstd::arithmetic::div_mod::lemma_mod_bound(a as int, of as int);
    assert(k * of <= a < (k + 1) * of) by (nonlinear_arith)
        requires
            a == of * k + a % of,
            0 <= a % of < of,
    ;
    assert(k <= one) by (nonlinear_arith)
        requires
            k * of <= n * one,
            n <= of,
            of > 0,
    ;
    ulp_positive(k);
    let q = k / p;
    let r = k % p;
    vstd::arithmetic::div_mod::lemma_fundamental_div_mod(k as int, p as int);
    vstd::arithmetic::div_mod::lemma_mod_bound(k as int, p as int);
    assert(p * q == q * p) by (nonlinear_arith);
    assert((q + 1) * p == q * p + p) by (nonlinear_arith);
    assert(rounded(k, more) == q * p || rounded(k, more) == (q + 1) * p);
    if 10 * n >= 7 * of {
        assert(10 * (k + 1) > 7 * one) by (nonlinear_arith)
            requires
                n * one < (k + 1) * of,
                10 * n >= 7 * of,
                of > 0,
                one > 0,
        ;
        assert(k >= 11744051 * unit);
        if k < one {
            ulp_known(k, 66);
            assert(q >= 11744051);
            assert(q * p >= 11744051 * unit) by (nonlinear_arith)
                requires
                    q >= 11744051,
                    p == unit,
            ;
        } else {
            ulp_known(k, 67);
            assert(k == 0x80_0000 * p);
            assert(q == 0x80_0000) by (nonlinear_arith)
                requires
                    k == 0x80_0000 * p,
                    k == p * q + r,
                    0 <= r < p,
            ;
        }
    } else {
        assert(20 * (k * of) <= 2 * (7 * of - 1) * one) by (nonlinear_arith)
            requires
                k * of <= n * one,
                10 * n <= 7 * of - 1,
                one > 0,
        ;
        assert(2 * (7 * of - 1) * one == (234881024 * of - 33554432) * unit) by (nonlinear_arith)
            requires
                one == 0x100_0000 * unit,
        ;
        assert((234881024 * of - 33554432) * unit < (234881010 * of) * unit) by (nonlinear_arith)
            requires
                234881024 * of - 33554432 < 234881010 * of,
                unit > 0,
        ;
        assert(2 * k < 23488101 * unit) by (nonlinear_arith)
            requires
                20 * (k * of) < (234881010 * of) * unit,
                of > 0,
        ;
        if k < pow2(89) {
            rounded_within(k, more, 65);
        } else {
            ulp_known(k, 66);
            assert(p == unit);
            assert(q <= 11744050) by (nonlinear_arith)
                requires
                    2 * k < 23488101 * unit,
                    k == q * unit + r,
                    r >= 0,
            ;
            if q == 11744050 {
                assert(2 * r < p);
                assert(rounded(k, more) == q * p);
            } else {
                assert((q + 1) * p <= 11744050 * unit) by (nonlinear_arith)
                    requires
                        q + 1 <= 11744050,
                        p == unit,
                ;
            }
        }
    }
}

/// With up to two million frames, every group that is merged has chunks of at least seven in ten of
/// them.
pub proof fn groups_have_seven_in_ten(frames: Seq<FrameModel>, g: int)
    requires
        0 < frames.len() <= 2396745,
        chunk_count(frames) <= u32::MAX,
        0 <= g < groups_of_frames(frames, frequent_frame_thresh()).len(),
    ensures
        10 * groups_of_frames(frames, frequent_frame_thresh())[g].len() >= 7 * frames.len(),
        groups_of_frames(frames, frequent_frame_thresh())[g].len() <= frames.len(),
{
    let thresh = frequent_frame_thresh();
    let groups = groups_of_frames(frames, thresh);
    let none: Seq<u32> = Seq::empty();
    let lists = id_lists(indexed(frames));
    assert forall|k: int| 0 <= k < lists.len() implies is_subsequence(
        none,
        #[trigger] lists[k],
    ) by {
        assert(stands_at(none, lists[k], Seq::empty()));
    }
    let (layout, at) = groups_of_frames_lie(frames, thresh, none);
    assert(layout.marks[g].len() == frames.len());
    picked_is_no_longer(indexed(frames), layout.marks[g]);
    assert(groups[g].len() == frames.len() || share(groups[g].len(), frames.len())
        >= thresh.units);
    seven_in_ten_are_enough(groups[g].len(), frames.len());
}

proof fn picked_is_no_longer<I>(sequences: Seq<Seq<I>>, mark: Seq<Option<int>>)
    ensures
        picked(sequences, mark).len() <= sequences.len(),
    decreases sequences.len(),
{
    if sequences.len() > 0 {
        picked_is_no_longer(sequences.drop_last(), mark.drop_last());
    }
}

/// With up to two million sequences in which nothing frequent is found, no id is in seven of ten.
pub proof fn nothing_frequent_is_missed<I: Id>(n: u32, sequences: Seq<Seq<I>>, id: u32)
    requires
        without_repetition(id_lists(sequences)),
        1 <= id <= n,
        0 < sequences.len() <= 2396745,
    ensures
        frequent_groups(n, sequences, frequent_frame_thresh()).len() == 0 <==> forall|other: u32|
            1 <= other <= n ==> 10 * #[trigger] holders(id_lists(sequences), other) < 7
                * sequences.len(),
{
    let thresh = frequent_frame_thresh();
    let lists = id_lists(sequences);
    seven_tenths();
    most_common_is_chosen(n, sequences, thresh, id);
    match frequent(n, sequences, thresh) {
        Some((chosen, _)) => {
            holders_are_no_more(lists, chosen);
            seven_in_ten_are_enough(holders(lists, chosen), sequences.len());
            assert(10 * holders(lists, chosen) >= 7 * sequences.len());
        },
        None => {
            assert forall|other: u32| 1 <= other <= n implies 10 * #[trigger] holders(lists, other)
                < 7 * sequences.len() by {
                most_common_is_chosen(n, sequences, thresh, other);
                let best = choose|best: u32|
                    1 <= best <= n && holders(lists, other) <= #[trigger] holders(lists, best) && (
                    holders(lists, best) == 0 || share(holders(lists, best), sequences.len())
                        < thresh.units);
                holders_are_no_more(lists, best);
                seven_in_ten_are_enough(holders(lists, best), sequences.len());
            }
        },
    }
}

proof fn holders_are_no_more(lists: Seq<Seq<u32>>, id: u32)
    ensures
        holders(lists, id) <= lists.len(),
{
    lists.lemma_filter_len(holds(id));
}

/// A sequence that lacks an id is divided at the whole number that is nearest to the mean relative
/// position of the id times the length of the sequence, or at its end.
pub proof fn sequences_are_divided_at_mean_position(tally: Tally, len: nat)
    ensures
        ({
            let at = times_count(over_count(tally.positions, tally.count), len);
            let d = division(tally, len);
            &&& d <= len
            &&& (2 * d - 1) * ONE <= 2 * at
            &&& d < len ==> 2 * at < (2 * d + 1) * ONE
        }),
{
    let at = times_count(over_count(tally.positions, tally.count), len);
    whole_is_nearest(at);
    let w = nearest_whole(at);
    if w > len {
        assert((2 * len - 1) * ONE <= (2 * w - 1) * ONE) by (nonlinear_arith)
            requires
                len <= w,
                ONE > 0,
        ;
    }
}

} // verus!
