//! Items that are frequent among several sequences.
use crate::merge::lcs::{self, ids, place, present, Id};
use crate::merge::single::{self, Single};
use vstd::prelude::*;
use vstd::slice::slice_subrange;

verus! {

/// How often an id was met, and the sum of its relative positions.
pub struct Tally {
    pub count: nat,
    pub positions: nat,
}

/// The tally with one more position: `index` in a sequence of `len` items.
pub open spec fn tallied(tally: Option<Tally>, index: nat, len: nat) -> Option<Tally> {
    match tally {
        None => Some(Tally { count: 1, positions: single::share(index, len) }),
        Some(t) => Some(
            Tally {
                count: t.count + 1,
                positions: single::rounded(t.positions + single::share(index, len), false),
            },
        ),
    }
}

/// The tally of an id after the first `upto` items of one more list.
pub open spec fn tally_of_list(
    list: Seq<u32>,
    id: u32,
    upto: int,
    tally: Option<Tally>,
) -> Option<Tally>
    decreases upto,
{
    if upto <= 0 {
        tally
    } else {
        let shorter = tally_of_list(list, id, upto - 1, tally);
        if list[upto - 1] == id {
            tallied(shorter, (upto - 1) as nat, list.len())
        } else {
            shorter
        }
    }
}

/// The tally of an id in the first `upto` lists.
pub open spec fn tally_of(lists: Seq<Seq<u32>>, id: u32, upto: int) -> Option<Tally>
    decreases upto,
{
    if upto <= 0 {
        None
    } else {
        tally_of_list(
            lists[upto - 1],
            id,
            lists[upto - 1].len() as int,
            tally_of(lists, id, upto - 1),
        )
    }
}

/// How often the id stands in the lists.
pub open spec fn count_of(lists: Seq<Seq<u32>>, id: u32) -> nat {
    match tally_of(lists, id, lists.len() as int) {
        Some(tally) => tally.count,
        None => 0,
    }
}

/// The most frequent of the ids `1..=m`; the highest of those that are equally frequent.
pub open spec fn most_frequent(lists: Seq<Seq<u32>>, m: int) -> int
    decreases m,
{
    if m <= 1 {
        m
    } else {
        let lower = most_frequent(lists, m - 1);
        if count_of(lists, m as u32) >= count_of(lists, lower as u32) {
            m
        } else {
            lower
        }
    }
}

/// The lists of ids of sequences of items.
pub open spec fn id_lists<I: Id>(sequences: Seq<Seq<I>>) -> Seq<Seq<u32>> {
    Seq::new(sequences.len(), |k: int| ids(sequences[k]))
}

/// The sequences that are looked at, as sequences of items.
pub open spec fn contents<I>(sequences: Seq<&[I]>) -> Seq<Seq<I>> {
    Seq::new(sequences.len(), |k: int| sequences[k]@)
}

/// The number of items in all sequences.
pub open spec fn size<I>(sequences: Seq<Seq<I>>) -> nat
    decreases sequences.len(),
{
    if sequences.len() == 0 {
        0
    } else {
        size(sequences.drop_last()) + sequences.last().len()
    }
}

/// Where a sequence that lacks the chosen id is divided: at the average relative position of the
/// id in the sequences that have it.
pub open spec fn division(tally: Tally, len: nat) -> nat {
    let at = single::nearest_whole(
        single::times_count(single::over_count(tally.positions, tally.count), len),
    );
    if at < len {
        at
    } else {
        len
    }
}

/// The items of one sequence before the chosen id.
pub open spec fn part_before<I: Id>(sequence: Seq<I>, id: u32, tally: Tally) -> Seq<I> {
    if present(ids(sequence), id) {
        sequence.take(place(ids(sequence), id))
    } else {
        sequence.take(division(tally, sequence.len()) as int)
    }
}

/// The items of one sequence behind the chosen id.
pub open spec fn part_after<I: Id>(sequence: Seq<I>, id: u32, tally: Tally) -> Seq<I> {
    if present(ids(sequence), id) {
        sequence.skip(place(ids(sequence), id) + 1)
    } else {
        sequence.skip(division(tally, sequence.len()) as int)
    }
}

pub open spec fn parts_before<I: Id>(sequences: Seq<Seq<I>>, id: u32, tally: Tally) -> Seq<Seq<I>> {
    Seq::new(sequences.len(), |k: int| part_before(sequences[k], id, tally))
}

pub open spec fn parts_after<I: Id>(sequences: Seq<Seq<I>>, id: u32, tally: Tally) -> Seq<Seq<I>> {
    Seq::new(sequences.len(), |k: int| part_after(sequences[k], id, tally))
}

/// The first item with the id in each sequence that has one.
pub open spec fn group_of<I: Id>(sequences: Seq<Seq<I>>, id: u32) -> Seq<I>
    decreases sequences.len(),
{
    if sequences.len() == 0 {
        Seq::empty()
    } else {
        let shorter = group_of(sequences.drop_last(), id);
        if present(ids(sequences.last()), id) {
            shorter.push(sequences.last()[place(ids(sequences.last()), id)])
        } else {
            shorter
        }
    }
}

/// The id that is most frequent in the sequences, with its tally, if its share of the sequences
/// reaches the threshold.
pub open spec fn frequent<I: Id>(n: u32, sequences: Seq<Seq<I>>, thresh: Single) -> Option<
    (u32, Tally),
> {
    let lists = id_lists(sequences);
    let id = most_frequent(lists, n as int) as u32;
    match tally_of(lists, id, lists.len() as int) {
        Some(tally) => if n > 0 && single::share(tally.count, sequences.len()) >= thresh.units {
            Some((id, tally))
        } else {
            None
        },
        None => None,
    }
}

/// The groups of items with frequent ids, in the order in which they stand.
pub open spec fn frequent_groups<I: Id>(n: u32, sequences: Seq<Seq<I>>, thresh: Single) -> Seq<
    Seq<I>,
>
    decreases size(sequences),
{
    match frequent(n, sequences, thresh) {
        Some((id, tally)) => {
            proof {
                parts_are_smaller(sequences, id, tally);
            }
            frequent_groups(n, parts_before(sequences, id, tally), thresh) + seq![
                group_of(sequences, id),
            ] + frequent_groups(n, parts_after(sequences, id, tally), thresh)
        },
        None => Seq::empty(),
    }
}

/// The counts of occurrences can be held in 32 bits.
pub open spec fn countable<I>(sequences: Seq<Seq<I>>) -> bool {
    &&& sequences.len() <= u32::MAX
    &&& size(sequences) <= u32::MAX
}

proof fn tallied_id_is_in_list(list: Seq<u32>, id: u32, upto: int, tally: Option<Tally>)
    requires
        0 <= upto <= list.len(),
        tally is None,
        tally_of_list(list, id, upto, tally) is Some,
    ensures
        present(list, id),
    decreases upto,
{
    if upto > 0 {
        if list[upto - 1] == id {
            lcs::place_is_first(list, id);
        } else {
            tallied_id_is_in_list(list, id, upto - 1, tally);
        }
    }
}

/// An id that was tallied stands in one of the lists.
proof fn tallied_id_is_somewhere(lists: Seq<Seq<u32>>, id: u32, upto: int) -> (k: int)
    requires
        0 <= upto <= lists.len(),
        tally_of(lists, id, upto) is Some,
    ensures
        0 <= k < upto,
        present(lists[k], id),
    decreases upto,
{
    if tally_of(lists, id, upto - 1) is Some {
        tallied_id_is_somewhere(lists, id, upto - 1)
    } else {
        tallied_id_is_in_list(
            lists[upto - 1],
            id,
            lists[upto - 1].len() as int,
            tally_of(lists, id, upto - 1),
        );
        upto - 1
    }
}

/// Sequences none of which is longer have no more items, and fewer where one is shorter.
pub proof fn size_monotone<I>(smaller: Seq<Seq<I>>, larger: Seq<Seq<I>>)
    requires
        smaller.len() == larger.len(),
        forall|k: int| 0 <= k < larger.len() ==> (#[trigger] smaller[k]).len() <= larger[k].len(),
    ensures
        size(smaller) <= size(larger),
        (exists|k: int| 0 <= k < larger.len() && (#[trigger] smaller[k]).len() < larger[k].len())
            ==> size(smaller) < size(larger),
    decreases larger.len(),
{
    if larger.len() > 0 {
        let s = smaller.drop_last();
        let l = larger.drop_last();
        assert forall|k: int| 0 <= k < l.len() implies (#[trigger] s[k]).len() <= l[k].len() by {
            assert(s[k] == smaller[k]);
        }
        size_monotone(s, l);
        if exists|k: int| 0 <= k < larger.len() && (#[trigger] smaller[k]).len() < larger[k].len() {
            let k = choose|k: int|
                0 <= k < larger.len() && (#[trigger] smaller[k]).len() < larger[k].len();
            if k < l.len() {
                assert(s[k].len() < l[k].len());
            }
        }
    }
}

/// Sequences of equal lengths have as many items.
pub proof fn size_of_same_lengths<I, J>(a: Seq<Seq<I>>, b: Seq<Seq<J>>)
    requires
        a.len() == b.len(),
        forall|k: int| 0 <= k < a.len() ==> (#[trigger] a[k]).len() == b[k].len(),
    ensures
        size(a) == size(b),
    decreases a.len(),
{
    if a.len() > 0 {
        let (x, y) = (a.drop_last(), b.drop_last());
        assert forall|k: int| 0 <= k < x.len() implies (#[trigger] x[k]).len() == y[k].len() by {
            assert(x[k] == a[k]);
        }
        size_of_same_lengths(x, y);
    }
}

/// The parts before and behind a tallied id have fewer items than the whole.
pub proof fn parts_are_smaller<I: Id>(sequences: Seq<Seq<I>>, id: u32, tally: Tally)
    requires
        tally_of(id_lists(sequences), id, sequences.len() as int) is Some,
    ensures
        size(parts_before(sequences, id, tally)) < size(sequences),
        size(parts_after(sequences, id, tally)) < size(sequences),
{
    let before = parts_before(sequences, id, tally);
    let after = parts_after(sequences, id, tally);
    let k = tallied_id_is_somewhere(id_lists(sequences), id, sequences.len() as int);
    assert(id_lists(sequences)[k] == ids(sequences[k]));
    assert forall|q: int| 0 <= q < sequences.len() implies (#[trigger] before[q]).len()
        <= sequences[q].len() by {
        lcs::place_is_first(ids(sequences[q]), id);
    }
    assert forall|q: int| 0 <= q < sequences.len() implies (#[trigger] after[q]).len()
        <= sequences[q].len() by {
        lcs::place_is_first(ids(sequences[q]), id);
    }
    lcs::place_is_first(ids(sequences[k]), id);
    assert(before[k].len() < sequences[k].len());
    assert(after[k].len() < sequences[k].len());
    size_monotone(before, sequences);
    size_monotone(after, sequences);
}

/// A group holds one item of each sequence at most, all with the id.
pub proof fn group_keeps<I: Id>(sequences: Seq<Seq<I>>, id: u32, p: spec_fn(I) -> bool)
    requires
        forall|k: int, i: int|
            0 <= k < sequences.len() && 0 <= i < sequences[k].len() ==> p(
                #[trigger] sequences[k][i],
            ),
    ensures
        group_of(sequences, id).len() <= sequences.len(),
        forall|i: int|
            0 <= i < group_of(sequences, id).len() ==> p(#[trigger] group_of(sequences, id)[i])
                && group_of(sequences, id)[i].spec_id() == id,
    decreases sequences.len(),
{
    if sequences.len() > 0 {
        let shorter = sequences.drop_last();
        assert forall|k: int, i: int|
            0 <= k < shorter.len() && 0 <= i < shorter[k].len() implies p(
            #[trigger] shorter[k][i],
        ) by {
            assert(shorter[k][i] == sequences[k][i]);
        }
        group_keeps(shorter, id, p);
        lcs::place_is_first(ids(sequences.last()), id);
        if present(ids(sequences.last()), id) {
            let at = place(ids(sequences.last()), id);
            assert(sequences.last()[at] == sequences[sequences.len() - 1][at]);
            assert(ids(sequences.last())[at] == id);
        }
    }
}

/// Where a sequence has the id, the group is not empty.
pub proof fn group_is_not_empty<I: Id>(sequences: Seq<Seq<I>>, id: u32, k: int)
    requires
        0 <= k < sequences.len(),
        present(ids(sequences[k]), id),
    ensures
        group_of(sequences, id).len() > 0,
    decreases sequences.len(),
{
    if k < sequences.len() - 1 {
        group_is_not_empty(sequences.drop_last(), id, k);
    }
}

/// Groups hold items of the sequences only: what holds of all those holds of all in the groups. No
/// group is empty or larger than the number of sequences, and the items of one have one id.
pub proof fn groups_keep<I: Id>(
    n: u32,
    sequences: Seq<Seq<I>>,
    thresh: Single,
    p: spec_fn(I) -> bool,
)
    requires
        forall|k: int, i: int|
            0 <= k < sequences.len() && 0 <= i < sequences[k].len() ==> p(
                #[trigger] sequences[k][i],
            ),
    ensures
        forall|g: int|
            0 <= g < frequent_groups(n, sequences, thresh).len() ==> 0 < (
            #[trigger] frequent_groups(n, sequences, thresh)[g]).len() <= sequences.len(),
        forall|g: int, i: int|
            0 <= g < frequent_groups(n, sequences, thresh).len() && 0 <= i < frequent_groups(
                n,
                sequences,
                thresh,
            )[g].len() ==> p(#[trigger] frequent_groups(n, sequences, thresh)[g][i])
                && frequent_groups(n, sequences, thresh)[g][i].spec_id() == frequent_groups(
                n,
                sequences,
                thresh,
            )[g][0].spec_id(),
    decreases size(sequences),
{
    if let Some((id, tally)) = frequent(n, sequences, thresh) {
        parts_are_smaller(sequences, id, tally);
        let before = parts_before(sequences, id, tally);
        let after = parts_after(sequences, id, tally);
        assert forall|k: int, i: int| 0 <= k < before.len() && 0 <= i < before[k].len() implies p(
            #[trigger] before[k][i],
        ) by {
            lcs::place_is_first(ids(sequences[k]), id);
            assert(before[k][i] == sequences[k][i]);
        }
        assert forall|k: int, i: int| 0 <= k < after.len() && 0 <= i < after[k].len() implies p(
            #[trigger] after[k][i],
        ) by {
            lcs::place_is_first(ids(sequences[k]), id);
            let from = sequences[k].len() - after[k].len();
            assert(after[k][i] == sequences[k][from + i]);
        }
        groups_keep(n, before, thresh, p);
        groups_keep(n, after, thresh, p);
        group_keeps(sequences, id, p);
        let k = tallied_id_is_somewhere(id_lists(sequences), id, sequences.len() as int);
        assert(id_lists(sequences)[k] == ids(sequences[k]));
        group_is_not_empty(sequences, id, k);
        let first = frequent_groups(n, before, thresh);
        let last = frequent_groups(n, after, thresh);
        let all = frequent_groups(n, sequences, thresh);
        assert(all == first + seq![group_of(sequences, id)] + last);
        assert forall|g: int| 0 <= g < all.len() implies 0 < (#[trigger] all[g]).len()
            <= sequences.len() by {
            if g < first.len() {
                assert(all[g] == first[g]);
            } else if g > first.len() {
                assert(all[g] == last[g - first.len() - 1]);
            }
        }
        assert forall|g: int, i: int| 0 <= g < all.len() && 0 <= i < all[g].len() implies p(
            #[trigger] all[g][i],
        ) && all[g][i].spec_id() == all[g][0].spec_id() by {
            if g < first.len() {
                assert(all[g] == first[g]);
                assert(first[g][0].spec_id() == first[g][i].spec_id());
            } else if g > first.len() {
                assert(all[g] == last[g - first.len() - 1]);
                assert(last[g - first.len() - 1][0].spec_id() == last[g - first.len()
                    - 1][i].spec_id());
            } else {
                assert(all[g] == group_of(sequences, id));
                assert(group_of(sequences, id)[0].spec_id() == id);
            }
        }
    }
}

/// A tally in machine numbers.
struct Counted {
    count: u32,
    positions: Single,
}

spec fn counted(c: Option<Counted>, tally: Option<Tally>, limit: nat) -> bool {
    match (c, tally) {
        (Some(c), Some(t)) => {
            &&& c.count == t.count
            &&& c.positions.units == t.positions
            &&& 0 < t.count <= limit
            &&& t.positions <= single::sum_bound(t.count)
        },
        (None, None) => true,
        _ => false,
    }
}

spec fn all_counted(
    counts: Seq<Option<Counted>>,
    lists: Seq<Seq<u32>>,
    q: int,
    i: int,
    limit: nat,
) -> bool {
    forall|t: int|
        0 <= t < counts.len() ==> counted(
            #[trigger] counts[t],
            tally_of_list(lists[q], (t + 1) as u32, i, tally_of(lists, (t + 1) as u32, q)),
            limit,
        )
}

proof fn size_of_prefix<I>(sequences: Seq<Seq<I>>, q: int)
    requires
        0 <= q < sequences.len(),
    ensures
        size(sequences.take(q + 1)) == size(sequences.take(q)) + sequences[q].len(),
        size(sequences.take(q)) + sequences[q].len() <= size(sequences),
    decreases sequences.len(),
{
    assert(sequences.take(q + 1).drop_last() =~= sequences.take(q));
    if q + 1 < sequences.len() {
        size_of_prefix(sequences.drop_last(), q);
        assert(sequences.drop_last().take(q) =~= sequences.take(q));
    } else {
        assert(sequences.take(q) =~= sequences.drop_last());
    }
}

fn count_items<I: Id>(n: u32, sequences: &[&[I]]) -> (result: Vec<Option<Counted>>)
    requires
        countable(contents(sequences@)),
        lcs::ids_up_to(id_lists(contents(sequences@)), n),
    ensures
        result.len() == n,
        forall|t: int|
            0 <= t < n ==> counted(
                #[trigger] result@[t],
                tally_of(
                    id_lists(contents(sequences@)),
                    (t + 1) as u32,
                    sequences@.len() as int,
                ),
                u32::MAX as nat,
            ),
{
    let ghost seqs = contents(sequences@);
    let ghost lists = id_lists(seqs);
    let mut counts: Vec<Option<Counted>> = Vec::new();
    let mut filled: u32 = 0;
    while filled < n
        invariant
            filled <= n,
            counts.len() == filled,
            forall|t: int| 0 <= t < counts.len() ==> #[trigger] counts@[t] is None,
        decreases n - filled,
    {
        counts.push(None);
        filled += 1;
    }
    let mut q: usize = 0;
    while q < sequences.len()
        invariant
            q <= sequences.len(),
            seqs == contents(sequences@),
            lists == id_lists(seqs),
            countable(seqs),
            lcs::ids_up_to(lists, n),
            counts.len() == n,
            forall|t: int|
                0 <= t < n ==> counted(
                    #[trigger] counts@[t],
                    tally_of(lists, (t + 1) as u32, q as int),
                    size(seqs.take(q as int)),
                ),
        decreases sequences.len() - q,
    {
        let sequence = sequences[q];
        let ghost sofar = size(seqs.take(q as int));
        proof {
            assert(seqs[q as int] == sequence@);
            assert(lists[q as int] == ids(sequence@));
            size_of_prefix(seqs, q as int);
        }
        let mut i: usize = 0;
        while i < sequence.len()
            invariant
                i <= sequence.len(),
                q < lists.len(),
                lists[q as int] == ids(sequence@),
                lcs::ids_up_to(lists, n),
                counts.len() == n,
                sofar + sequence@.len() <= u32::MAX,
                all_counted(counts@, lists, q as int, i as int, sofar + i as nat),
            decreases sequence.len() - i,
        {
            let id: u32 = sequence[i].id();
            let ghost before = counts@;
            assert(lists[q as int][i as int] == id);
            let t: usize = id as usize - 1;
            let position = Single::ratio(i as u32, sequence.len() as u32);
            assert(counted(
                counts@[t as int],
                tally_of_list(lists[q as int], id, i as int, tally_of(lists, id, q as int)),
                sofar + i as nat,
            ));
            let updated = match &counts[t] {
                Some(c) => Counted {
                    count: c.count + 1,
                    positions: c.positions.plus(&position, Ghost(c.count as nat)),
                },
                None => {
                    proof {
                        single::first_share_bounded(position.units as nat);
                    }
                    Counted { count: 1, positions: position }
                },
            };
            counts.set(t, Some(updated));
            proof {
                assert forall|u: int| 0 <= u < counts.len() implies counted(
                    #[trigger] counts@[u],
                    tally_of_list(
                        lists[q as int],
                        (u + 1) as u32,
                        i + 1,
                        tally_of(lists, (u + 1) as u32, q as int),
                    ),
                    sofar + (i + 1) as nat,
                ) by {
                    if u != t {
                        assert(counts@[u] == before[u]);
                    }
                }
            }
            i += 1;
        }
        proof {
            assert forall|t: int| 0 <= t < n implies counted(
                #[trigger] counts@[t],
                tally_of(lists, (t + 1) as u32, q + 1),
                size(seqs.take(q + 1)),
            ) by {}
        }
        q += 1;
    }
    counts
}

/// The items of the groups, as values.
pub open spec fn group_items<I>(groups: Seq<Vec<&I>>) -> Seq<Seq<I>> {
    Seq::new(groups.len(), |g: int| Seq::new(groups[g]@.len(), |i: int| *groups[g]@[i]))
}

/// The id most often counted, the highest of those that are equally frequent.
fn pick(n: u32, counts: &Vec<Option<Counted>>, Ghost(lists): Ghost<Seq<Seq<u32>>>) -> (result: u32)
    requires
        0 < n,
        counts.len() == n,
        forall|t: int|
            0 <= t < n ==> counted(
                #[trigger] counts@[t],
                tally_of(lists, (t + 1) as u32, lists.len() as int),
                u32::MAX as nat,
            ),
    ensures
        1 <= result <= n,
        result == most_frequent(lists, n as int),
{
    let mut best: u32 = 1;
    assert(counted(
        counts@[0],
        tally_of(lists, 1u32, lists.len() as int),
        u32::MAX as nat,
    ));
    let mut best_count: u32 = match &counts[0] {
        Some(c) => c.count,
        None => 0,
    };
    let mut m: u32 = 1;
    while m < n
        invariant
            1 <= m <= n,
            counts.len() == n,
            1 <= best <= m,
            best == most_frequent(lists, m as int),
            best_count == count_of(lists, best),
            forall|t: int|
                0 <= t < n ==> counted(
                    #[trigger] counts@[t],
                    tally_of(lists, (t + 1) as u32, lists.len() as int),
                    u32::MAX as nat,
                ),
        decreases n - m,
    {
        assert(counted(
            counts@[m as int],
            tally_of(lists, (m + 1) as u32, lists.len() as int),
            u32::MAX as nat,
        ));
        let count: u32 = match &counts[m as usize] {
            Some(c) => c.count,
            None => 0,
        };
        m += 1;
        if count >= best_count {
            best = m;
            best_count = count;
        }
    }
    best
}

/// The groups of items whose ids are frequent among the sequences, in the order in which they
/// stand there.
///
/// Where the most frequent id reaches the threshold, its first item in each sequence makes a group;
/// the parts of the sequences before and behind those items are searched in the same way. A
/// sequence that lacks the id is divided at the average relative position that it has in the
/// others. The ids are numbers from `1` to `n`; the threshold is a share from zero to one.
pub fn find_frequent_children<'a, I: Id>(
    n: u32,
    sequences: &[&'a [I]],
    thresh: Single,
) -> (result: Vec<Vec<&'a I>>)
    requires
        thresh.units <= single::ONE,
        countable(contents(sequences@)),
        lcs::ids_up_to(lcs::id_lists(sequences@), n),
    ensures
        group_items(result@) == frequent_groups(n, contents(sequences@), thresh),
    decreases size(contents(sequences@)),
{
    let ghost seqs = contents(sequences@);
    let ghost lists = id_lists(seqs);
    assert(lists =~= lcs::id_lists(sequences@));
    let mut result: Vec<Vec<&'a I>> = Vec::new();
    if n == 0 {
        assert(frequent(n, seqs, thresh) is None);
        assert(group_items(result@) =~= frequent_groups(n, seqs, thresh));
        return result;
    }
    let counts = count_items(n, sequences);
    let id: u32 = pick(n, &counts, Ghost(lists));
    assert(counted(
        counts@[id - 1],
        tally_of(lists, id, sequences@.len() as int),
        u32::MAX as nat,
    ));
    let (count, positions): (u32, Single) = match &counts[id as usize - 1] {
        Some(c) => (c.count, c.positions),
        None => {
            assert(group_items(result@) =~= frequent_groups(n, seqs, thresh));
            return result;
        },
    };
    let ghost tally = tally_of(lists, id, sequences@.len() as int)->Some_0;
    proof {
        let k = tallied_id_is_somewhere(lists, id, sequences.len() as int);
    }
    if !Single::ratio(count, sequences.len() as u32).at_least(&thresh) {
        assert(frequent(n, seqs, thresh) is None);
        assert(group_items(result@) =~= frequent_groups(n, seqs, thresh));
        return result;
    }
    assert(frequent(n, seqs, thresh) == Some((id, tally)));
    let average = positions.over(count);
    let mut group: Vec<&'a I> = Vec::new();
    let mut before: Vec<&'a [I]> = Vec::new();
    let mut after: Vec<&'a [I]> = Vec::new();
    let mut q: usize = 0;
    while q < sequences.len()
        invariant
            q <= sequences.len(),
            seqs == contents(sequences@),
            countable(seqs),
            average.units == single::over_count(tally.positions, tally.count),
            average.units <= 2 * single::ONE,
            before.len() == q,
            after.len() == q,
            forall|k: int|
                0 <= k < q ==> (#[trigger] before@[k])@ == part_before(seqs[k], id, tally),
            forall|k: int|
                0 <= k < q ==> (#[trigger] after@[k])@ == part_after(seqs[k], id, tally),
            group@.len() == group_of(seqs.take(q as int), id).len(),
            forall|k: int|
                0 <= k < group@.len() ==> *(#[trigger] group@[k]) == group_of(
                    seqs.take(q as int),
                    id,
                )[k],
        decreases sequences.len() - q,
    {
        let sequence = sequences[q];
        proof {
            assert(seqs[q as int] == sequence@);
            assert(seqs.take(q + 1).drop_last() =~= seqs.take(q as int));
            assert(seqs.take(q + 1).last() == sequence@);
            size_of_prefix(seqs, q as int);
        }
        let at: usize = lcs::find_place(sequence, id);
        if at < sequence.len() {
            group.push(&sequence[at]);
            before.push(slice_subrange(sequence, 0, at));
            after.push(slice_subrange(sequence, at + 1, sequence.len()));
        } else {
            let whole: u128 = average.of_count(sequence.len() as u32);
            let point: usize = if whole < sequence.len() as u128 {
                whole as usize
            } else {
                sequence.len()
            };
            before.push(slice_subrange(sequence, 0, point));
            after.push(slice_subrange(sequence, point, sequence.len()));
        }
        assert(before@[q as int]@ =~= part_before(seqs[q as int], id, tally));
        assert(after@[q as int]@ =~= part_after(seqs[q as int], id, tally));
        q += 1;
    }
    proof {
        assert(seqs.take(q as int) =~= seqs);
        assert(contents(before@) =~= parts_before(seqs, id, tally));
        assert(contents(after@) =~= parts_after(seqs, id, tally));
        parts_are_smaller(seqs, id, tally);
        assert forall|k: int, i: int|
            0 <= k < lcs::id_lists(before@).len() && 0 <= i < lcs::id_lists(before@)[k].len() implies 1
            <= #[trigger] lcs::id_lists(before@)[k][i] <= n by {
            lcs::place_is_first(ids(seqs[k]), id);
            assert(before@[k]@[i] == seqs[k][i]);
            assert(lists[k][i] == seqs[k][i].spec_id());
        }
        assert forall|k: int, i: int|
            0 <= k < lcs::id_lists(after@).len() && 0 <= i < lcs::id_lists(after@)[k].len() implies 1
            <= #[trigger] lcs::id_lists(after@)[k][i] <= n by {
            lcs::place_is_first(ids(seqs[k]), id);
            let from = seqs[k].len() - after@[k]@.len();
            assert(after@[k]@[i] == seqs[k][from + i]);
            assert(lists[k][from + i] == seqs[k][from + i].spec_id());
        }
    }
    let mut first = find_frequent_children(n, before.as_slice(), thresh);
    let mut last = find_frequent_children(n, after.as_slice(), thresh);
    let ghost first_items = group_items(first@);
    let ghost last_items = group_items(last@);
    result.append(&mut first);
    result.push(group);
    result.append(&mut last);
    proof {
        assert(group_items(result@) =~= first_items + seq![group_of(seqs, id)] + last_items) by {
            assert(group_items(result@)[first_items.len() as int] =~= group_of(seqs, id));
            assert forall|g: int| 0 <= g < result.len() implies #[trigger] group_items(result@)[g]
                =~= (first_items + seq![group_of(seqs, id)] + last_items)[g] by {}
        }
    }
    result
}

/// The items of `b` are those of `a` under a mapping that keeps ids.
pub open spec fn mapped<I: Id, J: Id>(
    a: Seq<Seq<I>>,
    b: Seq<Seq<J>>,
    map: spec_fn(I) -> J,
) -> bool {
    &&& a.len() == b.len()
    &&& forall|k: int| 0 <= k < a.len() ==> (#[trigger] a[k]).len() == b[k].len()
    &&& forall|k: int, i: int|
        0 <= k < a.len() && 0 <= i < a[k].len() ==> b[k][i] == map(#[trigger] a[k][i])
            && a[k][i].spec_id() == map(a[k][i]).spec_id()
}

/// Mapped sequences have the same ids.
pub proof fn mapped_ids<I: Id, J: Id>(a: Seq<Seq<I>>, b: Seq<Seq<J>>, map: spec_fn(I) -> J)
    requires
        mapped(a, b, map),
    ensures
        id_lists(a) == id_lists(b),
        forall|k: int| 0 <= k < a.len() ==> ids(#[trigger] a[k]) == ids(b[k]),
{
    assert forall|k: int| 0 <= k < a.len() implies ids(#[trigger] a[k]) == ids(b[k]) by {
        assert forall|i: int| 0 <= i < a[k].len() implies #[trigger] ids(a[k])[i] == ids(b[k])[i] by {
            assert(b[k][i] == map(a[k][i]));
        }
        assert(ids(a[k]) =~= ids(b[k]));
    }
    assert(id_lists(a) =~= id_lists(b));
}

/// The groups of an id in mapped sequences are mapped.
pub proof fn mapped_group<I: Id, J: Id>(
    a: Seq<Seq<I>>,
    b: Seq<Seq<J>>,
    map: spec_fn(I) -> J,
    id: u32,
)
    requires
        mapped(a, b, map),
    ensures
        group_of(b, id) == group_of(a, id).map_values(map),
    decreases a.len(),
{
    mapped_ids(a, b, map);
    if a.len() > 0 {
        let x = a.drop_last();
        let y = b.drop_last();
        assert(mapped(x, y, map)) by {
            assert forall|k: int| 0 <= k < x.len() implies (#[trigger] x[k]).len() == y[k].len() by {
                assert(x[k] == a[k]);
            }
            assert forall|k: int, i: int| 0 <= k < x.len() && 0 <= i < x[k].len() implies y[k][i]
                == map(#[trigger] x[k][i]) && x[k][i].spec_id() == map(x[k][i]).spec_id() by {
                assert(x[k][i] == a[k][i]);
            }
        }
        mapped_group(x, y, map, id);
        let k = a.len() - 1;
        assert(ids(a[k]) == ids(b[k]));
        lcs::place_is_first(ids(a[k]), id);
        if present(ids(a[k]), id) {
            let at = place(ids(a[k]), id);
            assert(b[k][at] == map(a[k][at]));
        }
        assert(group_of(b, id) =~= group_of(a, id).map_values(map));
    } else {
        assert(group_of(b, id) =~= group_of(a, id).map_values(map));
    }
}

/// Which items are frequent depends on their ids alone.
pub proof fn mapped_groups<I: Id, J: Id>(
    n: u32,
    a: Seq<Seq<I>>,
    b: Seq<Seq<J>>,
    thresh: Single,
    map: spec_fn(I) -> J,
)
    requires
        mapped(a, b, map),
    ensures
        frequent_groups(n, b, thresh) == frequent_groups(n, a, thresh).map_values(
            |group: Seq<I>| group.map_values(map),
        ),
    decreases size(a),
{
    let each = |group: Seq<I>| group.map_values(map);
    mapped_ids(a, b, map);
    assert(frequent(n, a, thresh) == frequent(n, b, thresh));
    if let Some((id, tally)) = frequent(n, a, thresh) {
        parts_are_smaller(a, id, tally);
        let (a1, b1) = (parts_before(a, id, tally), parts_before(b, id, tally));
        let (a2, b2) = (parts_after(a, id, tally), parts_after(b, id, tally));
        assert forall|k: int| 0 <= k < a.len() implies (#[trigger] a1[k]).len() == b1[k].len()
            && a2[k].len() == b2[k].len() by {
            assert(ids(a[k]) == ids(b[k]));
            lcs::place_is_first(ids(a[k]), id);
        }
        assert forall|k: int, i: int| 0 <= k < a1.len() && 0 <= i < a1[k].len() implies b1[k][i]
            == map(#[trigger] a1[k][i]) && a1[k][i].spec_id() == map(a1[k][i]).spec_id() by {
            assert(ids(a[k]) == ids(b[k]));
            lcs::place_is_first(ids(a[k]), id);
            assert(a1[k].len() == b1[k].len());
            assert(a1[k][i] == a[k][i]);
            assert(b1[k][i] == b[k][i]);
        }
        assert forall|k: int| 0 <= k < a2.len() implies (#[trigger] a2[k]).len() == b2[k].len() by {
            assert(a1[k].len() == b1[k].len());
        }
        assert forall|k: int, i: int| 0 <= k < a2.len() && 0 <= i < a2[k].len() implies b2[k][i]
            == map(#[trigger] a2[k][i]) && a2[k][i].spec_id() == map(a2[k][i]).spec_id() by {
            assert(ids(a[k]) == ids(b[k]));
            lcs::place_is_first(ids(a[k]), id);
            assert(a2[k].len() == b2[k].len());
            let from = a[k].len() - a2[k].len();
            assert(a2[k][i] == a[k][from + i]);
            assert(b2[k][i] == b[k][from + i]);
        }
        mapped_groups(n, a1, b1, thresh, map);
        mapped_groups(n, a2, b2, thresh, map);
        mapped_group(a, b, map, id);
        assert(frequent_groups(n, b, thresh) =~= frequent_groups(n, a, thresh).map_values(each));
    } else {
        assert(frequent_groups(n, b, thresh) =~= frequent_groups(n, a, thresh).map_values(each));
    }
}

} // verus!
