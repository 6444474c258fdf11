//! What the groups that are merged have in common, and how they lie in their sequences.
use crate::merge::children::{self, common_goes_on, groups_in_order, groups_of_frames, heads, tails};
use crate::merge::frequent::{
    self, count_of, frequent, frequent_groups, group_of, id_lists, most_frequent, parts_after,
    parts_before, tally_of, tally_of_list, Tally,
};
use crate::merge::index::{self, chunk_count, indexed, instances, registry, symbol_of};
use crate::merge::lcs::{
    self, ids, is_common_subsequence, longest_chain, place, present, without_repetition, Id,
};
use crate::merge::single::{self, Single};
use crate::trace::frame::{ChunkModel, FrameModel, StoredModel};
use crate::trace::laws::{reading, stored_range, Counter};
use vstd::prelude::*;

verus! {

/// The items at the marked places, in the order of the sequences; none of a sequence without a mark.
pub open spec fn picked<I>(sequences: Seq<Seq<I>>, mark: Seq<Option<int>>) -> Seq<I>
    decreases sequences.len(),
{
    if sequences.len() == 0 {
        Seq::empty()
    } else {
        let front = picked(sequences.drop_last(), mark.drop_last());
        match mark.last() {
            Some(p) => front.push(sequences.last()[p]),
            None => front,
        }
    }
}

/// Where the items of groups stand in the sequences: for each group the place of its item in each
/// sequence, and the id that its items have.
pub struct Layout {
    pub marks: Seq<Seq<Option<int>>>,
    pub ids: Seq<u32>,
}

/// The mark is a place in the sequence, of an item with the id.
pub open spec fn stands<I: Id>(sequence: Seq<I>, mark: Option<int>, id: u32) -> bool {
    match mark {
        Some(p) => 0 <= p < sequence.len() && sequence[p].spec_id() == id,
        None => true,
    }
}

/// The one mark is before the other, if there are both.
pub open spec fn precedes(a: Option<int>, b: Option<int>) -> bool {
    match (a, b) {
        (Some(p), Some(q)) => p < q,
        _ => true,
    }
}

/// Each group has at most one item of each sequence, all with one id, and in every sequence the
/// items stand in the order of their groups.
pub open spec fn lies<I: Id>(
    sequences: Seq<Seq<I>>,
    groups: Seq<Seq<I>>,
    layout: Layout,
) -> bool {
    &&& layout.marks.len() == groups.len()
    &&& layout.ids.len() == groups.len()
    &&& forall|g: int|
        0 <= g < groups.len() ==> (#[trigger] layout.marks[g]).len() == sequences.len()
            && groups[g] == picked(sequences, layout.marks[g])
    &&& forall|g: int, k: int|
        0 <= g < groups.len() && 0 <= k < sequences.len() ==> stands(
            sequences[k],
            #[trigger] layout.marks[g][k],
            layout.ids[g],
        )
    &&& forall|g: int, h: int, k: int|
        0 <= g < h < groups.len() && 0 <= k < sequences.len() ==> precedes(
            #[trigger] layout.marks[g][k],
            #[trigger] layout.marks[h][k],
        )
}

/// The marks further back by so much in each sequence.
pub open spec fn moved(mark: Seq<Option<int>>, by: Seq<int>) -> Seq<Option<int>> {
    Seq::new(
        mark.len(),
        |k: int|
            match mark[k] {
                Some(p) => Some(p + by[k]),
                None => None::<int>,
            },
    )
}

proof fn picked_of_front<I>(sequences: Seq<Seq<I>>, fronts: Seq<Seq<I>>, mark: Seq<Option<int>>)
    requires
        mark.len() == sequences.len(),
        fronts.len() == sequences.len(),
        forall|k: int|
            0 <= k < mark.len() ==> match #[trigger] mark[k] {
                Some(p) => fronts[k][p] == sequences[k][p],
                None => true,
            },
    ensures
        picked(fronts, mark) == picked(sequences, mark),
    decreases sequences.len(),
{
    if sequences.len() > 0 {
        let (a, b, m) = (sequences.drop_last(), fronts.drop_last(), mark.drop_last());
        assert forall|k: int| 0 <= k < m.len() implies match #[trigger] m[k] {
            Some(p) => b[k][p] == a[k][p],
            None => true,
        } by {
            assert(m[k] == mark[k]);
        }
        picked_of_front(a, b, m);
        assert(mark.last() == mark[mark.len() - 1]);
    }
}

proof fn picked_of_back<I>(
    sequences: Seq<Seq<I>>,
    backs: Seq<Seq<I>>,
    mark: Seq<Option<int>>,
    by: Seq<int>,
)
    requires
        mark.len() == sequences.len(),
        backs.len() == sequences.len(),
        by.len() == sequences.len(),
        forall|k: int|
            0 <= k < mark.len() ==> match #[trigger] mark[k] {
                Some(p) => backs[k][p] == sequences[k][p + by[k]],
                None => true,
            },
    ensures
        picked(backs, mark) == picked(sequences, moved(mark, by)),
    decreases sequences.len(),
{
    if sequences.len() > 0 {
        let (a, b, m) = (sequences.drop_last(), backs.drop_last(), mark.drop_last());
        let shorter = by.drop_last();
        assert forall|k: int| 0 <= k < m.len() implies match #[trigger] m[k] {
            Some(p) => b[k][p] == a[k][p + shorter[k]],
            None => true,
        } by {
            assert(m[k] == mark[k]);
        }
        picked_of_back(a, b, m, shorter);
        assert(mark.last() == mark[mark.len() - 1]);
        assert(moved(mark, by).drop_last() =~= moved(m, shorter));
    }
}

/// The place of the id in each sequence that has it.
pub open spec fn mark_of<I: Id>(sequences: Seq<Seq<I>>, id: u32) -> Seq<Option<int>> {
    Seq::new(
        sequences.len(),
        |k: int|
            if present(ids(sequences[k]), id) {
                Some(place(ids(sequences[k]), id))
            } else {
                None
            },
    )
}

proof fn group_is_picked<I: Id>(sequences: Seq<Seq<I>>, id: u32)
    ensures
        group_of(sequences, id) == picked(sequences, mark_of(sequences, id)),
    decreases sequences.len(),
{
    if sequences.len() > 0 {
        group_is_picked(sequences.drop_last(), id);
        assert(mark_of(sequences, id).drop_last() =~= mark_of(sequences.drop_last(), id));
    }
}

proof fn joined<I: Id>(
    sequences: Seq<Seq<I>>,
    fronts: Seq<Seq<I>>,
    backs: Seq<Seq<I>>,
    by: Seq<int>,
    id: u32,
    first: Seq<Seq<I>>,
    last: Seq<Seq<I>>,
    a: Layout,
    b: Layout,
) -> (layout: Layout)
    requires
        fronts.len() == sequences.len(),
        backs.len() == sequences.len(),
        by.len() == sequences.len(),
        lies(fronts, first, a),
        lies(backs, last, b),
        forall|k: int|
            0 <= k < sequences.len() ==> {
                &&& 0 <= #[trigger] by[k] <= sequences[k].len()
                &&& backs[k] == sequences[k].skip(by[k])
                &&& fronts[k].len() <= by[k]
                &&& fronts[k] == sequences[k].take(fronts[k].len() as int)
                &&& match mark_of(sequences, id)[k] {
                    Some(p) => fronts[k].len() <= p < by[k],
                    None => true,
                }
            },
    ensures
        lies(sequences, first + seq![group_of(sequences, id)] + last, layout),
        layout.ids == a.ids + seq![id] + b.ids,
        layout.marks == a.marks + seq![mark_of(sequences, id)] + Seq::new(
            last.len(),
            |g: int| moved(b.marks[g], by),
        ),
{
    let mid = mark_of(sequences, id);
    let behind = Seq::new(last.len(), |g: int| moved(b.marks[g], by));
    let marks = a.marks + seq![mid] + behind;
    let numbers = a.ids + seq![id] + b.ids;
    let layout = Layout { marks, ids: numbers };
    let groups = first + seq![group_of(sequences, id)] + last;
    let n = first.len() as int;
    group_is_picked(sequences, id);
    assert forall|g: int| 0 <= g < groups.len() implies (#[trigger] layout.marks[g]).len()
        == sequences.len() && groups[g] == picked(sequences, layout.marks[g]) by {
        if g < n {
            assert(marks[g] == a.marks[g]);
            assert(groups[g] == first[g]);
            assert forall|k: int| 0 <= k < a.marks[g].len() implies match #[trigger] a.marks[g][k] {
                Some(p) => fronts[k][p] == sequences[k][p],
                None => true,
            } by {
                assert(by[k] >= 0);
                assert(stands(fronts[k], a.marks[g][k], a.ids[g]));
            }
            picked_of_front(sequences, fronts, a.marks[g]);
        } else if g > n {
            let h = g - n - 1;
            assert(marks[g] == moved(b.marks[h], by));
            assert(groups[g] == last[h]);
            assert forall|k: int| 0 <= k < b.marks[h].len() implies match #[trigger] b.marks[h][k] {
                Some(p) => backs[k][p] == sequences[k][p + by[k]],
                None => true,
            } by {
                assert(by[k] >= 0);
                assert(stands(backs[k], b.marks[h][k], b.ids[h]));
            }
            picked_of_back(sequences, backs, b.marks[h], by);
        } else {
            assert(marks[g] == mid);
            assert(groups[g] == group_of(sequences, id));
        }
    }
    assert forall|g: int, k: int| 0 <= g < groups.len() && 0 <= k < sequences.len() implies stands(
        sequences[k],
        #[trigger] layout.marks[g][k],
        layout.ids[g],
    ) by {
        assert(by[k] >= 0);
        if g < n {
            assert(marks[g] == a.marks[g]);
            assert(stands(fronts[k], a.marks[g][k], a.ids[g]));
        } else if g > n {
            let h = g - n - 1;
            assert(marks[g] == moved(b.marks[h], by));
            assert(stands(backs[k], b.marks[h][k], b.ids[h]));
            assert(layout.ids[g] == b.ids[h]);
        } else {
            assert(marks[g] == mid);
            lcs::place_is_first(ids(sequences[k]), id);
        }
    }
    assert forall|g: int, h: int, k: int|
        0 <= g < h < groups.len() && 0 <= k < sequences.len() implies precedes(
        #[trigger] layout.marks[g][k],
        #[trigger] layout.marks[h][k],
    ) by {
        assert(by[k] >= 0);
        if g < n {
            assert(marks[g] == a.marks[g]);
            assert(stands(fronts[k], a.marks[g][k], a.ids[g]));
        } else if g > n {
            assert(marks[g] == moved(b.marks[g - n - 1], by));
        } else {
            assert(marks[g] == mid);
        }
        if h < n {
            assert(marks[h] == a.marks[h]);
        } else if h > n {
            assert(marks[h] == moved(b.marks[h - n - 1], by));
            assert(stands(backs[k], b.marks[h - n - 1][k], b.ids[h - n - 1]));
            if g > n {
                assert(precedes(b.marks[g - n - 1][k], b.marks[h - n - 1][k]));
            }
        } else {
            assert(marks[h] == mid);
        }
        if h < n {
            assert(precedes(a.marks[g][k], a.marks[h][k]));
        }
    }
    layout
}

/// Frequent groups lie in their sequences one behind the other.
pub proof fn frequent_groups_lie<I: Id>(n: u32, sequences: Seq<Seq<I>>, thresh: Single) -> (layout:
    Layout)
    ensures
        lies(sequences, frequent_groups(n, sequences, thresh), layout),
    decreases frequent::size(sequences),
{
    match frequent(n, sequences, thresh) {
        Some((id, tally)) => {
            frequent::parts_are_smaller(sequences, id, tally);
            let before = parts_before(sequences, id, tally);
            let after = parts_after(sequences, id, tally);
            let a = frequent_groups_lie(n, before, thresh);
            let b = frequent_groups_lie(n, after, thresh);
            let by = Seq::new(sequences.len(), |k: int| sequences[k].len() - after[k].len());
            assert forall|k: int| 0 <= k < sequences.len() implies {
                &&& 0 <= #[trigger] by[k] <= sequences[k].len()
                &&& after[k] == sequences[k].skip(by[k])
                &&& before[k].len() <= by[k]
                &&& before[k] == sequences[k].take(before[k].len() as int)
                &&& match mark_of(sequences, id)[k] {
                    Some(p) => before[k].len() <= p < by[k],
                    None => true,
                }
            } by {
                lcs::place_is_first(ids(sequences[k]), id);
                assert(after[k] =~= sequences[k].skip(by[k]));
                assert(before[k] =~= sequences[k].take(before[k].len() as int));
            }
            joined(
                sequences,
                before,
                after,
                by,
                id,
                frequent_groups(n, before, thresh),
                frequent_groups(n, after, thresh),
                a,
                b,
            )
        },
        None => Layout { marks: Seq::empty(), ids: Seq::empty() },
    }
}

/// The group has an item of every sequence.
pub open spec fn complete<I>(sequences: Seq<Seq<I>>, mark: Seq<Option<int>>) -> bool {
    forall|k: int| 0 <= k < sequences.len() ==> #[trigger] mark[k] is Some
}

/// The groups at the given places are those of the common ids, in their order, with an item of every
/// sequence.
pub open spec fn has_common<I>(
    sequences: Seq<Seq<I>>,
    layout: Layout,
    common: Seq<u32>,
    at: Seq<int>,
) -> bool {
    &&& at.len() == common.len()
    &&& forall|j: int|
        0 <= j < at.len() ==> 0 <= #[trigger] at[j] < layout.ids.len() && layout.ids[at[j]]
            == common[j] && complete(sequences, layout.marks[at[j]])
    &&& forall|i: int, j: int| 0 <= i < j < at.len() ==> #[trigger] at[i] < #[trigger] at[j]
}

/// The groups of common ids, and the frequent groups between them, lie in their sequences one behind
/// the other.
pub proof fn groups_lie_in_order<I: Id>(
    n: u32,
    sequences: Seq<Seq<I>>,
    common: Seq<u32>,
    thresh: Single,
) -> (result: (Layout, Seq<int>))
    requires
        is_common_subsequence(common, id_lists(sequences)),
        without_repetition(id_lists(sequences)),
    ensures
        lies(sequences, groups_in_order(n, sequences, common, thresh), result.0),
        has_common(sequences, result.0, common, result.1),
    decreases common.len(),
{
    if common.len() == 0 {
        let layout = frequent_groups_lie(n, sequences, thresh);
        let none: Seq<int> = Seq::empty();
        assert(has_common(sequences, layout, common, none));
        (layout, none)
    } else {
        let id = common[0];
        common_goes_on(sequences, common);
        let before = heads(sequences, id);
        let after = tails(sequences, id);
        let a = frequent_groups_lie(n, before, thresh);
        let (b, rest) = groups_lie_in_order(n, after, common.drop_first(), thresh);
        let by = Seq::new(sequences.len(), |k: int| place(ids(sequences[k]), id) + 1);
        assert forall|k: int| 0 <= k < sequences.len() implies {
            &&& 0 <= #[trigger] by[k] <= sequences[k].len()
            &&& after[k] == sequences[k].skip(by[k])
            &&& before[k].len() <= by[k]
            &&& before[k] == sequences[k].take(before[k].len() as int)
            &&& match mark_of(sequences, id)[k] {
                Some(p) => before[k].len() <= p < by[k],
                None => true,
            }
        } by {
            lcs::place_is_first(ids(sequences[k]), id);
            assert(present(ids(sequences[k]), id));
        }
        let first = frequent_groups(n, before, thresh);
        let last = groups_in_order(n, after, common.drop_first(), thresh);
        let layout = joined(sequences, before, after, by, id, first, last, a, b);
        let m = first.len() as int;
        let at = seq![m] + Seq::new(rest.len(), |j: int| rest[j] + m + 1);
        assert forall|j: int| 0 <= j < at.len() implies 0 <= #[trigger] at[j] < layout.ids.len()
            && layout.ids[at[j]] == common[j] && complete(sequences, layout.marks[at[j]]) by {
            if j == 0 {
                assert(layout.marks[m] == mark_of(sequences, id));
                assert forall|k: int| 0 <= k < sequences.len() implies
                    #[trigger] layout.marks[m][k] is Some by {
                    assert(present(ids(sequences[k]), id));
                }
            } else {
                let r = rest[j - 1];
                assert(layout.ids[at[j]] == b.ids[r]);
                assert(common.drop_first()[j - 1] == common[j]);
                assert(layout.marks[at[j]] == moved(b.marks[r], by));
                assert(complete(after, b.marks[r]));
                assert forall|k: int| 0 <= k < sequences.len() implies
                    #[trigger] layout.marks[at[j]][k] is Some by {
                    assert(b.marks[r][k] is Some);
                }
            }
        }
        assert forall|i: int, j: int| 0 <= i < j < at.len() implies #[trigger] at[i]
            < #[trigger] at[j] by {
            if i == 0 {
                assert(rest[j - 1] >= 0);
            } else {
                assert(rest[i - 1] < rest[j - 1]);
            }
        }
        assert(has_common(sequences, layout, common, at));
        (layout, at)
    }
}

/// The list holds the id.
pub open spec fn holds(id: u32) -> spec_fn(Seq<u32>) -> bool {
    |list: Seq<u32>| list.contains(id)
}

/// How many of the lists hold the id.
pub open spec fn holders(lists: Seq<Seq<u32>>, id: u32) -> nat {
    lists.filter(holds(id)).len()
}

proof fn present_is_contained(list: Seq<u32>, id: u32)
    ensures
        present(list, id) <==> list.contains(id),
{
    lcs::place_is_first(list, id);
    if present(list, id) {
        assert(list[place(list, id)] == id);
    }
    if list.contains(id) {
        let i = choose|i: int| 0 <= i < list.len() && list[i] == id;
        if !present(list, id) {
            assert(list[i] != id);
        }
    }
}

/// A group has one item of each sequence that holds the id.
pub proof fn group_has_one_of_each<I: Id>(sequences: Seq<Seq<I>>, id: u32)
    ensures
        group_of(sequences, id).len() == holders(id_lists(sequences), id),
    decreases sequences.len(),
{
    reveal(Seq::filter);
    if sequences.len() > 0 {
        let lists = id_lists(sequences);
        group_has_one_of_each(sequences.drop_last(), id);
        assert(lists.drop_last() =~= id_lists(sequences.drop_last()));
        present_is_contained(ids(sequences.last()), id);
    }
}

/// How often the id was met.
pub open spec fn met(tally: Option<Tally>) -> nat {
    match tally {
        Some(t) => t.count,
        None => 0,
    }
}

proof fn list_is_met_once(list: Seq<u32>, id: u32, upto: int, tally: Option<Tally>)
    requires
        list.no_duplicates(),
        0 <= upto <= list.len(),
    ensures
        met(tally_of_list(list, id, upto, tally)) == met(tally) + if place(list, id) < upto {
            1nat
        } else {
            0nat
        },
        place(list, id) >= upto ==> tally_of_list(list, id, upto, tally) == tally,
    decreases upto,
{
    lcs::place_is_first(list, id);
    if upto > 0 {
        list_is_met_once(list, id, upto - 1, tally);
        if list[upto - 1] == id {
            if place(list, id) < upto - 1 {
                assert(list[place(list, id)] == id);
            }
        }
    }
}

/// An id is met as often as there are lists that hold it.
pub proof fn ids_are_met_in_each_list(lists: Seq<Seq<u32>>, id: u32, upto: int)
    requires
        without_repetition(lists),
        0 <= upto <= lists.len(),
    ensures
        met(tally_of(lists, id, upto)) == holders(lists.take(upto), id),
        tally_of(lists, id, upto) is Some ==> met(tally_of(lists, id, upto)) > 0,
    decreases upto,
{
    reveal(Seq::filter);
    if upto > 0 {
        ids_are_met_in_each_list(lists, id, upto - 1);
        let list = lists[upto - 1];
        let before = tally_of(lists, id, upto - 1);
        list_is_met_once(list, id, list.len() as int, before);
        present_is_contained(list, id);
        assert(lists.take(upto).drop_last() =~= lists.take(upto - 1));
        assert(lists.take(upto).last() == list);
    } else {
        assert(lists.take(0) =~= Seq::empty());
    }
}

proof fn most_frequent_is_most(lists: Seq<Seq<u32>>, m: int)
    requires
        1 <= m <= u32::MAX,
    ensures
        1 <= most_frequent(lists, m) <= m,
        forall|id: u32|
            1 <= id <= m ==> #[trigger] count_of(lists, id) <= count_of(
                lists,
                most_frequent(lists, m) as u32,
            ),
        forall|id: u32|
            most_frequent(lists, m) < id <= m ==> #[trigger] count_of(lists, id) < count_of(
                lists,
                most_frequent(lists, m) as u32,
            ),
    decreases m,
{
    if m > 1 {
        most_frequent_is_most(lists, m - 1);
        assert forall|id: u32| 1 <= id <= m implies #[trigger] count_of(lists, id) <= count_of(
            lists,
            most_frequent(lists, m) as u32,
        ) by {
            if id == m {
            } else {
                assert(count_of(lists, id) <= count_of(
                    lists,
                    most_frequent(lists, m - 1) as u32,
                ));
            }
        }
    }
}

/// The id that is chosen is held by enough of the sequences; by no fewer than any other, and by more
/// than any higher one. Where none is chosen, none is held by enough.
pub proof fn most_common_is_chosen<I: Id>(n: u32, sequences: Seq<Seq<I>>, thresh: Single, id: u32)
    requires
        without_repetition(id_lists(sequences)),
        1 <= id <= n,
        thresh.units > 0,
        sequences.len() > 0,
    ensures
        ({
            let lists = id_lists(sequences);
            match frequent(n, sequences, thresh) {
                Some((chosen, _)) => {
                    &&& 1 <= chosen <= n
                    &&& single::share(holders(lists, chosen), sequences.len()) >= thresh.units
                    &&& holders(lists, id) <= holders(lists, chosen)
                    &&& chosen < id ==> holders(lists, id) < holders(lists, chosen)
                    &&& holders(lists, chosen) > 0
                },
                None => exists|best: u32|
                    1 <= best <= n && holders(lists, id) <= #[trigger] holders(lists, best) && (
                    holders(lists, best) == 0 || single::share(
                        holders(lists, best),
                        sequences.len(),
                    ) < thresh.units),
            }
        }),
{
    let lists = id_lists(sequences);
    let best = most_frequent(lists, n as int) as u32;
    most_frequent_is_most(lists, n as int);
    ids_are_met_in_each_list(lists, id, lists.len() as int);
    ids_are_met_in_each_list(lists, best, lists.len() as int);
    assert(lists.take(lists.len() as int) =~= lists);
    assert(count_of(lists, id) == holders(lists, id));
    assert(count_of(lists, best) == holders(lists, best));
}

/// Each group has an item of every sequence, or of so many of them that their share reaches the
/// threshold.
pub open spec fn large_enough<I>(groups: Seq<Seq<I>>, count: nat, thresh: Single) -> bool {
    forall|g: int|
        0 <= g < groups.len() ==> (#[trigger] groups[g]).len() == count || single::share(
            groups[g].len(),
            count,
        ) >= thresh.units
}

proof fn parts_without_repetition<I: Id>(sequences: Seq<Seq<I>>, parts: Seq<Seq<I>>, from: Seq<int>)
    requires
        without_repetition(id_lists(sequences)),
        parts.len() == sequences.len(),
        from.len() == sequences.len(),
        forall|k: int|
            0 <= k < parts.len() ==> 0 <= #[trigger] from[k] && from[k] + parts[k].len()
                <= sequences[k].len() && parts[k] == sequences[k].subrange(
                from[k],
                from[k] + parts[k].len(),
            ),
    ensures
        without_repetition(id_lists(parts)),
{
    let (whole, part) = (id_lists(sequences), id_lists(parts));
    assert forall|k: int| 0 <= k < part.len() implies (#[trigger] part[k]).no_duplicates() by {
        assert(whole[k].no_duplicates());
        assert(from[k] >= 0);
        assert forall|i: int, j: int|
            0 <= i < part[k].len() && 0 <= j < part[k].len() && i != j implies part[k][i]
            != part[k][j] by {
            assert(part[k][i] == whole[k][from[k] + i]);
            assert(part[k][j] == whole[k][from[k] + j]);
        }
    }
}

/// Frequent groups have items of enough sequences.
pub proof fn frequent_groups_are_large<I: Id>(n: u32, sequences: Seq<Seq<I>>, thresh: Single)
    requires
        without_repetition(id_lists(sequences)),
    ensures
        large_enough(frequent_groups(n, sequences, thresh), sequences.len(), thresh),
    decreases frequent::size(sequences),
{
    if let Some((id, tally)) = frequent(n, sequences, thresh) {
        frequent::parts_are_smaller(sequences, id, tally);
        let before = parts_before(sequences, id, tally);
        let after = parts_after(sequences, id, tally);
        let zeros = Seq::new(sequences.len(), |k: int| 0int);
        let by = Seq::new(sequences.len(), |k: int| sequences[k].len() - after[k].len());
        assert forall|k: int| 0 <= k < sequences.len() implies 0 <= #[trigger] zeros[k] && zeros[k]
            + before[k].len() <= sequences[k].len() && before[k] == sequences[k].subrange(
            zeros[k],
            zeros[k] + before[k].len(),
        ) by {
            lcs::place_is_first(ids(sequences[k]), id);
            assert(before[k] =~= sequences[k].subrange(0, before[k].len() as int));
        }
        assert forall|k: int| 0 <= k < sequences.len() implies 0 <= #[trigger] by[k] && by[k]
            + after[k].len() <= sequences[k].len() && after[k] == sequences[k].subrange(
            by[k],
            by[k] + after[k].len(),
        ) by {
            lcs::place_is_first(ids(sequences[k]), id);
            assert(after[k] =~= sequences[k].subrange(by[k], sequences[k].len() as int));
        }
        parts_without_repetition(sequences, before, zeros);
        parts_without_repetition(sequences, after, by);
        frequent_groups_are_large(n, before, thresh);
        frequent_groups_are_large(n, after, thresh);
        let lists = id_lists(sequences);
        ids_are_met_in_each_list(lists, id, lists.len() as int);
        assert(lists.take(lists.len() as int) =~= lists);
        group_has_one_of_each(sequences, id);
        let first = frequent_groups(n, before, thresh);
        let last = frequent_groups(n, after, thresh);
        let all = frequent_groups(n, sequences, thresh);
        assert(all == first + seq![group_of(sequences, id)] + last);
        assert forall|g: int| 0 <= g < all.len() implies (#[trigger] all[g]).len()
            == sequences.len() || single::share(all[g].len(), sequences.len()) >= thresh.units by {
            if g < first.len() {
                assert(all[g] == first[g]);
            } else if g > first.len() {
                assert(all[g] == last[g - first.len() - 1]);
            }
        }
    }
}

proof fn picked_of_complete<I>(sequences: Seq<Seq<I>>, mark: Seq<Option<int>>)
    requires
        mark.len() == sequences.len(),
        complete(sequences, mark),
    ensures
        picked(sequences, mark).len() == sequences.len(),
    decreases sequences.len(),
{
    if sequences.len() > 0 {
        let (a, m) = (sequences.drop_last(), mark.drop_last());
        assert forall|k: int| 0 <= k < a.len() implies #[trigger] m[k] is Some by {
            assert(m[k] == mark[k]);
        }
        picked_of_complete(a, m);
        assert(mark.last() == mark[mark.len() - 1]);
    }
}

/// Groups in order have items of enough sequences.
pub proof fn groups_in_order_are_large<I: Id>(
    n: u32,
    sequences: Seq<Seq<I>>,
    common: Seq<u32>,
    thresh: Single,
)
    requires
        is_common_subsequence(common, id_lists(sequences)),
        without_repetition(id_lists(sequences)),
    ensures
        large_enough(groups_in_order(n, sequences, common, thresh), sequences.len(), thresh),
    decreases common.len(),
{
    if common.len() == 0 {
        frequent_groups_are_large(n, sequences, thresh);
    } else {
        let id = common[0];
        common_goes_on(sequences, common);
        let before = heads(sequences, id);
        let after = tails(sequences, id);
        frequent_groups_are_large(n, before, thresh);
        groups_in_order_are_large(n, after, common.drop_first(), thresh);
        let mark = mark_of(sequences, id);
        assert forall|k: int| 0 <= k < sequences.len() implies #[trigger] mark[k] is Some by {
            assert(present(ids(sequences[k]), id));
        }
        group_is_picked(sequences, id);
        picked_of_complete(sequences, mark);
        let first = frequent_groups(n, before, thresh);
        let last = groups_in_order(n, after, common.drop_first(), thresh);
        let all = groups_in_order(n, sequences, common, thresh);
        assert forall|g: int| 0 <= g < all.len() implies (#[trigger] all[g]).len()
            == sequences.len() || single::share(all[g].len(), sequences.len()) >= thresh.units by {
            if g < first.len() {
                assert(all[g] == first[g]);
            } else if g > first.len() {
                assert(all[g] == last[g - first.len() - 1]);
            } else {
                assert(all[g] == group_of(sequences, id));
            }
        }
    }
}

/// The chunks of a symbol.
pub open spec fn of_symbol(symbol: Option<Seq<char>>) -> spec_fn(StoredModel) -> bool {
    |chunk: StoredModel|
        match (chunk, symbol) {
            (StoredModel::Frame(call), Some(name)) => call.symbol.name == name,
            (StoredModel::Pause(_), None) => true,
            _ => false,
        }
}

proof fn instances_are_counted(stored: Seq<StoredModel>, symbol: Option<Seq<char>>, upto: int)
    requires
        0 <= upto <= stored.len(),
    ensures
        instances(stored, symbol, upto) == stored.take(upto).filter(of_symbol(symbol)).len(),
    decreases upto,
{
    reveal(Seq::filter);
    if upto > 0 {
        instances_are_counted(stored, symbol, upto - 1);
        assert(stored.take(upto).drop_last() =~= stored.take(upto - 1));
        assert(stored.take(upto).last() == stored[upto - 1]);
    } else {
        assert(stored.take(0) =~= Seq::empty());
    }
}

/// The name of the function that a chunk is a call of; none for a pause.
pub open spec fn name_of(chunk: StoredModel) -> Option<Seq<char>> {
    match chunk {
        StoredModel::Frame(call) => Some(call.symbol.name),
        StoredModel::Pause(_) => None,
    }
}

/// Chunks of frames have one number if and only if they are calls of one function, or both pauses,
/// and as many of the kind come before each in its own frame. The item for a chunk holds the chunk,
/// and how far behind the start of the frame it starts.
pub proof fn items_are_of_chunks(frames: Seq<FrameModel>, f: int, i: int, g: int, j: int)
    requires
        chunk_count(frames) <= u32::MAX,
        0 <= f < frames.len(),
        0 <= i < frames[f].chunks.len(),
        0 <= g < frames.len(),
        0 <= j < frames[g].chunks.len(),
        crate::trace::metrics::MetricsRange::spans(
            frames[f].metrics.start,
            frames[f].chunks[i].range().start,
        ),
    ensures
        ({
            let (a, b) = (frames[f].chunks, frames[g].chunks);
            let items = indexed(frames);
            &&& items.len() == frames.len()
            &&& items[f].len() == a.len()
            &&& items[f][i].id == items[g][j].id <==> name_of(a[i]) == name_of(b[j]) && a.take(
                i,
            ).filter(of_symbol(name_of(a[i]))).len() == b.take(j).filter(
                of_symbol(name_of(b[j])),
            ).len()
            &&& match a[i] {
                StoredModel::Frame(call) => items[f][i].chunk == ChunkModel::Frame(call),
                StoredModel::Pause(range) => items[f][i].chunk == ChunkModel::Pause(range),
            }
            &&& forall|c: Counter|
                #[trigger] reading(items[f][i].offset, c) == reading(stored_range(a[i]).start, c)
                    - reading(frames[f].metrics.start, c)
        }),
{
    let (a, b) = (frames[f].chunks, frames[g].chunks);
    index::ids_tell_keys_apart(frames, f, i, g, j);
    instances_are_counted(a, name_of(a[i]), i);
    instances_are_counted(b, name_of(b[j]), j);
    assert(symbol_of(a[i]) == name_of(a[i]));
    assert(symbol_of(b[j]) == name_of(b[j]));
    let item = indexed(frames)[f][i];
    assert forall|c: Counter| #[trigger] reading(item.offset, c) == reading(
        stored_range(a[i]).start,
        c,
    ) - reading(frames[f].metrics.start, c) by {}
}

/// The groups of frames lie in the frames one behind the other; those with a chunk of every frame
/// are no fewer than any sequence of chunks that all frames have in common is long; and all others
/// have chunks of enough frames.
pub proof fn groups_of_frames_lie(frames: Seq<FrameModel>, thresh: Single, part: Seq<u32>) -> (result: (
    Layout,
    Seq<int>,
))
    requires
        0 < frames.len(),
        chunk_count(frames) <= u32::MAX,
        is_common_subsequence(part, id_lists(indexed(frames))),
    ensures
        lies(indexed(frames), groups_of_frames(frames, thresh), result.0),
        large_enough(groups_of_frames(frames, thresh), frames.len(), thresh),
        result.1.len() >= part.len(),
        forall|j: int|
            0 <= j < result.1.len() ==> 0 <= #[trigger] result.1[j] < groups_of_frames(
                frames,
                thresh,
            ).len() && groups_of_frames(frames, thresh)[result.1[j]].len() == frames.len(),
        forall|i: int, j: int|
            0 <= i < j < result.1.len() ==> #[trigger] result.1[i] < #[trigger] result.1[j],
{
    let items = indexed(frames);
    let n = registry(frames).len() as u32;
    let lists = id_lists(items);
    index::indexed_ids(frames);
    children::indexed_lists(frames);
    lcs::longest_chain_is_longest(lists, n);
    let common = longest_chain(lists, n as int);
    let (layout, at) = groups_lie_in_order(n, items, common, thresh);
    groups_in_order_are_large(n, items, common, thresh);
    let groups = groups_of_frames(frames, thresh);
    assert(groups == groups_in_order(n, items, common, thresh));
    assert forall|j: int| 0 <= j < at.len() implies 0 <= #[trigger] at[j] < groups.len()
        && groups[at[j]].len() == frames.len() by {
        assert(complete(items, layout.marks[at[j]]));
        picked_of_complete(items, layout.marks[at[j]]);
    }
    (layout, at)
}

/// The sequences are divided around the id: those that have it, at its place; the others where they
/// are to be divided.
pub open spec fn divided<I: Id>(
    sequences: Seq<Seq<I>>,
    id: u32,
    tally: Tally,
    fronts: Seq<Seq<I>>,
    backs: Seq<Seq<I>>,
) -> bool {
    &&& fronts.len() == sequences.len()
    &&& backs.len() == sequences.len()
    &&& forall|k: int|
        0 <= k < sequences.len() ==> {
            let (front, back) = (#[trigger] fronts[k], backs[k]);
            if ids(sequences[k]).contains(id) {
                exists|p: int|
                    0 <= p < sequences[k].len() && #[trigger] sequences[k][p].spec_id() == id
                        && front == sequences[k].take(p) && back == sequences[k].skip(p + 1)
            } else {
                front.len() == frequent::division(tally, sequences[k].len()) && front + back
                    == sequences[k]
            }
        }
}

/// Around the group that is chosen, what is before it and what is behind it are searched in the same
/// way, each by itself; where none is chosen, there are no groups.
pub proof fn parts_are_searched_alike<I: Id>(
    n: u32,
    sequences: Seq<Seq<I>>,
    thresh: Single,
    fronts: Seq<Seq<I>>,
    backs: Seq<Seq<I>>,
)
    requires
        without_repetition(id_lists(sequences)),
        frequent(n, sequences, thresh) matches Some((id, tally)) ==> divided(
            sequences,
            id,
            tally,
            fronts,
            backs,
        ),
    ensures
        match frequent(n, sequences, thresh) {
            Some((id, tally)) => frequent_groups(n, sequences, thresh) == frequent_groups(
                n,
                fronts,
                thresh,
            ) + seq![group_of(sequences, id)] + frequent_groups(n, backs, thresh),
            None => frequent_groups(n, sequences, thresh).len() == 0,
        },
{
    if let Some((id, tally)) = frequent(n, sequences, thresh) {
        let before = parts_before(sequences, id, tally);
        let after = parts_after(sequences, id, tally);
        assert forall|k: int| 0 <= k < sequences.len() implies #[trigger] fronts[k] == before[k]
            && backs[k] == after[k] by {
            let list = ids(sequences[k]);
            assert(id_lists(sequences)[k] == list);
            present_is_contained(list, id);
            lcs::place_is_first(list, id);
            if list.contains(id) {
                let p = choose|p: int|
                    0 <= p < sequences[k].len() && #[trigger] sequences[k][p].spec_id() == id
                        && fronts[k] == sequences[k].take(p) && backs[k] == sequences[k].skip(p + 1);
                assert(list[p] == id);
                if place(list, id) != p {
                    assert(list[place(list, id)] == list[p]);
                }
            } else {
                let d = frequent::division(tally, sequences[k].len()) as int;
                assert(fronts[k] =~= sequences[k].take(d));
                assert(backs[k] =~= sequences[k].skip(d));
            }
        }
        assert(fronts =~= before);
        assert forall|k: int| 0 <= k < sequences.len() implies #[trigger] backs[k] == after[k] by {
            assert(fronts[k] == before[k]);
        }
        assert(backs =~= after);
    }
}

/// Around the groups of common ids, too: before the first of them stand the frequent groups of what
/// is before it in each sequence; behind it, the groups of what is behind it.
pub proof fn common_groups_part_the_others<I: Id>(
    n: u32,
    sequences: Seq<Seq<I>>,
    common: Seq<u32>,
    thresh: Single,
    fronts: Seq<Seq<I>>,
    backs: Seq<Seq<I>>,
)
    requires
        without_repetition(id_lists(sequences)),
        common.len() > 0,
        fronts.len() == sequences.len(),
        backs.len() == sequences.len(),
        forall|k: int|
            0 <= k < sequences.len() ==> exists|p: int|
                0 <= p < sequences[k].len() && #[trigger] sequences[k][p].spec_id() == common[0]
                    && #[trigger] fronts[k] == sequences[k].take(p) && backs[k]
                    == sequences[k].skip(p + 1),
    ensures
        groups_in_order(n, sequences, common, thresh) == frequent_groups(n, fronts, thresh) + seq![
            group_of(sequences, common[0]),
        ] + groups_in_order(n, backs, common.drop_first(), thresh),
        groups_in_order(n, sequences, Seq::empty(), thresh) == frequent_groups(
            n,
            sequences,
            thresh,
        ),
{
    let id = common[0];
    assert forall|k: int| 0 <= k < sequences.len() implies #[trigger] fronts[k] == heads(
        sequences,
        id,
    )[k] && backs[k] == tails(sequences, id)[k] by {
        let list = ids(sequences[k]);
        assert(id_lists(sequences)[k] == list);
        lcs::place_is_first(list, id);
        let p = choose|p: int|
            0 <= p < sequences[k].len() && #[trigger] sequences[k][p].spec_id() == common[0]
                && fronts[k] == sequences[k].take(p) && backs[k] == sequences[k].skip(p + 1);
        assert(list[p] == id);
        present_is_contained(list, id);
        if place(list, id) != p {
            assert(list[place(list, id)] == list[p]);
        }
    }
    assert(fronts =~= heads(sequences, id));
    assert forall|k: int| 0 <= k < sequences.len() implies #[trigger] backs[k] == tails(
        sequences,
        id,
    )[k] by {
        assert(fronts[k] == heads(sequences, id)[k]);
    }
    assert(backs =~= tails(sequences, id));
}

/// The relative positions of an id are added up, list by list: for a list that holds it, its index
/// over the length of the list; nothing for one that does not.
pub proof fn positions_are_added_up(lists: Seq<Seq<u32>>, list: Seq<u32>, id: u32, i: int)
    requires
        without_repetition(lists),
        list.no_duplicates(),
        0 <= i < list.len() && list[i] == id || i == list.len() && !list.contains(id),
    ensures
        ({
            let all = lists.push(list);
            let before = tally_of(lists, id, lists.len() as int);
            let after = tally_of(all, id, all.len() as int);
            &&& i == list.len() ==> after == before
            &&& i < list.len() && before is None ==> after == Some(
                Tally { count: 1, positions: single::share(i as nat, list.len()) },
            )
            &&& i < list.len() && before is Some ==> after == Some(
                Tally {
                    count: before->0.count + 1,
                    positions: single::rounded(
                        before->0.positions + single::share(i as nat, list.len()),
                        false,
                    ),
                },
            )
        }),
{
    let all = lists.push(list);
    let n = lists.len() as int;
    tally_of_front(lists, all, id, n);
    let before = tally_of(lists, id, n);
    assert(all[n] == list);
    lcs::place_is_first(list, id);
    if i < list.len() {
        if place(list, id) < i {
            assert(list[place(list, id)] == list[i]);
        }
        list_is_tallied(list, id, list.len() as int, before, i);
    } else {
        present_is_contained(list, id);
        list_is_met_once(list, id, list.len() as int, before);
    }
}

proof fn tally_of_front(a: Seq<Seq<u32>>, b: Seq<Seq<u32>>, id: u32, upto: int)
    requires
        0 <= upto <= a.len(),
        upto <= b.len(),
        forall|k: int| 0 <= k < upto ==> #[trigger] a[k] == b[k],
    ensures
        tally_of(a, id, upto) == tally_of(b, id, upto),
    decreases upto,
{
    if upto > 0 {
        tally_of_front(a, b, id, upto - 1);
        assert(a[upto - 1] == b[upto - 1]);
    }
}

proof fn list_is_tallied(list: Seq<u32>, id: u32, upto: int, tally: Option<Tally>, i: int)
    requires
        list.no_duplicates(),
        0 <= i < list.len(),
        list[i] == id,
        0 <= upto <= list.len(),
    ensures
        tally_of_list(list, id, upto, tally) == if i < upto {
            frequent::tallied(tally, i as nat, list.len())
        } else {
            tally
        },
    decreases upto,
{
    if upto > 0 {
        list_is_tallied(list, id, upto - 1, tally, i);
        if list[upto - 1] == id {
            assert(upto - 1 == i);
        }
    }
}

} // verus!
