//! The longest common subsequence of sequences without repetitions.
use vstd::prelude::*;

verus! {

/// Something that is known by a number.
pub trait Id {
    spec fn spec_id(&self) -> u32;

    fn id(&self) -> (result: u32)
        ensures
            result == self.spec_id(),
    ;
}

/// A number is known by itself.
impl Id for u32 {
    open spec fn spec_id(&self) -> u32 {
        *self
    }

    fn id(&self) -> (result: u32) {
        *self
    }
}

/// The ids of a sequence of items.
pub open spec fn ids<I: Id>(items: Seq<I>) -> Seq<u32> {
    Seq::new(items.len(), |i: int| items[i].spec_id())
}

/// The ids of several sequences of items.
pub open spec fn id_lists<I: Id>(sequences: Seq<&[I]>) -> Seq<Seq<u32>> {
    Seq::new(sequences.len(), |k: int| ids(sequences[k]@))
}

/// Every id is one of `1..=n`.
pub open spec fn ids_up_to(lists: Seq<Seq<u32>>, n: u32) -> bool {
    forall|k: int, i: int|
        0 <= k < lists.len() && 0 <= i < lists[k].len() ==> 1 <= #[trigger] lists[k][i] <= n
}

/// The first place of the id in the list, or the list's length where it is not there.
pub open spec fn place(list: Seq<u32>, id: u32) -> int
    decreases list.len(),
{
    if list.len() == 0 || list[0] == id {
        0
    } else {
        1 + place(list.drop_first(), id)
    }
}

/// The id is in the list.
pub open spec fn present(list: Seq<u32>, id: u32) -> bool {
    place(list, id) < list.len()
}

/// Every list but the first holds the id.
pub open spec fn in_others(lists: Seq<Seq<u32>>, id: u32) -> bool {
    forall|k: int| 1 <= k < lists.len() ==> present(#[trigger] lists[k], id)
}

/// Every list but the first holds `j`, and not behind `i`.
pub open spec fn before_in_others(lists: Seq<Seq<u32>>, j: u32, i: u32) -> bool {
    forall|k: int|
        1 <= k < lists.len() ==> present(#[trigger] lists[k], j) && place(lists[k], j) <= place(
            lists[k],
            i,
        )
}

/// The common subsequence chosen among those that end with the element at `k` of the first list;
/// none where some list lacks that element.
pub open spec fn chain(lists: Seq<Seq<u32>>, k: int) -> Option<Seq<u32>>
    decreases k, 1int, 0int,
{
    if in_others(lists, lists[0][k]) {
        Some(chain_from(lists, k, 0))
    } else {
        None
    }
}

/// The longest extension, by the element at `k` of the first list, of a chain that ends at one of
/// `p..k`; among the longest, the one whose chain ends last.
pub open spec fn chain_from(lists: Seq<Seq<u32>>, k: int, p: int) -> Seq<u32>
    decreases k, 0int, k - p,
{
    if p < 0 || p >= k {
        seq![lists[0][k]]
    } else {
        let nearer = chain_from(lists, k, p + 1);
        match chain(lists, p) {
            Some(c) => if before_in_others(lists, lists[0][p], lists[0][k]) && c.len() + 1
                > nearer.len() {
                c.push(lists[0][k])
            } else {
                nearer
            },
            None => nearer,
        }
    }
}

/// The longest chain that ends with one of the ids up to `m`; among the longest, the one with the
/// lowest last id.
pub open spec fn longest_chain(lists: Seq<Seq<u32>>, m: int) -> Seq<u32>
    decreases m,
{
    if m <= 0 {
        Seq::empty()
    } else {
        let lower = longest_chain(lists, m - 1);
        if !present(lists[0], m as u32) {
            lower
        } else {
            match chain(lists, place(lists[0], m as u32)) {
                Some(c) => if c.len() > lower.len() {
                    c
                } else {
                    lower
                },
                None => lower,
            }
        }
    }
}

/// `at` says where the ids of `part` stand in `list`, from left to right.
pub open spec fn stands_at(part: Seq<u32>, list: Seq<u32>, at: Seq<int>) -> bool {
    &&& at.len() == part.len()
    &&& forall|a: int|
        0 <= a < part.len() ==> 0 <= #[trigger] at[a] < list.len() && list[at[a]] == part[a]
    &&& forall|a: int, b: int| 0 <= a < b < part.len() ==> #[trigger] at[a] < #[trigger] at[b]
}

/// `part` is left over when some ids are struck from `list`.
pub open spec fn is_subsequence(part: Seq<u32>, list: Seq<u32>) -> bool {
    exists|at: Seq<int>| stands_at(part, list, at)
}

/// `part` is a subsequence of every list.
pub open spec fn is_common_subsequence(part: Seq<u32>, lists: Seq<Seq<u32>>) -> bool {
    forall|k: int| 0 <= k < lists.len() ==> is_subsequence(part, #[trigger] lists[k])
}

/// No id stands twice in one list.
pub open spec fn without_repetition(lists: Seq<Seq<u32>>) -> bool {
    forall|k: int| 0 <= k < lists.len() ==> (#[trigger] lists[k]).no_duplicates()
}

/// What `place` finds.
pub proof fn place_is_first(list: Seq<u32>, id: u32)
    ensures
        0 <= place(list, id) <= list.len(),
        forall|i: int| 0 <= i < place(list, id) ==> #[trigger] list[i] != id,
        present(list, id) ==> list[place(list, id)] == id,
    decreases list.len(),
{
    if list.len() > 0 && list[0] != id {
        let rest = list.drop_first();
        place_is_first(rest, id);
        assert forall|i: int| 0 <= i < place(list, id) implies #[trigger] list[i] != id by {
            if i > 0 {
                assert(rest[i - 1] == list[i]);
            }
        }
    }
}

/// The first place of an id is the one that it stands at with nothing like it before.
pub proof fn place_known(list: Seq<u32>, id: u32, i: int)
    requires
        0 <= i <= list.len(),
        forall|j: int| 0 <= j < i ==> #[trigger] list[j] != id,
        i < list.len() ==> list[i] == id,
    ensures
        place(list, id) == i,
{
    place_is_first(list, id);
    let p = place(list, id);
    if p < i {
        assert(list[p] == id);
    } else if p > i {
        assert(list[i] != id);
    }
}

/// In a list without repetitions an id stands at its place only.
proof fn place_unique(list: Seq<u32>, i: int)
    requires
        list.no_duplicates(),
        0 <= i < list.len(),
    ensures
        place(list, list[i]) == i,
{
    assert forall|j: int| 0 <= j < i implies #[trigger] list[j] != list[i] by {}
    place_known(list, list[i], i);
}

proof fn chain_from_length(lists: Seq<Seq<u32>>, k: int, p: int)
    requires
        lists.len() > 0,
        0 <= k < lists[0].len(),
        0 <= p <= k,
    ensures
        1 <= chain_from(lists, k, p).len() <= k + 1,
        chain_from(lists, k, p).last() == lists[0][k],
    decreases k, k - p,
{
    if p < k {
        chain_from_length(lists, k, p + 1);
        if chain(lists, p) is Some {
            chain_from_length(lists, p, 0);
        }
    }
}

/// `part` stands in `list` with its last id at the place of that id.
spec fn ends_at_place(part: Seq<u32>, list: Seq<u32>) -> bool {
    exists|at: Seq<int>|
        stands_at(part, list, at) && at.len() > 0 && at.last() == place(list, part.last())
}

proof fn chain_is_common(lists: Seq<Seq<u32>>, k: int, p: int, q: int)
    requires
        lists.len() > 0,
        without_repetition(lists),
        0 <= k < lists[0].len(),
        0 <= p <= k,
        0 <= q < lists.len(),
        in_others(lists, lists[0][k]),
    ensures
        ends_at_place(chain_from(lists, k, p), lists[q]),
    decreases k, k - p,
{
    let id = lists[0][k];
    let list = lists[q];
    let result = chain_from(lists, k, p);
    place_is_first(list, id);
    place_unique(lists[0], k);
    assert(present(list, id));
    if p >= k {
        let at = seq![place(list, id)];
        assert(stands_at(result, list, at));
        assert(at.last() == place(list, result.last()));
        assert(ends_at_place(result, list));
    } else {
        chain_is_common(lists, k, p + 1, q);
        let nearer = chain_from(lists, k, p + 1);
        if result != nearer {
            let prev = lists[0][p];
            let c = chain(lists, p)->Some_0;
            chain_is_common(lists, p, 0, q);
            chain_from_length(lists, p, 0);
            place_unique(lists[0], p);
            place_is_first(list, prev);
            let at = choose|at: Seq<int>|
                stands_at(c, list, at) && at.len() > 0 && at.last() == place(list, c.last());
            assert(lists[0][p] != lists[0][k]);
            assert(present(list, prev));
            assert(list[place(list, prev)] == prev);
            assert(place(list, prev) < place(list, id));
            let longer = at.push(place(list, id));
            assert(stands_at(result, list, longer)) by {
                assert forall|a: int, b: int| 0 <= a < b < result.len() implies #[trigger] longer[a]
                    < #[trigger] longer[b] by {
                    if b == at.len() {
                        assert(at[a] <= at.last());
                    }
                }
            }
            assert(longer.last() == place(list, result.last()));
            assert(ends_at_place(result, list));
        } else {
            assert(ends_at_place(result, list));
        }
    }
}

proof fn chain_from_covers(lists: Seq<Seq<u32>>, k: int, p: int, at: int)
    requires
        0 <= p <= at < k,
        chain(lists, at) is Some,
        before_in_others(lists, lists[0][at], lists[0][k]),
    ensures
        chain_from(lists, k, p).len() >= chain(lists, at)->Some_0.len() + 1,
    decreases at - p,
{
    if p < at {
        chain_from_covers(lists, k, p + 1, at);
    }
}

proof fn subsequence_of_front(part: Seq<u32>, list: Seq<u32>)
    requires
        is_subsequence(part, list),
        part.len() > 0,
    ensures
        is_subsequence(part.drop_last(), list),
{
    let at = choose|at: Seq<int>| stands_at(part, list, at);
    assert(stands_at(part.drop_last(), list, at.drop_last()));
}

/// A common subsequence is no longer than the chain that ends with its last element.
proof fn chain_is_longest(lists: Seq<Seq<u32>>, part: Seq<u32>, k: int)
    requires
        lists.len() > 0,
        without_repetition(lists),
        is_common_subsequence(part, lists),
        part.len() > 0,
        0 <= k < lists[0].len(),
        lists[0][k] == part.last(),
    ensures
        chain(lists, k) is Some,
        chain(lists, k)->Some_0.len() >= part.len(),
    decreases part.len(),
{
    let id = part.last();
    assert forall|q: int| 1 <= q < lists.len() implies present(#[trigger] lists[q], id) by {
        let at = choose|at: Seq<int>| stands_at(part, lists[q], at);
        let i = at[part.len() - 1];
        place_unique(lists[q], i);
    }
    chain_from_length(lists, k, 0);
    if part.len() > 1 {
        let front = part.drop_last();
        let prev = front.last();
        assert forall|q: int| 0 <= q < lists.len() implies is_subsequence(
            front,
            #[trigger] lists[q],
        ) by {
            subsequence_of_front(part, lists[q]);
        }
        let first_at = choose|at: Seq<int>| stands_at(part, lists[0], at);
        let p = first_at[part.len() - 2];
        let last = first_at[part.len() - 1];
        place_unique(lists[0], k);
        place_unique(lists[0], last);
        assert(last == k);
        assert(p < k);
        assert(lists[0][p] == prev);
        chain_is_longest(lists, front, p);
        assert forall|q: int| 1 <= q < lists.len() implies present(#[trigger] lists[q], prev)
            && place(lists[q], prev) <= place(lists[q], id) by {
            let at = choose|at: Seq<int>| stands_at(part, lists[q], at);
            let a = at[part.len() - 2];
            let b = at[part.len() - 1];
            place_unique(lists[q], a);
            place_unique(lists[q], b);
        }
        chain_from_covers(lists, k, 0, p);
    }
}

proof fn longest_chain_covers(lists: Seq<Seq<u32>>, m: int, id: int)
    requires
        1 <= id <= m <= u32::MAX,
        present(lists[0], id as u32),
        chain(lists, place(lists[0], id as u32)) is Some,
    ensures
        longest_chain(lists, m).len() >= chain(lists, place(lists[0], id as u32))->Some_0.len(),
    decreases m,
{
    if m > id {
        longest_chain_covers(lists, m - 1, id);
    }
}

proof fn longest_chain_is_common(lists: Seq<Seq<u32>>, m: int)
    requires
        lists.len() > 0,
        without_repetition(lists),
        m <= u32::MAX,
    ensures
        is_common_subsequence(longest_chain(lists, m), lists),
    decreases m,
{
    let result = longest_chain(lists, m);
    if m <= 0 {
        assert forall|q: int| 0 <= q < lists.len() implies is_subsequence(
            result,
            #[trigger] lists[q],
        ) by {
            assert(stands_at(result, lists[q], Seq::empty()));
        }
    } else {
        longest_chain_is_common(lists, m - 1);
        if result != longest_chain(lists, m - 1) {
            let k = place(lists[0], m as u32);
            place_is_first(lists[0], m as u32);
            assert forall|q: int| 0 <= q < lists.len() implies is_subsequence(
                result,
                #[trigger] lists[q],
            ) by {
                chain_is_common(lists, k, 0, q);
            }
        }
    }
}

/// The chain chosen is a common subsequence of the lists, and none is longer.
pub proof fn longest_chain_is_longest(lists: Seq<Seq<u32>>, n: u32)
    requires
        lists.len() > 0,
        without_repetition(lists),
        ids_up_to(lists, n),
    ensures
        is_common_subsequence(longest_chain(lists, n as int), lists),
        forall|part: Seq<u32>|
            is_common_subsequence(part, lists) ==> part.len() <= longest_chain(
                lists,
                n as int,
            ).len(),
{
    longest_chain_is_common(lists, n as int);
    assert forall|part: Seq<u32>| is_common_subsequence(part, lists) implies part.len()
        <= longest_chain(lists, n as int).len() by {
        if part.len() > 0 {
            assert(is_subsequence(part, lists[0]));
            let at = choose|at: Seq<int>| stands_at(part, lists[0], at);
            let k = at[part.len() - 1];
            place_unique(lists[0], k);
            assert(lists[0][k] == part.last());
            chain_is_longest(lists, part, k);
            longest_chain_covers(lists, n as int, part.last() as int);
        }
    }
}

proof fn longest_chain_grows(lists: Seq<Seq<u32>>, a: int, b: int)
    requires
        a <= b,
    ensures
        longest_chain(lists, a).len() <= longest_chain(lists, b).len(),
        longest_chain(lists, a).len() == longest_chain(lists, b).len() ==> longest_chain(lists, a)
            == longest_chain(lists, b),
    decreases b - a,
{
    if a < b {
        longest_chain_grows(lists, a, b - 1);
    }
}

proof fn longest_chain_ends(lists: Seq<Seq<u32>>, m: int)
    requires
        lists.len() > 0,
        m <= u32::MAX,
    ensures
        longest_chain(lists, m).len() > 0 ==> {
            let last = longest_chain(lists, m).last();
            &&& 1 <= last <= m
            &&& present(lists[0], last)
            &&& chain(lists, place(lists[0], last)) == Some(longest_chain(lists, m))
        },
    decreases m,
{
    if m > 0 {
        longest_chain_ends(lists, m - 1);
        if present(lists[0], m as u32) {
            let k = place(lists[0], m as u32);
            place_is_first(lists[0], m as u32);
            chain_from_length(lists, k, 0);
        }
    }
}

/// Of the longest common subsequences, the one that is chosen ends with the lowest id: no other ends
/// with a lower one.
pub proof fn longest_chain_ends_lowest(lists: Seq<Seq<u32>>, n: u32, part: Seq<u32>)
    requires
        lists.len() > 0,
        without_repetition(lists),
        ids_up_to(lists, n),
        is_common_subsequence(part, lists),
        part.len() == longest_chain(lists, n as int).len(),
        part.len() > 0,
    ensures
        longest_chain(lists, n as int).last() <= part.last(),
        chain(lists, place(lists[0], longest_chain(lists, n as int).last())) == Some(
            longest_chain(lists, n as int),
        ),
{
    assert(is_subsequence(part, lists[0]));
    let at = choose|at: Seq<int>| stands_at(part, lists[0], at);
    let k = at[part.len() - 1];
    place_unique(lists[0], k);
    assert(lists[0][k] == part.last());
    chain_is_longest(lists, part, k);
    let id = part.last() as int;
    longest_chain_covers(lists, id, id);
    longest_chain_grows(lists, id, n as int);
    longest_chain_ends(lists, id);
    longest_chain_ends(lists, n as int);
}

proof fn chain_from_shape(lists: Seq<Seq<u32>>, k: int, q: int) -> (p: int)
    requires
        0 <= q <= k,
        chain_from(lists, k, q).len() >= 2,
    ensures
        q <= p < k,
        chain(lists, p) is Some,
        chain_from(lists, k, q) == chain(lists, p)->Some_0.push(lists[0][k]),
    decreases k - q,
{
    if q >= k {
        assert(chain_from(lists, k, q).len() == 1);
        q
    } else {
        let nearer = chain_from(lists, k, q + 1);
        if chain_from(lists, k, q) == nearer {
            chain_from_shape(lists, k, q + 1)
        } else {
            q
        }
    }
}

proof fn chain_from_latest(lists: Seq<Seq<u32>>, k: int, q: int, before: int) -> (p: int)
    requires
        0 <= q <= before < k,
        chain(lists, before) is Some,
        chain(lists, before)->Some_0.len() >= 1,
        before_in_others(lists, lists[0][before], lists[0][k]),
        chain(lists, before)->Some_0.len() + 1 >= chain_from(lists, k, q).len(),
    ensures
        before <= p < k,
        chain(lists, p) is Some,
        chain_from(lists, k, q) == chain(lists, p)->Some_0.push(lists[0][k]),
    decreases k - q,
{
    let nearer = chain_from(lists, k, q + 1);
    if q < before {
        chain_from_covers(lists, k, q + 1, before);
        assert(chain_from(lists, k, q) == nearer);
        chain_from_latest(lists, k, q + 1, before)
    } else if chain_from(lists, k, q) == nearer {
        chain_from_covers(lists, k, q, before);
        chain_from_shape(lists, k, q + 1)
    } else {
        q
    }
}

/// Of the longest common subsequences that end at a place of the first list, the one that is chosen
/// comes to it from the latest place there is: the id before the last stands no earlier in the first
/// list than in any other. What leads up to that place is chosen in the same way.
pub proof fn chain_comes_from_latest(lists: Seq<Seq<u32>>, k: int, part: Seq<u32>) -> (p: int)
    requires
        lists.len() > 0,
        without_repetition(lists),
        is_common_subsequence(part, lists),
        part.len() >= 2,
        0 <= k < lists[0].len(),
        lists[0][k] == part.last(),
        chain(lists, k) is Some,
        chain(lists, k)->Some_0.len() == part.len(),
    ensures
        0 <= p < k,
        chain(lists, p) is Some,
        chain(lists, k)->Some_0 == chain(lists, p)->Some_0.push(lists[0][k]),
        chain(lists, p)->Some_0.last() == lists[0][p],
        place(lists[0], part[part.len() - 2]) <= p,
{
    let id = part.last();
    let front = part.drop_last();
    let prev = front.last();
    assert forall|q: int| 0 <= q < lists.len() implies is_subsequence(
        front,
        #[trigger] lists[q],
    ) by {
        subsequence_of_front(part, lists[q]);
    }
    assert(is_subsequence(part, lists[0]));
    let first_at = choose|at: Seq<int>| stands_at(part, lists[0], at);
    let before = first_at[part.len() - 2];
    let last = first_at[part.len() - 1];
    place_unique(lists[0], k);
    place_unique(lists[0], last);
    assert(last == k);
    assert(before < k);
    assert(lists[0][before] == prev);
    place_unique(lists[0], before);
    chain_is_longest(lists, front, before);
    assert forall|q: int| 1 <= q < lists.len() implies present(#[trigger] lists[q], prev) && place(
        lists[q],
        prev,
    ) <= place(lists[q], id) by {
        assert(is_subsequence(part, lists[q]));
        let at = choose|at: Seq<int>| stands_at(part, lists[q], at);
        let a = at[part.len() - 2];
        let b = at[part.len() - 1];
        place_unique(lists[q], a);
        place_unique(lists[q], b);
    }
    let p = chain_from_latest(lists, k, 0, before);
    chain_from_length(lists, p, 0);
    p
}

/// The first place of the id among the items, or their number where it is not there.
pub fn find_place<I: Id>(items: &[I], id: u32) -> (result: usize)
    ensures
        result == place(ids(items@), id),
        result <= items.len(),
{
    let mut i: usize = 0;
    while i < items.len()
        invariant
            i <= items.len(),
            forall|j: int| 0 <= j < i ==> #[trigger] ids(items@)[j] != id,
        decreases items.len() - i,
    {
        if items[i].id() == id {
            proof {
                place_known(ids(items@), id, i as int);
            }
            return i;
        }
        i += 1;
    }
    proof {
        place_known(ids(items@), id, i as int);
    }
    i
}

fn found_in_others<I: Id>(sequences: &[&[I]], id: u32) -> (result: bool)
    ensures
        result == in_others(id_lists(sequences@), id),
{
    let ghost lists = id_lists(sequences@);
    let mut k: usize = 1;
    while k < sequences.len()
        invariant
            1 <= k,
            lists == id_lists(sequences@),
            forall|q: int| 1 <= q < k && q < lists.len() ==> present(#[trigger] lists[q], id),
        decreases sequences.len() - k,
    {
        let sequence = sequences[k];
        assert(lists[k as int] == ids(sequence@));
        if find_place(sequence, id) >= sequence.len() {
            assert(!present(lists[k as int], id));
            return false;
        }
        k += 1;
    }
    true
}

fn found_before_in_others<I: Id>(sequences: &[&[I]], j: u32, i: u32) -> (result: bool)
    ensures
        result == before_in_others(id_lists(sequences@), j, i),
{
    let ghost lists = id_lists(sequences@);
    let mut k: usize = 1;
    while k < sequences.len()
        invariant
            1 <= k,
            lists == id_lists(sequences@),
            forall|q: int|
                1 <= q < k && q < lists.len() ==> present(#[trigger] lists[q], j) && place(
                    lists[q],
                    j,
                ) <= place(lists[q], i),
        decreases sequences.len() - k,
    {
        let sequence = sequences[k];
        assert(lists[k as int] == ids(sequence@));
        let place_of_j: usize = find_place(sequence, j);
        if place_of_j >= sequence.len() || place_of_j > find_place(sequence, i) {
            assert(!(present(lists[k as int], j) && place(lists[k as int], j) <= place(
                lists[k as int],
                i,
            )));
            return false;
        }
        k += 1;
    }
    true
}

/// A found chain is the one that the model speaks of.
spec fn chain_held(found: Option<Vec<u32>>, model: Option<Seq<u32>>) -> bool {
    match (found, model) {
        (Some(f), Some(m)) => f@ == m,
        (None, None) => true,
        _ => false,
    }
}

/// `found[id - 1]` holds the chain that ends with `id`, for the first `done` elements of the first
/// list.
spec fn chains_held(found: Seq<Option<Vec<u32>>>, lists: Seq<Seq<u32>>, done: int) -> bool {
    forall|t: int|
        0 <= t < found.len() ==> chain_held(
            #[trigger] found[t],
            if place(lists[0], (t + 1) as u32) < done {
                chain(lists, place(lists[0], (t + 1) as u32))
            } else {
                None
            },
        )
}

fn copy_and_push(ids: &Vec<u32>, id: u32) -> (result: Vec<u32>)
    ensures
        result@ == ids@.push(id),
{
    let mut result = ids.clone();
    assert(result@ =~= ids@);
    result.push(id);
    result
}

/// The chain that ends with the element at `k` of the first sequence, from those that end before.
fn find_chain<I: Id>(
    sequences: &[&[I]],
    n: u32,
    found: &Vec<Option<Vec<u32>>>,
    k: usize,
) -> (result: Vec<u32>)
    requires
        sequences.len() > 0,
        k < sequences@[0].len(),
        found.len() == n,
        ids_up_to(id_lists(sequences@), n),
        without_repetition(id_lists(sequences@)),
        chains_held(found@, id_lists(sequences@), k as int),
    ensures
        result@ == chain_from(id_lists(sequences@), k as int, 0),
{
    let ghost lists = id_lists(sequences@);
    let first = sequences[0];
    let id: u32 = first[k].id();
    assert(lists[0] == ids(first@));
    assert(lists[0][k as int] == id);
    let mut longest: Vec<u32> = Vec::new();
    longest.push(id);
    assert(longest@ =~= chain_from(lists, k as int, k as int));
    let mut p: usize = k;
    while p > 0
        invariant
            p <= k < first.len(),
            lists == id_lists(sequences@),
            sequences@.len() > 0,
            lists[0] == ids(first@),
            lists[0][k as int] == id,
            found.len() == n,
            ids_up_to(lists, n),
            without_repetition(lists),
            chains_held(found@, lists, k as int),
            longest@ == chain_from(lists, k as int, p as int),
        decreases p,
    {
        p -= 1;
        let j: u32 = first[p].id();
        assert(lists[0][p as int] == j);
        proof {
            place_unique(lists[0], p as int);
            assert(chain_held(found@[j - 1], chain(lists, p as int)));
            if chain(lists, p as int) is Some {
                chain_from_length(lists, p as int, 0);
            }
        }
        if let Some(chain_of_j) = &found[j as usize - 1] {
            if found_before_in_others(sequences, j, id) {
                if chain_of_j.len() + 1 > longest.len() {
                    longest = copy_and_push(chain_of_j, id);
                }
            }
        }
    }
    longest
}

/// The longest common subsequence of sequences of items, by their ids.
///
/// The ids are numbers from `1` to `n`, and none stands twice in one sequence. Takes time in the
/// order of the square of the sequences' length times their number.
pub fn find_lcs<I: Id>(n: u32, sequences: &[&[I]]) -> (result: Vec<u32>)
    requires
        sequences.len() > 0,
        ids_up_to(id_lists(sequences@), n),
        without_repetition(id_lists(sequences@)),
    ensures
        result@ == longest_chain(id_lists(sequences@), n as int),
        is_common_subsequence(result@, id_lists(sequences@)),
        forall|part: Seq<u32>|
            is_common_subsequence(part, id_lists(sequences@)) ==> part.len() <= result.len(),
{
    let ghost lists = id_lists(sequences@);
    let mut found: Vec<Option<Vec<u32>>> = Vec::new();
    let mut filled: u32 = 0;
    while filled < n
        invariant
            filled <= n,
            found.len() == filled,
            forall|t: int| 0 <= t < found.len() ==> #[trigger] found@[t] is None,
        decreases n - filled,
    {
        found.push(None);
        filled += 1;
    }
    let first = sequences[0];
    assert(lists[0] == ids(first@));
    proof {
        assert forall|t: int| 0 <= t < found.len() implies chain_held(
            #[trigger] found@[t],
            if place(lists[0], (t + 1) as u32) < 0 {
                chain(lists, place(lists[0], (t + 1) as u32))
            } else {
                None
            },
        ) by {
            place_is_first(lists[0], (t + 1) as u32);
        }
    }
    let mut k: usize = 0;
    while k < first.len()
        invariant
            k <= first.len(),
            lists == id_lists(sequences@),
            sequences@.len() > 0,
            first == sequences@[0],
            lists[0] == ids(first@),
            found.len() == n,
            ids_up_to(lists, n),
            without_repetition(lists),
            chains_held(found@, lists, k as int),
        decreases first.len() - k,
    {
        let id: u32 = first[k].id();
        assert(lists[0][k as int] == id);
        let ghost before = found@;
        proof {
            place_unique(lists[0], k as int);
        }
        if found_in_others(sequences, id) {
            let chain_of_id = find_chain(sequences, n, &found, k);
            found.set(id as usize - 1, Some(chain_of_id));
        } else {
            assert(chain_held(found@[id - 1], None));
        }
        proof {
            assert forall|t: int| 0 <= t < found.len() implies chain_held(
                #[trigger] found@[t],
                if place(lists[0], (t + 1) as u32) < k + 1 {
                    chain(lists, place(lists[0], (t + 1) as u32))
                } else {
                    None
                },
            ) by {
                place_is_first(lists[0], (t + 1) as u32);
                if t != id - 1 {
                    assert(found@[t] == before[t]);
                    let at = place(lists[0], (t + 1) as u32);
                    if at < lists[0].len() {
                        assert(lists[0][at] == (t + 1) as u32);
                        assert(at != k);
                    }
                }
            }
        }
        k += 1;
    }
    let mut longest: Vec<u32> = Vec::new();
    assert(longest@ =~= longest_chain(lists, 0));
    let mut m: u32 = 0;
    while m < n
        invariant
            m <= n,
            found.len() == n,
            lists[0] == ids(first@),
            chains_held(found@, lists, first@.len() as int),
            longest@ == longest_chain(lists, m as int),
        decreases n - m,
    {
        assert(chain_held(
            found@[m as int],
            if place(lists[0], (m + 1) as u32) < first@.len() {
                chain(lists, place(lists[0], (m + 1) as u32))
            } else {
                None
            },
        ));
        if let Some(chain_found) = &found[m as usize] {
            if chain_found.len() > longest.len() {
                longest = chain_found.clone();
                assert(longest@ =~= chain_found@);
            }
        }
        m += 1;
    }
    proof {
        longest_chain_is_longest(lists, n);
    }
    longest
}

} // verus!
