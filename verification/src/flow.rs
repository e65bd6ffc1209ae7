//! Following a flow map: of the exits of a cell, the one that leads
//! downhill, towards the starting cells, and the one that leads uphill, away
//! from them.

use vstd::prelude::*;
use rayon::slice::ParallelSliceMut;
use crate::grid::{BaseMap, ExitList, OutOfRange, in_range};
use crate::dijkstra::DijkstraMap;
use crate::flood::UNREACHABLE;

verus! {

/// The first exit that leads outside a field of `size` cells, if one does.
pub open spec fn stray(exits: ExitList, size: int) -> Option<i32>
    decreases exits.len(),
{
    if exits.len() == 0 {
        None
    } else {
        match stray(exits.drop_last(), size) {
            Some(index) => Some(index),
            None => if in_range(exits.last().0, size) {
                None
            } else {
                Some(exits.last().0)
            },
        }
    }
}

/// Each exit's cell with the value that the field holds for it.
pub open spec fn valued(field: Seq<u32>, exits: ExitList) -> Seq<(i32, u32)> {
    Seq::new(exits.len(), |i: int| (exits[i].0, field[exits[i].0 as int]))
}

/// Each exit's cell with what its value lacks to `UNREACHABLE`.
pub open spec fn mirrored(field: Seq<u32>, exits: ExitList) -> Seq<(i32, u32)> {
    Seq::new(exits.len(), |i: int| (exits[i].0, (UNREACHABLE - field[exits[i].0 as int]) as u32))
}

/// The position of the first pair with the least value.
pub open spec fn first_least(pairs: Seq<(i32, u32)>) -> int
    decreases pairs.len(),
{
    if pairs.len() <= 1 {
        0
    } else {
        let b = first_least(pairs.drop_last());
        if pairs.last().1 < pairs[b].1 {
            pairs.len() - 1
        } else {
            b
        }
    }
}

/// The position of the first pair with the greatest value.
pub open spec fn first_greatest(pairs: Seq<(i32, u32)>) -> int
    decreases pairs.len(),
{
    if pairs.len() <= 1 {
        0
    } else {
        let b = first_greatest(pairs.drop_last());
        if pairs.last().1 > pairs[b].1 {
            pairs.len() - 1
        } else {
            b
        }
    }
}

/// The cell of the first exit with the least value in the field.
pub open spec fn lowest_exit(field: Seq<u32>, exits: ExitList) -> Option<i32> {
    if exits.len() == 0 {
        None
    } else {
        Some(exits[first_least(valued(field, exits))].0)
    }
}

/// The cell of the first exit with the greatest value in the field.
pub open spec fn highest_exit(field: Seq<u32>, exits: ExitList) -> Option<i32> {
    if exits.len() == 0 {
        None
    } else {
        Some(exits[first_greatest(valued(field, exits))].0)
    }
}

/// Whether the values never fall from one pair to a later one.
pub open spec fn ascending(pairs: Seq<(i32, u32)>) -> bool {
    forall|i: int, j: int| 0 <= i <= j < pairs.len() ==> pairs[i].1 <= pairs[j].1
}

/// `sorted` with `pair` put behind the last pair whose value is not
/// greater.
pub open spec fn insert_sorted(sorted: Seq<(i32, u32)>, pair: (i32, u32)) -> Seq<(i32, u32)>
    decreases sorted.len(),
{
    if sorted.len() == 0 || sorted.last().1 <= pair.1 {
        sorted.push(pair)
    } else {
        insert_sorted(sorted.drop_last(), pair).push(sorted.last())
    }
}

/// The pairs in ascending order of value, those of equal value in the order
/// in which they stood.
pub open spec fn stable_sort(pairs: Seq<(i32, u32)>) -> Seq<(i32, u32)>
    decreases pairs.len(),
{
    if pairs.len() == 0 {
        pairs
    } else {
        insert_sorted(stable_sort(pairs.drop_last()), pairs.last())
    }
}

proof fn lemma_insert_sorted(sorted: Seq<(i32, u32)>, pair: (i32, u32))
    requires
        ascending(sorted),
    ensures
        ({
            let r = insert_sorted(sorted, pair);
            &&& r.len() == sorted.len() + 1
            &&& ascending(r)
            &&& r[0] == (if sorted.len() > 0 && sorted[0].1 <= pair.1 {
                sorted[0]
            } else {
                pair
            })
            &&& r.last() == (if sorted.len() == 0 || sorted.last().1 <= pair.1 {
                pair
            } else {
                sorted.last()
            })
        }),
    decreases sorted.len(),
{
    if !(sorted.len() == 0 || sorted.last().1 <= pair.1) {
        let front = sorted.drop_last();
        assert forall|i: int, j: int| 0 <= i <= j < front.len() implies front[i].1
            <= front[j].1 by {
            assert(front[i] == sorted[i] && front[j] == sorted[j]);
        }
        lemma_insert_sorted(front, pair);
        let inner = insert_sorted(front, pair);
        let r = inner.push(sorted.last());
        assert(inner.last().1 <= sorted.last().1) by {
            if front.len() > 0 {
                assert(front.last() == sorted[front.len() - 1]);
            }
        }
        assert forall|i: int, j: int| 0 <= i <= j < r.len() implies r[i].1 <= r[j].1 by {
            if j == r.len() - 1 && i < j {
                assert(inner[i].1 <= inner[inner.len() - 1].1);
            }
        }
        if front.len() > 0 {
            assert(front[0] == sorted[0]);
        }
    }
}

proof fn lemma_insert_sorted_adds(sorted: Seq<(i32, u32)>, pair: (i32, u32))
    ensures
        insert_sorted(sorted, pair).to_multiset() == sorted.to_multiset().insert(pair),
    decreases sorted.len(),
{
    broadcast use vstd::seq_lib::group_to_multiset_ensures;

    if !(sorted.len() == 0 || sorted.last().1 <= pair.1) {
        let front = sorted.drop_last();
        lemma_insert_sorted_adds(front, pair);
        assert(sorted =~= front.push(sorted.last()));
        assert(insert_sorted(sorted, pair).to_multiset() =~= sorted.to_multiset().insert(pair));
    }
}

/// Sorting moves pairs; it neither adds nor drops nor changes one.
pub proof fn lemma_stable_sort_permutes(pairs: Seq<(i32, u32)>)
    ensures
        stable_sort(pairs).to_multiset() == pairs.to_multiset(),
    decreases pairs.len(),
{
    broadcast use vstd::seq_lib::group_to_multiset_ensures;

    if pairs.len() > 0 {
        lemma_stable_sort_permutes(pairs.drop_last());
        lemma_insert_sorted_adds(stable_sort(pairs.drop_last()), pairs.last());
        assert(pairs =~= pairs.drop_last().push(pairs.last()));
    }
}

/// The sorted pairs are as many as before, in ascending order, and begin
/// with the first pair of the least value.
pub proof fn lemma_stable_sort_head(pairs: Seq<(i32, u32)>)
    ensures
        stable_sort(pairs).len() == pairs.len(),
        ascending(stable_sort(pairs)),
        pairs.len() > 0 ==> stable_sort(pairs)[0] == pairs[first_least(pairs)],
        pairs.len() > 0 ==> 0 <= first_least(pairs) < pairs.len(),
    decreases pairs.len(),
{
    if pairs.len() > 0 {
        lemma_stable_sort_head(pairs.drop_last());
        lemma_insert_sorted(stable_sort(pairs.drop_last()), pairs.last());
    }
}

/// The first pair of the least value: none has less, and none before it has
/// as little.
pub proof fn lemma_first_least(pairs: Seq<(i32, u32)>)
    requires
        pairs.len() > 0,
    ensures
        0 <= first_least(pairs) < pairs.len(),
        forall|j: int|
            0 <= j < pairs.len() ==> pairs[first_least(pairs)].1 <= (#[trigger] pairs[j]).1,
        forall|j: int|
            0 <= j < first_least(pairs) ==> pairs[first_least(pairs)].1 < (#[trigger] pairs[j]).1,
    decreases pairs.len(),
{
    if pairs.len() > 1 {
        let front = pairs.drop_last();
        lemma_first_least(front);
        assert forall|j: int| 0 <= j < pairs.len() implies pairs[first_least(pairs)].1 <= (
        #[trigger] pairs[j]).1 by {
            if j < front.len() {
                assert(front[j] == pairs[j]);
            }
        }
        assert forall|j: int| 0 <= j < first_least(pairs) implies pairs[first_least(pairs)].1 < (
        #[trigger] pairs[j]).1 by {
            assert(front[j] == pairs[j]);
        }
    }
}

/// The first pair of the greatest value: none has more, and none before it
/// has as much.
pub proof fn lemma_first_greatest(pairs: Seq<(i32, u32)>)
    requires
        pairs.len() > 0,
    ensures
        0 <= first_greatest(pairs) < pairs.len(),
        forall|j: int|
            0 <= j < pairs.len() ==> pairs[first_greatest(pairs)].1 >= (#[trigger] pairs[j]).1,
        forall|j: int|
            0 <= j < first_greatest(pairs) ==> pairs[first_greatest(pairs)].1 > (
            #[trigger] pairs[j]).1,
    decreases pairs.len(),
{
    if pairs.len() > 1 {
        let front = pairs.drop_last();
        lemma_first_greatest(front);
        assert forall|j: int| 0 <= j < pairs.len() implies pairs[first_greatest(pairs)].1 >= (
        #[trigger] pairs[j]).1 by {
            if j < front.len() {
                assert(front[j] == pairs[j]);
            }
        }
        assert forall|j: int| 0 <= j < first_greatest(pairs) implies pairs[first_greatest(
            pairs,
        )].1 > (#[trigger] pairs[j]).1 by {
            assert(front[j] == pairs[j]);
        }
    }
}

/// The first exit with the greatest value is the first with the least of
/// what the values lack to `UNREACHABLE`.
proof fn lemma_mirrored_least(field: Seq<u32>, exits: ExitList)
    ensures
        first_least(mirrored(field, exits)) == first_greatest(valued(field, exits)),
    decreases exits.len(),
{
    if exits.len() > 1 {
        lemma_mirrored_least(field, exits.drop_last());
        assert(mirrored(field, exits).drop_last() =~= mirrored(field, exits.drop_last()));
        assert(valued(field, exits).drop_last() =~= valued(field, exits.drop_last()));
        lemma_first_greatest(valued(field, exits.drop_last()));
    }
}

/// Once an exit has led outside the field, the exits after it change
/// nothing.
proof fn lemma_stray_stays(exits: ExitList, n: int, size: int)
    requires
        0 <= n <= exits.len(),
        stray(exits.take(n), size) is Some,
    ensures
        stray(exits, size) == stray(exits.take(n), size),
    decreases exits.len() - n,
{
    if n < exits.len() {
        assert(exits.take(n + 1).drop_last() =~= exits.take(n));
        lemma_stray_stays(exits, n + 1, size);
    } else {
        assert(exits.take(n) =~= exits);
    }
}

/// Where the exits of a cell lead to cells of different value, the exit
/// downhill and the exit uphill lead to different cells.
pub proof fn lemma_downhill_is_not_uphill(field: Seq<u32>, exits: ExitList, a: int, b: int)
    requires
        0 <= a < exits.len(),
        0 <= b < exits.len(),
        field[exits[a].0 as int] != field[exits[b].0 as int],
    ensures
        lowest_exit(field, exits) is Some,
        highest_exit(field, exits) is Some,
        lowest_exit(field, exits) != highest_exit(field, exits),
{
    let pairs = valued(field, exits);
    lemma_first_least(pairs);
    lemma_first_greatest(pairs);
    let low = first_least(pairs);
    let high = first_greatest(pairs);
    assert(pairs[low].1 <= pairs[a].1 && pairs[low].1 <= pairs[b].1);
    assert(pairs[high].1 >= pairs[a].1 && pairs[high].1 >= pairs[b].1);
    assert(pairs[low].1 < pairs[high].1);
}

/// Sorts the pairs by their second part with rayon's `par_sort_by_key`,
/// which is documented as a stable sort: the pairs come out in ascending
/// order, and pairs with the same second part keep the order they had.
#[verifier::external_body]
fn sort_by_value(pairs: &mut Vec<(i32, u32)>)
    ensures
        final(pairs)@ == stable_sort(old(pairs)@),
{
    pairs.par_sort_by_key(|pair| pair.1);
}

/// The exits of `position`, each with the value that the flow map holds for
/// its cell, or with what that value lacks to `UNREACHABLE`.
fn exit_values<M: BaseMap>(dm: &DijkstraMap, position: i32, map: &M, mirror: bool) -> (r: Result<
    Vec<(i32, u32)>,
    OutOfRange,
>)
    ensures
        match stray(map.exits(position), dm.map@.len() as int) {
            Some(index) => r == Err::<Vec<(i32, u32)>, OutOfRange>(OutOfRange { index }),
            None => r is Ok && r->Ok_0@ == (if mirror {
                mirrored(dm.map@, map.exits(position))
            } else {
                valued(dm.map@, map.exits(position))
            }),
        },
{
    let mut exits = map.get_available_exits(position);
    let ghost given = exits@;
    let mut i: usize = 0;
    while i < exits.len()
        invariant
            i <= exits.len(),
            given == map.exits(position),
            exits@.len() == given.len(),
            stray(given.take(i as int), dm.map@.len() as int) is None,
            forall|k: int|
                0 <= k < i ==> #[trigger] exits@[k] == (if mirror {
                    mirrored(dm.map@, given)[k]
                } else {
                    valued(dm.map@, given)[k]
                }),
            forall|k: int| i <= k < exits@.len() ==> exits@[k] == given[k],
        decreases exits.len() - i,
    {
        let idx = exits[i].0;
        proof {
            assert(given.take(i + 1).drop_last() =~= given.take(i as int));
        }
        if idx < 0 || idx as usize >= dm.map.len() {
            proof {
                lemma_stray_stays(given, i + 1, dm.map@.len() as int);
            }
            return Err(OutOfRange { index: idx });
        }
        let value = dm.map[idx as usize];
        exits[i] = (idx, if mirror { UNREACHABLE - value } else { value });
        i += 1;
    }
    proof {
        assert(given.take(i as int) =~= given);
        if mirror {
            assert(exits@ =~= mirrored(dm.map@, given));
        } else {
            assert(exits@ =~= valued(dm.map@, given));
        }
    }
    Ok(exits)
}

impl DijkstraMap {
    /// The exit of `position` that leads to the cell of the least value,
    /// and of several such the one that the map names first: the step
    /// towards the starting cells. `None` where there is no exit.
    pub fn find_lowest_exit<M: BaseMap>(dm: &DijkstraMap, position: i32, map: &M) -> (r: Result<
        Option<i32>,
        OutOfRange,
    >)
        ensures
            match stray(map.exits(position), dm.map@.len() as int) {
                Some(index) => r == Err::<Option<i32>, OutOfRange>(OutOfRange { index }),
                None => r == Ok::<Option<i32>, OutOfRange>(
                    lowest_exit(dm.map@, map.exits(position)),
                ),
            },
    {
        let mut exits = match exit_values(dm, position, map, false) {
            Ok(exits) => exits,
            Err(e) => {
                return Err(e);
            },
        };
        if exits.is_empty() {
            return Ok(None);
        }
        proof {
            lemma_stable_sort_head(exits@);
        }
        sort_by_value(&mut exits);
        Ok(Some(exits[0].0))
    }

    /// The exit of `position` that leads to the cell of the greatest value,
    /// and of several such the one that the map names first: the step away
    /// from the starting cells. `None` where there is no exit.
    pub fn find_highest_exit<M: BaseMap>(dm: &DijkstraMap, position: i32, map: &M) -> (r: Result<
        Option<i32>,
        OutOfRange,
    >)
        ensures
            match stray(map.exits(position), dm.map@.len() as int) {
                Some(index) => r == Err::<Option<i32>, OutOfRange>(OutOfRange { index }),
                None => r == Ok::<Option<i32>, OutOfRange>(
                    highest_exit(dm.map@, map.exits(position)),
                ),
            },
    {
        let mut exits = match exit_values(dm, position, map, true) {
            Ok(exits) => exits,
            Err(e) => {
                return Err(e);
            },
        };
        if exits.is_empty() {
            return Ok(None);
        }
        proof {
            lemma_stable_sort_head(exits@);
            lemma_mirrored_least(dm.map@, map.exits(position));
        }
        sort_by_value(&mut exits);
        Ok(Some(exits[0].0))
    }
}

} // verus!
