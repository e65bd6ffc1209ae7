//! What holds of every build of a flow map, whether it runs source by
//! source or in layers.

use vstd::prelude::*;
use crate::grid::{BaseMap, in_range, reaches, reaches_from_any};
use crate::flood::{Built, UNREACHABLE, flood_all};
use crate::flood_laws::{lowered_by, closed_within, sources_within, lemma_flood_all_lowers, lemma_flood_all_zeroes_sources, lemma_flood_all_goes_on};
use crate::dijkstra::{fresh_field, merge_min, chunks_of, layer_of, first_fault, merged, parallel_outcome, build_outcome};

verus! {

/// Whether `cell` is one of the cells in `chunks`.
pub open spec fn held(chunks: Seq<Seq<i32>>, cell: i32) -> bool {
    exists|c: int, k: int|
        0 <= c < chunks.len() && 0 <= k < chunks[c].len() && #[trigger] chunks[c][k] == cell
}

/// Whether every cell in `chunks` is one of `sources`.
pub open spec fn drawn_from(chunks: Seq<Seq<i32>>, sources: Seq<i32>) -> bool {
    forall|c: int, k: int|
        0 <= c < chunks.len() && 0 <= k < chunks[c].len() ==> sources.contains(
            #[trigger] chunks[c][k],
        )
}

/// No route of a cost within `max_depth` leads from any of `sources` to
/// `cell`.
pub open spec fn farther_than<M: BaseMap>(
    map: &M,
    sources: Seq<i32>,
    cell: i32,
    max_depth: u32,
) -> bool {
    forall|cost: int| cost <= max_depth ==> !#[trigger] reaches_from_any(map, sources, cell, cost)
}

/// The runs hold sources only, and hold each of them.
pub proof fn lemma_chunks_hold_sources(sources: Seq<i32>, chunk: int)
    requires
        chunk >= 1,
    ensures
        drawn_from(chunks_of(sources, chunk), sources),
        forall|j: int|
            0 <= j < sources.len() ==> held(chunks_of(sources, chunk), #[trigger] sources[j]),
    decreases sources.len(),
{
    let chunks = chunks_of(sources, chunk);
    if sources.len() == 0 {
    } else if sources.len() <= chunk {
        assert forall|j: int| 0 <= j < sources.len() implies held(
            chunks,
            #[trigger] sources[j],
        ) by {
            assert(chunks[0][j] == sources[j]);
        }
    } else {
        let rest = sources.skip(chunk);
        let later = chunks_of(rest, chunk);
        lemma_chunks_hold_sources(rest, chunk);
        assert forall|c: int, k: int| 0 <= c < chunks.len() && 0 <= k < chunks[c].len() implies sources.contains(
        #[trigger] chunks[c][k]) by {
            if c == 0 {
                assert(chunks[0][k] == sources[k]);
            } else {
                assert(chunks[c] == later[c - 1]);
                assert(rest.contains(later[c - 1][k]));
                let i = choose|i: int| 0 <= i < rest.len() && rest[i] == later[c - 1][k];
                assert(sources[i + chunk] == rest[i]);
            }
        }
        assert forall|j: int| 0 <= j < sources.len() implies held(
            chunks,
            #[trigger] sources[j],
        ) by {
            if j < chunk {
                assert(chunks[0][j] == sources[j]);
            } else {
                assert(rest[j - chunk] == sources[j]);
                assert(held(later, rest[j - chunk]));
                let (c, k) = choose|c: int, k: int|
                    0 <= c < later.len() && 0 <= k < later[c].len() && #[trigger] later[c][k]
                        == sources[j];
                assert(chunks[c + 1] == later[c]);
                assert(chunks[c + 1][k] == sources[j]);
            }
        }
    }
}

/// A field that has taken layers holds, in each cell, no more than it did
/// and no more than any of the layers; and where it holds less than it did,
/// it holds what one of the layers holds there.
pub proof fn lemma_merged_is_least<M: BaseMap>(
    map: &M,
    field: Seq<u32>,
    chunks: Seq<Seq<i32>>,
    max_depth: u32,
)
    ensures
        merged(map, field, chunks, max_depth).len() == field.len(),
        forall|cell: int|
            0 <= cell < field.len() ==> (#[trigger] merged(map, field, chunks, max_depth)[cell])
                <= field[cell],
        forall|c: int, cell: int|
            0 <= c < chunks.len() && 0 <= cell < field.len() ==> merged(
                map,
                field,
                chunks,
                max_depth,
            )[cell] <= (#[trigger] layer_of(map, field.len(), chunks[c], max_depth).field[cell]),
        forall|cell: int|
            0 <= cell < field.len() && (#[trigger] merged(map, field, chunks, max_depth)[cell])
                < field[cell] ==> exists|c: int|
                0 <= c < chunks.len() && merged(map, field, chunks, max_depth)[cell] == (
                #[trigger] layer_of(map, field.len(), chunks[c], max_depth)).field[cell],
    decreases chunks.len(),
{
    if chunks.len() > 0 {
        let front = chunks.drop_last();
        lemma_merged_is_least(map, field, front, max_depth);
        lemma_flood_all_lowers(map, fresh_field(field.len()), chunks.last(), max_depth);
        let before = merged(map, field, front, max_depth);
        let after = merged(map, field, chunks, max_depth);
        let top = layer_of(map, field.len(), chunks.last(), max_depth);
        assert forall|c: int, cell: int|
            0 <= c < chunks.len() && 0 <= cell < field.len() implies after[cell] <= (
        #[trigger] layer_of(map, field.len(), chunks[c], max_depth).field[cell]) by {
            if c < front.len() {
                assert(front[c] == chunks[c]);
                assert(before[cell] <= layer_of(map, field.len(), front[c], max_depth).field[cell]);
            }
        }
        assert forall|cell: int|
            0 <= cell < field.len() && (#[trigger] after[cell]) < field[cell] implies exists|
            c: int,
        |
            0 <= c < chunks.len() && after[cell] == (#[trigger] layer_of(
                map,
                field.len(),
                chunks[c],
                max_depth,
            )).field[cell] by {
            if after[cell] == top.field[cell] {
                assert(layer_of(map, field.len(), chunks[chunks.len() - 1], max_depth) == top);
            } else {
                assert(after[cell] == before[cell]);
                let c = choose|c: int|
                    0 <= c < front.len() && before[cell] == (#[trigger] layer_of(
                        map,
                        field.len(),
                        front[c],
                        max_depth,
                    )).field[cell];
                assert(front[c] == chunks[c]);
            }
        }
    }
}

/// Where no layer is stopped, none of them is.
proof fn lemma_no_fault_anywhere<M: BaseMap>(
    map: &M,
    size: nat,
    chunks: Seq<Seq<i32>>,
    max_depth: u32,
)
    requires
        first_fault(map, size, chunks, max_depth) is None,
    ensures
        forall|c: int|
            0 <= c < chunks.len() ==> (#[trigger] layer_of(
                map,
                size,
                chunks[c],
                max_depth,
            )).fault is None,
    decreases chunks.len(),
{
    if chunks.len() > 0 {
        let front = chunks.drop_last();
        lemma_no_fault_anywhere(map, size, front, max_depth);
        assert forall|c: int| 0 <= c < chunks.len() implies (#[trigger] layer_of(
            map,
            size,
            chunks[c],
            max_depth,
        )).fault is None by {
            if c < front.len() {
                assert(front[c] == chunks[c]);
            }
        }
    }
}

/// A build lowers cells only, each to the cost of a route from one of its
/// sources that stays within the depth limit, whatever the number of
/// workers.
pub proof fn lemma_build_lowers<M: BaseMap>(
    map: &M,
    field: Seq<u32>,
    sources: Seq<i32>,
    max_depth: u32,
    workers: int,
)
    ensures
        lowered_by(
            map,
            field,
            build_outcome(map, field, sources, max_depth, workers).field,
            sources,
            max_depth,
        ),
{
    if workers >= 1 && sources.len() > workers {
        let chunks = chunks_of(sources, workers);
        let after = parallel_outcome(map, field, sources, max_depth, workers).field;
        if first_fault(map, field.len(), chunks, max_depth) is None {
            lemma_merged_is_least(map, field, chunks, max_depth);
            lemma_chunks_hold_sources(sources, workers);
            assert forall|cell: int| 0 <= cell < field.len() implies {
                ||| #[trigger] after[cell] == field[cell]
                ||| {
                    &&& after[cell] < field[cell]
                    &&& after[cell] <= max_depth
                    &&& reaches_from_any(map, sources, cell as i32, after[cell] as int)
                }
            } by {
                if after[cell] != field[cell] {
                    let c = choose|c: int|
                        0 <= c < chunks.len() && after[cell] == (#[trigger] layer_of(
                            map,
                            field.len(),
                            chunks[c],
                            max_depth,
                        )).field[cell];
                    lemma_flood_all_lowers(map, fresh_field(field.len()), chunks[c], max_depth);
                    let layer = layer_of(map, field.len(), chunks[c], max_depth).field;
                    assert(layer[cell] != fresh_field(field.len())[cell]);
                    let k = choose|k: int|
                        0 <= k < chunks[c].len() && reaches(
                            map,
                            #[trigger] chunks[c][k],
                            cell as i32,
                            layer[cell] as int,
                        );
                    assert(sources.contains(chunks[c][k]));
                    let j = choose|j: int| 0 <= j < sources.len() && sources[j] == chunks[c][k];
                    assert(reaches(map, sources[j], cell as i32, after[cell] as int));
                }
            }
        }
    } else {
        lemma_flood_all_lowers(map, field, sources, max_depth);
    }
}

/// A build that is not stopped leaves each of its sources at zero, whatever
/// the number of workers.
pub proof fn lemma_build_zeroes_sources<M: BaseMap>(
    map: &M,
    field: Seq<u32>,
    sources: Seq<i32>,
    max_depth: u32,
    workers: int,
)
    requires
        build_outcome(map, field, sources, max_depth, workers).fault is None,
    ensures
        forall|j: int|
            0 <= j < sources.len() ==> {
                &&& in_range(#[trigger] sources[j], field.len() as int)
                &&& build_outcome(map, field, sources, max_depth, workers).field[sources[j] as int]
                    == 0
            },
{
    if workers >= 1 && sources.len() > workers {
        let chunks = chunks_of(sources, workers);
        let after = merged(map, field, chunks, max_depth);
        lemma_merged_is_least(map, field, chunks, max_depth);
        lemma_chunks_hold_sources(sources, workers);
        lemma_no_fault_anywhere(map, field.len(), chunks, max_depth);
        assert forall|j: int| 0 <= j < sources.len() implies {
            &&& in_range(#[trigger] sources[j], field.len() as int)
            &&& after[sources[j] as int] == 0
        } by {
            assert(held(chunks, sources[j]));
            let (c, k) = choose|c: int, k: int|
                0 <= c < chunks.len() && 0 <= k < chunks[c].len() && #[trigger] chunks[c][k]
                    == sources[j];
            let layer = layer_of(map, field.len(), chunks[c], max_depth);
            assert(layer.fault is None);
            lemma_flood_all_zeroes_sources(map, fresh_field(field.len()), chunks[c], max_depth);
            assert(layer.field[chunks[c][k] as int] == 0);
        }
    } else {
        lemma_flood_all_zeroes_sources(map, field, sources, max_depth);
    }
}

/// A build leaves a cell as it was where no route within the depth limit
/// leads to it from any source: on a fresh field such a cell stays
/// unreachable.
pub proof fn lemma_far_cells_are_left<M: BaseMap>(
    map: &M,
    field: Seq<u32>,
    sources: Seq<i32>,
    max_depth: u32,
    workers: int,
    cell: i32,
)
    requires
        in_range(cell, field.len() as int),
        farther_than(map, sources, cell, max_depth),
    ensures
        build_outcome(map, field, sources, max_depth, workers).field[cell as int]
            == field[cell as int],
{
    lemma_build_lowers(map, field, sources, max_depth, workers);
    let after = build_outcome(map, field, sources, max_depth, workers).field;
    if after[cell as int] != field[cell as int] {
        assert(reaches_from_any(map, sources, cell, after[cell as int] as int));
    }
}

/// On a fresh field, one layer that holds every source comes to what a
/// build source by source comes to, unless an index outside the field stops
/// them, and then it is the same index that stops both.
pub proof fn lemma_single_layer_is_sequential<M: BaseMap>(
    map: &M,
    size: nat,
    sources: Seq<i32>,
    max_depth: u32,
    chunk: int,
)
    requires
        1 <= sources.len() <= chunk,
    ensures
        ({
            let side_by_side = parallel_outcome(map, fresh_field(size), sources, max_depth, chunk);
            let in_turn = flood_all(map, fresh_field(size), sources, max_depth);
            &&& side_by_side.fault == in_turn.fault
            &&& in_turn.fault is None ==> side_by_side.field == in_turn.field
        }),
{
    let chunks = chunks_of(sources, chunk);
    let in_turn = flood_all(map, fresh_field(size), sources, max_depth);
    assert(chunks =~= seq![sources]);
    assert(chunks.drop_last() =~= Seq::<Seq<i32>>::empty());
    assert(chunks.last() == sources);
    assert(first_fault(map, size, chunks.drop_last(), max_depth) is None);
    assert(first_fault(map, size, chunks, max_depth) == in_turn.fault);
    lemma_flood_all_lowers(map, fresh_field(size), sources, max_depth);
    assert(merged(map, fresh_field(size), chunks.drop_last(), max_depth) == fresh_field(size));
    assert(merged(map, fresh_field(size), chunks, max_depth) =~= in_turn.field);
}

/// Whether `field` holds, in each cell, the least cost within `max_depth`
/// of any route that leads there from one of `sources`, and `UNREACHABLE`
/// where there is no such route.
pub open spec fn shortest<M: BaseMap>(
    map: &M,
    field: Seq<u32>,
    sources: Seq<i32>,
    max_depth: u32,
) -> bool {
    forall|cell: int|
        0 <= cell < field.len() ==> {
            &&& (#[trigger] field[cell]) < UNREACHABLE ==> field[cell] <= max_depth
                && reaches_from_any(map, sources, cell as i32, field[cell] as int)
            &&& forall|cost: int|
                cost < field[cell] && cost <= max_depth ==> !#[trigger] reaches_from_any(
                    map,
                    sources,
                    cell as i32,
                    cost,
                )
        }
}

/// Where every flood finds the least costs, as it does where it cannot come
/// to a cell by a longer route before a shorter one, a build in layers and
/// a build source by source make the same field of a fresh one.
pub proof fn lemma_layers_match_sequential<M: BaseMap>(
    map: &M,
    size: nat,
    sources: Seq<i32>,
    max_depth: u32,
    workers: int,
)
    requires
        workers >= 1,
        parallel_outcome(map, fresh_field(size), sources, max_depth, workers).fault is None,
        shortest(
            map,
            flood_all(map, fresh_field(size), sources, max_depth).field,
            sources,
            max_depth,
        ),
        forall|c: int|
            0 <= c < chunks_of(sources, workers).len() ==> shortest(
                map,
                (#[trigger] layer_of(map, size, chunks_of(sources, workers)[c], max_depth)).field,
                chunks_of(sources, workers)[c],
                max_depth,
            ),
    ensures
        parallel_outcome(map, fresh_field(size), sources, max_depth, workers).field == flood_all(
            map,
            fresh_field(size),
            sources,
            max_depth,
        ).field,
{
    let fresh = fresh_field(size);
    let chunks = chunks_of(sources, workers);
    let in_turn = flood_all(map, fresh, sources, max_depth).field;
    let side_by_side = merged(map, fresh, chunks, max_depth);
    lemma_merged_is_least(map, fresh, chunks, max_depth);
    lemma_chunks_hold_sources(sources, workers);
    lemma_flood_all_lowers(map, fresh, sources, max_depth);
    assert forall|cell: int| 0 <= cell < size implies side_by_side[cell] == in_turn[cell] by {
        let s = in_turn[cell];
        let p = side_by_side[cell];
        if p < s {
            let c = choose|c: int|
                0 <= c < chunks.len() && side_by_side[cell] == (#[trigger] layer_of(
                    map,
                    size,
                    chunks[c],
                    max_depth,
                )).field[cell];
            let layer = layer_of(map, size, chunks[c], max_depth).field;
            lemma_flood_all_lowers(map, fresh, chunks[c], max_depth);
            assert(layer[cell] < UNREACHABLE);
            let k = choose|k: int|
                0 <= k < chunks[c].len() && reaches(
                    map,
                    #[trigger] chunks[c][k],
                    cell as i32,
                    p as int,
                );
            assert(sources.contains(chunks[c][k]));
            let j = choose|j: int| 0 <= j < sources.len() && sources[j] == chunks[c][k];
            assert(reaches(map, sources[j], cell as i32, p as int));
            assert(reaches_from_any(map, sources, cell as i32, p as int));
        } else if s < p {
            assert(s < UNREACHABLE);
            let j = choose|j: int|
                0 <= j < sources.len() && reaches(map, #[trigger] sources[j], cell as i32, s as int);
            assert(held(chunks, sources[j]));
            let (c, k) = choose|c: int, k: int|
                0 <= c < chunks.len() && 0 <= k < chunks[c].len() && #[trigger] chunks[c][k]
                    == sources[j];
            let layer = layer_of(map, size, chunks[c], max_depth).field;
            lemma_flood_all_lowers(map, fresh, chunks[c], max_depth);
            assert(p <= layer[cell]);
            assert(reaches(map, chunks[c][k], cell as i32, s as int));
            assert(reaches_from_any(map, chunks[c], cell as i32, s as int));
        }
    }
    assert(side_by_side =~= in_turn);
}

proof fn lemma_layers_go_on<M: BaseMap>(
    map: &M,
    size: nat,
    chunks: Seq<Seq<i32>>,
    sources: Seq<i32>,
    max_depth: u32,
)
    requires
        closed_within(map, size as int),
        sources_within(sources, size as int),
        drawn_from(chunks, sources),
    ensures
        first_fault(map, size, chunks, max_depth) is None,
    decreases chunks.len(),
{
    if chunks.len() > 0 {
        let front = chunks.drop_last();
        assert forall|c: int, k: int|
            0 <= c < front.len() && 0 <= k < front[c].len() implies sources.contains(
            #[trigger] front[c][k],
        ) by {
            assert(front[c] == chunks[c]);
            assert(sources.contains(chunks[c][k]));
        }
        lemma_layers_go_on(map, size, front, sources, max_depth);
        let last = chunks.last();
        assert forall|j: int| 0 <= j < last.len() implies in_range(
            #[trigger] last[j],
            size as int,
        ) by {
            assert(sources.contains(chunks[chunks.len() - 1][j]));
            let i = choose|i: int| 0 <= i < sources.len() && sources[i] == last[j];
            assert(in_range(sources[i], size as int));
        }
        lemma_flood_all_goes_on(map, fresh_field(size), last, max_depth);
    }
}

/// A build is not stopped where every source lies in the field and no exit
/// of a cell of the field leads out of it, whatever the number of workers.
pub proof fn lemma_build_goes_on<M: BaseMap>(
    map: &M,
    field: Seq<u32>,
    sources: Seq<i32>,
    max_depth: u32,
    workers: int,
)
    requires
        closed_within(map, field.len() as int),
        sources_within(sources, field.len() as int),
    ensures
        build_outcome(map, field, sources, max_depth, workers).fault is None,
{
    if workers >= 1 && sources.len() > workers {
        lemma_chunks_hold_sources(sources, workers);
        lemma_layers_go_on(map, field.len(), chunks_of(sources, workers), sources, max_depth);
    } else {
        lemma_flood_all_goes_on(map, field, sources, max_depth);
    }
}

} // verus!
