//! What holds of every flood: it only lowers cells, each lowered cell holds
//! the cost of a route from a starting cell, and each starting cell ends at
//! zero.

use vstd::prelude::*;
use crate::grid::{BaseMap, in_range, reaches, reaches_from_any, lemma_reaches_itself, lemma_reaches_onward};
use crate::flood::{Frontier, Flood, offer_all, visit, drain, start_at, flood_from, flood_all, unvisited, lemma_offer_all_measure, lemma_offer_all_in_range};
use crate::grid::ExitList;

verus! {

/// Every waiting cell lies in the field, and waits at a depth within
/// `max_depth` that is the cost of a route from `source`.
pub open spec fn waiting_ok<M: BaseMap>(
    map: &M,
    front: Frontier,
    source: i32,
    max_depth: u32,
) -> bool {
    forall|j: int|
        0 <= j < front.stack.len() ==> {
            let entry = #[trigger] front.stack[j];
            &&& in_range(entry.0, front.visited.len() as int)
            &&& entry.1 <= max_depth
            &&& reaches(map, source, entry.0, entry.1 as int)
        }
}

/// `after` is `before` with some cells lowered, each to the cost of a route
/// from `source` that stays within `max_depth`.
pub open spec fn lowered_from<M: BaseMap>(
    map: &M,
    before: Seq<u32>,
    after: Seq<u32>,
    source: i32,
    max_depth: u32,
) -> bool {
    &&& after.len() == before.len()
    &&& forall|c: int|
        0 <= c < before.len() ==> {
            ||| #[trigger] after[c] == before[c]
            ||| {
                &&& after[c] < before[c]
                &&& after[c] <= max_depth
                &&& reaches(map, source, c as i32, after[c] as int)
            }
        }
}

/// `after` is `before` with some cells lowered, each to the cost of a route
/// from one of `sources` that stays within `max_depth`.
pub open spec fn lowered_by<M: BaseMap>(
    map: &M,
    before: Seq<u32>,
    after: Seq<u32>,
    sources: Seq<i32>,
    max_depth: u32,
) -> bool {
    &&& after.len() == before.len()
    &&& forall|c: int|
        0 <= c < before.len() ==> {
            ||| #[trigger] after[c] == before[c]
            ||| {
                &&& after[c] < before[c]
                &&& after[c] <= max_depth
                &&& reaches_from_any(map, sources, c as i32, after[c] as int)
            }
        }
}

/// What a flood from `source` keeps true of itself from the first visit to
/// the last, `origin` being the field it began on.
pub open spec fn steady<M: BaseMap>(
    map: &M,
    s: Flood,
    origin: Seq<u32>,
    source: i32,
    max_depth: u32,
) -> bool {
    &&& s.front.visited.len() == s.field.len()
    &&& waiting_ok(map, s.front, source, max_depth)
    &&& lowered_from(map, origin, s.field, source, max_depth)
}

proof fn lemma_offer_all_waiting<M: BaseMap>(
    map: &M,
    front: Frontier,
    source: i32,
    cell: i32,
    depth: u32,
    n: int,
    max_depth: u32,
)
    requires
        waiting_ok(map, front, source, max_depth),
        reaches(map, source, cell, depth as int),
        0 <= n <= map.exits(cell).len(),
    ensures
        waiting_ok(map, offer_all(front, map.exits(cell).take(n), depth, max_depth), source, max_depth),
    decreases n,
{
    let exits = map.exits(cell).take(n);
    if n > 0 {
        assert(exits.drop_last() =~= map.exits(cell).take(n - 1));
        lemma_offer_all_waiting(map, front, source, cell, depth, n - 1, max_depth);
        lemma_offer_all_measure(front, exits.drop_last(), depth, max_depth);
        lemma_reaches_onward(map, source, cell, depth as int, n - 1);
        let mid = offer_all(front, exits.drop_last(), depth, max_depth);
        let after = offer_all(front, exits, depth, max_depth);
        assert forall|j: int| 0 <= j < after.stack.len() implies {
            let entry = #[trigger] after.stack[j];
            &&& in_range(entry.0, after.visited.len() as int)
            &&& entry.1 <= max_depth
            &&& reaches(map, source, entry.0, entry.1 as int)
        } by {
            if j < mid.stack.len() {
                assert(after.stack[j] == mid.stack[j]);
            }
        }
    }
}

/// One visit keeps a flood steady.
pub proof fn lemma_visit_steady<M: BaseMap>(
    map: &M,
    s: Flood,
    origin: Seq<u32>,
    source: i32,
    max_depth: u32,
)
    requires
        steady(map, s, origin, source, max_depth),
        s.front.stack.len() > 0,
    ensures
        steady(map, visit(map, s, max_depth), origin, source, max_depth),
{
    let top = s.front.stack.last();
    let rest = Frontier { stack: s.front.stack.drop_last(), ..s.front };
    let exits = map.exits(top.0);
    assert(waiting_ok(map, rest, source, max_depth)) by {
        assert forall|j: int| 0 <= j < rest.stack.len() implies {
            let entry = #[trigger] rest.stack[j];
            &&& in_range(entry.0, rest.visited.len() as int)
            &&& entry.1 <= max_depth
            &&& reaches(map, source, entry.0, entry.1 as int)
        } by {
            assert(rest.stack[j] == s.front.stack[j]);
        }
    }
    if s.field[top.0 as int] > top.1 {
        assert(exits.take(exits.len() as int) =~= exits);
        lemma_offer_all_waiting(map, rest, source, top.0, top.1, exits.len() as int, max_depth);
        lemma_offer_all_measure(rest, exits, top.1, max_depth);
    }
}

/// A steady flood is steady at its end.
pub proof fn lemma_drain_steady<M: BaseMap>(
    map: &M,
    s: Flood,
    origin: Seq<u32>,
    source: i32,
    max_depth: u32,
)
    requires
        steady(map, s, origin, source, max_depth),
    ensures
        steady(map, drain(map, s, max_depth), origin, source, max_depth),
    decreases unvisited(s.front.visited), s.front.stack.len(),
{
    if !(s.front.fault is Some || s.front.stack.len() == 0) {
        let top = s.front.stack.last();
        let rest = Frontier { stack: s.front.stack.drop_last(), ..s.front };
        lemma_visit_steady(map, s, origin, source, max_depth);
        lemma_offer_all_measure(rest, map.exits(top.0), top.1, max_depth);
        lemma_drain_steady(map, visit(map, s, max_depth), origin, source, max_depth);
    }
}

/// A flood from a cell of the field lowers cells only, each to the cost of a
/// route from that cell within `max_depth`, and leaves the cell itself at
/// zero.
pub proof fn lemma_flood_from_lowers<M: BaseMap>(
    map: &M,
    field: Seq<u32>,
    source: i32,
    max_depth: u32,
)
    requires
        in_range(source, field.len() as int),
    ensures
        lowered_from(map, field, flood_from(map, field, source, max_depth).field, source, max_depth),
        flood_from(map, field, source, max_depth).field[source as int] == 0,
{
    let first = start_at(field, source);
    lemma_reaches_itself(map, source);
    assert(steady(map, first, field, source, max_depth));
    lemma_visit_steady(map, first, field, source, max_depth);
    let second = visit(map, first, max_depth);
    assert(second.field[source as int] == 0);
    lemma_drain_steady(map, second, field, source, max_depth);
    lemma_drain_steady(map, second, second.field, source, max_depth);
    assert(drain(map, first, max_depth) == drain(map, second, max_depth));
}

/// A route from one of the first sources is a route from one of them all.
proof fn lemma_lowered_by_more<M: BaseMap>(
    map: &M,
    before: Seq<u32>,
    mid: Seq<u32>,
    after: Seq<u32>,
    sources: Seq<i32>,
    max_depth: u32,
)
    requires
        sources.len() > 0,
        lowered_by(map, before, mid, sources.drop_last(), max_depth),
        lowered_from(map, mid, after, sources.last(), max_depth),
    ensures
        lowered_by(map, before, after, sources, max_depth),
{
    assert forall|c: int| 0 <= c < before.len() implies {
        ||| #[trigger] after[c] == before[c]
        ||| {
            &&& after[c] < before[c]
            &&& after[c] <= max_depth
            &&& reaches_from_any(map, sources, c as i32, after[c] as int)
        }
    } by {
        if after[c] != mid[c] {
            assert(reaches(map, sources[sources.len() - 1], c as i32, after[c] as int));
        } else if mid[c] != before[c] {
            let k = choose|k: int|
                0 <= k < sources.drop_last().len() && reaches(
                    map,
                    #[trigger] sources.drop_last()[k],
                    c as i32,
                    mid[c] as int,
                );
            assert(reaches(map, sources[k], c as i32, after[c] as int));
        }
    }
}

/// A build lowers cells only, each to the cost of a route from one of its
/// sources that stays within `max_depth`.
pub proof fn lemma_flood_all_lowers<M: BaseMap>(
    map: &M,
    field: Seq<u32>,
    sources: Seq<i32>,
    max_depth: u32,
)
    ensures
        lowered_by(map, field, flood_all(map, field, sources, max_depth).field, sources, max_depth),
    decreases sources.len(),
{
    if sources.len() > 0 {
        lemma_flood_all_lowers(map, field, sources.drop_last(), max_depth);
        let before = flood_all(map, field, sources.drop_last(), max_depth);
        let after = flood_all(map, field, sources, max_depth);
        if before.fault is None && in_range(sources.last(), before.field.len() as int) {
            lemma_flood_from_lowers(map, before.field, sources.last(), max_depth);
        }
        lemma_lowered_by_more(map, field, before.field, after.field, sources, max_depth);
    }
}

/// A build that is not stopped leaves each of its sources at zero.
pub proof fn lemma_flood_all_zeroes_sources<M: BaseMap>(
    map: &M,
    field: Seq<u32>,
    sources: Seq<i32>,
    max_depth: u32,
)
    requires
        flood_all(map, field, sources, max_depth).fault is None,
    ensures
        forall|k: int|
            0 <= k < sources.len() ==> {
                &&& in_range(#[trigger] sources[k], field.len() as int)
                &&& flood_all(map, field, sources, max_depth).field[sources[k] as int] == 0
            },
    decreases sources.len(),
{
    if sources.len() > 0 {
        let before = flood_all(map, field, sources.drop_last(), max_depth);
        let after = flood_all(map, field, sources, max_depth);
        lemma_flood_all_lowers(map, field, sources.drop_last(), max_depth);
        lemma_flood_all_zeroes_sources(map, field, sources.drop_last(), max_depth);
        lemma_flood_from_lowers(map, before.field, sources.last(), max_depth);
        assert forall|k: int| 0 <= k < sources.len() implies {
            &&& in_range(#[trigger] sources[k], field.len() as int)
            &&& after.field[sources[k] as int] == 0
        } by {
            if k < sources.len() - 1 {
                assert(sources[k] == sources.drop_last()[k]);
                assert(before.field[sources[k] as int] == 0);
            }
        }
    }
}

/// The marks cover the field, and every waiting cell lies in it.
pub open spec fn tidy(s: Flood) -> bool {
    &&& s.front.visited.len() == s.field.len()
    &&& forall|j: int|
        0 <= j < s.front.stack.len() ==> in_range(
            (#[trigger] s.front.stack[j]).0,
            s.field.len() as int,
        )
}

/// Two maps give the same exits for each of the first `size` cells.
pub open spec fn agree<A: BaseMap, B: BaseMap>(a: &A, b: &B, size: int) -> bool {
    forall|idx: i32| in_range(idx, size) ==> #[trigger] a.exits(idx) == b.exits(idx)
}

proof fn lemma_visit_tidy<M: BaseMap>(map: &M, s: Flood, max_depth: u32)
    requires
        tidy(s),
        s.front.stack.len() > 0,
    ensures
        tidy(visit(map, s, max_depth)),
{
    let top = s.front.stack.last();
    let rest = Frontier { stack: s.front.stack.drop_last(), ..s.front };
    assert forall|j: int| 0 <= j < rest.stack.len() implies in_range(
        (#[trigger] rest.stack[j]).0,
        rest.visited.len() as int,
    ) by {
        assert(rest.stack[j] == s.front.stack[j]);
    }
    lemma_offer_all_in_range(rest, map.exits(top.0), top.1, max_depth);
    lemma_offer_all_measure(rest, map.exits(top.0), top.1, max_depth);
}

/// A flood asks only for the exits of cells of its field.
pub proof fn lemma_drain_agrees<A: BaseMap, B: BaseMap>(a: &A, b: &B, s: Flood, max_depth: u32)
    requires
        agree(a, b, s.field.len() as int),
        tidy(s),
    ensures
        drain(a, s, max_depth) == drain(b, s, max_depth),
    decreases unvisited(s.front.visited), s.front.stack.len(),
{
    if !(s.front.fault is Some || s.front.stack.len() == 0) {
        let top = s.front.stack.last();
        let rest = Frontier { stack: s.front.stack.drop_last(), ..s.front };
        assert(in_range(top.0, s.field.len() as int));
        assert(a.exits(top.0) == b.exits(top.0));
        lemma_visit_tidy(a, s, max_depth);
        lemma_offer_all_measure(rest, a.exits(top.0), top.1, max_depth);
        lemma_drain_agrees(a, b, visit(a, s, max_depth), max_depth);
    }
}

/// A build on a field depends on the map only through the exits of the
/// cells of that field.
pub proof fn lemma_flood_all_agrees<A: BaseMap, B: BaseMap>(
    a: &A,
    b: &B,
    field: Seq<u32>,
    sources: Seq<i32>,
    max_depth: u32,
)
    requires
        agree(a, b, field.len() as int),
    ensures
        flood_all(a, field, sources, max_depth) == flood_all(b, field, sources, max_depth),
    decreases sources.len(),
{
    if sources.len() > 0 {
        lemma_flood_all_agrees(a, b, field, sources.drop_last(), max_depth);
        lemma_flood_all_lowers(a, field, sources.drop_last(), max_depth);
        let before = flood_all(a, field, sources.drop_last(), max_depth);
        if before.fault is None && in_range(sources.last(), before.field.len() as int) {
            lemma_drain_agrees(a, b, start_at(before.field, sources.last()), max_depth);
        }
    }
}

/// Every exit of each of the first `size` cells leads to one of them.
pub open spec fn closed_within<M: BaseMap>(map: &M, size: int) -> bool {
    forall|cell: i32, k: int|
        in_range(cell, size) && 0 <= k < map.exits(cell).len() ==> in_range(
            (#[trigger] map.exits(cell)[k]).0,
            size,
        )
}

/// Every source is one of the first `size` cells.
pub open spec fn sources_within(sources: Seq<i32>, size: int) -> bool {
    forall|j: int| 0 <= j < sources.len() ==> in_range(#[trigger] sources[j], size)
}

proof fn lemma_offer_all_goes_on(front: Frontier, exits: ExitList, depth: u32, max_depth: u32)
    requires
        front.fault is None,
        forall|k: int|
            0 <= k < exits.len() ==> in_range((#[trigger] exits[k]).0, front.visited.len() as int),
    ensures
        offer_all(front, exits, depth, max_depth).fault is None,
    decreases exits.len(),
{
    if exits.len() > 0 {
        let shorter = exits.drop_last();
        assert forall|k: int| 0 <= k < shorter.len() implies in_range(
            (#[trigger] shorter[k]).0,
            front.visited.len() as int,
        ) by {
            assert(shorter[k] == exits[k]);
        }
        lemma_offer_all_goes_on(front, shorter, depth, max_depth);
        lemma_offer_all_measure(front, shorter, depth, max_depth);
        assert(in_range(exits[exits.len() - 1].0, front.visited.len() as int));
    }
}

proof fn lemma_drain_goes_on<M: BaseMap>(map: &M, s: Flood, max_depth: u32)
    requires
        closed_within(map, s.field.len() as int),
        tidy(s),
        s.front.fault is None,
    ensures
        drain(map, s, max_depth).front.fault is None,
    decreases unvisited(s.front.visited), s.front.stack.len(),
{
    if s.front.stack.len() > 0 {
        let top = s.front.stack.last();
        let rest = Frontier { stack: s.front.stack.drop_last(), ..s.front };
        assert(in_range(top.0, s.field.len() as int));
        lemma_offer_all_goes_on(rest, map.exits(top.0), top.1, max_depth);
        lemma_visit_tidy(map, s, max_depth);
        lemma_offer_all_measure(rest, map.exits(top.0), top.1, max_depth);
        lemma_drain_goes_on(map, visit(map, s, max_depth), max_depth);
    }
}

/// A build is not stopped where every source lies in the field and no exit
/// leads out of it.
pub proof fn lemma_flood_all_goes_on<M: BaseMap>(
    map: &M,
    field: Seq<u32>,
    sources: Seq<i32>,
    max_depth: u32,
)
    requires
        closed_within(map, field.len() as int),
        sources_within(sources, field.len() as int),
    ensures
        flood_all(map, field, sources, max_depth).fault is None,
    decreases sources.len(),
{
    if sources.len() > 0 {
        let shorter = sources.drop_last();
        assert forall|j: int| 0 <= j < shorter.len() implies in_range(
            #[trigger] shorter[j],
            field.len() as int,
        ) by {
            assert(shorter[j] == sources[j]);
        }
        lemma_flood_all_goes_on(map, field, shorter, max_depth);
        lemma_flood_all_lowers(map, field, shorter, max_depth);
        let before = flood_all(map, field, shorter, max_depth);
        assert(in_range(sources[sources.len() - 1], field.len() as int));
        lemma_drain_goes_on(map, start_at(before.field, sources.last()), max_depth);
    }
}

} // verus!
