//! The flood that fills a flow map: from each starting cell in turn, a
//! last-in-first-out sweep that lowers the cells it comes to.

use vstd::prelude::*;
use crate::grid::{BaseMap, ExitList, in_range};

verus! {

/// The value of a cell that no flood has come to.
pub const UNREACHABLE: u32 = 4294967295;

/// The cells that wait to be visited, last in first out, with the depth at
/// which each was found; the cells that have waited there before; and the
/// first index outside the field that an exit named, if one did.
pub struct Frontier {
    pub stack: Seq<(i32, u32)>,
    pub visited: Seq<bool>,
    pub fault: Option<i32>,
}

/// A flood under way.
pub struct Flood {
    pub field: Seq<u32>,
    pub front: Frontier,
}

/// A field after a build, and the index outside it that stopped the build,
/// if one did.
pub struct Built {
    pub field: Seq<u32>,
    pub fault: Option<i32>,
}

/// How many cells have not waited on the stack yet.
pub open spec fn unvisited(visited: Seq<bool>) -> nat
    decreases visited.len(),
{
    if visited.len() == 0 {
        0
    } else {
        unvisited(visited.drop_last()) + if visited.last() {
            0nat
        } else {
            1nat
        }
    }
}

/// One exit is looked at: an index outside the field stops the flood; a cell
/// beyond `max_depth`, or one that has waited before, is passed over; any
/// other cell is marked and put on the stack.
pub open spec fn offer(front: Frontier, idx: i32, new_depth: int, max_depth: u32) -> Frontier {
    if front.fault is Some {
        front
    } else if !in_range(idx, front.visited.len() as int) {
        Frontier { fault: Some(idx), ..front }
    } else if new_depth > max_depth || front.visited[idx as int] {
        front
    } else {
        Frontier {
            stack: front.stack.push((idx, new_depth as u32)),
            visited: front.visited.update(idx as int, true),
            fault: None,
        }
    }
}

/// The exits of a cell found at `depth` are looked at in order.
pub open spec fn offer_all(front: Frontier, exits: ExitList, depth: u32, max_depth: u32) -> Frontier
    decreases exits.len(),
{
    if exits.len() == 0 {
        front
    } else {
        offer(
            offer_all(front, exits.drop_last(), depth, max_depth),
            exits.last().0,
            depth + exits.last().1,
            max_depth,
        )
    }
}

/// The cell on top of the stack is taken off. Where the field holds more
/// than the depth at which it was found, the field is lowered to that depth
/// and the cell's exits are looked at.
pub open spec fn visit<M: BaseMap>(map: &M, s: Flood, max_depth: u32) -> Flood {
    let top = s.front.stack.last();
    let rest = Frontier { stack: s.front.stack.drop_last(), ..s.front };
    if s.field[top.0 as int] > top.1 {
        Flood {
            field: s.field.update(top.0 as int, top.1),
            front: offer_all(rest, map.exits(top.0), top.1, max_depth),
        }
    } else {
        Flood { field: s.field, front: rest }
    }
}

/// Cells are visited until the stack is empty or an exit has named an index
/// outside the field.
pub open spec fn drain<M: BaseMap>(map: &M, s: Flood, max_depth: u32) -> Flood
    decreases unvisited(s.front.visited), s.front.stack.len(),
    via drain_decreases::<M>
{
    if s.front.fault is Some || s.front.stack.len() == 0 {
        s
    } else {
        drain(map, visit(map, s, max_depth), max_depth)
    }
}

#[via_fn]
proof fn drain_decreases<M: BaseMap>(map: &M, s: Flood, max_depth: u32) {
    if !(s.front.fault is Some || s.front.stack.len() == 0) {
        let top = s.front.stack.last();
        let rest = Frontier { stack: s.front.stack.drop_last(), ..s.front };
        lemma_offer_all_measure(rest, map.exits(top.0), top.1, max_depth);
    }
}

/// The flood that is made of these four parts.
pub open spec fn afloat(
    field: Seq<u32>,
    stack: Seq<(i32, u32)>,
    visited: Seq<bool>,
    fault: Option<i32>,
) -> Flood {
    Flood { field, front: Frontier { stack, visited, fault } }
}

/// The flood as it stands when `source` alone waits, at depth 0, and no cell
/// is marked.
pub open spec fn start_at(field: Seq<u32>, source: i32) -> Flood {
    Flood {
        field,
        front: Frontier {
            stack: seq![(source, 0u32)],
            visited: Seq::new(field.len(), |i: int| false),
            fault: None,
        },
    }
}

/// The flood from one starting cell, run to its end.
pub open spec fn flood_from<M: BaseMap>(
    map: &M,
    field: Seq<u32>,
    source: i32,
    max_depth: u32,
) -> Flood {
    drain(map, start_at(field, source), max_depth)
}

/// The floods from `sources`, one after another on the same field. A source
/// outside the field stops the build before its flood, an exit outside the
/// field stops it within one.
pub open spec fn flood_all<M: BaseMap>(
    map: &M,
    field: Seq<u32>,
    sources: Seq<i32>,
    max_depth: u32,
) -> Built
    decreases sources.len(),
{
    if sources.len() == 0 {
        Built { field, fault: None }
    } else {
        let before = flood_all(map, field, sources.drop_last(), max_depth);
        let source = sources.last();
        if before.fault is Some {
            before
        } else if !in_range(source, before.field.len() as int) {
            Built { field: before.field, fault: Some(source) }
        } else {
            let after = flood_from(map, before.field, source, max_depth);
            Built { field: after.field, fault: after.front.fault }
        }
    }
}

/// Marking a cell that was not marked leaves one cell fewer unmarked.
pub proof fn lemma_mark(visited: Seq<bool>, i: int)
    requires
        0 <= i < visited.len(),
        !visited[i],
    ensures
        unvisited(visited.update(i, true)) + 1 == unvisited(visited),
    decreases visited.len(),
{
    let marked = visited.update(i, true);
    if i == visited.len() - 1 {
        assert(marked.drop_last() =~= visited.drop_last());
    } else {
        assert(marked.drop_last() =~= visited.drop_last().update(i, true));
        lemma_mark(visited.drop_last(), i);
    }
}

/// Looking at exits only adds to the stack, and marks one cell for each one
/// that it adds.
pub proof fn lemma_offer_all_measure(
    front: Frontier,
    exits: ExitList,
    depth: u32,
    max_depth: u32,
)
    ensures
        ({
            let after = offer_all(front, exits, depth, max_depth);
            &&& after.visited.len() == front.visited.len()
            &&& after.stack.len() >= front.stack.len()
            &&& unvisited(after.visited) + after.stack.len() == unvisited(front.visited)
                + front.stack.len()
            &&& after.stack.take(front.stack.len() as int) == front.stack
        }),
    decreases exits.len(),
{
    if exits.len() > 0 {
        lemma_offer_all_measure(front, exits.drop_last(), depth, max_depth);
        let mid = offer_all(front, exits.drop_last(), depth, max_depth);
        let after = offer(mid, exits.last().0, depth + exits.last().1, max_depth);
        if after.stack.len() > mid.stack.len() {
            lemma_mark(mid.visited, exits.last().0 as int);
        }
        assert(after.stack.take(front.stack.len() as int) =~= mid.stack.take(
            front.stack.len() as int,
        ));
    } else {
        assert(front.stack.take(front.stack.len() as int) =~= front.stack);
    }
}

/// Looking at exits puts only cells of the field on the stack.
pub proof fn lemma_offer_all_in_range(
    front: Frontier,
    exits: ExitList,
    depth: u32,
    max_depth: u32,
)
    requires
        forall|j: int|
            0 <= j < front.stack.len() ==> in_range(
                (#[trigger] front.stack[j]).0,
                front.visited.len() as int,
            ),
    ensures
        ({
            let after = offer_all(front, exits, depth, max_depth);
            forall|j: int|
                0 <= j < after.stack.len() ==> in_range(
                    (#[trigger] after.stack[j]).0,
                    front.visited.len() as int,
                )
        }),
    decreases exits.len(),
{
    if exits.len() > 0 {
        lemma_offer_all_in_range(front, exits.drop_last(), depth, max_depth);
        lemma_offer_all_measure(front, exits.drop_last(), depth, max_depth);
    }
}

/// Once an exit has named an index outside the field, the exits after it
/// change nothing.
pub proof fn lemma_offer_all_stops(
    front: Frontier,
    exits: ExitList,
    n: int,
    depth: u32,
    max_depth: u32,
)
    requires
        0 <= n <= exits.len(),
        offer_all(front, exits.take(n), depth, max_depth).fault is Some,
    ensures
        offer_all(front, exits, depth, max_depth) == offer_all(
            front,
            exits.take(n),
            depth,
            max_depth,
        ),
    decreases exits.len() - n,
{
    if n < exits.len() {
        assert(exits.take(n + 1).drop_last() =~= exits.take(n));
        lemma_offer_all_stops(front, exits, n + 1, depth, max_depth);
    } else {
        assert(exits.take(n) =~= exits);
    }
}

/// Once a build has stopped, the sources after that point change nothing.
pub proof fn lemma_flood_all_stops<M: BaseMap>(
    map: &M,
    field: Seq<u32>,
    sources: Seq<i32>,
    n: int,
    max_depth: u32,
)
    requires
        0 <= n <= sources.len(),
        flood_all(map, field, sources.take(n), max_depth).fault is Some,
    ensures
        flood_all(map, field, sources, max_depth) == flood_all(
            map,
            field,
            sources.take(n),
            max_depth,
        ),
    decreases sources.len() - n,
{
    if n < sources.len() {
        assert(sources.take(n + 1).drop_last() =~= sources.take(n));
        lemma_flood_all_stops(map, field, sources, n + 1, max_depth);
    } else {
        assert(sources.take(n) =~= sources);
    }
}

/// Puts `idx` on the open list at `new_depth` unless that is deeper than
/// `max_depth` or the cell is on the closed list already, and adds it to the
/// closed list. Hands back `idx` where it lies outside the closed list.
pub fn add_if_open(
    max_depth: u32,
    idx: i32,
    open_list: &mut Vec<(i32, u32)>,
    closed_list: &mut Vec<bool>,
    new_depth: u64,
) -> (fault: Option<i32>)
    ensures
        ({
            let before = Frontier {
                stack: old(open_list)@,
                visited: old(closed_list)@,
                fault: None,
            };
            let after = offer(before, idx, new_depth as int, max_depth);
            &&& final(open_list)@ == after.stack
            &&& final(closed_list)@ == after.visited
            &&& fault == after.fault
        }),
{
    if idx < 0 || idx as usize >= closed_list.len() {
        return Some(idx);
    }
    if new_depth > max_depth as u64 {
        return None;
    }
    if closed_list[idx as usize] {
        return None;
    }
    closed_list[idx as usize] = true;
    open_list.push((idx, new_depth as u32));
    None
}

/// Looks at the exits of a cell that was found at `depth`, in order, and
/// stops at the first that names an index outside the closed list.
fn offer_exits(
    exits: &Vec<(i32, u32)>,
    depth: u32,
    max_depth: u32,
    open_list: &mut Vec<(i32, u32)>,
    closed_list: &mut Vec<bool>,
) -> (fault: Option<i32>)
    ensures
        ({
            let before = Frontier {
                stack: old(open_list)@,
                visited: old(closed_list)@,
                fault: None,
            };
            let after = offer_all(before, exits@, depth, max_depth);
            &&& final(open_list)@ == after.stack
            &&& final(closed_list)@ == after.visited
            &&& fault == after.fault
        }),
{
    let ghost before = Frontier { stack: open_list@, visited: closed_list@, fault: None };
    let mut i: usize = 0;
    while i < exits.len()
        invariant
            i <= exits.len(),
            before.stack == old(open_list)@,
            before.visited == old(closed_list)@,
            before.fault is None,
            offer_all(before, exits@.take(i as int), depth, max_depth) == (Frontier {
                stack: open_list@,
                visited: closed_list@,
                fault: None,
            }),
        decreases exits.len() - i,
    {
        let exit = exits[i];
        let fault = add_if_open(
            max_depth,
            exit.0,
            open_list,
            closed_list,
            depth as u64 + exit.1 as u64,
        );
        proof {
            assert(exits@.take(i + 1).drop_last() =~= exits@.take(i as int));
        }
        if fault.is_some() {
            proof {
                lemma_offer_all_stops(before, exits@, i + 1, depth, max_depth);
            }
            return fault;
        }
        i += 1;
    }
    proof {
        assert(exits@.take(exits@.len() as int) =~= exits@);
    }
    None
}

/// Takes every cell off the closed list.
fn reopen(closed_list: &mut Vec<bool>)
    ensures
        final(closed_list)@ == Seq::new(old(closed_list)@.len(), |i: int| false),
{
    let mut i: usize = 0;
    while i < closed_list.len()
        invariant
            i <= closed_list.len(),
            closed_list@.len() == old(closed_list)@.len(),
            forall|j: int| 0 <= j < i ==> !closed_list@[j],
        decreases closed_list.len() - i,
    {
        closed_list[i] = false;
        i += 1;
    }
    proof {
        assert(closed_list@ =~= Seq::new(old(closed_list)@.len(), |i: int| false));
    }
}

/// Floods `field` from `source`. The two lists are scratch space: what they
/// hold on entry is thrown away.
pub fn flood_one<M: BaseMap>(
    field: &mut Vec<u32>,
    source: i32,
    map: &M,
    max_depth: u32,
    open_list: &mut Vec<(i32, u32)>,
    closed_list: &mut Vec<bool>,
) -> (fault: Option<i32>)
    requires
        in_range(source, old(field)@.len() as int),
        old(closed_list)@.len() == old(field)@.len(),
    ensures
        final(field)@ == flood_from(map, old(field)@, source, max_depth).field,
        fault == flood_from(map, old(field)@, source, max_depth).front.fault,
        final(field)@.len() == old(field)@.len(),
        final(closed_list)@.len() == old(closed_list)@.len(),
{
    let ghost size = field@.len();
    let ghost goal = flood_from(map, field@, source, max_depth);
    open_list.clear();
    reopen(closed_list);
    open_list.push((source, 0));
    let mut fault: Option<i32> = None;
    proof {
        assert(open_list@ =~= seq![(source, 0u32)]);
    }
    while !open_list.is_empty() && fault.is_none()
        invariant
            field@.len() == size,
            closed_list@.len() == size,
            forall|j: int|
                0 <= j < open_list@.len() ==> in_range((#[trigger] open_list@[j]).0, size as int),
            drain(map, afloat(field@, open_list@, closed_list@, fault), max_depth) == goal,
        decreases unvisited(closed_list@), open_list@.len(),
    {
        let ghost before = Flood {
            field: field@,
            front: Frontier { stack: open_list@, visited: closed_list@, fault },
        };
        let current_tile = open_list.pop().unwrap();
        let tile_idx = current_tile.0;
        let depth = current_tile.1;
        let ghost rest = Frontier { stack: open_list@, visited: closed_list@, fault: None };
        if field[tile_idx as usize] > depth {
            field[tile_idx as usize] = depth;
            let exits = map.get_available_exits(tile_idx);
            fault = offer_exits(&exits, depth, max_depth, open_list, closed_list);
            proof {
                lemma_offer_all_measure(rest, exits@, depth, max_depth);
                lemma_offer_all_in_range(rest, exits@, depth, max_depth);
            }
        }
        proof {
            assert(Flood {
                field: field@,
                front: Frontier { stack: open_list@, visited: closed_list@, fault },
            } == visit(map, before, max_depth));
        }
    }
    fault
}

/// Floods `field` from each of `sources` in turn, and stops at the first
/// index outside the field that a source or an exit names.
pub fn flood_sources<M: BaseMap>(
    field: &mut Vec<u32>,
    sources: &Vec<i32>,
    map: &M,
    max_depth: u32,
) -> (fault: Option<i32>)
    ensures
        flood_all(map, old(field)@, sources@, max_depth) == (Built { field: final(field)@, fault }),
        final(field)@.len() == old(field)@.len(),
{
    let mapsize = field.len();
    let mut open_list: Vec<(i32, u32)> = Vec::new();
    let mut closed_list: Vec<bool> = vec![false; mapsize];
    let mut i: usize = 0;
    while i < sources.len()
        invariant
            i <= sources.len(),
            field@.len() == mapsize,
            closed_list@.len() == mapsize,
            mapsize == old(field)@.len(),
            flood_all(map, old(field)@, sources@.take(i as int), max_depth) == (Built {
                field: field@,
                fault: None,
            }),
        decreases sources.len() - i,
    {
        let start = sources[i];
        proof {
            assert(sources@.take(i + 1).drop_last() =~= sources@.take(i as int));
        }
        if start < 0 || start as usize >= mapsize {
            proof {
                lemma_flood_all_stops(map, old(field)@, sources@, i + 1, max_depth);
            }
            return Some(start);
        }
        let fault = flood_one(field, start, map, max_depth, &mut open_list, &mut closed_list);
        if fault.is_some() {
            proof {
                lemma_flood_all_stops(map, old(field)@, sources@, i + 1, max_depth);
            }
            return fault;
        }
        i += 1;
    }
    proof {
        assert(sources@.take(sources@.len() as int) =~= sources@);
    }
    None
}

} // verus!
