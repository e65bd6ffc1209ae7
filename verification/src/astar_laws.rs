//! What holds of every search: the route it hands back is a walk of the
//! map from the start to the goal, and no search outlasts its step limit.

use vstd::prelude::*;
use crate::grid::{BaseMap, has_exit, is_walk, walk_between};
use crate::astar::{Node, Search, MAX_ASTAR_STEPS, begin, best, cost_bound, succeed, succeed_all, expand, run, trace, without_best, search_outcome};
use crate::grid::ExitList;

verus! {

/// Every cell with a parent is one of that parent's exits.
pub open spec fn links_ok<M: BaseMap>(map: &M, parents: Map<i32, i32>) -> bool {
    forall|cell: i32| #[trigger] parents.contains_key(cell) ==> has_exit(map, parents[cell], cell)
}

/// The candidate that is taken has the least score, and is the first with
/// that score.
pub proof fn lemma_best_is_first_least(open: Seq<Node>)
    requires
        open.len() > 0,
    ensures
        0 <= best(open) < open.len(),
        forall|j: int| 0 <= j < open.len() ==> open[best(open)].f <= (#[trigger] open[j]).f,
        forall|j: int| 0 <= j < best(open) ==> open[best(open)].f < (#[trigger] open[j]).f,
    decreases open.len(),
{
    if open.len() > 1 {
        let front = open.drop_last();
        lemma_best_is_first_least(front);
        assert forall|j: int| 0 <= j < open.len() implies open[best(open)].f <= (
        #[trigger] open[j]).f by {
            if j < front.len() {
                assert(front[j] == open[j]);
            }
        }
        assert forall|j: int| 0 <= j < best(open) implies open[best(open)].f < (
        #[trigger] open[j]).f by {
            assert(front[j] == open[j]);
        }
    }
}

proof fn lemma_succeed_all_links<M: BaseMap>(map: &M, s: Search, q: Node, n: int, end: i32)
    requires
        links_ok(map, s.parents),
        0 <= n <= map.exits(q.idx).len(),
    ensures
        links_ok(map, succeed_all(map, s, q, map.exits(q.idx).take(n), end).parents),
    decreases n,
{
    if n > 0 {
        let exits = map.exits(q.idx).take(n);
        assert(exits.drop_last() =~= map.exits(q.idx).take(n - 1));
        lemma_succeed_all_links(map, s, q, n - 1, end);
        let mid = succeed_all(map, s, q, exits.drop_last(), end);
        let after = succeed_all(map, s, q, exits, end);
        assert(map.exits(q.idx)[n - 1].0 == exits.last().0);
        assert(has_exit(map, q.idx, exits.last().0));
        assert forall|cell: i32| #[trigger] after.parents.contains_key(cell) implies has_exit(
            map,
            after.parents[cell],
            cell,
        ) by {
            if after.parents != mid.parents && cell != exits.last().0 {
                assert(mid.parents.contains_key(cell));
            }
        }
    }
}

proof fn lemma_expand_links<M: BaseMap>(map: &M, s: Search, end: i32)
    requires
        links_ok(map, s.parents),
    ensures
        links_ok(map, expand(map, s, end).parents),
{
    let q = s.open[best(s.open)];
    let exits = map.exits(q.idx);
    assert(exits.take(exits.len() as int) =~= exits);
    lemma_succeed_all_links(map, without_best(s), q, exits.len() as int, end);
}

proof fn lemma_run_links<M: BaseMap>(map: &M, s: Search, end: i32, budget: nat)
    requires
        links_ok(map, s.parents),
    ensures
        links_ok(map, run(map, s, end, budget).parents),
    decreases budget,
{
    if !(budget == 0 || s.found || s.open.len() == 0) {
        lemma_expand_links(map, s, end);
        lemma_run_links(map, expand(map, s, end), end, (budget - 1) as nat);
    }
}

/// Where every parent leads to its cell by an exit, the cells read off the
/// parents are a walk from `start` to `cell` of at most `budget` exits.
pub proof fn lemma_trace_walk<M: BaseMap>(
    map: &M,
    parents: Map<i32, i32>,
    start: i32,
    cell: i32,
    budget: nat,
)
    requires
        links_ok(map, parents),
    ensures
        match trace(parents, start, cell, budget) {
            Some(path) => walk_between(map, start, cell, path) && path.len() <= budget + 1,
            None => true,
        },
    decreases budget,
{
    if cell != start && budget > 0 && parents.contains_key(cell) {
        lemma_trace_walk(map, parents, start, parents[cell], (budget - 1) as nat);
        match trace(parents, start, parents[cell], (budget - 1) as nat) {
            Some(shorter) => {
                let path = shorter.push(cell);
                assert forall|i: int| 0 <= i < path.len() - 1 implies has_exit(
                    map,
                    #[trigger] path[i],
                    path[i + 1],
                ) by {
                    if i < shorter.len() - 1 {
                        assert(path[i] == shorter[i]);
                        assert(path[i + 1] == shorter[i + 1]);
                    }
                }
                assert(is_walk(map, path));
            },
            None => {},
        }
    }
}

/// A search that succeeds hands back a walk of the map that begins at the
/// start, ends at the goal and takes no more exits than the step limit; one
/// that fails hands back no cells.
pub proof fn lemma_search_finds_walks<M: BaseMap>(map: &M, start: i32, end: i32)
    ensures
        ({
            let outcome = search_outcome(map, start, end);
            &&& outcome.success ==> walk_between(map, start, end, outcome.steps)
                && outcome.steps.len() <= MAX_ASTAR_STEPS + 1
            &&& !outcome.success ==> outcome.steps.len() == 0
        }),
{
    if start != end {
        let first = begin(map, start, end);
        lemma_run_links(map, first, end, MAX_ASTAR_STEPS as nat);
        let last = run(map, first, end, MAX_ASTAR_STEPS as nat);
        lemma_trace_walk(map, last.parents, start, end, MAX_ASTAR_STEPS as nat);
    } else {
        assert(is_walk(map, seq![start]));
    }
}

/// A search for the cell it starts from succeeds with that cell alone.
pub proof fn lemma_search_to_itself<M: BaseMap>(map: &M, cell: i32)
    ensures
        search_outcome(map, cell, cell).success,
        search_outcome(map, cell, cell).steps == seq![cell],
{
}

/// A search from a cell without exits for any other cell fails.
pub proof fn lemma_search_from_dead_end<M: BaseMap>(map: &M, start: i32, end: i32)
    requires
        start != end,
        map.exits(start).len() == 0,
    ensures
        !search_outcome(map, start, end).success,
{
    let first = begin(map, start, end);
    let second = expand(map, first, end);
    assert(best(first.open) == 0);
    assert(without_best(first).open =~= Seq::<Node>::empty());
    assert(second.open.len() == 0);
    assert(!second.found);
    assert(run(map, first, end, MAX_ASTAR_STEPS as nat) == run(
        map,
        second,
        end,
        (MAX_ASTAR_STEPS - 1) as nat,
    ));
    assert(run(map, second, end, (MAX_ASTAR_STEPS - 1) as nat) == second);
}

/// A search that has not seen the goal when the step limit is reached
/// fails.
pub proof fn lemma_search_gives_up<M: BaseMap>(map: &M, start: i32, end: i32)
    requires
        start != end,
        !run(map, begin(map, start, end), end, MAX_ASTAR_STEPS as nat).found,
    ensures
        !search_outcome(map, start, end).success,
        search_outcome(map, start, end).steps.len() == 0,
{
}

/// Where every walk from the start to the goal takes more exits than the
/// step limit, the search fails.
pub proof fn lemma_search_fails_out_of_reach<M: BaseMap>(map: &M, start: i32, end: i32)
    requires
        forall|cells: Seq<i32>| #[trigger]
            walk_between(map, start, end, cells) ==> cells.len() > MAX_ASTAR_STEPS + 1,
    ensures
        !search_outcome(map, start, end).success,
{
    lemma_search_finds_walks(map, start, end);
}

/// Each candidate's score is the sum of its cost and its estimate, and its
/// cost is no more than `steps` exits can cost.
pub open spec fn sums_ok(s: Search, steps: int) -> bool {
    forall|j: int|
        0 <= j < s.open.len() ==> {
            let node = #[trigger] s.open[j];
            &&& node.g <= cost_bound(steps)
            &&& node.h <= 0xffff_ffff
            &&& node.f == node.g + node.h
        }
}

proof fn lemma_succeed_all_sums<M: BaseMap>(
    map: &M,
    s: Search,
    q: Node,
    exits: ExitList,
    end: i32,
    steps: int,
)
    requires
        0 <= steps < MAX_ASTAR_STEPS,
        sums_ok(s, steps + 1),
        q.g <= cost_bound(steps),
    ensures
        sums_ok(succeed_all(map, s, q, exits, end), steps + 1),
    decreases exits.len(),
{
    if exits.len() > 0 {
        lemma_succeed_all_sums(map, s, q, exits.drop_last(), end, steps);
        let mid = succeed_all(map, s, q, exits.drop_last(), end);
        let after = succeed_all(map, s, q, exits, end);
        assert forall|j: int| 0 <= j < after.open.len() implies {
            let node = #[trigger] after.open[j];
            &&& node.g <= cost_bound(steps + 1)
            &&& node.h <= 0xffff_ffff
            &&& node.f == node.g + node.h
        } by {
            if j < mid.open.len() {
                assert(after.open[j] == mid.open[j]);
            }
        }
    }
}

proof fn lemma_expand_sums<M: BaseMap>(map: &M, s: Search, end: i32, steps: int)
    requires
        0 <= steps < MAX_ASTAR_STEPS,
        sums_ok(s, steps),
        s.open.len() > 0,
    ensures
        sums_ok(expand(map, s, end), steps + 1),
{
    lemma_best_is_first_least(s.open);
    let q = s.open[best(s.open)];
    let popped = without_best(s);
    assert forall|j: int| 0 <= j < popped.open.len() implies {
        let node = #[trigger] popped.open[j];
        &&& node.g <= cost_bound(steps + 1)
        &&& node.h <= 0xffff_ffff
        &&& node.f == node.g + node.h
    } by {
        if j < best(s.open) {
            assert(popped.open[j] == s.open[j]);
        } else {
            assert(popped.open[j] == s.open[j + 1]);
        }
    }
    lemma_succeed_all_sums(map, popped, q, map.exits(q.idx), end, steps);
}

proof fn lemma_scores_fit<M: BaseMap>(map: &M, s: Search, end: i32, steps: int, budget: nat)
    requires
        0 <= steps,
        steps + budget <= MAX_ASTAR_STEPS,
        sums_ok(s, steps),
    ensures
        sums_ok(run(map, s, end, budget), steps + budget),
    decreases budget,
{
    if !(budget == 0 || s.found || s.open.len() == 0) {
        lemma_expand_sums(map, s, end, steps);
        lemma_scores_fit(map, expand(map, s, end), end, steps + 1, (budget - 1) as nat);
    } else {
        assert forall|j: int| 0 <= j < s.open.len() implies (#[trigger] s.open[j]).g <= cost_bound(
            steps + budget,
        ) by {}
    }
}

/// Once the goal has been seen, the cell whose exit led to it stays its
/// parent.
proof fn lemma_succeed_all_found<M: BaseMap>(
    map: &M,
    s: Search,
    q: Node,
    exits: ExitList,
    end: i32,
    k: int,
)
    requires
        !s.found,
        0 <= k < exits.len(),
        exits[k].0 == end,
    ensures
        succeed_all(map, s, q, exits, end).found,
        succeed_all(map, s, q, exits, end).parents.contains_key(end),
        succeed_all(map, s, q, exits, end).parents[end] == q.idx,
    decreases exits.len(),
{
    let front = exits.drop_last();
    let mid = succeed_all(map, s, q, front, end);
    if k < exits.len() - 1 {
        assert(front[k] == exits[k]);
        lemma_succeed_all_found(map, s, q, front, end, k);
    } else if mid.found {
        lemma_first_goal(map, s, q, front, end);
        let j = choose|j: int| 0 <= j < front.len() && (#[trigger] front[j]).0 == end;
        lemma_succeed_all_found(map, s, q, front, end, j);
    }
}

/// The goal is seen only where an exit leads to it.
proof fn lemma_first_goal<M: BaseMap>(map: &M, s: Search, q: Node, exits: ExitList, end: i32)
    requires
        !s.found,
        succeed_all(map, s, q, exits, end).found,
    ensures
        exists|j: int| 0 <= j < exits.len() && (#[trigger] exits[j]).0 == end,
    decreases exits.len(),
{
    if exits.len() > 0 {
        let front = exits.drop_last();
        if succeed_all(map, s, q, front, end).found {
            lemma_first_goal(map, s, q, front, end);
            let j = choose|j: int| 0 <= j < front.len() && (#[trigger] front[j]).0 == end;
            assert(exits[j] == front[j]);
        } else {
            assert(exits[exits.len() - 1].0 == end);
        }
    }
}

/// A search for a cell that the start lists among its exits succeeds with
/// the two cells as its route.
pub proof fn lemma_search_next_door<M: BaseMap>(map: &M, start: i32, end: i32)
    requires
        start != end,
        has_exit(map, start, end),
    ensures
        search_outcome(map, start, end).success,
        search_outcome(map, start, end).steps == seq![start, end],
{
    let first = begin(map, start, end);
    let q = first.open[0];
    let k = choose|k: int|
        0 <= k < map.exits(start).len() && (#[trigger] map.exits(start)[k]).0 == end;
    assert(best(first.open) == 0);
    lemma_succeed_all_found(map, without_best(first), q, map.exits(start), end, k);
    let second = expand(map, first, end);
    assert(second.found && second.parents[end] == start);
    assert(run(map, first, end, MAX_ASTAR_STEPS as nat) == run(
        map,
        second,
        end,
        (MAX_ASTAR_STEPS - 1) as nat,
    ));
    assert(run(map, second, end, (MAX_ASTAR_STEPS - 1) as nat) == second);
    assert(trace(second.parents, start, start, (MAX_ASTAR_STEPS - 1) as nat) == Some(seq![start]));
    assert(seq![start].push(end) =~= seq![start, end]);
}

/// No score of a search outgrows its type: however many cells have been
/// taken, each candidate's score is the true sum of its cost and its
/// estimate.
pub proof fn lemma_search_scores_fit<M: BaseMap>(map: &M, start: i32, end: i32, taken: nat)
    requires
        taken <= MAX_ASTAR_STEPS,
    ensures
        sums_ok(run(map, begin(map, start, end), end, taken), taken as int),
{
    lemma_scores_fit(map, begin(map, start, end), end, 0, taken);
}

} // verus!
