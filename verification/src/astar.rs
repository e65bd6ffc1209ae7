//! Best-first search for one route between two cells.

use vstd::prelude::*;
use std::collections::HashMap;
use crate::grid::{BaseMap, ExitList, has_exit, walk_between};
use crate::astar_laws::{lemma_search_finds_walks, lemma_search_from_dead_end, lemma_search_next_door};

verus! {

broadcast use vstd::std_specs::hash::group_hash_axioms;

/// The search gives up after this many cells have been taken from the open
/// list.
pub const MAX_ASTAR_STEPS: i32 = 2048;

/// The result of a search. `destination` is the cell that was asked for,
/// `success` tells whether it was reached, and `steps` then holds each cell
/// of the route, the first and the last included.
#[derive(Clone)]
pub struct NavigationPath {
    pub destination: i32,
    pub success: bool,
    pub steps: Vec<i32>,
}

/// One candidate cell of a search: `g` is the cost of the route that led to
/// it, `h` the estimate from it to the goal, `f` their sum.
#[derive(Clone, Copy)]
pub struct Node {
    pub idx: i32,
    pub f: u64,
    pub g: u64,
    pub h: u64,
}

/// A search under way: the candidates not yet taken, in the order in which
/// they were added; the score with which each cell was last taken; the cell
/// from which each cell was last added; and whether the goal has been seen.
pub struct Search {
    pub open: Seq<Node>,
    pub closed: Map<i32, u64>,
    pub parents: Map<i32, i32>,
    pub found: bool,
}

/// What a search hands back: a `NavigationPath` with its steps as a
/// sequence.
pub struct Outcome {
    pub destination: i32,
    pub success: bool,
    pub steps: Seq<i32>,
}

impl View for NavigationPath {
    type V = Outcome;

    open spec fn view(&self) -> Outcome {
        Outcome { destination: self.destination, success: self.success, steps: self.steps@ }
    }
}

/// The result of a search for `end` that did not get there.
pub open spec fn failure(end: i32) -> Outcome {
    Outcome { destination: end, success: false, steps: Seq::empty() }
}

/// The search as it stands before the first cell is taken.
pub open spec fn begin<M: BaseMap>(map: &M, start: i32, end: i32) -> Search {
    let h = map.heuristic(start, end) as u64;
    Search {
        open: seq![Node { idx: start, f: h, g: 0, h }],
        closed: Map::empty(),
        parents: Map::empty(),
        found: false,
    }
}

/// The position of the candidate that is taken next: the one with the
/// least score, and of several with that score the one added first.
pub open spec fn best(open: Seq<Node>) -> int
    decreases open.len(),
{
    if open.len() <= 1 {
        0
    } else {
        let b = best(open.drop_last());
        if open.last().f < open[b].f {
            open.len() - 1
        } else {
            b
        }
    }
}

/// No candidate for `idx` has a score below `f`.
pub open spec fn unrivalled(open: Seq<Node>, idx: i32, f: u64) -> bool {
    forall|j: int| 0 <= j < open.len() ==> !((#[trigger] open[j]).idx == idx && open[j].f < f)
}

/// One exit of the cell `q` is looked at; it leads to `idx`, at `cost` from
/// the start. The goal ends the search. Any other cell becomes a candidate,
/// with `q` as the cell it came from, unless a candidate for it has a lower
/// score or it was last taken with a lower score.
pub open spec fn succeed<M: BaseMap>(
    map: &M,
    s: Search,
    q: Node,
    idx: i32,
    cost: u64,
    end: i32,
) -> Search {
    if s.found {
        s
    } else if idx == end {
        Search { parents: s.parents.insert(idx, q.idx), found: true, ..s }
    } else {
        let h = map.heuristic(idx, end);
        let node = Node { idx, f: (cost + h) as u64, g: cost, h: h as u64 };
        if unrivalled(s.open, idx, node.f) && !(s.closed.contains_key(idx) && s.closed[idx]
            < node.f) {
            Search { open: s.open.push(node), parents: s.parents.insert(idx, q.idx), ..s }
        } else {
            s
        }
    }
}

/// The exits of `q` are looked at in order.
pub open spec fn succeed_all<M: BaseMap>(
    map: &M,
    s: Search,
    q: Node,
    exits: ExitList,
    end: i32,
) -> Search
    decreases exits.len(),
{
    if exits.len() == 0 {
        s
    } else {
        succeed(
            map,
            succeed_all(map, s, q, exits.drop_last(), end),
            q,
            exits.last().0,
            (q.g + exits.last().1) as u64,
            end,
        )
    }
}

/// The search once the best candidate has been taken off the open list.
pub open spec fn without_best(s: Search) -> Search {
    Search { open: s.open.remove(best(s.open)), ..s }
}

/// The best candidate is taken and its exits are looked at; unless the goal
/// is among them, the cell is then recorded as taken with its score.
pub open spec fn expand<M: BaseMap>(map: &M, s: Search, end: i32) -> Search {
    let q = s.open[best(s.open)];
    let grown = succeed_all(map, without_best(s), q, map.exits(q.idx), end);
    if grown.found {
        grown
    } else {
        Search { closed: grown.closed.insert(q.idx, q.f), ..grown }
    }
}

/// Candidates are taken until the goal is seen, none is left, or `budget`
/// of them have been taken.
pub open spec fn run<M: BaseMap>(map: &M, s: Search, end: i32, budget: nat) -> Search
    decreases budget,
{
    if budget == 0 || s.found || s.open.len() == 0 {
        s
    } else {
        run(map, expand(map, s, end), end, (budget - 1) as nat)
    }
}

/// The cells from `start` to `cell`, read off `parents` backwards from
/// `cell`; none where the way back takes more than `budget` steps or comes
/// to a cell without a parent.
pub open spec fn trace(parents: Map<i32, i32>, start: i32, cell: i32, budget: nat) -> Option<
    Seq<i32>,
>
    decreases budget,
{
    if cell == start {
        Some(seq![start])
    } else if budget == 0 || !parents.contains_key(cell) {
        None
    } else {
        match trace(parents, start, parents[cell], (budget - 1) as nat) {
            Some(path) => Some(path.push(cell)),
            None => None,
        }
    }
}

/// What is handed back once the goal has been seen.
pub open spec fn unwrap_path(parents: Map<i32, i32>, start: i32, end: i32) -> Outcome {
    match trace(parents, start, end, MAX_ASTAR_STEPS as nat) {
        Some(path) => Outcome { destination: end, success: true, steps: path },
        None => failure(end),
    }
}

/// What a search from `start` for `end` hands back.
pub open spec fn search_outcome<M: BaseMap>(map: &M, start: i32, end: i32) -> Outcome {
    if start == end {
        Outcome { destination: end, success: true, steps: seq![start] }
    } else {
        let last = run(map, begin(map, start, end), end, MAX_ASTAR_STEPS as nat);
        if last.found {
            unwrap_path(last.parents, start, end)
        } else {
            failure(end)
        }
    }
}

/// Once the goal has been seen, the exits after it change nothing.
pub proof fn lemma_succeed_all_stops<M: BaseMap>(
    map: &M,
    s: Search,
    q: Node,
    exits: ExitList,
    n: int,
    end: i32,
)
    requires
        0 <= n <= exits.len(),
        succeed_all(map, s, q, exits.take(n), end).found,
    ensures
        succeed_all(map, s, q, exits, end) == succeed_all(map, s, q, exits.take(n), end),
    decreases exits.len() - n,
{
    if n < exits.len() {
        assert(exits.take(n + 1).drop_last() =~= exits.take(n));
        lemma_succeed_all_stops(map, s, q, exits, n + 1, end);
    } else {
        assert(exits.take(n) =~= exits);
    }
}

impl NavigationPath {
    /// A path that leads nowhere.
    pub fn new() -> (path: NavigationPath)
        ensures
            path.destination == 0,
            !path.success,
            path.steps@ == Seq::<i32>::empty(),
    {
        NavigationPath { destination: 0, success: false, steps: Vec::new() }
    }
}

/// The most that a route of `steps` exits can cost.
pub open spec fn cost_bound(steps: int) -> int {
    steps * 0xffff_ffff
}

/// The working state of one search.
struct AStar {
    start: i32,
    end: i32,
    open_list: Vec<Node>,
    closed_list: HashMap<i32, u64>,
    parents: HashMap<i32, i32>,
    step_counter: i32,
}

impl AStar {
    spec fn model(&self, found: bool) -> Search {
        Search {
            open: self.open_list@,
            closed: self.closed_list@,
            parents: self.parents@,
            found,
        }
    }

    /// No candidate lies further from the start than the cells taken so far
    /// allow.
    spec fn bounded(&self) -> bool {
        &&& 0 <= self.step_counter <= MAX_ASTAR_STEPS
        &&& forall|j: int|
            0 <= j < self.open_list@.len() ==> (#[trigger] self.open_list@[j]).g <= cost_bound(
                self.step_counter as int,
            )
    }

    /// A search from `start` for `end`, with `start` as its only candidate.
    fn new<M: BaseMap>(start: i32, end: i32, map: &M) -> (searcher: AStar)
        ensures
            searcher.start == start,
            searcher.end == end,
            searcher.step_counter == 0,
            searcher.model(false) == begin(map, start, end),
            searcher.bounded(),
    {
        let h = map.get_pathing_distance(start, end) as u64;
        let mut open_list: Vec<Node> = Vec::new();
        open_list.push(Node { idx: start, f: h, g: 0, h });
        proof {
            assert(open_list@ =~= seq![Node { idx: start, f: h, g: 0, h }]);
        }
        AStar {
            start,
            end,
            open_list,
            parents: HashMap::new(),
            closed_list: HashMap::new(),
            step_counter: 0,
        }
    }

    /// The map's estimate from `idx` to the goal.
    fn distance_to_end<M: BaseMap>(&self, idx: i32, map: &M) -> (distance: u32)
        ensures
            distance == map.heuristic(idx, self.end),
    {
        map.get_pathing_distance(idx, self.end)
    }

    /// The position of the candidate to take next.
    fn best_index(&self) -> (b: usize)
        requires
            self.open_list@.len() > 0,
        ensures
            b == best(self.open_list@),
            b < self.open_list@.len(),
    {
        let mut b: usize = 0;
        let mut i: usize = 1;
        proof {
            assert(self.open_list@.take(1).drop_last().len() == 0);
        }
        while i < self.open_list.len()
            invariant
                1 <= i <= self.open_list@.len(),
                b < i,
                b == best(self.open_list@.take(i as int)),
            decreases self.open_list.len() - i,
        {
            proof {
                assert(self.open_list@.take(i + 1).drop_last() =~= self.open_list@.take(i as int));
            }
            if self.open_list[i].f < self.open_list[b].f {
                b = i;
            }
            i += 1;
        }
        proof {
            assert(self.open_list@.take(i as int) =~= self.open_list@);
        }
        b
    }

    /// Looks at one exit of `q`, which leads to `idx` at `cost` from the
    /// start, and tells whether it is the goal.
    fn add_successor<M: BaseMap>(&mut self, q: Node, idx: i32, cost: u64, map: &M) -> (found: bool)
        requires
            cost <= cost_bound(MAX_ASTAR_STEPS as int),
        ensures
            succeed(map, old(self).model(false), q, idx, cost, old(self).end) == final(self).model(
                found,
            ),
            final(self).start == old(self).start,
            final(self).end == old(self).end,
            final(self).step_counter == old(self).step_counter,
            forall|j: int|
                0 <= j < final(self).open_list@.len() ==> {
                    ||| (#[trigger] final(self).open_list@[j]).g == cost
                    ||| (j < old(self).open_list@.len() && final(self).open_list@[j] == old(
                        self,
                    ).open_list@[j])
                },
    {
        if idx == self.end {
            self.parents.insert(idx, q.idx);
            true
        } else {
            let distance = self.distance_to_end(idx, map);
            let s = Node { idx, f: cost + distance as u64, g: cost, h: distance as u64 };
            let mut should_add = true;
            let mut j: usize = 0;
            while j < self.open_list.len()
                invariant
                    j <= self.open_list@.len(),
                    self.open_list@ == old(self).open_list@,
                    should_add <==> (forall|k: int|
                        0 <= k < j ==> !((#[trigger] self.open_list@[k]).idx == idx
                            && self.open_list@[k].f < s.f)),
                decreases self.open_list.len() - j,
            {
                let e = self.open_list[j];
                if e.f < s.f && e.idx == idx {
                    should_add = false;
                }
                j += 1;
            }
            if should_add {
                match self.closed_list.get(&idx) {
                    Some(taken) => {
                        if *taken < s.f {
                            should_add = false;
                        }
                    },
                    None => {},
                }
            }
            if should_add {
                self.open_list.push(s);
                self.parents.insert(idx, q.idx);
            }
            false
        }
    }

    /// Reads the route off the parents, from the goal back to the start.
    fn found_it(&self) -> (result: NavigationPath)
        ensures
            result@ == unwrap_path(self.parents@, self.start, self.end),
    {
        let mut result = NavigationPath::new();
        result.destination = self.end;
        result.steps.push(self.end);
        let mut current = self.end;
        let mut hops: i32 = 0;
        let ghost whole = trace(self.parents@, self.start, self.end, MAX_ASTAR_STEPS as nat);
        while current != self.start
            invariant
                0 <= hops <= MAX_ASTAR_STEPS,
                result.destination == self.end,
                result.steps@.len() > 0,
                result.steps@[0] == current,
                whole == trace(self.parents@, self.start, self.end, MAX_ASTAR_STEPS as nat),
                whole == (match trace(
                    self.parents@,
                    self.start,
                    current,
                    (MAX_ASTAR_STEPS - hops) as nat,
                ) {
                    Some(path) => Some(path + result.steps@.skip(1)),
                    None => None,
                }),
            decreases MAX_ASTAR_STEPS - hops,
        {
            if hops == MAX_ASTAR_STEPS {
                return AStar::lost(self.end);
            }
            match self.parents.get(&current) {
                None => {
                    return AStar::lost(self.end);
                },
                Some(parent) => {
                    let parent: i32 = *parent;
                    proof {
                        let shorter = trace(
                            self.parents@,
                            self.start,
                            parent,
                            (MAX_ASTAR_STEPS - hops - 1) as nat,
                        );
                        if shorter is Some {
                            let path = shorter->Some_0;
                            assert(path.push(current) + result.steps@.skip(1) =~= path
                                + result.steps@.insert(0, parent).skip(1));
                        }
                    }
                    result.steps.insert(0, parent);
                    current = parent;
                    hops += 1;
                },
            }
        }
        proof {
            assert(seq![self.start] + result.steps@.skip(1) =~= result.steps@);
        }
        result.success = true;
        result
    }

    /// The result of a search that did not reach `end`.
    fn lost(end: i32) -> (result: NavigationPath)
        ensures
            result@ == failure(end),
    {
        let mut result = NavigationPath::new();
        result.destination = end;
        result
    }

    /// Takes candidates until the goal is seen, none is left or the step
    /// limit is reached.
    fn search<M: BaseMap>(&mut self, map: &M) -> (result: NavigationPath)
        requires
            old(self).step_counter == 0,
            old(self).model(false) == begin(map, old(self).start, old(self).end),
            old(self).bounded(),
            old(self).start != old(self).end,
        ensures
            result@ == search_outcome(map, old(self).start, old(self).end),
    {
        let ghost goal = run(map, self.model(false), self.end, MAX_ASTAR_STEPS as nat);
        while self.open_list.len() != 0 && self.step_counter < MAX_ASTAR_STEPS
            invariant
                self.start == old(self).start,
                self.end == old(self).end,
                self.start != self.end,
                self.bounded(),
                goal == run(map, begin(map, self.start, self.end), self.end, MAX_ASTAR_STEPS as nat),
                goal == run(
                    map,
                    self.model(false),
                    self.end,
                    (MAX_ASTAR_STEPS - self.step_counter) as nat,
                ),
            decreases MAX_ASTAR_STEPS - self.step_counter,
        {
            let ghost before = self.model(false);
            self.step_counter += 1;
            let ghost count = self.step_counter;
            let b = self.best_index();
            let q = self.open_list.remove(b);
            let ghost popped = self.model(false);
            let successors = map.get_available_exits(q.idx);
            let mut i: usize = 0;
            while i < successors.len()
                invariant
                    i <= successors.len(),
                    self.start == old(self).start,
                    self.end == old(self).end,
                    self.start != self.end,
                    self.bounded(),
                    self.step_counter == count,
                    1 <= count <= MAX_ASTAR_STEPS,
                    q.g <= cost_bound(count - 1),
                    before.open.len() > 0,
                    !before.found,
                    0 <= best(before.open) < before.open.len(),
                    q == before.open[best(before.open)],
                    popped == without_best(before),
                    goal == run(
                        map,
                        begin(map, self.start, self.end),
                        self.end,
                        MAX_ASTAR_STEPS as nat,
                    ),
                    successors@ == map.exits(q.idx),
                    goal == run(map, before, self.end, (MAX_ASTAR_STEPS - count + 1) as nat),
                    self.model(false) == succeed_all(
                        map,
                        popped,
                        q,
                        successors@.take(i as int),
                        self.end,
                    ),
                decreases successors.len() - i,
            {
                let s = successors[i];
                proof {
                    assert(successors@.take(i + 1).drop_last() =~= successors@.take(i as int));
                }
                if self.add_successor(q, s.0, q.g + s.1 as u64, map) {
                    proof {
                        lemma_succeed_all_stops(map, popped, q, successors@, i + 1, self.end);
                        assert(expand(map, before, self.end) == self.model(true));
                        assert(run(
                            map,
                            self.model(true),
                            self.end,
                            (MAX_ASTAR_STEPS - count) as nat,
                        ) == self.model(true));
                    }
                    return self.found_it();
                }
                i += 1;
            }
            proof {
                assert(successors@.take(i as int) =~= successors@);
            }
            self.closed_list.insert(q.idx, q.f);
            proof {
                assert(expand(map, before, self.end) == self.model(false));
            }
        }
        AStar::lost(self.end)
    }
}

/// Searches for a route from `start` to `end`, taking the cell with the
/// least score first, and gives up after `MAX_ASTAR_STEPS` cells.
pub fn a_star_search<M: BaseMap>(start: i32, end: i32, map: &mut M) -> (result: NavigationPath)
    ensures
        *final(map) == *old(map),
        result@ == search_outcome(old(map), start, end),
        result.destination == end,
        start == end ==> result.success && result.steps@ == seq![start],
        result.success ==> walk_between(old(map), start, end, result.steps@)
            && result.steps@.len() <= MAX_ASTAR_STEPS + 1,
        !result.success ==> result.steps@.len() == 0,
        start != end && old(map).exits(start).len() == 0 ==> !result.success,
        start != end && has_exit(old(map), start, end) ==> result.success && result.steps@
            == seq![start, end],
{
    proof {
        lemma_search_finds_walks(map, start, end);
        if start != end && map.exits(start).len() == 0 {
            lemma_search_from_dead_end(map, start, end);
        }
        if start != end && has_exit(map, start, end) {
            lemma_search_next_door(map, start, end);
        }
    }
    if start == end {
        let mut result = NavigationPath::new();
        result.destination = end;
        result.success = true;
        result.steps.push(start);
        proof {
            assert(result.steps@ =~= seq![start]);
        }
        return result;
    }
    let mut searcher = AStar::new(start, end, map);
    searcher.search(map)
}

} // verus!
