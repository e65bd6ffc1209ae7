//! What the engines ask of a map, and what it means for one cell to be
//! reachable from another.

use vstd::prelude::*;

verus! {

/// The exits of one cell: pairs of a neighbouring cell and the cost of
/// stepping onto it.
pub type ExitList = Seq<(i32, u32)>;

/// A map as the engines see it. Cells are numbered; a cell's exits and the
/// estimate between two cells may not change while an engine runs, which is
/// what the two contracts say.
pub trait BaseMap {
    /// The exits of `idx`, in the order in which they are handed out.
    spec fn exits(&self, idx: i32) -> ExitList;

    /// The estimated cost of travelling from `idx1` to `idx2`.
    spec fn heuristic(&self, idx1: i32, idx2: i32) -> u32;

    fn get_available_exits(&self, idx: i32) -> (r: Vec<(i32, u32)>)
        ensures
            r@ == self.exits(idx),
    ;

    fn get_pathing_distance(&self, idx1: i32, idx2: i32) -> (r: u32)
        ensures
            r == self.heuristic(idx1, idx2),
    ;
}

/// A map handed an index that lies outside the cells an engine works on.
#[derive(Clone, Copy, Debug, PartialEq, Eq, Structural)]
pub struct OutOfRange {
    pub index: i32,
}

/// Whether `idx` numbers one of `size` cells.
pub open spec fn in_range(idx: i32, size: int) -> bool {
    0 <= idx < size
}

/// Whether `from` lists `to` among its exits.
pub open spec fn has_exit<M: BaseMap>(map: &M, from: i32, to: i32) -> bool {
    exists|k: int| 0 <= k < map.exits(from).len() && (#[trigger] map.exits(from)[k]).0 == to
}

/// Whether every cell of `cells` but the last lists the next one among its
/// exits.
pub open spec fn is_walk<M: BaseMap>(map: &M, cells: Seq<i32>) -> bool {
    forall|i: int| 0 <= i < cells.len() - 1 ==> has_exit(map, #[trigger] cells[i], cells[i + 1])
}

/// Whether `cells` is a walk of the map that begins at `from` and ends at `to`.
pub open spec fn walk_between<M: BaseMap>(map: &M, from: i32, to: i32, cells: Seq<i32>) -> bool {
    &&& cells.len() > 0
    &&& cells[0] == from
    &&& cells.last() == to
    &&& is_walk(map, cells)
}

/// Where a route ends that leaves `from` and takes, at each cell it comes
/// to, the exit at the position that `hops` gives next.
pub open spec fn route_end<M: BaseMap>(map: &M, from: i32, hops: Seq<int>) -> i32
    decreases hops.len(),
{
    if hops.len() == 0 {
        from
    } else {
        map.exits(route_end(map, from, hops.drop_last()))[hops.last()].0
    }
}

/// The summed cost of the exits that such a route takes.
pub open spec fn route_cost<M: BaseMap>(map: &M, from: i32, hops: Seq<int>) -> int
    decreases hops.len(),
{
    if hops.len() == 0 {
        0
    } else {
        route_cost(map, from, hops.drop_last()) + map.exits(
            route_end(map, from, hops.drop_last()),
        )[hops.last()].1
    }
}

/// Whether each position in `hops` names an exit of the cell the route has
/// come to.
pub open spec fn route_ok<M: BaseMap>(map: &M, from: i32, hops: Seq<int>) -> bool
    decreases hops.len(),
{
    hops.len() == 0 || {
        &&& route_ok(map, from, hops.drop_last())
        &&& 0 <= hops.last() < map.exits(route_end(map, from, hops.drop_last())).len()
    }
}

/// Whether some route leads from `from` to `to` at exactly `cost`.
pub open spec fn reaches<M: BaseMap>(map: &M, from: i32, to: i32, cost: int) -> bool {
    exists|hops: Seq<int>|
        {
            &&& #[trigger] route_ok(map, from, hops)
            &&& route_end(map, from, hops) == to
            &&& route_cost(map, from, hops) == cost
        }
}

/// Whether some route leads from one of `sources` to `to` at exactly `cost`.
pub open spec fn reaches_from_any<M: BaseMap>(
    map: &M,
    sources: Seq<i32>,
    to: i32,
    cost: int,
) -> bool {
    exists|k: int| 0 <= k < sources.len() && reaches(map, #[trigger] sources[k], to, cost)
}

/// Every cell reaches itself at no cost.
pub proof fn lemma_reaches_itself<M: BaseMap>(map: &M, cell: i32)
    ensures
        reaches(map, cell, cell, 0),
{
    assert(route_ok(map, cell, Seq::<int>::empty()));
}

/// A route that is prolonged by one exit of its last cell costs that exit
/// more.
pub proof fn lemma_reaches_onward<M: BaseMap>(map: &M, from: i32, mid: i32, cost: int, k: int)
    requires
        reaches(map, from, mid, cost),
        0 <= k < map.exits(mid).len(),
    ensures
        reaches(map, from, map.exits(mid)[k].0, cost + map.exits(mid)[k].1),
{
    let hops = choose|hops: Seq<int>|
        {
            &&& #[trigger] route_ok(map, from, hops)
            &&& route_end(map, from, hops) == mid
            &&& route_cost(map, from, hops) == cost
        };
    let longer = hops.push(k);
    assert(longer.drop_last() =~= hops);
    assert(route_ok(map, from, longer));
}

/// The exits of a run of cells, written down once so that they can be read
/// without asking the map again. Cells beyond the rows have no exits.
pub struct ExitTable {
    pub rows: Vec<Vec<(i32, u32)>>,
}

impl BaseMap for ExitTable {
    open spec fn exits(&self, idx: i32) -> ExitList {
        if 0 <= idx < self.rows@.len() {
            self.rows@[idx as int]@
        } else {
            Seq::empty()
        }
    }

    open spec fn heuristic(&self, idx1: i32, idx2: i32) -> u32 {
        0
    }

    fn get_available_exits(&self, idx: i32) -> (r: Vec<(i32, u32)>) {
        let mut out: Vec<(i32, u32)> = Vec::new();
        if idx < 0 || idx as usize >= self.rows.len() {
            return out;
        }
        let row = &self.rows[idx as usize];
        let mut i: usize = 0;
        while i < row.len()
            invariant
                i <= row.len(),
                out@ == row@.take(i as int),
            decreases row.len() - i,
        {
            out.push(row[i]);
            proof {
                assert(row@.take(i + 1) =~= row@.take(i as int).push(row@[i as int]));
            }
            i += 1;
        }
        proof {
            assert(row@.take(row.len() as int) =~= row@);
        }
        out
    }

    fn get_pathing_distance(&self, idx1: i32, idx2: i32) -> (r: u32) {
        0
    }
}

impl ExitTable {
    /// Asks `map` for the exits of the cells `0..size`, in that order, and
    /// keeps them; it stops after the last cell that an `i32` can number.
    pub fn capture<M: BaseMap>(map: &M, size: usize) -> (table: ExitTable)
        ensures
            table.rows@.len() == (if size <= 0x8000_0000 {
                size as int
            } else {
                0x8000_0000
            }),
            forall|idx: i32| 0 <= idx < size ==> #[trigger] table.exits(idx) == map.exits(idx),
    {
        let mut rows: Vec<Vec<(i32, u32)>> = Vec::new();
        let mut i: usize = 0;
        while i < size && i <= 0x7fff_ffff
            invariant
                i <= size,
                i <= 0x8000_0000,
                rows@.len() == i,
                forall|c: int| 0 <= c < i ==> (#[trigger] rows@[c])@ == map.exits(c as i32),
            decreases size - i,
        {
            let row = map.get_available_exits(i as i32);
            rows.push(row);
            i += 1;
        }
        ExitTable { rows }
    }
}

} // verus!
