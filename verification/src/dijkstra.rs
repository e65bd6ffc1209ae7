//! Flow maps: for every cell of a grid, the cost of reaching it from the
//! nearest of a set of starting cells.

use vstd::prelude::*;
use rayon::iter::{IntoParallelRefMutIterator, ParallelIterator};
use crate::grid::{BaseMap, ExitTable, OutOfRange, in_range};
use crate::dijkstra_laws::{lemma_build_lowers, lemma_build_zeroes_sources, lemma_build_goes_on};
use crate::flood::{Built, UNREACHABLE, flood_all, flood_sources};
use crate::flood_laws::{agree, lowered_by, closed_within, sources_within, lemma_flood_all_agrees};

verus! {

/// A field in which no cell has been reached.
pub open spec fn fresh_field(size: nat) -> Seq<u32> {
    Seq::new(size, |c: int| UNREACHABLE)
}

/// In each cell, the lesser of what `field` and `layer` hold there.
pub open spec fn merge_min(field: Seq<u32>, layer: Seq<u32>) -> Seq<u32> {
    Seq::new(
        field.len(),
        |c: int|
            if layer[c] < field[c] {
                layer[c]
            } else {
                field[c]
            },
    )
}

/// `sources` cut into runs of `chunk`; the last run holds what is left.
pub open spec fn chunks_of(sources: Seq<i32>, chunk: int) -> Seq<Seq<i32>>
    decreases sources.len(),
{
    if sources.len() == 0 || chunk <= 0 {
        Seq::empty()
    } else if sources.len() <= chunk {
        seq![sources]
    } else {
        seq![sources.take(chunk)] + chunks_of(sources.skip(chunk), chunk)
    }
}

/// The layer that one run of sources builds on a field of its own.
pub open spec fn layer_of<M: BaseMap>(
    map: &M,
    size: nat,
    sources: Seq<i32>,
    max_depth: u32,
) -> Built {
    flood_all(map, fresh_field(size), sources, max_depth)
}

/// The index that stopped the first layer that was stopped, if one was.
pub open spec fn first_fault<M: BaseMap>(
    map: &M,
    size: nat,
    chunks: Seq<Seq<i32>>,
    max_depth: u32,
) -> Option<i32>
    decreases chunks.len(),
{
    if chunks.len() == 0 {
        None
    } else {
        match first_fault(map, size, chunks.drop_last(), max_depth) {
            Some(index) => Some(index),
            None => layer_of(map, size, chunks.last(), max_depth).fault,
        }
    }
}

/// `field` lowered, cell by cell, to the least that it or any layer holds.
pub open spec fn merged<M: BaseMap>(
    map: &M,
    field: Seq<u32>,
    chunks: Seq<Seq<i32>>,
    max_depth: u32,
) -> Seq<u32>
    decreases chunks.len(),
{
    if chunks.len() == 0 {
        field
    } else {
        merge_min(
            merged(map, field, chunks.drop_last(), max_depth),
            layer_of(map, field.len(), chunks.last(), max_depth).field,
        )
    }
}

/// What a build in layers makes of `field`: each run of `chunk` sources
/// floods a fresh field of its own, and `field` takes the least of them all.
/// Where a layer is stopped, `field` stays as it was.
pub open spec fn parallel_outcome<M: BaseMap>(
    map: &M,
    field: Seq<u32>,
    sources: Seq<i32>,
    max_depth: u32,
    chunk: int,
) -> Built {
    let chunks = chunks_of(sources, chunk);
    match first_fault(map, field.len(), chunks, max_depth) {
        Some(index) => Built { field, fault: Some(index) },
        None => Built { field: merged(map, field, chunks, max_depth), fault: None },
    }
}

/// What a build makes of `field` when `workers` threads are at hand: with
/// more sources than workers it builds in layers of `workers` sources each,
/// otherwise source by source on `field` itself.
pub open spec fn build_outcome<M: BaseMap>(
    map: &M,
    field: Seq<u32>,
    sources: Seq<i32>,
    max_depth: u32,
    workers: int,
) -> Built {
    if workers >= 1 && sources.len() > workers {
        parallel_outcome(map, field, sources, max_depth, workers)
    } else {
        flood_all(map, field, sources, max_depth)
    }
}

/// A field and the result that a build handed back with it.
pub open spec fn outcome_of(field: Seq<u32>, result: Result<(), OutOfRange>) -> Built {
    Built {
        field,
        fault: match result {
            Ok(_) => None,
            Err(e) => Some(e.index),
        },
    }
}

/// A flow map. `map` holds one value for each cell of a grid of `size_x` by
/// `size_y` cells, row after row; `max_depth` is the cost beyond which a
/// flood goes no further.
pub struct DijkstraMap {
    pub map: Vec<u32>,
    pub size_x: i32,
    pub size_y: i32,
    pub max_depth: u32,
}

/// One layer of a build in layers: a field of its own, the sources that
/// flood it, and the index that stopped the flood, if one did.
struct ParallelDm {
    map: Vec<u32>,
    max_depth: u32,
    starts: Vec<i32>,
    fault: Option<i32>,
}

/// The sources of each layer.
spec fn layer_sources(layers: Seq<ParallelDm>) -> Seq<Seq<i32>> {
    Seq::new(layers.len(), |k: int| layers[k].starts@)
}

/// `after` is `before` once its sources have flooded its field.
spec fn flooded(before: ParallelDm, after: ParallelDm, table: &ExitTable) -> bool {
    &&& after.starts@ == before.starts@
    &&& after.max_depth == before.max_depth
    &&& flood_all(table, before.map@, before.starts@, before.max_depth) == (Built {
        field: after.map@,
        fault: after.fault,
    })
}

/// Floods one layer from its sources.
fn flood_layer(l: &mut ParallelDm, table: &ExitTable)
    ensures
        flooded(*old(l), *final(l), table),
{
    let fault = flood_sources(&mut l.map, &l.starts, table, l.max_depth);
    l.fault = fault;
}

/// Floods every layer, each on a thread of rayon's pool: `par_iter_mut`
/// hands out the layers and `for_each` runs `flood_layer` once on each of
/// them, and returns when all are done. The contract says that of each
/// layer, and that none is added, dropped or moved.
#[verifier::external_body]
fn flood_layers(layers: &mut Vec<ParallelDm>, table: &ExitTable)
    ensures
        final(layers)@.len() == old(layers)@.len(),
        forall|k: int|
            0 <= k < old(layers)@.len() ==> flooded(
                old(layers)@[k],
                #[trigger] final(layers)@[k],
                table,
            ),
{
    layers.par_iter_mut().for_each(|l| flood_layer(l, table));
}

/// Marks one cell as not reached.
fn reset_cell(cell: &mut u32)
    ensures
        *final(cell) == UNREACHABLE,
{
    *cell = UNREACHABLE;
}

/// Marks every cell as not reached, on the threads of rayon's pool:
/// `par_iter_mut` hands out the cells and `for_each` runs `reset_cell` once
/// on each of them. The contract says that the cells are as many as before
/// and that each is reset.
#[verifier::external_body]
fn reset_cells(cells: &mut Vec<u32>)
    ensures
        final(cells)@ == fresh_field(old(cells)@.len()),
{
    cells.par_iter_mut().for_each(|cell| reset_cell(cell));
}

/// The number of threads in rayon's current pool, from
/// `rayon::current_num_threads`. It depends on the machine and on how the
/// pool was set up, so nothing is claimed of it.
#[verifier::external_body]
fn worker_count() -> (workers: usize) {
    rayon::current_num_threads()
}

/// A field of `size` cells, none of them reached.
fn fresh(size: usize) -> (field: Vec<u32>)
    ensures
        field@ == fresh_field(size as nat),
{
    let field = vec![UNREACHABLE; size];
    proof {
        assert(field@ =~= fresh_field(size as nat));
    }
    field
}

impl DijkstraMap {
    /// The field holds one value for each cell of the grid, and the cells
    /// can be numbered by an `i32`.
    pub open spec fn wf(&self) -> bool {
        &&& self.size_x >= 0
        &&& self.size_y >= 0
        &&& self.size_x * self.size_y <= i32::MAX
        &&& self.map@.len() == self.size_x * self.size_y
    }

    /// Whether two flow maps have the same size and the same depth limit.
    pub open spec fn same_shape(&self, other: &DijkstraMap) -> bool {
        &&& self.size_x == other.size_x
        &&& self.size_y == other.size_y
        &&& self.max_depth == other.max_depth
    }

    /// Tells whether the field has one value for each cell of the grid.
    pub fn is_well_formed(&self) -> (ok: bool)
        ensures
            ok == self.wf(),
    {
        if self.size_x < 0 || self.size_y < 0 {
            return false;
        }
        proof {
            assert(0 <= self.size_x as int * self.size_y as int <= 0x7fff_ffff * 0x7fff_ffff)
                by (nonlinear_arith)
                requires
                    0 <= self.size_x as int <= 0x7fff_ffff,
                    0 <= self.size_y as int <= 0x7fff_ffff,
            ;
        }
        let cells = self.size_x as u64 * self.size_y as u64;
        cells <= 0x7fff_ffff && self.map.len() as u64 == cells
    }

    /// A flow map in which no cell has been reached.
    pub fn new_empty(size_x: i32, size_y: i32, max_depth: u32) -> (d: DijkstraMap)
        requires
            size_x >= 0,
            size_y >= 0,
            size_x * size_y <= i32::MAX,
        ensures
            d.wf(),
            d.size_x == size_x,
            d.size_y == size_y,
            d.max_depth == max_depth,
            d.map@ == fresh_field((size_x * size_y) as nat),
    {
        proof {
            assert(size_x * size_y >= 0) by (nonlinear_arith)
                requires
                    size_x >= 0,
                    size_y >= 0,
            ;
        }
        let result = fresh((size_x * size_y) as usize);
        DijkstraMap { map: result, size_x, size_y, max_depth }
    }

    /// Marks every cell as not reached.
    pub fn clear(dm: &mut DijkstraMap)
        ensures
            final(dm).map@ == fresh_field(old(dm).map@.len()),
            final(dm).same_shape(old(dm)),
            old(dm).wf() ==> final(dm).wf(),
    {
        reset_cells(&mut dm.map);
    }

    /// Builds in layers: the sources are cut into runs of `workers`, each
    /// run floods a field of its own from a copy of the map's exits, and the
    /// flow map takes, cell by cell, the least of what it and the layers hold.
    fn build_parallel<M: BaseMap>(
        dm: &mut DijkstraMap,
        starts: &Vec<i32>,
        map: &M,
        workers: usize,
    ) -> (fault: Option<i32>)
        requires
            workers >= 1,
        ensures
            final(dm).map@.len() == old(dm).map@.len(),
            final(dm).same_shape(old(dm)),
            parallel_outcome(map, old(dm).map@, starts@, old(dm).max_depth, workers as int)
                == (Built { field: final(dm).map@, fault }),
    {
        let mapsize: usize = dm.map.len();
        let max_depth = dm.max_depth;
        let ghost chunks = chunks_of(starts@, workers as int);
        let mut layers: Vec<ParallelDm> = Vec::new();
        let mut lo: usize = 0;
        proof {
            assert(starts@.skip(0) =~= starts@);
            assert(layer_sources(layers@) + chunks =~= chunks);
        }
        while lo < starts.len()
            invariant
                lo <= starts.len(),
                workers >= 1,
                layer_sources(layers@) + chunks_of(starts@.skip(lo as int), workers as int)
                    == chunks,
                chunks == chunks_of(starts@, workers as int),
                forall|k: int|
                    0 <= k < layers@.len() ==> {
                        &&& (#[trigger] layers@[k]).map@ == fresh_field(mapsize as nat)
                        &&& layers@[k].max_depth == max_depth
                    },
            decreases starts.len() - lo,
        {
            let hi: usize = if starts.len() - lo <= workers {
                starts.len()
            } else {
                lo + workers
            };
            let mut layer = ParallelDm {
                map: fresh(mapsize),
                max_depth,
                starts: Vec::new(),
                fault: None,
            };
            let mut i: usize = lo;
            while i < hi
                invariant
                    lo <= i <= hi <= starts.len(),
                    layer.starts@ == starts@.subrange(lo as int, i as int),
                    layer.map@ == fresh_field(mapsize as nat),
                    layer.max_depth == max_depth,
                decreases hi - i,
            {
                layer.starts.push(starts[i]);
                proof {
                    assert(starts@.subrange(lo as int, i + 1) =~= starts@.subrange(
                        lo as int,
                        i as int,
                    ).push(starts@[i as int]));
                }
                i += 1;
            }
            proof {
                let rest = starts@.skip(lo as int);
                let run = layer.starts@;
                if rest.len() <= workers {
                    assert(run =~= rest);
                    assert(starts@.skip(hi as int) =~= Seq::<i32>::empty());
                } else {
                    assert(run =~= rest.take(workers as int));
                    assert(starts@.skip(hi as int) =~= rest.skip(workers as int));
                }
                assert(layer_sources(layers@.push(layer)) =~= layer_sources(layers@).push(run));
                assert(layer_sources(layers@).push(run) + chunks_of(
                    starts@.skip(hi as int),
                    workers as int,
                ) =~= layer_sources(layers@) + chunks_of(rest, workers as int));
            }
            layers.push(layer);
            lo = hi;
        }
        proof {
            assert(starts@.skip(lo as int) =~= Seq::<i32>::empty());
            assert(layer_sources(layers@) =~= chunks);
        }
        let table = ExitTable::capture(map, mapsize);
        let ghost blank = layers@;
        flood_layers(&mut layers, &table);
        proof {
            assert(agree(&table, map, mapsize as int));
            assert forall|k: int| 0 <= k < layers@.len() implies layer_of(
                map,
                mapsize as nat,
                chunks[k],
                max_depth,
            ) == (Built { field: (#[trigger] layers@[k]).map@, fault: layers@[k].fault }) by {
                assert(flooded(blank[k], layers@[k], &table));
                assert(chunks[k] == blank[k].starts@);
                lemma_flood_all_agrees(
                    &table,
                    map,
                    fresh_field(mapsize as nat),
                    chunks[k],
                    max_depth,
                );
            }
        }
        let mut k: usize = 0;
        while k < layers.len()
            invariant
                k <= layers.len(),
                layers@.len() == chunks.len(),
                chunks == chunks_of(starts@, workers as int),
                dm.map@ == old(dm).map@,
                dm.map@.len() == mapsize,
                dm.same_shape(old(dm)),
                max_depth == old(dm).max_depth,
                first_fault(map, mapsize as nat, chunks.take(k as int), max_depth) is None,
                forall|j: int|
                    0 <= j < layers@.len() ==> layer_of(map, mapsize as nat, chunks[j], max_depth)
                        == (Built { field: (#[trigger] layers@[j]).map@, fault: layers@[j].fault }),
            decreases layers.len() - k,
        {
            proof {
                assert(chunks.take(k + 1).drop_last() =~= chunks.take(k as int));
            }
            if let Some(index) = layers[k].fault {
                proof {
                    lemma_first_fault_stays(map, mapsize as nat, chunks, k + 1, max_depth);
                }
                return Some(index);
            }
            k += 1;
        }
        proof {
            assert(chunks.take(k as int) =~= chunks);
        }
        let mut k: usize = 0;
        while k < layers.len()
            invariant
                k <= layers.len(),
                layers@.len() == chunks.len(),
                dm.map@.len() == mapsize,
                dm.same_shape(old(dm)),
                dm.max_depth == max_depth,
                old(dm).map@.len() == mapsize,
                dm.map@ == merged(map, old(dm).map@, chunks.take(k as int), max_depth),
                forall|j: int|
                    0 <= j < layers@.len() ==> layer_of(map, mapsize as nat, chunks[j], max_depth)
                        == (Built { field: (#[trigger] layers@[j]).map@, fault: layers@[j].fault }),
            decreases layers.len() - k,
        {
            let l = &layers[k];
            let ghost before = dm.map@;
            proof {
                assert(chunks.take(k + 1).drop_last() =~= chunks.take(k as int));
                crate::flood_laws::lemma_flood_all_lowers(
                    map,
                    fresh_field(mapsize as nat),
                    chunks[k as int],
                    max_depth,
                );
            }
            let mut i: usize = 0;
            while i < mapsize
                invariant
                    i <= mapsize,
                    dm.map@.len() == mapsize,
                    before.len() == mapsize,
                    l.map@.len() == mapsize,
                    dm.same_shape(old(dm)),
                    dm.max_depth == max_depth,
                    forall|c: int| 0 <= c < i ==> dm.map@[c] == merge_min(before, l.map@)[c],
                    forall|c: int| i <= c < mapsize ==> dm.map@[c] == before[c],
                decreases mapsize - i,
            {
                if l.map[i] < dm.map[i] {
                    dm.map[i] = l.map[i];
                }
                i += 1;
            }
            proof {
                assert(dm.map@ =~= merge_min(before, l.map@));
                assert(chunks.take(k + 1).last() == chunks[k as int]);
            }
            k += 1;
        }
        proof {
            assert(chunks.take(k as int) =~= chunks);
        }
        None
    }

    /// Builds the flow map as `build` does on a machine with `workers`
    /// threads.
    pub fn build_with_workers<M: BaseMap>(
        dm: &mut DijkstraMap,
        starts: &Vec<i32>,
        map: &M,
        workers: usize,
    ) -> (r: Result<(), OutOfRange>)
        ensures
            final(dm).same_shape(old(dm)),
            old(dm).wf() ==> final(dm).wf(),
            build_outcome(map, old(dm).map@, starts@, old(dm).max_depth, workers as int)
                == outcome_of(final(dm).map@, r),
            lowered_by(map, old(dm).map@, final(dm).map@, starts@, old(dm).max_depth),
            r is Ok ==> forall|j: int|
                0 <= j < starts@.len() ==> {
                    &&& in_range(#[trigger] starts@[j], final(dm).map@.len() as int)
                    &&& final(dm).map@[starts@[j] as int] == 0
                },
            closed_within(map, old(dm).map@.len() as int) && sources_within(
                starts@,
                old(dm).map@.len() as int,
            ) ==> r is Ok,
    {
        proof {
            if closed_within(map, dm.map@.len() as int) && sources_within(
                starts@,
                dm.map@.len() as int,
            ) {
                lemma_build_goes_on(map, dm.map@, starts@, dm.max_depth, workers as int);
            }
            lemma_build_lowers(map, dm.map@, starts@, dm.max_depth, workers as int);
            if build_outcome(map, dm.map@, starts@, dm.max_depth, workers as int).fault is None {
                lemma_build_zeroes_sources(map, dm.map@, starts@, dm.max_depth, workers as int);
            }
        }
        let fault = if workers >= 1 && starts.len() > workers {
            DijkstraMap::build_parallel(dm, starts, map, workers)
        } else {
            flood_sources(&mut dm.map, starts, map, dm.max_depth)
        };
        match fault {
            Some(index) => Err(OutOfRange { index }),
            None => Ok(()),
        }
    }

    /// Lowers the flow map by a flood from each of `starts`: every cell that
    /// a flood comes to at less than it holds takes that depth. With more
    /// starting cells than rayon has threads the floods run in layers, side
    /// by side. An index outside the grid, from `starts` or from the map's
    /// exits, stops the build and is handed back.
    pub fn build<M: BaseMap>(dm: &mut DijkstraMap, starts: &Vec<i32>, map: &M) -> (r: Result<
        (),
        OutOfRange,
    >)
        ensures
            final(dm).same_shape(old(dm)),
            old(dm).wf() ==> final(dm).wf(),
            exists|workers: int|
                #[trigger] build_outcome(
                    map,
                    old(dm).map@,
                    starts@,
                    old(dm).max_depth,
                    workers,
                ) == outcome_of(final(dm).map@, r),
            lowered_by(map, old(dm).map@, final(dm).map@, starts@, old(dm).max_depth),
            r is Ok ==> forall|j: int|
                0 <= j < starts@.len() ==> {
                    &&& in_range(#[trigger] starts@[j], final(dm).map@.len() as int)
                    &&& final(dm).map@[starts@[j] as int] == 0
                },
            closed_within(map, old(dm).map@.len() as int) && sources_within(
                starts@,
                old(dm).map@.len() as int,
            ) ==> r is Ok,
    {
        let workers = worker_count();
        let r = DijkstraMap::build_with_workers(dm, starts, map, workers);
        proof {
            assert(build_outcome(map, old(dm).map@, starts@, old(dm).max_depth, workers as int)
                == outcome_of(dm.map@, r));
        }
        r
    }

    /// A flow map of `size_x` by `size_y` cells, built from `starts`.
    pub fn new<M: BaseMap>(
        size_x: i32,
        size_y: i32,
        starts: &Vec<i32>,
        map: &M,
        max_depth: u32,
    ) -> (r: Result<DijkstraMap, OutOfRange>)
        requires
            size_x >= 0,
            size_y >= 0,
            size_x * size_y <= i32::MAX,
        ensures
            closed_within(map, size_x * size_y) && sources_within(starts@, size_x * size_y)
                ==> r is Ok,
            match r {
                Ok(d) => {
                    &&& d.wf()
                    &&& d.size_x == size_x
                    &&& d.size_y == size_y
                    &&& d.max_depth == max_depth
                    &&& exists|workers: int|
                        #[trigger] build_outcome(
                            map,
                            fresh_field((size_x * size_y) as nat),
                            starts@,
                            max_depth,
                            workers,
                        ) == (Built { field: d.map@, fault: None })
                    &&& lowered_by(
                        map,
                        fresh_field((size_x * size_y) as nat),
                        d.map@,
                        starts@,
                        max_depth,
                    )
                    &&& forall|j: int|
                        0 <= j < starts@.len() ==> {
                            &&& in_range(#[trigger] starts@[j], d.map@.len() as int)
                            &&& d.map@[starts@[j] as int] == 0
                        }
                },
                Err(e) => exists|workers: int|
                    (#[trigger] build_outcome(
                        map,
                        fresh_field((size_x * size_y) as nat),
                        starts@,
                        max_depth,
                        workers,
                    )).fault == Some(e.index),
            },
    {
        let mut d = DijkstraMap::new_empty(size_x, size_y, max_depth);
        match DijkstraMap::build(&mut d, starts, map) {
            Ok(_) => Ok(d),
            Err(e) => Err(e),
        }
    }
}

/// Once a layer has been stopped, the layers after it change nothing.
proof fn lemma_first_fault_stays<M: BaseMap>(
    map: &M,
    size: nat,
    chunks: Seq<Seq<i32>>,
    n: int,
    max_depth: u32,
)
    requires
        0 <= n <= chunks.len(),
        first_fault(map, size, chunks.take(n), max_depth) is Some,
    ensures
        first_fault(map, size, chunks, max_depth) == first_fault(
            map,
            size,
            chunks.take(n),
            max_depth,
        ),
    decreases chunks.len() - n,
{
    if n < chunks.len() {
        assert(chunks.take(n + 1).drop_last() =~= chunks.take(n));
        lemma_first_fault_stays(map, size, chunks, n + 1, max_depth);
    } else {
        assert(chunks.take(n) =~= chunks);
    }
}

} // verus!
