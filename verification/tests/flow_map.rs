use gridpath::dijkstra::DijkstraMap;
use gridpath::flood::{add_if_open, flood_one, flood_sources, UNREACHABLE};
use gridpath::grid::{BaseMap, ExitTable, OutOfRange};

const U: u32 = UNREACHABLE;

/// A grid with steps of cost 1 to the north, south, west and east, in that
/// order.
fn open_grid(width: i32, height: i32) -> ExitTable {
    let mut rows: Vec<Vec<(i32, u32)>> = Vec::new();
    for idx in 0..width * height {
        let x = idx % width;
        let y = idx / width;
        let mut row = Vec::new();
        for (dx, dy) in [(0, -1), (0, 1), (-1, 0), (1, 0)] {
            let nx = x + dx;
            let ny = y + dy;
            if nx >= 0 && nx < width && ny >= 0 && ny < height {
                row.push((nx + ny * width, 1));
            }
        }
        rows.push(row);
    }
    ExitTable { rows }
}

fn table(cells: usize, links: &[(i32, i32, u32)]) -> ExitTable {
    let mut rows: Vec<Vec<(i32, u32)>> = vec![Vec::new(); cells];
    for &(from, to, cost) in links {
        rows[from as usize].push((to, cost));
    }
    ExitTable { rows }
}

#[test]
fn sentinel_is_the_largest_value() {
    assert_eq!(UNREACHABLE, u32::MAX);
}

#[test]
fn new_empty_holds_only_the_sentinel() {
    let d = DijkstraMap::new_empty(4, 3, 7);
    assert_eq!(d.map, vec![U; 12]);
    assert_eq!(d.size_x, 4);
    assert_eq!(d.size_y, 3);
    assert_eq!(d.max_depth, 7);
    assert!(d.is_well_formed());
    let none = DijkstraMap::new_empty(0, 5, 7);
    assert!(none.map.is_empty());
}

#[test]
fn well_formedness_is_checked() {
    let mut d = DijkstraMap::new_empty(2, 2, 1);
    assert!(d.is_well_formed());
    d.map.pop();
    assert!(!d.is_well_formed());
    d.map.push(0);
    d.size_x = -2;
    assert!(!d.is_well_formed());
    d.size_x = 65536;
    d.size_y = 65536;
    assert!(!d.is_well_formed());
}

#[test]
fn three_by_three_from_the_centre() {
    let grid = open_grid(3, 3);
    let d = DijkstraMap::new(3, 3, &vec![4], &grid, 100).unwrap();
    assert_eq!(d.map, vec![2, 1, 2, 1, 0, 1, 2, 1, 2]);
}

#[test]
fn three_by_three_from_the_centre_without_a_way_to_the_corners() {
    let grid = open_grid(3, 3);
    let d = DijkstraMap::new(3, 3, &vec![4], &grid, 1).unwrap();
    assert_eq!(d.map, vec![U, 1, U, 1, 0, 1, U, 1, U]);
}

#[test]
fn depth_zero_reaches_the_sources_only() {
    let grid = open_grid(3, 3);
    let d = DijkstraMap::new(3, 3, &vec![0, 8], &grid, 0).unwrap();
    assert_eq!(d.map, vec![0, U, U, U, U, U, U, U, 0]);
}

#[test]
fn no_sources_leave_the_field_as_it_was() {
    let grid = open_grid(3, 3);
    let d = DijkstraMap::new(3, 3, &Vec::new(), &grid, 100).unwrap();
    assert_eq!(d.map, vec![U; 9]);
}

#[test]
fn clear_resets_every_cell() {
    let grid = open_grid(3, 3);
    let mut d = DijkstraMap::new(3, 3, &vec![4], &grid, 100).unwrap();
    assert!(d.map.iter().all(|&v| v != U));
    DijkstraMap::clear(&mut d);
    assert_eq!(d.map, vec![U; 9]);
    assert_eq!(d.size_x, 3);
    assert_eq!(d.size_y, 3);
    assert_eq!(d.max_depth, 100);
    DijkstraMap::clear(&mut d);
    assert_eq!(d.map, vec![U; 9]);
}

#[test]
fn later_builds_only_lower() {
    let grid = open_grid(3, 3);
    let mut d = DijkstraMap::new_empty(3, 3, 100);
    DijkstraMap::build_with_workers(&mut d, &vec![0], &grid, 8).unwrap();
    assert_eq!(d.map, vec![0, 1, 2, 1, 2, 3, 6, 5, 4]);
    let before = d.map.clone();
    DijkstraMap::build_with_workers(&mut d, &vec![8], &grid, 8).unwrap();
    assert_eq!(d.map, vec![0, 1, 2, 1, 2, 1, 2, 1, 0]);
    assert!(d.map.iter().zip(before.iter()).all(|(after, before)| after <= before));
}

#[test]
fn stack_order_can_keep_a_longer_route() {
    let graph = table(4, &[(0, 1, 4), (0, 2, 1), (1, 3, 1), (2, 1, 1)]);
    let d = DijkstraMap::new(4, 1, &vec![0], &graph, 100).unwrap();
    assert_eq!(d.map, vec![0, 4, 1, 5]);
}

#[test]
fn stack_order_on_an_open_grid() {
    let grid = open_grid(5, 5);
    let mut d = DijkstraMap::new_empty(5, 5, 100);
    DijkstraMap::build_with_workers(&mut d, &vec![12], &grid, 4).unwrap();
    assert_eq!(
        d.map,
        vec![12, 13, 14, 15, 16, 11, 12, 1, 2, 3, 10, 1, 0, 1, 2, 9, 8, 1, 2, 3, 8, 7, 6, 5, 4]
    );
}

#[test]
fn layers_agree_with_sources_in_turn_where_floods_are_exact() {
    let grid = open_grid(3, 3);
    let mut in_turn = DijkstraMap::new_empty(3, 3, 100);
    DijkstraMap::build_with_workers(&mut in_turn, &vec![4, 0], &grid, 2).unwrap();
    let mut layered = DijkstraMap::new_empty(3, 3, 100);
    DijkstraMap::build_with_workers(&mut layered, &vec![4, 0], &grid, 1).unwrap();
    assert_eq!(in_turn.map, vec![0, 1, 2, 1, 0, 1, 2, 1, 2]);
    assert_eq!(layered.map, in_turn.map);

    let grid = open_grid(5, 5);
    let sources = vec![0, 4, 20, 24, 12];
    let mut in_turn = DijkstraMap::new_empty(5, 5, 2);
    DijkstraMap::build_with_workers(&mut in_turn, &sources, &grid, 5).unwrap();
    let mut layered = DijkstraMap::new_empty(5, 5, 2);
    DijkstraMap::build_with_workers(&mut layered, &sources, &grid, 2).unwrap();
    assert_eq!(layered.map, in_turn.map);
}

#[test]
fn layers_can_differ_from_sources_in_turn() {
    let grid = open_grid(3, 3);
    let mut in_turn = DijkstraMap::new_empty(3, 3, 4);
    DijkstraMap::build_with_workers(&mut in_turn, &vec![0, 1], &grid, 2).unwrap();
    assert_eq!(in_turn.map, vec![0, 0, 1, 1, 1, 2, 4, 3, 3]);
    let mut layered = DijkstraMap::new_empty(3, 3, 4);
    DijkstraMap::build_with_workers(&mut layered, &vec![0, 1], &grid, 1).unwrap();
    assert_eq!(layered.map, vec![0, 0, 1, 1, 1, 2, 3, 3, 3]);
}

#[test]
fn layers_of_two_sources_each() {
    let grid = open_grid(5, 5);
    let sources = vec![0, 4, 20, 24, 12];
    let mut layered = DijkstraMap::new_empty(5, 5, 100);
    DijkstraMap::build_with_workers(&mut layered, &sources, &grid, 2).unwrap();
    assert_eq!(
        layered.map,
        vec![0, 1, 2, 1, 0, 1, 2, 1, 2, 1, 6, 1, 0, 1, 2, 1, 2, 1, 2, 1, 0, 1, 2, 1, 0]
    );
    let mut in_turn = DijkstraMap::new_empty(5, 5, 100);
    DijkstraMap::build_with_workers(&mut in_turn, &sources, &grid, 0).unwrap();
    assert_eq!(
        in_turn.map,
        vec![0, 1, 2, 1, 0, 1, 2, 1, 2, 1, 2, 1, 0, 1, 2, 1, 2, 1, 2, 1, 0, 1, 2, 1, 0]
    );
}

#[test]
fn layers_lower_a_field_that_is_not_fresh() {
    let grid = open_grid(3, 3);
    let mut d = DijkstraMap::new_empty(3, 3, 100);
    d.map = vec![0, 5, 5, 5, 5, 5, 5, 5, 1];
    DijkstraMap::build_with_workers(&mut d, &vec![4, 4], &grid, 1).unwrap();
    assert_eq!(d.map, vec![0, 1, 2, 1, 0, 1, 2, 1, 1]);
}

#[test]
fn build_on_any_machine_reaches_the_sources() {
    let grid = open_grid(5, 5);
    let sources: Vec<i32> = (0..25).collect();
    let mut d = DijkstraMap::new_empty(5, 5, 100);
    DijkstraMap::build(&mut d, &sources, &grid).unwrap();
    assert_eq!(d.map, vec![0; 25]);
    let d = DijkstraMap::new(3, 3, &vec![4], &grid_of_three(), 100).unwrap();
    assert_eq!(d.map, vec![2, 1, 2, 1, 0, 1, 2, 1, 2]);
}

fn grid_of_three() -> ExitTable {
    open_grid(3, 3)
}

#[test]
fn source_outside_the_grid_is_an_error() {
    let grid = open_grid(3, 3);
    let mut d = DijkstraMap::new_empty(3, 3, 100);
    let r = DijkstraMap::build_with_workers(&mut d, &vec![4, 9, 0], &grid, 8);
    assert_eq!(r, Err(OutOfRange { index: 9 }));
    assert_eq!(d.map, vec![2, 1, 2, 1, 0, 1, 2, 1, 2]);
    let r = DijkstraMap::build_with_workers(&mut d, &vec![-1], &grid, 8);
    assert_eq!(r, Err(OutOfRange { index: -1 }));
    assert!(DijkstraMap::new(3, 3, &vec![9], &grid, 100).is_err());
}

#[test]
fn exit_outside_the_grid_is_an_error() {
    let graph = table(3, &[(0, 1, 1), (1, 42, 1), (1, 2, 1)]);
    let mut d = DijkstraMap::new_empty(3, 1, 100);
    let r = DijkstraMap::build_with_workers(&mut d, &vec![0], &graph, 8);
    assert_eq!(r, Err(OutOfRange { index: 42 }));
    assert_eq!(d.map, vec![0, 1, U]);
    let mut d = DijkstraMap::new_empty(3, 1, 100);
    let r = DijkstraMap::build_with_workers(&mut d, &vec![2, 0], &graph, 8);
    assert_eq!(r, Err(OutOfRange { index: 42 }));
    assert_eq!(d.map, vec![0, 1, 0]);
}

#[test]
fn exit_outside_the_grid_is_an_error_even_beyond_the_depth() {
    let graph = table(2, &[(0, -5, 9)]);
    let mut d = DijkstraMap::new_empty(2, 1, 3);
    let r = DijkstraMap::build_with_workers(&mut d, &vec![0], &graph, 8);
    assert_eq!(r, Err(OutOfRange { index: -5 }));
}

#[test]
fn unvisited_cells_are_not_checked() {
    let graph = table(3, &[(0, 1, 1), (2, 42, 1)]);
    let mut d = DijkstraMap::new_empty(3, 1, 100);
    let r = DijkstraMap::build_with_workers(&mut d, &vec![0], &graph, 8);
    assert_eq!(r, Ok(()));
    assert_eq!(d.map, vec![0, 1, U]);
}

#[test]
fn stopped_layers_leave_the_field_as_it_was() {
    let graph = table(3, &[(0, 1, 1), (1, 42, 1), (1, 2, 1)]);
    let mut d = DijkstraMap::new_empty(3, 1, 100);
    let r = DijkstraMap::build_with_workers(&mut d, &vec![2, 0], &graph, 1);
    assert_eq!(r, Err(OutOfRange { index: 42 }));
    assert_eq!(d.map, vec![U, U, U]);
    let r = DijkstraMap::build_with_workers(&mut d, &vec![2, 7], &graph, 1);
    assert_eq!(r, Err(OutOfRange { index: 7 }));
    assert_eq!(d.map, vec![U, U, U]);
}

#[test]
fn lowest_and_highest_exit_differ() {
    let grid = open_grid(3, 3);
    let d = DijkstraMap::new(3, 3, &vec![4], &grid, 100).unwrap();
    assert_eq!(DijkstraMap::find_lowest_exit(&d, 1, &grid), Ok(Some(4)));
    assert_eq!(DijkstraMap::find_highest_exit(&d, 1, &grid), Ok(Some(0)));
    assert_eq!(DijkstraMap::find_lowest_exit(&d, 4, &grid), Ok(Some(1)));
    assert_eq!(DijkstraMap::find_highest_exit(&d, 4, &grid), Ok(Some(1)));
}

#[test]
fn lowest_exit_need_not_be_the_first() {
    let graph = table(4, &[(0, 1, 1), (0, 2, 1), (0, 3, 1)]);
    let mut d = DijkstraMap::new_empty(4, 1, 100);
    d.map = vec![9, 7, 3, 5];
    assert_eq!(DijkstraMap::find_lowest_exit(&d, 0, &graph), Ok(Some(2)));
    assert_eq!(DijkstraMap::find_highest_exit(&d, 0, &graph), Ok(Some(1)));
    d.map = vec![9, 3, 7, 7];
    assert_eq!(DijkstraMap::find_lowest_exit(&d, 0, &graph), Ok(Some(1)));
    assert_eq!(DijkstraMap::find_highest_exit(&d, 0, &graph), Ok(Some(2)));
    d.map = vec![9, 3, 3, U];
    assert_eq!(DijkstraMap::find_lowest_exit(&d, 0, &graph), Ok(Some(1)));
    assert_eq!(DijkstraMap::find_highest_exit(&d, 0, &graph), Ok(Some(3)));
}

#[test]
fn cell_without_exits_has_no_best_exit() {
    let graph = table(2, &[(0, 1, 1)]);
    let d = DijkstraMap::new(2, 1, &vec![0], &graph, 100).unwrap();
    assert_eq!(DijkstraMap::find_lowest_exit(&d, 1, &graph), Ok(None));
    assert_eq!(DijkstraMap::find_highest_exit(&d, 1, &graph), Ok(None));
    assert_eq!(DijkstraMap::find_lowest_exit(&d, 77, &graph), Ok(None));
}

#[test]
fn best_exit_outside_the_grid_is_an_error() {
    let graph = table(3, &[(0, 1, 1), (0, 5, 1), (0, -2, 1)]);
    let d = DijkstraMap::new_empty(3, 1, 100);
    assert_eq!(DijkstraMap::find_lowest_exit(&d, 0, &graph), Err(OutOfRange { index: 5 }));
    assert_eq!(DijkstraMap::find_highest_exit(&d, 0, &graph), Err(OutOfRange { index: 5 }));
}

#[test]
fn following_the_lowest_exit_leads_to_the_source() {
    let grid = open_grid(3, 3);
    let d = DijkstraMap::new(3, 3, &vec![4], &grid, 100).unwrap();
    let mut cell = 8;
    let mut walked = vec![cell];
    while d.map[cell as usize] != 0 {
        cell = DijkstraMap::find_lowest_exit(&d, cell, &grid).unwrap().unwrap();
        walked.push(cell);
    }
    assert_eq!(walked, vec![8, 5, 4]);
}

#[test]
fn table_captures_the_exits_of_a_map() {
    let grid = open_grid(3, 3);
    let copy = ExitTable::capture(&grid, 9);
    assert_eq!(copy.rows, grid.rows);
    let part = ExitTable::capture(&grid, 2);
    assert_eq!(part.rows, vec![vec![(3, 1), (1, 1)], vec![(4, 1), (0, 1), (2, 1)]]);
    assert_eq!(part.get_available_exits(1), vec![(4, 1), (0, 1), (2, 1)]);
    assert_eq!(part.get_available_exits(2), Vec::new());
    assert_eq!(part.get_available_exits(-1), Vec::new());
    assert_eq!(part.get_pathing_distance(0, 1), 0);
}

#[test]
fn add_if_open_marks_and_pushes_once() {
    let mut open_list = Vec::new();
    let mut closed_list = vec![false; 3];
    assert_eq!(add_if_open(5, 1, &mut open_list, &mut closed_list, 5), None);
    assert_eq!(open_list, vec![(1, 5)]);
    assert_eq!(closed_list, vec![false, true, false]);
    assert_eq!(add_if_open(5, 1, &mut open_list, &mut closed_list, 2), None);
    assert_eq!(open_list, vec![(1, 5)]);
    assert_eq!(add_if_open(5, 2, &mut open_list, &mut closed_list, 6), None);
    assert_eq!(open_list, vec![(1, 5)]);
    assert_eq!(closed_list, vec![false, true, false]);
    assert_eq!(add_if_open(5, 3, &mut open_list, &mut closed_list, 1), Some(3));
    assert_eq!(add_if_open(5, -1, &mut open_list, &mut closed_list, 1), Some(-1));
    assert_eq!(open_list, vec![(1, 5)]);
}

#[test]
fn flood_from_one_source_on_plain_buffers() {
    let grid = open_grid(3, 3);
    let mut field = vec![U; 9];
    let mut open_list = vec![(3, 3)];
    let mut closed_list = vec![true; 9];
    let fault = flood_one(&mut field, 4, &grid, 1, &mut open_list, &mut closed_list);
    assert_eq!(fault, None);
    assert_eq!(field, vec![U, 1, U, 1, 0, 1, U, 1, U]);
    let fault = flood_sources(&mut field, &vec![0, 8], &grid, 1);
    assert_eq!(fault, None);
    assert_eq!(field, vec![0, 1, U, 1, 0, 1, U, 1, 0]);
}
