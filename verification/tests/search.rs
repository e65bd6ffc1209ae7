use gridpath::astar::{a_star_search, NavigationPath, MAX_ASTAR_STEPS};
use gridpath::geometry::{distance2d_manhattan, Point};
use gridpath::grid::{BaseMap, ExitList, ExitTable};

/// A rectangular grid with steps of cost 1 to the north, south, west and
/// east, in that order, and the Manhattan distance as its estimate.
struct Grid {
    width: i32,
    height: i32,
    walls: Vec<i32>,
}

impl Grid {
    fn open(width: i32, height: i32) -> Grid {
        Grid { width, height, walls: Vec::new() }
    }

    fn point(&self, idx: i32) -> Point {
        Point::new(idx % self.width, idx / self.width)
    }
}

impl BaseMap for Grid {
    // `exits` and `heuristic` are what proofs say of a map; nothing calls
    // them when a search runs.
    fn exits(&self, _idx: i32) -> ExitList {
        unreachable!()
    }

    fn heuristic(&self, _idx1: i32, _idx2: i32) -> u32 {
        unreachable!()
    }

    fn get_available_exits(&self, idx: i32) -> Vec<(i32, u32)> {
        let x = idx % self.width;
        let y = idx / self.width;
        let mut exits = Vec::new();
        for (dx, dy) in [(0, -1), (0, 1), (-1, 0), (1, 0)] {
            let nx = x + dx;
            let ny = y + dy;
            if nx >= 0 && nx < self.width && ny >= 0 && ny < self.height {
                let n = nx + ny * self.width;
                if !self.walls.contains(&n) {
                    exits.push((n, 1));
                }
            }
        }
        exits
    }

    fn get_pathing_distance(&self, idx1: i32, idx2: i32) -> u32 {
        distance2d_manhattan(self.point(idx1), self.point(idx2)) as u32
    }
}

/// A table of exits from a list of one-way links.
fn table(cells: usize, links: &[(i32, i32, u32)]) -> ExitTable {
    let mut rows: Vec<Vec<(i32, u32)>> = vec![Vec::new(); cells];
    for &(from, to, cost) in links {
        rows[from as usize].push((to, cost));
    }
    ExitTable { rows }
}

/// A corridor of `cells` cells, each leading to the next.
fn corridor(cells: usize) -> ExitTable {
    let mut rows: Vec<Vec<(i32, u32)>> = Vec::new();
    for c in 0..cells {
        if c + 1 < cells {
            rows.push(vec![(c as i32 + 1, 1)]);
        } else {
            rows.push(Vec::new());
        }
    }
    ExitTable { rows }
}

fn is_walk(grid: &Grid, steps: &[i32]) -> bool {
    steps.windows(2).all(|pair| {
        grid.get_available_exits(pair[0]).iter().any(|exit| exit.0 == pair[1])
    })
}

#[test]
fn new_path_is_empty_failure() {
    let path = NavigationPath::new();
    assert_eq!(path.destination, 0);
    assert!(!path.success);
    assert!(path.steps.is_empty());
}

#[test]
fn step_limit_is_2048() {
    assert_eq!(MAX_ASTAR_STEPS, 2048);
}

#[test]
fn open_grid_route_has_distance_plus_one_steps() {
    for size in 2..=7 {
        let mut grid = Grid::open(size, size);
        let end = size * size - 1;
        let path = a_star_search(0, end, &mut grid);
        assert!(path.success);
        assert_eq!(path.destination, end);
        assert_eq!(path.steps.len() as i32, 2 * (size - 1) + 1);
        assert_eq!(path.steps[0], 0);
        assert_eq!(path.steps[path.steps.len() - 1], end);
        assert!(is_walk(&grid, &path.steps));
    }
}

#[test]
fn open_grid_routes_are_exact() {
    let mut grid = Grid::open(3, 3);
    assert_eq!(a_star_search(0, 8, &mut grid).steps, vec![0, 1, 4, 7, 8]);
    let mut grid = Grid::open(4, 4);
    assert_eq!(a_star_search(0, 15, &mut grid).steps, vec![0, 1, 2, 6, 10, 14, 15]);
    let mut grid = Grid::open(5, 5);
    assert_eq!(a_star_search(12, 0, &mut grid).steps, vec![12, 11, 6, 1, 0]);
}

#[test]
fn search_to_the_start_is_one_step() {
    let mut grid = Grid::open(3, 3);
    let path = a_star_search(4, 4, &mut grid);
    assert!(path.success);
    assert_eq!(path.destination, 4);
    assert_eq!(path.steps, vec![4]);
}

#[test]
fn search_to_the_start_asks_nothing_of_the_map() {
    let mut nowhere = ExitTable { rows: Vec::new() };
    let path = a_star_search(-7, -7, &mut nowhere);
    assert!(path.success);
    assert_eq!(path.steps, vec![-7]);
}

#[test]
fn enclosed_start_fails() {
    let mut grid = Grid { width: 3, height: 3, walls: vec![1, 3, 5, 7] };
    let path = a_star_search(4, 0, &mut grid);
    assert!(!path.success);
    assert_eq!(path.destination, 0);
    assert!(path.steps.is_empty());
}

#[test]
fn start_without_exits_fails() {
    let mut dead_end = table(2, &[]);
    let path = a_star_search(0, 1, &mut dead_end);
    assert!(!path.success);
    assert_eq!(path.destination, 1);
    assert!(path.steps.is_empty());
}

#[test]
fn wall_is_walked_around() {
    let mut grid = Grid { width: 5, height: 5, walls: vec![2, 7, 12, 17] };
    let path = a_star_search(0, 4, &mut grid);
    assert!(path.success);
    assert_eq!(path.steps, vec![0, 5, 10, 15, 20, 21, 22, 23, 18, 13, 8, 3, 4]);
}

#[test]
fn cheaper_route_wins_over_fewer_steps() {
    let mut graph = table(5, &[(0, 1, 1), (0, 2, 5), (1, 4, 10), (2, 4, 1), (4, 3, 1)]);
    let path = a_star_search(0, 3, &mut graph);
    assert!(path.success);
    assert_eq!(path.steps, vec![0, 2, 4, 3]);
}

#[test]
fn goal_ends_the_search_when_first_seen() {
    let mut graph = table(4, &[(0, 1, 1), (0, 2, 5), (1, 3, 10), (2, 3, 1)]);
    let path = a_star_search(0, 3, &mut graph);
    assert!(path.success);
    assert_eq!(path.steps, vec![0, 1, 3]);
}

#[test]
fn corridor_within_the_step_limit_is_walked() {
    let mut line = corridor(3000);
    let path = a_star_search(0, 2048, &mut line);
    assert!(path.success);
    assert_eq!(path.steps.len(), 2049);
    let expected: Vec<i32> = (0..=2048).collect();
    assert_eq!(path.steps, expected);
}

#[test]
fn corridor_beyond_the_step_limit_fails() {
    let mut line = corridor(3000);
    let path = a_star_search(0, 2049, &mut line);
    assert!(!path.success);
    assert_eq!(path.destination, 2049);
    assert!(path.steps.is_empty());
    let path = a_star_search(0, 2999, &mut line);
    assert!(!path.success);
}

#[test]
fn wide_open_grid_exhausts_the_step_limit() {
    let mut grid = Grid::open(10, 10);
    let path = a_star_search(0, 99, &mut grid);
    assert!(!path.success);
    assert_eq!(path.destination, 99);
    assert!(path.steps.is_empty());
}

#[test]
fn free_steps_in_a_ring_end_in_failure_not_in_a_loop() {
    let mut graph = table(5, &[(0, 1, 0), (1, 2, 0), (2, 1, 0), (2, 3, 0), (3, 2, 0), (3, 4, 0)]);
    let path = a_star_search(0, 4, &mut graph);
    assert!(!path.success);
    assert!(path.steps.is_empty());
}

#[test]
fn unknown_goal_is_not_found() {
    let mut grid = Grid::open(3, 3);
    let path = a_star_search(0, 50, &mut grid);
    assert!(!path.success);
    assert_eq!(path.destination, 50);
}

#[test]
fn path_can_be_cloned() {
    let mut grid = Grid::open(3, 3);
    let path = a_star_search(0, 8, &mut grid);
    let copy = path.clone();
    assert_eq!(copy.steps, path.steps);
    assert_eq!(copy.success, path.success);
    assert_eq!(copy.destination, path.destination);
}

#[test]
fn goal_next_door_is_reached_in_one_step() {
    let mut grid = Grid::open(3, 3);
    let path = a_star_search(4, 5, &mut grid);
    assert!(path.success);
    assert_eq!(path.steps, vec![4, 5]);
    let mut graph = table(3, &[(0, 1, 9), (0, 2, 1), (2, 1, 1)]);
    let path = a_star_search(0, 1, &mut graph);
    assert_eq!(path.steps, vec![0, 1]);
}

#[test]
fn estimate_steers_the_search() {
    let mut grid = Grid::open(5, 5);
    let path = a_star_search(10, 14, &mut grid);
    assert!(path.success);
    assert_eq!(path.steps, vec![10, 11, 12, 13, 14]);
}
