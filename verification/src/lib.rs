//! Pathfinding over a flat space of cell indices: a best-first search for one
//! route, and flow maps that hold each cell's cost to the nearest of a set of
//! starting cells.

pub mod geometry;
pub mod grid;
pub mod flood;
pub mod flood_laws;
pub mod dijkstra;
pub mod astar;
pub mod astar_laws;
pub mod flow;
pub mod dijkstra_laws;

pub use astar::{a_star_search, NavigationPath};
pub use dijkstra::DijkstraMap;
pub use geometry::{line2d, DistanceAlg, Point, Point3};
pub use grid::{BaseMap, ExitTable, OutOfRange};
