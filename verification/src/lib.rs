//! A grid-based shortest-path search engine.
//!
//! A [`engine::Grid`] models a rectangular terrain in which every cell has a
//! role (empty, blocked, start, end) and a positive traversal cost.  Four
//! search algorithms compute a route from the unique start cell to the unique
//! end cell: breadth-first and depth-first search on the uniform cost model,
//! Dijkstra's algorithm and A* on the weighted cost model.

pub mod a_star;
pub mod algorithms;
pub mod bfs;
pub mod board;
pub mod dfs;
pub mod dijkstra;
pub mod engine;
pub mod laws;
pub mod num;
pub mod request;
pub mod search;
pub mod terrain;
