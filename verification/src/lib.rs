//! A* lowest-cost pathfinding over caller-defined 2-D graphs.
//!
//! The engine is decoupled from any concrete grid: callers supply a vertex
//! type implementing [`Vertex2D`] and a graph type implementing [`Graph2D`],
//! and [`a_star`] runs the search. Distances and costs are integers in
//! thousandths of a cell edge (see [`DIST_SCALE`]), so that an orthogonal
//! step on a unit grid costs 1000 and a diagonal step 1414.
//!
//! A rectangular demonstration grid with wall cells, 8-directional movement
//! and a no-corner-cutting rule lives in [`grid`]; a complete graph over a
//! list of points, in [`clique`].

pub mod vertex;
pub mod graph;
pub mod search;
pub mod grid;
pub mod clique;

pub use vertex::{Vertex2D, DIST_SCALE};
pub use graph::Graph2D;
pub use search::a_star;
pub use grid::{Node, D2Q9};
pub use clique::Clique;
