//! The traversable-graph capability: a container of points that can
//! enumerate neighbors, decide adjacency walkability, and supply cost and
//! heuristic functions. The graph is read-only from the engine's
//! perspective; the engine never mutates it.

use vstd::prelude::*;
use crate::vertex::Vertex2D;

verus! {

/// A graph of 2-D vertices that [`crate::search::a_star`] can traverse.
///
/// Each executable operation is pinned to a specification-level view of the
/// same graph (`vertices`, `spec_neighbors`, `spec_transversable`,
/// `spec_travel_cost`, `spec_heuristic`), so that the search routine's
/// contract can speak about paths in the abstract graph.
pub trait Graph2D<V: Vertex2D>: Sized {
    /// The graph is well formed: whatever structural soundness the
    /// implementation needs before its operations answer honestly (a grid
    /// being rectangular, say). Callers of the operations below, the search
    /// routine included, must establish it; constructors ensure it.
    spec fn wf(&self) -> bool;

    /// The set of vertices this graph contains.
    spec fn vertices(&self) -> Set<V>;

    /// The neighbor enumeration of a vertex, as a sequence of vertices.
    spec fn spec_neighbors(&self, vertex: V) -> Seq<V>;

    /// The existence check's meaning: which vertices the graph reports as
    /// present. A grid, say, goes by the coordinates alone.
    spec fn spec_has(&self, vertex: V) -> bool;

    /// Whether a direct step between two vertices is permitted.
    spec fn spec_transversable(&self, vertex: V, other: V) -> bool;

    /// The exact cost of moving between two adjacent vertices.
    spec fn spec_travel_cost(&self, vertex: V, other: V) -> u64;

    /// The estimated cost of reaching `other` from `vertex`.
    spec fn spec_heuristic(&self, vertex: V, other: V) -> u64;

    /// Returns all neighboring vertices of a given vertex: every vertex
    /// potentially reachable in one step, independent of walkability. Every
    /// returned vertex belongs to the graph.
    fn neighbors(&self, vertex: &V) -> (r: Vec<&V>)
        requires
            self.wf(),
        ensures
            r@.len() == self.spec_neighbors(*vertex).len(),
            forall|i: int|
                0 <= i < r@.len() ==> *(#[trigger] r@[i]) == self.spec_neighbors(*vertex)[i]
                    && self.vertices().contains(*r@[i]),
    ;

    /// Determines whether it is possible to travel between two vertices.
    fn path_is_transversable(&self, vertex: &V, other: &V) -> (r: bool)
        requires
            self.wf(),
        ensures
            r == self.spec_transversable(*vertex, *other),
    ;

    /// Returns whether or not the graph has a given vertex. The search does
    /// not depend on it; it serves callers validating boundaries beforehand.
    fn has_vertex(&self, vertex: &V) -> (r: bool)
        requires
            self.wf(),
        ensures
            r == self.spec_has(*vertex),
    ;

    /// Returns the estimated cost of transversing the graph from one vertex
    /// to a goal. For the search to find lowest-cost paths this estimate
    /// should never overestimate the true remaining cost; the engine does
    /// not verify that, and a poor estimate degrades result quality, not
    /// correctness.
    fn heuristic(&self, vertex: &V, other: &V) -> (r: u64)
        requires
            self.wf(),
        ensures
            r == self.spec_heuristic(*vertex, *other),
    ;

    /// Returns the exact cost of transversing the graph from one vertex to
    /// its neighbor. Used only for already-transversable edges.
    fn travel_cost(&self, vertex: &V, other: &V) -> (r: u64)
        requires
            self.wf(),
        ensures
            r == self.spec_travel_cost(*vertex, *other),
    ;
}

} // verus!
