//! The smallest traversable graph beside the grid: a complete graph over a
//! list of points. Every listed point neighbors every listed point, itself
//! included, so it exhibits the self-adjacency that lets a search with
//! `start == goal` finish on the first expansion.

use vstd::prelude::*;
use crate::grid::Node;
use crate::graph::Graph2D;
use crate::vertex::Vertex2D;

verus! {

/// A complete graph over a list of points: every step between listed points
/// is permitted and costs one cell (1000 thousandths); the heuristic is
/// zero, which trivially never overestimates.
pub struct Clique {
    /// The listed points.
    pub points: Vec<Node>,
}

impl Clique {
    /// The listed points.
    pub open spec fn points_seq(&self) -> Seq<Node> {
        self.points@
    }

    /// A complete graph over the given points.
    pub fn new(points: Vec<Node>) -> (r: Self)
        ensures
            r.points_seq() == points@,
            r.wf(),
    {
        Clique { points }
    }
}

impl Graph2D<Node> for Clique {
    open spec fn wf(&self) -> bool {
        true
    }

    open spec fn vertices(&self) -> Set<Node> {
        self.points_seq().to_set()
    }

    open spec fn spec_neighbors(&self, vertex: Node) -> Seq<Node> {
        self.points_seq()
    }

    open spec fn spec_has(&self, vertex: Node) -> bool {
        self.points_seq().contains(vertex)
    }

    open spec fn spec_transversable(&self, vertex: Node, other: Node) -> bool {
        true
    }

    open spec fn spec_travel_cost(&self, vertex: Node, other: Node) -> u64 {
        1000
    }

    open spec fn spec_heuristic(&self, vertex: Node, other: Node) -> u64 {
        0
    }

    fn neighbors(&self, vertex: &Node) -> (r: Vec<&Node>) {
        let mut r: Vec<&Node> = Vec::new();
        let mut i: usize = 0;
        while i < self.points.len()
            invariant
                i <= self.points@.len(),
                r@.len() == i as int,
                forall|l: int|
                    0 <= l < i as int ==> *(#[trigger] r@[l]) == self.points_seq()[l]
                        && self.vertices().contains(*r@[l]),
            decreases self.points@.len() - i,
        {
            proof {
                assert(self.points_seq().contains(self.points@[i as int]));
            }
            r.push(&self.points[i]);
            i += 1;
        }
        r
    }

    fn path_is_transversable(&self, vertex: &Node, other: &Node) -> (r: bool) {
        true
    }

    fn has_vertex(&self, vertex: &Node) -> (r: bool) {
        let mut i: usize = 0;
        let mut found: bool = false;
        while i < self.points.len()
            invariant
                i <= self.points@.len(),
                found == (exists|l: int|
                    0 <= l < i as int && (#[trigger] self.points_seq()[l]) == *vertex),
            decreases self.points@.len() - i,
        {
            if self.points[i].eq_vertex(vertex) {
                found = true;
                proof {
                    assert(self.points_seq()[i as int] == *vertex);
                }
            }
            i += 1;
        }
        found
    }

    fn heuristic(&self, vertex: &Node, other: &Node) -> (r: u64) {
        0
    }

    fn travel_cost(&self, vertex: &Node, other: &Node) -> (r: u64) {
        1000
    }
}

/// A clique has finitely many points, so it can be searched.
pub proof fn lemma_clique_finite(g: &Clique)
    ensures
        g.vertices().finite(),
{
    vstd::seq_lib::seq_to_set_is_finite(g.points_seq());
}

} // verus!
