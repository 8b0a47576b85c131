//! A demonstration graph: a rectangular grid of cells with wall flags,
//! 8-directional movement, and a no-corner-cutting rule (a diagonal step is
//! disallowed when both orthogonal cells flanking it are walls or missing).

use vstd::prelude::*;
use vstd::set_lib::lemma_set_subset_finite;
use crate::vertex::{Vertex2D, absi, maxi, isqrt, scaled_sq_dist, coords_close};
use crate::vertex::{lemma_isqrt_monotone, lemma_isqrt_square, lemma_isqrt_bounds};
use crate::graph::Graph2D;
use crate::search::walk_cost;

verus! {

/// One cell of the grid: its coordinates and whether it is a wall.
#[derive(Clone, Copy, PartialEq, Eq, Hash, Debug)]
pub struct Node {
    /// Column of the cell.
    pub x: u32,
    /// Row of the cell.
    pub y: u32,
    /// A wall cell cannot be entered or left.
    pub is_wall: bool,
}

impl Vertex2D for Node {
    open spec fn pos(&self) -> (int, int) {
        (self.x as int, self.y as int)
    }

    fn coords(&self) -> (r: (i64, i64)) {
        (self.x as i64, self.y as i64)
    }

    fn eq_vertex(&self, other: &Self) -> (r: bool) {
        self.x == other.x && self.y == other.y && self.is_wall == other.is_wall
    }
}

impl Node {
    /// A free (non-wall) cell at the given coordinates.
    pub fn new(x: u32, y: u32) -> (r: Self)
        ensures
            r == (Node { x, y, is_wall: false }),
    {
        Node { x, y, is_wall: false }
    }
}

/// A rectangular grid whose cells relate to their neighbors in the nine
/// lattice directions (eight moves plus rest), stored row by row.
pub struct D2Q9 {
    /// The cells, stored row by row. A grid built by [`D2Q9::new`] is
    /// rectangular and every cell carries its own position (see
    /// [`D2Q9::grid_ok`]); the searchable contracts ask for that shape.
    pub grid: Vec<Vec<Node>>,
}

/// The eight moves out of a cell, in row-major order.
pub open spec fn neighbor_offsets() -> Seq<(int, int)> {
    seq![
        (-1int, -1int),
        (0int, -1int),
        (1int, -1int),
        (-1int, 0int),
        (1int, 0int),
        (-1int, 1int),
        (0int, 1int),
        (1int, 1int),
    ]
}

impl D2Q9 {
    /// Number of rows.
    pub open spec fn height(&self) -> int {
        self.grid@.len() as int
    }

    /// Number of columns.
    pub open spec fn width(&self) -> int {
        if self.grid@.len() == 0 {
            0
        } else {
            self.grid@[0]@.len() as int
        }
    }

    /// The cell stored at a position.
    pub open spec fn node_at(&self, x: int, y: int) -> Node {
        self.grid@[y]@[x]
    }

    /// Whether a position lies inside the stored cells.
    pub open spec fn in_bounds(&self, x: int, y: int) -> bool {
        0 <= y < self.grid@.len() && 0 <= x < self.grid@[y]@.len()
    }

    /// The grid is rectangular, coordinates fit in `u32`, and every cell
    /// carries its own position.
    pub open spec fn grid_ok(&self) -> bool {
        &&& self.height() <= u32::MAX as int
        &&& self.width() <= u32::MAX as int
        &&& forall|yy: int|
            0 <= yy < self.height() ==> (#[trigger] self.grid@[yy])@.len() == self.width()
        &&& forall|xx: int, yy: int|
            0 <= yy < self.height() && 0 <= xx < self.width() ==> (#[trigger] self.node_at(
                xx,
                yy,
            )).x == xx && self.node_at(xx, yy).y == yy
    }

    /// Whether the grid stores this very cell at the cell's own position.
    pub open spec fn contains_node(&self, n: Node) -> bool {
        self.in_bounds(n.x as int, n.y as int) && self.node_at(n.x as int, n.y as int) == n
    }

    /// A flanking cell of a diagonal step exists and is not a wall.
    pub open spec fn flank_open(&self, x: int, y: int) -> bool {
        self.in_bounds(x, y) && !self.node_at(x, y).is_wall
    }

    /// Movement between two cells: a cell may rest in place; walls block;
    /// orthogonal steps of one cell are free; a diagonal step needs at least
    /// one of its two flanking orthogonal cells open.
    pub open spec fn trans_at(&self, from: Node, to: Node) -> bool {
        if from == to {
            true
        } else if from.is_wall || to.is_wall {
            false
        } else {
            let dx = to.pos().0 - from.pos().0;
            let dy = to.pos().1 - from.pos().1;
            if (dx == 0 && absi(dy) == 1) || (dy == 0 && absi(dx) == 1) {
                true
            } else if absi(dx) == 1 && absi(dy) == 1 {
                self.flank_open(from.pos().0, from.pos().1 + dy) || self.flank_open(
                    from.pos().0 + dx,
                    from.pos().1,
                )
            } else {
                false
            }
        }
    }

    /// The in-bounds cells at the first `k` of the eight neighbor offsets.
    pub open spec fn neighbors_upto(&self, v: Node, k: int) -> Seq<Node>
        decreases k,
    {
        if k <= 0 {
            Seq::empty()
        } else {
            let rest = self.neighbors_upto(v, k - 1);
            let px = v.pos().0 + neighbor_offsets()[k - 1].0;
            let py = v.pos().1 + neighbor_offsets()[k - 1].1;
            if self.in_bounds(px, py) {
                rest.push(self.node_at(px, py))
            } else {
                rest
            }
        }
    }

    /// The Chebyshev distance between two cells, in thousandths of a cell.
    pub open spec fn heur_at(&self, a: Node, b: Node) -> u64 {
        (1000 * maxi(absi(b.pos().0 - a.pos().0), absi(b.pos().1 - a.pos().1))) as u64
    }

    /// The Euclidean distance between two cells, in thousandths of a cell;
    /// the distance of cells over two million units apart saturates.
    pub open spec fn cost_at(&self, a: Node, b: Node) -> u64 {
        if coords_close(a.pos(), b.pos()) {
            isqrt(scaled_sq_dist(a.pos(), b.pos()) as nat) as u64
        } else {
            u64::MAX
        }
    }

    /// Builds a grid of the given size; `is_wall` decides which cells are
    /// walls.
    pub fn new<F: Fn(u32, u32) -> bool>(width: u32, height: u32, is_wall: F) -> (r: Self)
        requires
            forall|x: u32, y: u32| #[trigger] is_wall.requires((x, y)),
        ensures
            r.wf(),
            r.height() == height as int,
            height > 0 ==> r.width() == width as int,
            forall|xx: int, yy: int|
                0 <= xx < width as int && 0 <= yy < height as int ==> (#[trigger] r.node_at(
                    xx,
                    yy,
                )).x == xx && r.node_at(xx, yy).y == yy,
            forall|xx: u32, yy: u32|
                xx < width && yy < height ==> is_wall.ensures(
                    (xx, yy),
                    (#[trigger] r.node_at(xx as int, yy as int)).is_wall,
                ),
    {
        let mut grid: Vec<Vec<Node>> = Vec::new();
        let mut y: u32 = 0;
        while y < height
            invariant
                y <= height,
                grid@.len() == y as int,
                forall|yy: int| 0 <= yy < y as int ==> (#[trigger] grid@[yy])@.len() == width as int,
                forall|xx: int, yy: int|
                    0 <= yy < y as int && 0 <= xx < width as int ==> (#[trigger] grid@[yy]@[xx]).x
                        == xx && grid@[yy]@[xx].y == yy,
                forall|xx: u32, yy: u32|
                    xx < width && yy < y ==> is_wall.ensures(
                        (xx, yy),
                        (#[trigger] grid@[yy as int]@[xx as int]).is_wall,
                    ),
                forall|xc: u32, yc: u32| #[trigger] is_wall.requires((xc, yc)),
            decreases height - y,
        {
            let mut points: Vec<Node> = Vec::new();
            let mut x: u32 = 0;
            while x < width
                invariant
                    x <= width,
                    points@.len() == x as int,
                    forall|xx: int|
                        0 <= xx < x as int ==> (#[trigger] points@[xx]).x == xx && points@[xx].y
                            == y as int,
                    forall|xx: u32|
                        xx < x ==> is_wall.ensures((xx, y), (#[trigger] points@[xx as int]).is_wall),
                    forall|xc: u32, yc: u32| #[trigger] is_wall.requires((xc, yc)),
                decreases width - x,
            {
                let w = is_wall(x, y);
                points.push(Node { x, y, is_wall: w });
                x += 1;
            }
            grid.push(points);
            y += 1;
        }
        Self { grid }
    }

    /// The cell at a position, if the position is on the grid.
    pub fn get_at(&self, x: u32, y: u32) -> (r: Option<&Node>)
        ensures
            match r {
                Some(n) => self.in_bounds(x as int, y as int) && *n == self.node_at(
                    x as int,
                    y as int,
                ),
                None => !self.in_bounds(x as int, y as int),
            },
    {
        if (y as usize) < self.grid.len() {
            let row = &self.grid[y as usize];
            if (x as usize) < row.len() {
                return Some(&row[x as usize]);
            }
        }
        None
    }
}

impl Graph2D<Node> for D2Q9 {
    open spec fn wf(&self) -> bool {
        self.grid_ok()
    }

    open spec fn vertices(&self) -> Set<Node> {
        Set::new(|n: Node| self.contains_node(n))
    }

    open spec fn spec_neighbors(&self, vertex: Node) -> Seq<Node> {
        self.neighbors_upto(vertex, 8)
    }

    open spec fn spec_has(&self, vertex: Node) -> bool {
        self.in_bounds(vertex.x as int, vertex.y as int)
    }

    open spec fn spec_transversable(&self, vertex: Node, other: Node) -> bool {
        self.trans_at(vertex, other)
    }

    open spec fn spec_travel_cost(&self, vertex: Node, other: Node) -> u64 {
        self.cost_at(vertex, other)
    }

    open spec fn spec_heuristic(&self, vertex: Node, other: Node) -> u64 {
        self.heur_at(vertex, other)
    }

    fn neighbors(&self, vertex: &Node) -> (r: Vec<&Node>) {
        let mut neighbors: Vec<&Node> = Vec::new();
        let mut k: usize = 0;
        while k < 8
            invariant
                self.wf(),
                k <= 8,
                neighbors@.len() == self.neighbors_upto(*vertex, k as int).len(),
                forall|l: int|
                    0 <= l < neighbors@.len() ==> *(#[trigger] neighbors@[l])
                        == self.neighbors_upto(*vertex, k as int)[l] && self.vertices().contains(
                        *neighbors@[l],
                    ),
            decreases 8 - k,
        {
            let ghost pre = neighbors@;
            let kk: usize = if k < 4 {
                k
            } else {
                k + 1
            };
            let dxm: u64 = (kk % 3) as u64;
            let dym: u64 = (kk / 3) as u64;
            proof {
                assert(neighbor_offsets()[k as int] == (dxm as int - 1, dym as int - 1));
            }
            let cx: u64 = vertex.x as u64 + dxm;
            let cy: u64 = vertex.y as u64 + dym;
            let ghost pxi = vertex.pos().0 + neighbor_offsets()[k as int].0;
            let ghost pyi = vertex.pos().1 + neighbor_offsets()[k as int].1;
            proof {
                if 0 <= pyi < self.grid@.len() {
                    assert(self.grid@[pyi]@.len() == self.width());
                }
            }
            if cx >= 1 && cy >= 1 && cx <= u32::MAX as u64 && cy <= u32::MAX as u64 {
                let px: u32 = (cx - 1) as u32;
                let py: u32 = (cy - 1) as u32;
                if (py as usize) < self.grid.len() {
                    let row = &self.grid[py as usize];
                    if (px as usize) < row.len() {
                        neighbors.push(&row[px as usize]);
                        proof {
                            assert(self.in_bounds(pxi, pyi));
                            assert(neighbors@ == pre.push(&self.grid@[pyi]@[pxi]));
                            assert(self.contains_node(self.node_at(pxi, pyi)));
                        }
                    }
                }
            }
            k += 1;
        }
        neighbors
    }

    fn path_is_transversable(&self, vertex: &Node, other: &Node) -> (r: bool) {
        if vertex.eq_vertex(other) {
            return true;
        }
        if vertex.is_wall || other.is_wall {
            return false;
        }
        let dx: i64 = other.x as i64 - vertex.x as i64;
        let dy: i64 = other.y as i64 - vertex.y as i64;
        let adx: i64 = if dx < 0 {
            -dx
        } else {
            dx
        };
        let ady: i64 = if dy < 0 {
            -dy
        } else {
            dy
        };
        if (dx == 0 && ady == 1) || (dy == 0 && adx == 1) {
            return true;
        }
        if adx == 1 && ady == 1 {
            let fy: i64 = vertex.y as i64 + dy;
            let fx: i64 = vertex.x as i64 + dx;
            proof {
                if 0 <= fy < self.grid@.len() {
                    assert(self.grid@[fy as int]@.len() == self.width());
                }
                if 0 <= (vertex.y as int) < self.grid@.len() {
                    assert(self.grid@[vertex.y as int]@.len() == self.width());
                }
            }
            if 0 <= fy && fy <= u32::MAX as i64 {
                let fyu: u32 = fy as u32;
                if (fyu as usize) < self.grid.len() {
                    let row = &self.grid[fyu as usize];
                    if (vertex.x as usize) < row.len() {
                        if !row[vertex.x as usize].is_wall {
                            return true;
                        }
                    }
                }
            }
            if (vertex.y as usize) < self.grid.len() {
                let row = &self.grid[vertex.y as usize];
                if 0 <= fx && fx <= u32::MAX as i64 {
                    let fxu: u32 = fx as u32;
                    if (fxu as usize) < row.len() {
                        if !row[fxu as usize].is_wall {
                            return true;
                        }
                    }
                }
            }
            return false;
        }
        false
    }

    fn has_vertex(&self, vertex: &Node) -> (r: bool) {
        self.get_at(vertex.x, vertex.y).is_some()
    }

    fn heuristic(&self, vertex: &Node, other: &Node) -> (r: u64) {
        let dx: u32 = if other.x >= vertex.x {
            other.x - vertex.x
        } else {
            vertex.x - other.x
        };
        let dy: u32 = if other.y >= vertex.y {
            other.y - vertex.y
        } else {
            vertex.y - other.y
        };
        let m: u64 = if dx >= dy {
            dx as u64
        } else {
            dy as u64
        };
        m * 1000
    }

    fn travel_cost(&self, vertex: &Node, other: &Node) -> (r: u64) {
        let dx: u32 = if other.x >= vertex.x {
            other.x - vertex.x
        } else {
            vertex.x - other.x
        };
        let dy: u32 = if other.y >= vertex.y {
            other.y - vertex.y
        } else {
            vertex.y - other.y
        };
        if dx > 2000000 || dy > 2000000 {
            u64::MAX
        } else {
            vertex.euclidean_distance(other)
        }
    }
}

/// An element of a stored row is an element of the flattened rows.
proof fn lemma_flatten_index<T>(ss: Seq<Seq<T>>, i: int, j: int)
    requires
        0 <= i < ss.len(),
        0 <= j < ss[i].len(),
    ensures
        ss.flatten().contains(ss[i][j]),
    decreases i,
{
    if i == 0 {
        assert(ss.flatten()[j] == ss[0][j]);
    } else {
        lemma_flatten_index(ss.drop_first(), i - 1, j);
        let rest = ss.drop_first().flatten();
        let k = choose|k: int| 0 <= k < rest.len() && rest[k] == ss[i][j];
        assert(ss.flatten()[ss[0].len() + k] == ss[i][j]);
    }
}

/// A grid has finitely many cells, so it can be searched.
pub proof fn lemma_vertices_finite(g: &D2Q9)
    ensures
        g.vertices().finite(),
{
    let rows = g.grid@.map_values(|row: Vec<Node>| row@);
    let all = rows.flatten();
    assert(g.vertices().subset_of(all.to_set())) by {
        assert forall|n: Node| g.vertices().contains(n) implies all.to_set().contains(n) by {
            lemma_flatten_index(rows, n.y as int, n.x as int);
        }
    }
    vstd::seq_lib::seq_to_set_is_finite(all);
    lemma_set_subset_finite(all.to_set(), g.vertices());
}

/// The heuristic never exceeds the exact step cost: the scaled Chebyshev
/// distance is at most the scaled Euclidean one.
pub proof fn lemma_heuristic_within_cost(g: &D2Q9, a: Node, b: Node)
    ensures
        g.heur_at(a, b) <= g.cost_at(a, b),
{
    let dx = b.pos().0 - a.pos().0;
    let dy = b.pos().1 - a.pos().1;
    let m = maxi(absi(dx), absi(dy));
    if coords_close(a.pos(), b.pos()) {
        assert(m * m <= dx * dx + dy * dy) by (nonlinear_arith)
            requires
                m == dx || m == -dx || m == dy || m == -dy,
        ;
        assert((1000 * m) * (1000 * m) == (m * m) * 1000000) by (nonlinear_arith);
        assert((m * m) * 1000000 <= (dx * dx + dy * dy) * 1000000) by (nonlinear_arith)
            requires
                m * m <= dx * dx + dy * dy,
        ;
        assert(dx * dx <= 4000000000000 && dy * dy <= 4000000000000) by (nonlinear_arith)
            requires
                -2000000 <= dx <= 2000000,
                -2000000 <= dy <= 2000000,
        ;
        let sc = scaled_sq_dist(a.pos(), b.pos()) as nat;
        let k = (1000 * m) as nat;
        assert(((1000 * m) * (1000 * m)) as nat == k * k) by (nonlinear_arith)
            requires
                0 <= m,
                k == 1000 * m,
        ;
        lemma_isqrt_monotone(k * k, sc);
        lemma_isqrt_square(k);
        lemma_isqrt_bounds(sc);
        let q = isqrt(sc);
        assert(q < 4294967296) by (nonlinear_arith)
            requires
                q * q <= sc,
                sc <= 8000000000000000000,
        ;
        assert(g.heur_at(a, b) == k);
        assert(g.cost_at(a, b) == q);
        assert(k <= q);
    }
}

/// The Chebyshev distance obeys the triangle inequality.
pub proof fn lemma_heuristic_triangle(g: &D2Q9, a: Node, b: Node, c: Node)
    ensures
        g.heur_at(a, c) <= g.heur_at(a, b) + g.heur_at(b, c),
{
}

/// The heuristic is consistent: the estimate drops by at most the exact
/// cost of a step.
pub proof fn lemma_heuristic_consistent(g: &D2Q9, a: Node, b: Node, goal: Node)
    ensures
        g.heur_at(a, goal) <= g.cost_at(a, b) + g.heur_at(b, goal),
{
    lemma_heuristic_triangle(g, a, b, goal);
    lemma_heuristic_within_cost(g, a, b);
}

/// The heuristic is admissible: the estimate never exceeds the total travel
/// cost of any cell sequence that ends at the goal. Admissibility and
/// consistency are the premises under which a best-first search can return
/// least-cost paths; the search returns as soon as it discovers the goal,
/// so cost minimality itself is checked by tests against an exhaustive
/// reference rather than proved.
pub proof fn lemma_heuristic_admissible(g: &D2Q9, p: Seq<Node>, goal: Node)
    requires
        p.len() >= 1,
        p[p.len() - 1] == goal,
    ensures
        g.heur_at(p[0], goal) <= walk_cost(g, p),
    decreases p.len(),
{
    if p.len() == 1 {
        assert(g.heur_at(goal, goal) == 0);
    } else {
        let rest = p.drop_first();
        assert(rest[0] == p[1]);
        assert(rest[rest.len() - 1] == p[p.len() - 1]);
        lemma_heuristic_admissible(g, rest, goal);
        lemma_heuristic_consistent(g, p[0], p[1], goal);
        assert(g.spec_travel_cost(p[0], p[1]) == g.cost_at(p[0], p[1]));
    }
}

/// A transversable step moves at most one cell along each axis.
pub proof fn lemma_step_moves_one(g: &D2Q9, a: Node, b: Node)
    requires
        g.trans_at(a, b),
    ensures
        absi(b.pos().0 - a.pos().0) <= 1,
        absi(b.pos().1 - a.pos().1) <= 1,
{
}

/// A transversable walk spans more cells than its endpoints' separation
/// along either axis: a walk between two cells a straight line of `n` edges
/// apart takes at least `n` edges.
pub proof fn lemma_walk_at_least_axis_span(g: &D2Q9, p: Seq<Node>)
    requires
        p.len() >= 1,
        forall|i: int| 0 <= i < p.len() - 1 ==> g.trans_at(#[trigger] p[i], p[i + 1]),
    ensures
        p.len() > absi(p[p.len() - 1].pos().0 - p[0].pos().0),
        p.len() > absi(p[p.len() - 1].pos().1 - p[0].pos().1),
    decreases p.len(),
{
    if p.len() > 1 {
        let rest = p.drop_first();
        assert forall|i: int| 0 <= i < rest.len() - 1 implies g.trans_at(
            #[trigger] rest[i],
            rest[i + 1],
        ) by {
            assert(rest[i] == p[i + 1]);
            assert(rest[i + 1] == p[i + 2]);
            assert(g.trans_at(p[i + 1], p[i + 2]));
        }
        lemma_walk_at_least_axis_span(g, rest);
        lemma_step_moves_one(g, p[0], p[1]);
        assert(rest[0] == p[1]);
        assert(rest[rest.len() - 1] == p[p.len() - 1]);
    }
}

/// The corner-cutting rule: when both orthogonal cells flanking a diagonal
/// step are walls (or missing), the diagonal step is rejected — and hence,
/// by the search routine's contract, no returned path contains it.
pub proof fn lemma_corner_cutting(g: &D2Q9, from: Node, to: Node)
    requires
        absi(to.pos().0 - from.pos().0) == 1,
        absi(to.pos().1 - from.pos().1) == 1,
        g.in_bounds(from.pos().0, to.pos().1) ==> g.node_at(from.pos().0, to.pos().1).is_wall,
        g.in_bounds(to.pos().0, from.pos().1) ==> g.node_at(to.pos().0, from.pos().1).is_wall,
    ensures
        !g.spec_transversable(from, to),
{
}

} // verus!
