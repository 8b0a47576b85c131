//! The A* search routine and its per-vertex bookkeeping.
//!
//! The A* algorithm calculates a path between two points on a graph by
//! picking the points in it that are connected by the lowest costs, `f`, to
//! reach the final goal. This score is defined as the sum of the cost of
//! moving between vertices, `g`, and the estimated cost of reaching the goal
//! from any vertex, `h` — which is called a heuristic function —; i.e.
//! `f = g + h`.
//!
//! Costs are unsigned 64-bit integers; additions saturate, and `u64::MAX`
//! plays the role of the infinite default score of a vertex that has not
//! been reached yet.

use vstd::prelude::*;
use vstd::set_lib::lemma_len_subset;
use crate::vertex::Vertex2D;
use crate::graph::Graph2D;

verus! {

/// Addition that stops at `u64::MAX` instead of wrapping.
pub open spec fn sat_add_spec(a: u64, b: u64) -> u64 {
    if a + b > u64::MAX {
        u64::MAX
    } else {
        (a + b) as u64
    }
}

/// Computes `sat_add_spec` in executable code.
fn sat_add(a: u64, b: u64) -> (r: u64)
    ensures
        r == sat_add_spec(a, b),
{
    if a > u64::MAX - b {
        u64::MAX
    } else {
        a + b
    }
}

/// Search bookkeeping for one visited vertex: the vertex it was best
/// reached from (`parent`, an index into the bookkeeping list; absent only
/// for the start vertex), the best known exact cost from the start
/// (`g_score`), and the best known total estimated cost
/// (`f_score = g_score + heuristic`). A vertex without a record is treated
/// as having infinite scores.
pub struct NodeInfo<'m, V> {
    /// The vertex this record belongs to.
    pub vertex: &'m V,
    /// Index of the record of the vertex from which this one was best
    /// reached.
    pub parent: Option<usize>,
    /// Best known exact cost from the start vertex.
    pub g_score: u64,
    /// Best known total estimated cost through this vertex.
    pub f_score: u64,
    /// Ghost witness that parent links cannot form a cycle: along a parent
    /// chain, `(g_score, rank)` strictly decreases lexicographically.
    pub rank: Ghost<nat>,
}

/// The sum of all recorded `g_score`s; search progress is measured by it.
pub open spec fn sum_g<'m, V>(es: Seq<NodeInfo<'m, V>>) -> nat
    decreases es.len(),
{
    if es.len() == 0 {
        0
    } else {
        (es[0].g_score + sum_g(es.drop_first())) as nat
    }
}

/// Lowering one record's `g_score` lowers the sum of all of them.
proof fn lemma_sum_g_update<'m, V>(es: Seq<NodeInfo<'m, V>>, i: int, e: NodeInfo<'m, V>)
    requires
        0 <= i < es.len(),
        e.g_score < es[i].g_score,
    ensures
        sum_g(es.update(i, e)) < sum_g(es),
    decreases es.len(),
{
    if i == 0 {
        assert(es.update(0, e).drop_first() =~= es.drop_first());
    } else {
        assert(es.update(i, e).drop_first() =~= es.drop_first().update(i - 1, e));
        lemma_sum_g_update(es.drop_first(), i - 1, e);
    }
}

/// A sequence of distinct elements of a finite set is no longer than the
/// set.
proof fn lemma_distinct_in_finite_set<T>(s: Seq<T>, set: Set<T>)
    requires
        set.finite(),
        forall|i: int| 0 <= i < s.len() ==> set.contains(#[trigger] s[i]),
        forall|i: int, j: int|
            0 <= i < s.len() && 0 <= j < s.len() && i != j ==> #[trigger] s[i] != #[trigger] s[j],
    ensures
        s.len() <= set.len(),
{
    assert(s.no_duplicates());
    s.unique_seq_to_set();
    assert(s.to_set().subset_of(set)) by {
        assert forall|a: T| s.to_set().contains(a) implies set.contains(a) by {
            let i = choose|i: int| 0 <= i < s.len() && s[i] == a;
            assert(set.contains(s[i]));
        }
    }
    lemma_len_subset(s.to_set(), set);
}

/// Re-scores one bookkeeping record when a cheaper route to it is found.
///
/// The record is overwritten only if `tentative_g` is strictly below its
/// current `g_score`; in every case the record's `g_score` after the call is
/// at most its `g_score` before it, and no other record changes. Since every
/// write goes through here, no vertex's finite `g_score` ever increases
/// during a search run.
pub fn relax<'m, V>(
    es: &mut Vec<NodeInfo<'m, V>>,
    idx: usize,
    tentative_g: u64,
    new_f: u64,
    parent: usize,
) -> (updated: bool)
    requires
        idx < old(es)@.len(),
        parent < old(es)@.len(),
    ensures
        final(es)@.len() == old(es)@.len(),
        forall|i: int| 0 <= i < old(es)@.len() && i != idx ==> final(es)@[i] == old(es)@[i],
        final(es)@[idx as int].g_score <= old(es)@[idx as int].g_score,
        updated == (tentative_g < old(es)@[idx as int].g_score),
        updated ==> final(es)@[idx as int] == (NodeInfo {
            vertex: old(es)@[idx as int].vertex,
            parent: Some(parent),
            g_score: tentative_g,
            f_score: new_f,
            rank: Ghost((old(es)@[parent as int].rank@ + 1) as nat),
        }),
        !updated ==> final(es)@[idx as int] == old(es)@[idx as int],
{
    if tentative_g < es[idx].g_score {
        let vertex = es[idx].vertex;
        let ghost rank = (es@[parent as int].rank@ + 1) as nat;
        es[idx] = NodeInfo {
            vertex,
            parent: Some(parent),
            g_score: tentative_g,
            f_score: new_f,
            rank: Ghost(rank),
        };
        true
    } else {
        false
    }
}

impl<'m, V> NodeInfo<'m, V> {
    /// The record a vertex gets when it is first seeded, with no parent: the
    /// start vertex's record, whose `g_score` is 0.
    pub fn fresh(vertex: &'m V, g_score: u64, f_score: u64) -> (r: NodeInfo<'m, V>)
        ensures
            r == (NodeInfo { vertex, parent: None, g_score, f_score, rank: Ghost(0nat) }),
    {
        NodeInfo { vertex, parent: None, g_score, f_score, rank: Ghost(0nat) }
    }
}

/// Finds the bookkeeping record of a vertex, if one exists.
fn find_entry<'m, V: Vertex2D>(es: &Vec<NodeInfo<'m, V>>, v: &V) -> (r: Option<usize>)
    ensures
        match r {
            Some(i) => i < es@.len() && *es@[i as int].vertex == *v,
            None => forall|i: int| 0 <= i < es@.len() ==> *(#[trigger] es@[i]).vertex != *v,
        },
{
    let mut i: usize = 0;
    while i < es.len()
        invariant
            i <= es@.len(),
            forall|k: int| 0 <= k < i ==> *(#[trigger] es@[k]).vertex != *v,
        decreases es@.len() - i,
    {
        if es[i].vertex.eq_vertex(v) {
            return Some(i);
        }
        i += 1;
    }
    None
}

/// Whether an index is already on the open list.
fn open_contains(open: &Vec<usize>, idx: usize) -> (r: bool)
    ensures
        r == open@.contains(idx),
{
    let mut i: usize = 0;
    while i < open.len()
        invariant
            i <= open@.len(),
            forall|k: int| 0 <= k < i ==> open@[k] != idx,
        decreases open@.len() - i,
    {
        if open[i] == idx {
            return true;
        }
        i += 1;
    }
    false
}

/// Picks the position on the open list whose record has the lowest
/// `f_score` (ties broken by list order).
fn select_min<'m, V>(es: &Vec<NodeInfo<'m, V>>, open: &Vec<usize>) -> (k: usize)
    requires
        open@.len() > 0,
        forall|j: int| 0 <= j < open@.len() ==> (#[trigger] open@[j]) < es@.len(),
    ensures
        k < open@.len(),
        forall|j: int|
            0 <= j < open@.len() ==> es@[open@[k as int] as int].f_score <= es@[(
            #[trigger] open@[j]) as int].f_score,
{
    let mut best: usize = 0;
    let mut j: usize = 1;
    while j < open.len()
        invariant
            best < j,
            j <= open@.len(),
            forall|l: int| 0 <= l < open@.len() ==> (#[trigger] open@[l]) < es@.len(),
            forall|l: int|
                0 <= l < j ==> es@[open@[best as int] as int].f_score <= es@[(
                #[trigger] open@[l]) as int].f_score,
        decreases open@.len() - j,
    {
        if es[open[j]].f_score <= es[open[best]].f_score {
            best = j;
        }
        j += 1;
    }
    best
}

/// One record's parent link is sound: it points at an existing record, the
/// move from the parent's vertex is a legal step (the child is among the
/// parent's enumerated neighbors and the step is transversable), and
/// `(g_score, rank)` strictly decreases from child to parent, so chains are
/// finite. Only the record at index 0 — the start vertex — has no parent.
pub open spec fn chain_entry_ok<'m, G: Graph2D<V>, V: Vertex2D>(
    map: &G,
    es: Seq<NodeInfo<'m, V>>,
    i: int,
) -> bool {
    match es[i].parent {
        Some(p) => {
            &&& p < es.len()
            &&& step_ok(map, *es[p as int].vertex, *es[i].vertex)
            &&& (es[i].g_score > es[p as int].g_score || (es[i].g_score == es[p as int].g_score
                && es[i].rank@ > es[p as int].rank@))
        },
        None => i == 0,
    }
}

/// All parent links in the bookkeeping list are sound.
pub open spec fn chain_ok<'m, G: Graph2D<V>, V: Vertex2D>(
    map: &G,
    es: Seq<NodeInfo<'m, V>>,
) -> bool {
    &&& es.len() >= 1
    &&& forall|i: int| 0 <= i < es.len() ==> #[trigger] chain_entry_ok(map, es, i)
}

/// Everything the search maintains of one record: finite `g_score`, the
/// invariant `f_score = g_score + heuristic`, a sound parent link, and
/// membership of the vertex in the graph (for every vertex but the start).
pub open spec fn entry_ok<'m, G: Graph2D<V>, V: Vertex2D>(
    map: &G,
    es: Seq<NodeInfo<'m, V>>,
    i: int,
    goal: V,
) -> bool {
    &&& es[i].g_score < u64::MAX
    &&& es[i].f_score == sat_add_spec(es[i].g_score, map.spec_heuristic(*es[i].vertex, goal))
    &&& chain_entry_ok(map, es, i)
    &&& (es[i].parent is Some ==> map.vertices().contains(*es[i].vertex))
}

/// Each vertex has at most one bookkeeping record.
pub open spec fn distinct_vertices<'m, V>(es: Seq<NodeInfo<'m, V>>) -> bool {
    forall|i: int, j: int|
        0 <= i < es.len() && 0 <= j < es.len() && i != j ==> *(#[trigger] es[i]).vertex != *(
        #[trigger] es[j]).vertex
}

/// The whole bookkeeping list is sound, each vertex has at most one record,
/// and index 0 is the start vertex with `g_score` 0.
pub open spec fn entries_ok<'m, G: Graph2D<V>, V: Vertex2D>(
    map: &G,
    es: Seq<NodeInfo<'m, V>>,
    start: V,
    goal: V,
) -> bool {
    &&& es.len() >= 1
    &&& *es[0].vertex == start
    &&& es[0].parent is None
    &&& es[0].g_score == 0
    &&& forall|i: int| 0 <= i < es.len() ==> #[trigger] entry_ok(map, es, i, goal)
    &&& forall|i: int| 1 <= i < es.len() ==> *(#[trigger] es[i]).vertex != goal
    &&& distinct_vertices(es)
}

/// The open list holds valid record indices, each at most once.
pub open spec fn open_ok<'m, V>(es: Seq<NodeInfo<'m, V>>, open: Seq<usize>) -> bool {
    &&& forall|k: int| 0 <= k < open.len() ==> (#[trigger] open[k]) < es.len()
    &&& forall|k: int, l: int|
        0 <= k < open.len() && 0 <= l < open.len() && k != l ==> (#[trigger] open[k]) != (
        #[trigger] open[l])
}

/// The goal is a transversable neighbor of the start vertex, so the very
/// first expansion is bound to find it.
pub open spec fn goal_adjacent<G: Graph2D<V>, V: Vertex2D>(map: &G, start: V, goal: V) -> bool {
    &&& map.spec_transversable(start, goal)
    &&& exists|j: int|
        0 <= j < map.spec_neighbors(start).len() && map.spec_neighbors(start)[j] == goal
}

/// A vertex the search could ever touch: some walk from `start` ends there.
pub open spec fn reachable<G: Graph2D<V>, V: Vertex2D>(map: &G, start: V, v: V) -> bool {
    exists|w: Seq<V>| connected_path(map, w, start) && w[w.len() - 1] == v
}

/// Walking legal steps from a vertex other than an isolated goal never
/// reaches the goal: some step would have to enter it from a reachable
/// vertex.
proof fn lemma_no_step_into_goal<G: Graph2D<V>, V: Vertex2D>(
    map: &G,
    start: V,
    goal: V,
    path: Seq<V>,
    j: int,
)
    requires
        forall|v: V|
            reachable(map, start, v) && v != goal ==> !(#[trigger] step_ok(map, v, goal)),
        connected_path(map, path, start),
        0 <= j < path.len(),
        path[j] != goal,
    ensures
        forall|i: int| j <= i < path.len() ==> #[trigger] path[i] != goal,
    decreases path.len() - j,
{
    if j < path.len() - 1 {
        assert(step_ok(map, path[j], path[j + 1]));
        let w = path.take(j + 1);
        assert forall|t: int| 0 <= t < w.len() - 1 implies #[trigger] step_ok(
            map,
            w[t],
            w[t + 1],
        ) by {
            assert(w[t] == path[t]);
            assert(w[t + 1] == path[t + 1]);
            assert(step_ok(map, path[t], path[t + 1]));
        }
        assert(connected_path(map, w, start) && w[w.len() - 1] == path[j]);
        assert(reachable(map, start, path[j]));
        assert(path[j + 1] != goal);
        lemma_no_step_into_goal(map, start, goal, path, j + 1);
    }
}

/// When the goal is isolated — no reachable vertex except the goal itself
/// has a legal step into it — no walk from a different start vertex ever
/// reaches it. Combined with the search routine's contract (a returned path
/// is such a walk and ends at the goal), the search must return the absent
/// result for an isolated goal.
pub proof fn lemma_unreachable_goal<G: Graph2D<V>, V: Vertex2D>(
    map: &G,
    start: V,
    goal: V,
    path: Seq<V>,
)
    requires
        start != goal,
        forall|v: V|
            reachable(map, start, v) && v != goal ==> !(#[trigger] step_ok(map, v, goal)),
        connected_path(map, path, start),
    ensures
        path[path.len() - 1] != goal,
{
    lemma_no_step_into_goal(map, start, goal, path, 0);
}

/// One legal move of the abstract graph: the second vertex is enumerated
/// among the first one's neighbors and the step between them is
/// transversable.
pub open spec fn step_ok<G: Graph2D<V>, V: Vertex2D>(map: &G, a: V, b: V) -> bool {
    &&& map.spec_transversable(a, b)
    &&& exists|j: int| 0 <= j < map.spec_neighbors(a).len() && map.spec_neighbors(a)[j] == b
}

/// A walk from `start` along legal moves.
pub open spec fn connected_path<G: Graph2D<V>, V: Vertex2D>(map: &G, path: Seq<V>, start: V) -> bool {
    &&& path.len() >= 1
    &&& path[0] == start
    &&& forall|i: int| 0 <= i < path.len() - 1 ==> #[trigger] step_ok(map, path[i], path[i + 1])
}

/// The total travel cost of a walk.
pub open spec fn walk_cost<G: Graph2D<V>, V: Vertex2D>(map: &G, path: Seq<V>) -> int
    decreases path.len(),
{
    if path.len() <= 1 {
        0
    } else {
        map.spec_travel_cost(path[0], path[1]) + walk_cost(map, path.drop_first())
    }
}

proof fn lemma_walk_cost_nonneg<G: Graph2D<V>, V: Vertex2D>(map: &G, path: Seq<V>)
    ensures
        walk_cost(map, path) >= 0,
    decreases path.len(),
{
    if path.len() > 1 {
        lemma_walk_cost_nonneg(map, path.drop_first());
    }
}

/// Whether some bookkeeping record belongs to this vertex.
pub open spec fn has_record<'m, V>(es: Seq<NodeInfo<'m, V>>, v: V) -> bool {
    exists|i: int| 0 <= i < es.len() && *es[i].vertex == v
}

/// The recorded `g_score` of a vertex (meaningful when it has a record).
pub open spec fn g_at<'m, V>(es: Seq<NodeInfo<'m, V>>, v: V) -> u64 {
    let i = choose|i: int| 0 <= i < es.len() && *es[i].vertex == v;
    es[i].g_score
}

/// With one record per vertex, the recorded score is the record's score.
proof fn lemma_g_at<'m, V>(es: Seq<NodeInfo<'m, V>>, i: int)
    requires
        distinct_vertices(es),
        0 <= i < es.len(),
    ensures
        has_record(es, *es[i].vertex),
        g_at(es, *es[i].vertex) == es[i].g_score,
{
    let v = *es[i].vertex;
    assert(0 <= i < es.len() && *es[i].vertex == v);
    let c = choose|c: int| 0 <= c < es.len() && *es[c].vertex == v;
    if c != i {
        assert(*es[c].vertex != *es[i].vertex);
    }
}

/// A settled vertex's neighbor step has been dealt with: it does not lead
/// to the goal (or the search would have returned), and the vertex it leads
/// to has a record no costlier than going through the settled vertex —
/// unless that cost does not even fit in a `u64`.
pub open spec fn expanded_edge<'m, G: Graph2D<V>, V: Vertex2D>(
    map: &G,
    es: Seq<NodeInfo<'m, V>>,
    v: V,
    j: int,
    goal: V,
) -> bool {
    let u = map.spec_neighbors(v)[j];
    let b = sat_add_spec(g_at(es, v), map.spec_travel_cost(v, u));
    map.spec_transversable(v, u) ==> u != goal && (b == u64::MAX || (has_record(es, u) && g_at(
        es,
        u,
    ) <= b))
}

/// Every settled vertex is recorded and all its neighbor steps are dealt
/// with.
pub open spec fn closed_ok<'m, G: Graph2D<V>, V: Vertex2D>(
    map: &G,
    es: Seq<NodeInfo<'m, V>>,
    closed: Set<V>,
    goal: V,
) -> bool {
    &&& forall|v: V| #[trigger] closed.contains(v) ==> has_record(es, v)
    &&& forall|v: V, j: int|
        closed.contains(v) && 0 <= j < map.spec_neighbors(v).len() ==> #[trigger] expanded_edge(
            map,
            es,
            v,
            j,
            goal,
        )
}

/// Every recorded vertex is settled or still queued (or is the one being
/// expanded right now).
pub open spec fn covered<'m, V>(
    es: Seq<NodeInfo<'m, V>>,
    closed: Set<V>,
    open: Seq<usize>,
    cur: int,
) -> bool {
    forall|i: int|
        0 <= i < es.len() ==> closed.contains(*(#[trigger] es[i]).vertex) || (exists|k: int|
            0 <= k < open.len() && open[k] == i) || i == cur
}

/// A record persisting with a score that has not grown keeps an expanded
/// edge expanded.
proof fn lemma_expanded_edge_preserved<'m, G: Graph2D<V>, V: Vertex2D>(
    map: &G,
    pre: Seq<NodeInfo<'m, V>>,
    post: Seq<NodeInfo<'m, V>>,
    v: V,
    j: int,
    goal: V,
)
    requires
        expanded_edge(map, pre, v, j, goal),
        distinct_vertices(pre),
        distinct_vertices(post),
        pre.len() <= post.len(),
        forall|i: int|
            0 <= i < pre.len() ==> (#[trigger] post[i]).vertex == pre[i].vertex
                && post[i].g_score <= pre[i].g_score,
        g_at(post, v) == g_at(pre, v),
    ensures
        expanded_edge(map, post, v, j, goal),
{
    let u = map.spec_neighbors(v)[j];
    let b = sat_add_spec(g_at(pre, v), map.spec_travel_cost(v, u));
    if map.spec_transversable(v, u) && b != u64::MAX {
        let t = choose|t: int| 0 <= t < pre.len() && *pre[t].vertex == u;
        lemma_g_at(pre, t);
        lemma_g_at(post, t);
    }
}

/// Once the queue is exhausted, no finite-cost walk out of a recorded
/// vertex ends at the goal: each of its steps stays among dealt-with,
/// goal-free records.
proof fn lemma_settled_walk<'m, G: Graph2D<V>, V: Vertex2D>(
    map: &G,
    es: Seq<NodeInfo<'m, V>>,
    closed: Set<V>,
    goal: V,
    p: Seq<V>,
    i: int,
)
    requires
        distinct_vertices(es),
        closed_ok(map, es, closed, goal),
        forall|t: int| 0 <= t < es.len() ==> closed.contains(*(#[trigger] es[t]).vertex),
        0 <= i < p.len() - 1,
        forall|t: int| 0 <= t < p.len() - 1 ==> #[trigger] step_ok(map, p[t], p[t + 1]),
        has_record(es, p[i]),
        g_at(es, p[i]) + walk_cost(map, p.skip(i)) < u64::MAX,
    ensures
        p[p.len() - 1] != goal,
    decreases p.len() - i,
{
    let v = p[i];
    let u = p[i + 1];
    let t = choose|t: int| 0 <= t < es.len() && *es[t].vertex == v;
    assert(closed.contains(v));
    assert(step_ok(map, v, u));
    let j = choose|j: int| 0 <= j < map.spec_neighbors(v).len() && map.spec_neighbors(v)[j] == u;
    assert(expanded_edge(map, es, v, j, goal));
    lemma_walk_cost_nonneg(map, p.skip(i + 1));
    assert(p.skip(i).drop_first() =~= p.skip(i + 1));
    assert(p.skip(i)[0] == v && p.skip(i)[1] == u);
    assert(walk_cost(map, p.skip(i)) == map.spec_travel_cost(v, u) + walk_cost(map, p.skip(i + 1)));
    let b = sat_add_spec(g_at(es, v), map.spec_travel_cost(v, u));
    assert(b < u64::MAX);
    assert(u != goal);
    assert(has_record(es, u) && g_at(es, u) <= b);
    if i + 1 < p.len() - 1 {
        lemma_settled_walk(map, es, closed, goal, p, i + 1);
    }
}

/// Rebuilds the path by walking parent back-links from `cur` to the start
/// record, reversing the chain, and appending the goal.
fn reconstruct<'m, G: Graph2D<V>, V: Vertex2D>(
    map: &G,
    es: &Vec<NodeInfo<'m, V>>,
    cur: usize,
    goal: &'m V,
) -> (r: Vec<&'m V>)
    requires
        chain_ok(map, es@),
        cur < es@.len(),
        step_ok(map, *es@[cur as int].vertex, *goal),
    ensures
        r@.len() >= 2,
        *r@[0] == *es@[0].vertex,
        *r@[r@.len() - 1] == *goal,
        forall|i: int| 0 <= i < r@.len() - 1 ==> step_ok(map, *(#[trigger] r@[i]), *r@[i + 1]),
        es@[cur as int].parent is None ==> r@.len() == 2,
{
    let mut idxs: Vec<usize> = Vec::new();
    idxs.push(cur);
    let mut i: usize = cur;
    let mut more: bool = match es[i].parent {
        Some(_) => true,
        None => false,
    };
    while more
        invariant
            chain_ok(map, es@),
            i < es@.len(),
            idxs@.len() >= 1,
            idxs@[0] == cur,
            idxs@[idxs@.len() - 1] == i,
            forall|k: int| 0 <= k < idxs@.len() ==> (#[trigger] idxs@[k]) < es@.len(),
            forall|k: int|
                0 <= k < idxs@.len() - 1 ==> es@[(#[trigger] idxs@[k]) as int].parent == Some(
                    idxs@[k + 1],
                ),
            more == (es@[i as int].parent is Some),
            idxs@.len() > 1 ==> es@[cur as int].parent is Some,
        decreases (if more {
            1int
        } else {
            0int
        }), es@[i as int].g_score, es@[i as int].rank@,
    {
        match es[i].parent {
            Some(p) => {
                proof {
                    assert(chain_entry_ok(map, es@, i as int));
                }
                i = p;
                idxs.push(p);
                more = match es[i].parent {
                    Some(_) => true,
                    None => false,
                };
            },
            None => {
                more = false;
            },
        }
    }
    proof {
        assert(chain_entry_ok(map, es@, i as int));
        assert(i == 0);
    }
    let n = idxs.len();
    let mut path: Vec<&'m V> = Vec::new();
    let mut t: usize = n;
    while t > 0
        invariant
            n == idxs@.len(),
            t <= n,
            path@.len() == n - t,
            forall|k: int| 0 <= k < idxs@.len() ==> (#[trigger] idxs@[k]) < es@.len(),
            forall|q: int|
                0 <= q < path@.len() ==> *(#[trigger] path@[q]) == *es@[idxs@[n - 1 - q] as int].vertex,
        decreases t,
    {
        t -= 1;
        path.push(es[idxs[t]].vertex);
    }
    proof {
        assert forall|q: int| 0 <= q < path@.len() - 1 implies step_ok(
            map,
            *(#[trigger] path@[q]),
            *path@[q + 1],
        ) by {
            let k = n - 2 - q;
            assert(es@[(idxs@[k]) as int].parent == Some(idxs@[k + 1]));
            assert(chain_entry_ok(map, es@, idxs@[k] as int));
        }
    }
    path.push(goal);
    path
}

/// The A* algorithm calculates a path between two points on a graph by
/// picking the points in it that are connected by the lowest costs, `f`, to
/// reach the final goal (`f = g + h`; see the module documentation).
///
/// This function assumes these as properties of the searched surface in
/// relation to its inner points, and leaves their implementation to the
/// user, as it is impossible to define any two generic `g` and `h`
/// functions.
///
/// There is no inherent global guarantee of speed or perfectness, these are
/// highly dependent on the `g` and `h` of choice. What is guaranteed: a
/// returned path starts at `start`, ends at `goal`, and every consecutive
/// pair of its vertices is a legal step (enumerated as a neighbor and
/// transversable); whenever the goal is a transversable listed neighbor of
/// the start, the search finishes on the first expansion — with the
/// single-element path when `start` equals `goal` (a graph that lists a
/// point among its own neighbors and lets it step to itself supports that
/// trivial search), and with the two-vertex path otherwise. If no path is
/// found between the start and finish points, `None` is returned.
#[verifier::rlimit(60)]
pub fn a_star<'m, G: Graph2D<V>, V: Vertex2D>(map: &'m G, start: &'m V, goal: &'m V) -> (r:
    Option<Vec<&'m V>>)
    requires
        map.wf(),
        map.vertices().finite(),
    ensures
        match r {
            Some(path) => {
                &&& path@.len() >= 1
                &&& *path@[0] == *start
                &&& *path@[path@.len() - 1] == *goal
                &&& forall|i: int|
                    0 <= i < path@.len() - 1 ==> step_ok(map, *(#[trigger] path@[i]), *path@[i + 1])
                &&& path@.len() == 1 ==> *start == *goal
            },
            None => !goal_adjacent(map, *start, *goal),
        },
        goal_adjacent(map, *start, *goal) && *start != *goal ==> (r matches Some(path)
            && path@.len() == 2 && *path@[0] == *start && *path@[1] == *goal),
        goal_adjacent(map, *start, *goal) && *start == *goal ==> (r matches Some(path)
            && path@.len() == 1 && *path@[0] == *start),
        r is None ==> forall|p: Seq<V>|
            (#[trigger] connected_path(map, p, *start)) && p.len() >= 2 && walk_cost(map, p)
                < u64::MAX ==> p[p.len() - 1] != *goal,
{
    let ghost vcard = map.vertices().len();
    let mut node_info: Vec<NodeInfo<'m, V>> = Vec::new();
    let h0 = map.heuristic(start, goal);
    node_info.push(NodeInfo::fresh(start, 0, h0));
    let mut open_list: Vec<usize> = Vec::new();
    open_list.push(0);
    let ghost mut closed: Set<V> = Set::empty();
    proof {
        assert(open_list@[0] == 0);
    }
    while open_list.len() > 0
        invariant
            map.wf(),
            map.vertices().finite(),
            vcard == map.vertices().len(),
            entries_ok(map, node_info@, *start, *goal),
            open_ok(node_info@, open_list@),
            node_info@.len() <= vcard + 1,
            goal_adjacent(map, *start, *goal) ==> node_info@.len() == 1 && open_list@.len() == 1
                && open_list@[0] == 0,
            closed_ok(map, node_info@, closed, *goal),
            covered(node_info@, closed, open_list@, -1),
        decreases vcard + 1 - node_info@.len(), sum_g(node_info@), open_list@.len(),
    {
        let k = select_min(&node_info, &open_list);
        let ghost open_pre = open_list@;
        let cur: usize = open_list.remove(k);
        proof {
            assert forall|a: int, b: int|
                0 <= a < open_list@.len() && 0 <= b < open_list@.len() && a != b implies (
            open_list@[a]) != (open_list@[b]) by {
                let a0 = if a < k as int { a } else { a + 1 };
                let b0 = if b < k as int { b } else { b + 1 };
                assert(open_list@[a] == open_pre[a0]);
                assert(open_list@[b] == open_pre[b0]);
            }
            assert forall|i2: int| 0 <= i2 < node_info@.len() implies closed.contains(
                *(#[trigger] node_info@[i2]).vertex,
            ) || (exists|k2: int| 0 <= k2 < open_list@.len() && open_list@[k2] == i2) || i2
                == cur as int by {
                if !closed.contains(*node_info@[i2].vertex) && i2 != cur as int {
                    let kp = choose|kp: int| 0 <= kp < open_pre.len() && open_pre[kp] == i2;
                    assert(kp != k as int);
                    if kp < k as int {
                        assert(open_list@[kp] == i2);
                    } else {
                        assert(open_list@[kp - 1] == i2);
                    }
                }
            }
        }
        let ghost es0 = node_info@;
        let ghost open0 = open_list@;
        let cur_vertex: &'m V = node_info[cur].vertex;
        let g_cur: u64 = node_info[cur].g_score;
        let ghost rank_cur = node_info@[cur as int].rank@;
        let nbrs: Vec<&'m V> = map.neighbors(cur_vertex);
        let mut j: usize = 0;
        while j < nbrs.len()
            invariant
                map.wf(),
                map.vertices().finite(),
                vcard == map.vertices().len(),
                entries_ok(map, node_info@, *start, *goal),
                open_ok(node_info@, open_list@),
                node_info@.len() <= vcard + 1,
                cur < node_info@.len(),
                node_info@[cur as int].vertex == cur_vertex,
                node_info@[cur as int].g_score == g_cur,
                node_info@[cur as int].rank@ == rank_cur,
                j <= nbrs@.len(),
                nbrs@.len() == map.spec_neighbors(*cur_vertex).len(),
                forall|l: int|
                    0 <= l < nbrs@.len() ==> *(#[trigger] nbrs@[l]) == map.spec_neighbors(
                        *cur_vertex,
                    )[l] && map.vertices().contains(*nbrs@[l]),
                es0.len() < node_info@.len() || (node_info@.len() == es0.len() && (sum_g(
                    node_info@,
                ) < sum_g(es0) || (node_info@ == es0 && open_list@ == open0))),
                goal_adjacent(map, *start, *goal) ==> *cur_vertex == *start && (exists|jj: int|
                    j <= jj < map.spec_neighbors(*start).len() && map.spec_neighbors(
                        *start,
                    )[jj] == *goal),
                closed_ok(map, node_info@, closed, *goal),
                covered(node_info@, closed, open_list@, cur as int),
                forall|j2: int|
                    0 <= j2 < j as int ==> #[trigger] expanded_edge(
                        map,
                        node_info@,
                        *cur_vertex,
                        j2,
                        *goal,
                    ),
            decreases nbrs@.len() - j,
        {
            let nb: &'m V = nbrs[j];
            if map.path_is_transversable(cur_vertex, nb) {
                if nb.eq_vertex(goal) {
                    if cur_vertex.eq_vertex(goal) {
                        // the expanded vertex is itself the goal: only the
                        // start record can be it, so the path is the trivial
                        // single-element one
                        proof {
                            if cur != 0 {
                                assert(*node_info@[cur as int].vertex != *goal);
                            }
                        }
                        let mut path: Vec<&'m V> = Vec::new();
                        path.push(cur_vertex);
                        return Some(path);
                    }
                    proof {
                        assert forall|i: int| 0 <= i < node_info@.len() implies chain_entry_ok(
                            map,
                            node_info@,
                            i,
                        ) by {
                            assert(entry_ok(map, node_info@, i, *goal));
                        }
                    }
                    let path = reconstruct(map, &node_info, cur, goal);
                    return Some(path);
                }
                let cost = map.travel_cost(cur_vertex, nb);
                let tentative = sat_add(g_cur, cost);
                let h = map.heuristic(nb, goal);
                let f = sat_add(tentative, h);
                match find_entry(&node_info, nb) {
                    Some(idx) => {
                        let ghost pre = node_info@;
                        let updated = relax(&mut node_info, idx, tentative, f, cur);
                        if updated {
                            proof {
                                assert(node_info@ =~= pre.update(
                                    idx as int,
                                    node_info@[idx as int],
                                ));
                                lemma_sum_g_update(pre, idx as int, node_info@[idx as int]);
                                assert(sat_add_spec(g_cur, cost) >= g_cur);
                                assert(entry_ok(map, pre, idx as int, *goal));
                                assert(idx != cur);
                                assert forall|i2: int|
                                    0 <= i2 < node_info@.len() implies entry_ok(
                                    map,
                                    node_info@,
                                    i2,
                                    *goal,
                                ) by {
                                    assert(entry_ok(map, pre, i2, *goal));
                                    if i2 == idx {
                                        assert(*pre[idx as int].vertex == *nb);
                                        assert(node_info@[cur as int] == pre[cur as int]);
                                    } else {
                                        assert(node_info@[i2] == pre[i2]);
                                        match pre[i2].parent {
                                            Some(p) => {
                                                if p == idx {
                                                    assert(pre[i2].g_score
                                                        >= pre[idx as int].g_score);
                                                } else {
                                                    assert(node_info@[p as int] == pre[p as int]);
                                                }
                                            },
                                            None => {},
                                        }
                                    }
                                };
                                assert forall|i2: int, j2: int|
                                    0 <= i2 < node_info@.len() && 0 <= j2 < node_info@.len() && i2
                                        != j2 implies *(#[trigger] node_info@[i2]).vertex != *(
                                    #[trigger] node_info@[j2]).vertex by {
                                    assert(node_info@[i2].vertex == pre[i2].vertex);
                                    assert(node_info@[j2].vertex == pre[j2].vertex);
                                    assert(*pre[i2].vertex != *pre[j2].vertex);
                                };
                                closed = closed.remove(*pre[idx as int].vertex);
                                assert forall|v: V| #[trigger] closed.contains(v) implies
                                    has_record(node_info@, v) by {
                                    let t = choose|t: int|
                                        0 <= t < pre.len() && *pre[t].vertex == v;
                                    assert(*node_info@[t].vertex == v);
                                };
                                assert forall|v: V, j2: int|
                                    closed.contains(v) && 0 <= j2 < map.spec_neighbors(
                                        v,
                                    ).len() implies #[trigger] expanded_edge(
                                    map,
                                    node_info@,
                                    v,
                                    j2,
                                    *goal,
                                ) by {
                                    assert(expanded_edge(map, pre, v, j2, *goal));
                                    let t = choose|t: int|
                                        0 <= t < pre.len() && *pre[t].vertex == v;
                                    assert(t != idx as int);
                                    lemma_g_at(pre, t);
                                    lemma_g_at(node_info@, t);
                                    lemma_expanded_edge_preserved(
                                        map,
                                        pre,
                                        node_info@,
                                        v,
                                        j2,
                                        *goal,
                                    );
                                };
                                assert forall|j2: int| 0 <= j2 < j as int implies
                                    #[trigger] expanded_edge(
                                    map,
                                    node_info@,
                                    *cur_vertex,
                                    j2,
                                    *goal,
                                ) by {
                                    lemma_g_at(pre, cur as int);
                                    lemma_g_at(node_info@, cur as int);
                                    lemma_expanded_edge_preserved(
                                        map,
                                        pre,
                                        node_info@,
                                        *cur_vertex,
                                        j2,
                                        *goal,
                                    );
                                };
                                lemma_g_at(node_info@, idx as int);
                                lemma_g_at(node_info@, cur as int);
                                assert(expanded_edge(
                                    map,
                                    node_info@,
                                    *cur_vertex,
                                    j as int,
                                    *goal,
                                ));
                            }
                            let ghost open_mid = open_list@;
                            let already_open = open_contains(&open_list, idx);
                            if !already_open {
                                open_list.push(idx);
                            }
                            proof {
                                assert forall|i2: int| 0 <= i2 < node_info@.len() implies
                                    closed.contains(*(#[trigger] node_info@[i2]).vertex) || (
                                exists|k2: int|
                                    0 <= k2 < open_list@.len() && open_list@[k2] == i2) || i2
                                    == cur as int by {
                                    if i2 == idx as int {
                                        if already_open {
                                            let kc = choose|kc: int|
                                                0 <= kc < open_mid.len() && open_mid[kc] == idx;
                                            assert(open_list@[kc] == i2);
                                        } else {
                                            assert(open_list@[open_list@.len() - 1] == i2);
                                        }
                                    } else if !closed.contains(*node_info@[i2].vertex) && i2
                                        != cur as int {
                                        let kp = choose|kp: int|
                                            0 <= kp < open_mid.len() && open_mid[kp] == i2;
                                        assert(open_list@[kp] == i2);
                                    }
                                };
                            }
                        } else {
                            proof {
                                assert(node_info@ =~= pre);
                                lemma_g_at(node_info@, cur as int);
                                lemma_g_at(node_info@, idx as int);
                                assert(expanded_edge(
                                    map,
                                    node_info@,
                                    *cur_vertex,
                                    j as int,
                                    *goal,
                                ));
                            }
                        }
                    },
                    None => {
                        if tentative < u64::MAX {
                            let ghost pre = node_info@;
                            node_info.push(
                                NodeInfo {
                                    vertex: nb,
                                    parent: Some(cur),
                                    g_score: tentative,
                                    f_score: f,
                                    rank: Ghost((rank_cur + 1) as nat),
                                },
                            );
                            proof {
                                broadcast use vstd::set::group_set_axioms;

                                let s = node_info@.map_values(|e: NodeInfo<'m, V>| *e.vertex);
                                let uni = map.vertices().insert(*start);
                                assert forall|i2: int| 0 <= i2 < s.len() implies uni.contains(
                                    #[trigger] s[i2],
                                ) by {
                                    if i2 < pre.len() {
                                        assert(entry_ok(map, pre, i2, *goal));
                                        assert(node_info@[i2] == pre[i2]);
                                        if pre[i2].parent is None {
                                            assert(i2 == 0);
                                            assert(s[i2] == *start);
                                        }
                                    } else {
                                        assert(s[i2] == *nb);
                                    }
                                };
                                assert forall|i2: int, j2: int|
                                    0 <= i2 < s.len() && 0 <= j2 < s.len() && i2
                                        != j2 implies #[trigger] s[i2] != #[trigger] s[j2] by {
                                    if i2 < pre.len() && j2 < pre.len() {
                                        assert(*pre[i2].vertex != *pre[j2].vertex);
                                    }
                                };
                                lemma_distinct_in_finite_set(s, uni);
                                assert(sat_add_spec(g_cur, cost) >= g_cur);
                                assert forall|i2: int|
                                    0 <= i2 < node_info@.len() implies entry_ok(
                                    map,
                                    node_info@,
                                    i2,
                                    *goal,
                                ) by {
                                    if i2 < pre.len() {
                                        assert(entry_ok(map, pre, i2, *goal));
                                        assert(node_info@[i2] == pre[i2]);
                                        match pre[i2].parent {
                                            Some(p) => {
                                                assert(node_info@[p as int] == pre[p as int]);
                                            },
                                            None => {},
                                        }
                                    } else {
                                        assert(node_info@[cur as int] == pre[cur as int]);
                                    }
                                };
                                assert forall|i2: int, j2: int|
                                    0 <= i2 < node_info@.len() && 0 <= j2 < node_info@.len() && i2
                                        != j2 implies *(#[trigger] node_info@[i2]).vertex != *(
                                    #[trigger] node_info@[j2]).vertex by {
                                    assert(s[i2] != s[j2]);
                                };
                                assert forall|v: V| #[trigger] closed.contains(v) implies
                                    has_record(node_info@, v) by {
                                    let t = choose|t: int|
                                        0 <= t < pre.len() && *pre[t].vertex == v;
                                    assert(*node_info@[t].vertex == v);
                                };
                                assert forall|v: V, j2: int|
                                    closed.contains(v) && 0 <= j2 < map.spec_neighbors(
                                        v,
                                    ).len() implies #[trigger] expanded_edge(
                                    map,
                                    node_info@,
                                    v,
                                    j2,
                                    *goal,
                                ) by {
                                    assert(expanded_edge(map, pre, v, j2, *goal));
                                    let t = choose|t: int|
                                        0 <= t < pre.len() && *pre[t].vertex == v;
                                    lemma_g_at(pre, t);
                                    lemma_g_at(node_info@, t);
                                    lemma_expanded_edge_preserved(
                                        map,
                                        pre,
                                        node_info@,
                                        v,
                                        j2,
                                        *goal,
                                    );
                                };
                                assert forall|j2: int| 0 <= j2 < j as int implies
                                    #[trigger] expanded_edge(
                                    map,
                                    node_info@,
                                    *cur_vertex,
                                    j2,
                                    *goal,
                                ) by {
                                    lemma_g_at(pre, cur as int);
                                    lemma_g_at(node_info@, cur as int);
                                    lemma_expanded_edge_preserved(
                                        map,
                                        pre,
                                        node_info@,
                                        *cur_vertex,
                                        j2,
                                        *goal,
                                    );
                                };
                                lemma_g_at(node_info@, pre.len() as int);
                                lemma_g_at(node_info@, cur as int);
                                assert(expanded_edge(
                                    map,
                                    node_info@,
                                    *cur_vertex,
                                    j as int,
                                    *goal,
                                ));
                            }
                            let new_idx = node_info.len() - 1;
                            let ghost open_mid = open_list@;
                            open_list.push(new_idx);
                            proof {
                                assert forall|i2: int| 0 <= i2 < node_info@.len() implies
                                    closed.contains(*(#[trigger] node_info@[i2]).vertex) || (
                                exists|k2: int|
                                    0 <= k2 < open_list@.len() && open_list@[k2] == i2) || i2
                                    == cur as int by {
                                    if i2 == new_idx as int {
                                        assert(open_list@[open_list@.len() - 1] == i2);
                                    } else if !closed.contains(*node_info@[i2].vertex) && i2
                                        != cur as int {
                                        let kp = choose|kp: int|
                                            0 <= kp < open_mid.len() && open_mid[kp] == i2;
                                        assert(open_list@[kp] == i2);
                                    }
                                };
                            }
                        } else {
                            proof {
                                lemma_g_at(node_info@, cur as int);
                                assert(expanded_edge(
                                    map,
                                    node_info@,
                                    *cur_vertex,
                                    j as int,
                                    *goal,
                                ));
                            }
                        }
                    },
                }
            } else {
                proof {
                    assert(expanded_edge(map, node_info@, *cur_vertex, j as int, *goal));
                }
            }
            j += 1;
        }
        proof {
            closed = closed.insert(*cur_vertex);
            assert(*node_info@[cur as int].vertex == *cur_vertex);
            assert forall|v: V| #[trigger] closed.contains(v) implies has_record(
                node_info@,
                v,
            ) by {
                if v == *cur_vertex {
                    assert(*node_info@[cur as int].vertex == v);
                }
            };
            assert forall|v: V, j2: int|
                closed.contains(v) && 0 <= j2 < map.spec_neighbors(v).len() implies
                #[trigger] expanded_edge(map, node_info@, v, j2, *goal) by {
                if v == *cur_vertex {
                    assert(0 <= j2 < nbrs@.len());
                    assert(expanded_edge(map, node_info@, *cur_vertex, j2, *goal));
                }
            };
            assert forall|i2: int| 0 <= i2 < node_info@.len() implies closed.contains(
                *(#[trigger] node_info@[i2]).vertex,
            ) || (exists|k2: int| 0 <= k2 < open_list@.len() && open_list@[k2] == i2) || i2
                == -1 by {
                if i2 == cur as int {
                    assert(closed.contains(*node_info@[i2].vertex));
                }
            };
        }
    }
    proof {
        assert forall|i2: int| 0 <= i2 < node_info@.len() implies closed.contains(
            *(#[trigger] node_info@[i2]).vertex,
        ) by {
            if !closed.contains(*node_info@[i2].vertex) {
                assert(exists|k2: int| 0 <= k2 < open_list@.len() && open_list@[k2] == i2);
            }
        };
        assert forall|p: Seq<V>|
            (#[trigger] connected_path(map, p, *start)) && p.len() >= 2 && walk_cost(map, p)
                < u64::MAX implies p[p.len() - 1] != *goal by {
            lemma_g_at(node_info@, 0);
            assert(p.skip(0) =~= p);
            lemma_settled_walk(map, node_info@, closed, *goal, p, 0);
        };
    }
    None
}

} // verus!
