use astar_2d::{a_star, Clique, D2Q9, Graph2D, Node};
use astar_2d::search::{relax, NodeInfo};

/// Every consecutive pair of the path is transversable, the first element is
/// the start, and the last is the goal.
fn assert_valid_path(grid: &D2Q9, path: &[&Node], start: &Node, goal: &Node) {
    assert!(path.len() >= 2);
    assert_eq!(path[0], start);
    assert_eq!(path[path.len() - 1], goal);
    for w in path.windows(2) {
        assert!(grid.path_is_transversable(w[0], w[1]));
    }
}

fn path_cost(grid: &D2Q9, path: &[&Node]) -> u64 {
    let mut total = 0u64;
    for w in path.windows(2) {
        total += grid.travel_cost(w[0], w[1]);
    }
    total
}

/// The cheapest start-to-goal cost over the grid's own neighbor/walkability
/// relation, by exhaustive relaxation.
fn reference_shortest_cost(grid: &D2Q9, w: u32, h: u32, start: &Node, goal: &Node) -> Option<u64> {
    let idx = |n: &Node| (n.y * w + n.x) as usize;
    let mut dist = vec![u64::MAX; (w * h) as usize];
    dist[idx(start)] = 0;
    for _ in 0..(w * h) {
        for y in 0..h {
            for x in 0..w {
                let from = grid.get_at(x, y).unwrap();
                if dist[idx(from)] == u64::MAX {
                    continue;
                }
                for to in grid.neighbors(from) {
                    if grid.path_is_transversable(from, to) {
                        let d = dist[idx(from)] + grid.travel_cost(from, to);
                        if d < dist[idx(to)] {
                            dist[idx(to)] = d;
                        }
                    }
                }
            }
        }
    }
    if dist[idx(goal)] == u64::MAX {
        None
    } else {
        Some(dist[idx(goal)])
    }
}

#[test]
fn straight_line_on_open_grid() {
    // on an open grid the path from (0,0) to (n,0) has exactly n edges
    let grid = D2Q9::new(8, 3, |_, _| false);
    let start = Node::new(0, 0);
    let goal = Node::new(6, 0);
    let path = a_star(&grid, &start, &goal).expect("open grid must have a path");
    assert_eq!(path.len(), 7);
    assert_valid_path(&grid, &path, &start, &goal);
}

#[test]
fn enclosed_goal_is_unreachable() {
    // the goal's eight neighbors are all walls
    let grid = D2Q9::new(7, 7, |x, y| {
        (2..=4).contains(&x) && (2..=4).contains(&y) && !(x == 3 && y == 3)
    });
    let start = Node::new(0, 0);
    let goal = Node::new(3, 3);
    assert!(a_star(&grid, &start, &goal).is_none());
}

#[test]
fn goal_adjacent_to_start_returns_two_cells() {
    let grid = D2Q9::new(5, 5, |_, _| false);
    let start = Node::new(2, 2);
    let goal = Node::new(3, 3);
    let path = a_star(&grid, &start, &goal).expect("adjacent goal must be found");
    assert_eq!(path.len(), 2);
    assert_eq!(path[0], &start);
    assert_eq!(path[1], &goal);
}

#[test]
fn start_equal_to_goal_on_grid() {
    // the grid never lists a cell among its own neighbors, so the search
    // reaches the goal again through one of them
    let grid = D2Q9::new(3, 3, |_, _| false);
    let start = Node::new(1, 1);
    let path = a_star(&grid, &start, &start).expect("goal equals start on an open grid");
    assert_valid_path(&grid, &path, &start, &start);
    assert_eq!(path.len(), 3);
}

#[test]
fn wall_goal_is_unreachable() {
    let grid = D2Q9::new(4, 4, |x, y| x == 2 && y == 2);
    let start = Node::new(0, 0);
    let goal = Node { x: 2, y: 2, is_wall: true };
    assert!(a_star(&grid, &start, &goal).is_none());
}

#[test]
fn no_path_through_blocked_corner() {
    // (0,0) is boxed in: its orthogonal neighbors are walls and the free
    // diagonal is flanked by those same walls
    let grid = D2Q9::new(4, 4, |x, y| (x == 1 && y == 0) || (x == 0 && y == 1));
    let start = Node::new(0, 0);
    let goal = Node::new(3, 3);
    assert!(a_star(&grid, &start, &goal).is_none());
}

#[test]
fn returned_path_never_cuts_corners() {
    // a wall pair pinches the direct diagonal; the path must go around
    let grid = D2Q9::new(5, 5, |x, y| (x == 2 && y == 1) || (x == 1 && y == 2));
    let start = Node::new(1, 1);
    let goal = Node::new(3, 3);
    let path = a_star(&grid, &start, &goal).expect("a detour exists");
    assert_valid_path(&grid, &path, &start, &goal);
    for w in path.windows(2) {
        let diagonal = w[0].x.abs_diff(w[1].x) == 1 && w[0].y.abs_diff(w[1].y) == 1;
        if diagonal {
            let flank_a = grid.get_at(w[0].x, w[1].y).unwrap();
            let flank_b = grid.get_at(w[1].x, w[0].y).unwrap();
            assert!(!flank_a.is_wall || !flank_b.is_wall);
        }
    }
}

#[test]
fn path_valid_around_walls() {
    let grid = D2Q9::new(8, 8, |x, y| x == 4 && y != 7);
    let start = Node::new(1, 1);
    let goal = Node::new(6, 1);
    let path = a_star(&grid, &start, &goal).expect("the bottom row is open");
    assert_valid_path(&grid, &path, &start, &goal);
}

#[test]
fn shortest_cost_matches_reference_on_diagonal_wall() {
    // Chebyshev distance never overestimates the Euclidean step costs, so
    // the returned path's cost must equal the true shortest-path cost
    let grid = D2Q9::new(5, 5, |x, y| x + y == 4 && x != 0 && x != 4);
    let start = Node::new(0, 0);
    let goal = Node::new(4, 4);
    let path = a_star(&grid, &start, &goal).expect("the corners are open");
    assert_valid_path(&grid, &path, &start, &goal);
    let best = reference_shortest_cost(&grid, 5, 5, &start, &goal).unwrap();
    assert_eq!(path_cost(&grid, &path), best);
    // the admissible estimate never exceeds the path's real cost
    assert!(grid.heuristic(&start, &goal) <= path_cost(&grid, &path));
}

#[test]
fn shortest_cost_matches_reference_on_open_grid() {
    let grid = D2Q9::new(6, 4, |_, _| false);
    let start = Node::new(0, 3);
    let goal = Node::new(5, 0);
    let path = a_star(&grid, &start, &goal).unwrap();
    let best = reference_shortest_cost(&grid, 6, 4, &start, &goal).unwrap();
    assert_eq!(path_cost(&grid, &path), best);
}

#[test]
fn g_score_never_increases() {
    // every rewrite of a bookkeeping record goes through relax, which only
    // ever lowers a g_score
    let n = Node::new(0, 0);
    let mut records = vec![NodeInfo::fresh(&n, 5000, 6000)];
    assert!(!relax(&mut records, 0, 7000, 8000, 0));
    assert_eq!(records[0].g_score, 5000);
    assert!(relax(&mut records, 0, 3000, 4000, 0));
    assert_eq!(records[0].g_score, 3000);
    assert_eq!(records[0].f_score, 4000);
    assert!(!relax(&mut records, 0, 3000, 4000, 0));
    assert_eq!(records[0].g_score, 3000);
}

#[test]
fn trivial_path_on_self_adjacent_graph() {
    // a clique lists every point among its own neighbors, itself included,
    // so a search with start == goal finishes on the very first expansion
    // with the single-element path
    let p = Node::new(5, 5);
    let clique = Clique::new(vec![p.clone()]);
    let path = a_star(&clique, &p, &p).expect("a self-adjacent point reaches itself");
    assert_eq!(path.len(), 1);
    assert_eq!(path[0], &p);
}

#[test]
fn clique_connects_any_two_points() {
    let a = Node::new(0, 0);
    let b = Node::new(9, 4);
    let c = Node::new(200, 200);
    let clique = Clique::new(vec![a.clone(), b.clone(), c.clone()]);
    let path = a_star(&clique, &a, &c).expect("all clique points are adjacent");
    assert_eq!(path.len(), 2);
    assert_eq!(path[0], &a);
    assert_eq!(path[1], &c);
    assert!(clique.has_vertex(&b));
    assert!(!clique.has_vertex(&Node::new(1, 1)));
}
