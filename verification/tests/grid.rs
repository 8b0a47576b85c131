use astar_2d::{D2Q9, Graph2D, Node, Vertex2D};
use astar_2d::vertex::int_sqrt;

#[test]
fn node_new_is_free_cell() {
    let n = Node::new(3, 7);
    assert_eq!(n.x, 3);
    assert_eq!(n.y, 7);
    assert!(!n.is_wall);
}

#[test]
fn int_sqrt_exact_values() {
    assert_eq!(int_sqrt(0), 0);
    assert_eq!(int_sqrt(1), 1);
    assert_eq!(int_sqrt(2), 1);
    assert_eq!(int_sqrt(15), 3);
    assert_eq!(int_sqrt(16), 4);
    assert_eq!(int_sqrt(24999999), 4999);
    assert_eq!(int_sqrt(25000000), 5000);
    assert_eq!(int_sqrt(u64::MAX), 4294967295);
}

#[test]
fn euclidean_distance_three_four_five() {
    let a = Node::new(0, 0);
    let b = Node::new(3, 4);
    assert_eq!(a.euclidean_distance(&b), 5000);
    assert_eq!(b.euclidean_distance(&a), 5000);
}

#[test]
fn euclidean_distance_unit_diagonal() {
    let a = Node::new(2, 2);
    let b = Node::new(3, 3);
    assert_eq!(a.euclidean_distance(&b), 1414);
    assert_eq!(a.euclidean_distance(&a), 0);
}

#[test]
fn chebyshev_distance_takes_larger_axis() {
    let a = Node::new(1, 1);
    let b = Node::new(4, 9);
    assert_eq!(a.chebyshev_distance(&b), 8000);
    assert_eq!(b.chebyshev_distance(&a), 8000);
    assert_eq!(a.chebyshev_distance(&a), 0);
}

#[test]
fn manhattan_distance_sums_axes() {
    let a = Node::new(1, 1);
    let b = Node::new(4, 9);
    assert_eq!(a.manhattan_distance(&b), 11000);
    assert_eq!(b.manhattan_distance(&a), 11000);
}

#[test]
fn grid_new_places_walls_from_closure() {
    let grid = D2Q9::new(4, 3, |x, y| x == 1 && y == 2);
    for y in 0..3u32 {
        for x in 0..4u32 {
            let n = grid.get_at(x, y).unwrap();
            assert_eq!(n.x, x);
            assert_eq!(n.y, y);
            assert_eq!(n.is_wall, x == 1 && y == 2);
        }
    }
}

#[test]
fn get_at_outside_grid_is_none() {
    let grid = D2Q9::new(4, 3, |_, _| false);
    assert!(grid.get_at(4, 0).is_none());
    assert!(grid.get_at(0, 3).is_none());
    assert!(grid.get_at(100, 100).is_none());
    assert!(grid.get_at(3, 2).is_some());
}

#[test]
fn has_vertex_checks_position_only() {
    let grid = D2Q9::new(4, 3, |x, y| x == 1 && y == 1);
    assert!(grid.has_vertex(&Node::new(0, 0)));
    assert!(grid.has_vertex(&Node { x: 1, y: 1, is_wall: true }));
    // existence goes by the coordinates alone; the wall flag plays no part
    assert!(grid.has_vertex(&Node::new(1, 1)));
    assert!(!grid.has_vertex(&Node::new(9, 9)));
    assert!(!grid.has_vertex(&Node::new(4, 0)));
    assert!(!grid.has_vertex(&Node::new(0, 3)));
}

#[test]
fn neighbors_of_interior_cell() {
    let grid = D2Q9::new(3, 3, |_, _| false);
    let center = Node::new(1, 1);
    let nbrs = grid.neighbors(&center);
    assert_eq!(nbrs.len(), 8);
    let expected = [(0, 0), (1, 0), (2, 0), (0, 1), (2, 1), (0, 2), (1, 2), (2, 2)];
    for (n, e) in nbrs.iter().zip(expected.iter()) {
        assert_eq!((n.x, n.y), *e);
    }
}

#[test]
fn neighbors_of_corner_cell() {
    let grid = D2Q9::new(3, 3, |_, _| false);
    let corner = Node::new(0, 0);
    let nbrs = grid.neighbors(&corner);
    assert_eq!(nbrs.len(), 3);
    let expected = [(1, 0), (0, 1), (1, 1)];
    for (n, e) in nbrs.iter().zip(expected.iter()) {
        assert_eq!((n.x, n.y), *e);
    }
}

#[test]
fn transversable_to_itself() {
    let grid = D2Q9::new(3, 3, |_, _| false);
    let n = Node::new(1, 1);
    assert!(grid.path_is_transversable(&n, &n));
}

#[test]
fn transversable_orthogonal_steps() {
    let grid = D2Q9::new(3, 3, |_, _| false);
    let a = Node::new(1, 1);
    assert!(grid.path_is_transversable(&a, &Node::new(1, 0)));
    assert!(grid.path_is_transversable(&a, &Node::new(0, 1)));
    assert!(grid.path_is_transversable(&a, &Node::new(2, 1)));
    assert!(grid.path_is_transversable(&a, &Node::new(1, 2)));
}

#[test]
fn walls_block_movement() {
    let grid = D2Q9::new(3, 3, |x, y| x == 1 && y == 0);
    let a = Node::new(0, 0);
    let wall = Node { x: 1, y: 0, is_wall: true };
    assert!(!grid.path_is_transversable(&a, &wall));
    assert!(!grid.path_is_transversable(&wall, &a));
}

#[test]
fn distant_cells_are_not_transversable() {
    let grid = D2Q9::new(5, 5, |_, _| false);
    let a = Node::new(0, 0);
    assert!(!grid.path_is_transversable(&a, &Node::new(2, 0)));
    assert!(!grid.path_is_transversable(&a, &Node::new(2, 2)));
}

#[test]
fn corner_cutting_rejected_when_both_flanks_are_walls() {
    // walls at (1,0) and (0,1) flank the diagonal from (0,0) to (1,1)
    let grid = D2Q9::new(3, 3, |x, y| (x == 1 && y == 0) || (x == 0 && y == 1));
    let a = Node::new(0, 0);
    let b = Node::new(1, 1);
    assert!(!grid.path_is_transversable(&a, &b));
    assert!(!grid.path_is_transversable(&b, &a));
}

#[test]
fn diagonal_allowed_when_one_flank_is_open() {
    let grid = D2Q9::new(3, 3, |x, y| x == 1 && y == 0);
    let a = Node::new(0, 0);
    let b = Node::new(1, 1);
    assert!(grid.path_is_transversable(&a, &b));
}

#[test]
fn travel_cost_is_euclidean() {
    let grid = D2Q9::new(5, 5, |_, _| false);
    let a = Node::new(1, 1);
    assert_eq!(grid.travel_cost(&a, &Node::new(2, 1)), 1000);
    assert_eq!(grid.travel_cost(&a, &Node::new(2, 2)), 1414);
    assert_eq!(grid.travel_cost(&Node::new(0, 0), &Node::new(3, 4)), 5000);
}

#[test]
fn heuristic_is_chebyshev() {
    let grid = D2Q9::new(5, 5, |_, _| false);
    let a = Node::new(0, 0);
    assert_eq!(grid.heuristic(&a, &Node::new(3, 2)), 3000);
    assert_eq!(grid.heuristic(&a, &Node::new(2, 4)), 4000);
    assert_eq!(grid.heuristic(&a, &a), 0);
}

#[test]
fn heuristic_consistent_on_every_edge() {
    // the Chebyshev estimate drops by at most the Euclidean step cost
    let grid = D2Q9::new(6, 6, |_, _| false);
    let goal = Node::new(5, 5);
    for y in 0..6u32 {
        for x in 0..6u32 {
            let a = Node::new(x, y);
            for nb in grid.neighbors(&a) {
                assert!(
                    grid.heuristic(&a, &goal)
                        <= grid.travel_cost(&a, nb) + grid.heuristic(nb, &goal)
                );
            }
        }
    }
}
