use hilbert_maze::lattice::lattice_edges;
use hilbert_maze::lattice::neighbors_of;
use hilbert_maze::lattice::Edge;
use hilbert_maze::lattice::Location;
use hilbert_maze::tree::grow_tree;
use hilbert_maze::tree::spanning_tree;
use hilbert_maze::tree::Tree;
use hilbert_maze::walk::walk;
use disjoint::DisjointSet;
use rand::rngs::StdRng;
use rand::SeedableRng;

fn edges_of(tree: &Tree) -> Vec<Edge> {
    let mut found: Vec<Edge> = Vec::new();
    for edge in lattice_edges(tree.size()) {
        if tree.contains(edge) {
            found.push(edge);
        }
    }
    found
}

fn reached_from_first_cell(tree: &Tree) -> usize {
    let size: usize = tree.size();
    let edges = edges_of(tree);
    let mut reached = vec![false; size * size];
    reached[0] = true;
    let mut count: usize = 1;
    let mut grew = true;
    while grew {
        grew = false;
        for edge in &edges {
            let ends = neighbors_of(Location { row: edge.row, col: edge.col }, edge.is_right, size);
            let a: usize = ends.0.rank(size);
            let b: usize = ends.1.rank(size);
            if reached[a] != reached[b] {
                reached[a] = true;
                reached[b] = true;
                count += 1;
                grew = true;
            }
        }
    }
    count
}

#[test]
fn edges_in_their_listed_order_give_a_known_tree() {
    let tree = grow_tree(2, &lattice_edges(2));
    assert_eq!(
        edges_of(&tree),
        vec![
            Edge { row: 0, col: 0, is_right: true },
            Edge { row: 0, col: 0, is_right: false },
            Edge { row: 0, col: 1, is_right: false },
        ]
    );
}

#[test]
fn an_edge_is_kept_only_the_first_time() {
    let edge = Edge { row: 0, col: 0, is_right: true };
    let tree = grow_tree(3, &vec![edge, edge, edge]);
    assert_eq!(edges_of(&tree), vec![edge]);
}

#[test]
fn an_edge_that_closes_a_cycle_is_left_out() {
    let order = vec![
        Edge { row: 0, col: 0, is_right: true },
        Edge { row: 0, col: 1, is_right: true },
        Edge { row: 0, col: 2, is_right: true },
        Edge { row: 1, col: 0, is_right: false },
    ];
    let tree = grow_tree(3, &order);
    assert_eq!(
        edges_of(&tree),
        vec![
            Edge { row: 0, col: 0, is_right: true },
            Edge { row: 0, col: 1, is_right: true },
            Edge { row: 1, col: 0, is_right: false },
        ]
    );
}

#[test]
fn no_edges_give_an_empty_forest() {
    let tree = grow_tree(4, &Vec::new());
    assert_eq!(tree.size(), 4);
    assert_eq!(edges_of(&tree), Vec::new());
}

#[test]
fn the_single_cell_has_a_tree_without_edges() {
    let mut rng = StdRng::seed_from_u64(11);
    let tree = spanning_tree(1, &mut rng);
    assert_eq!(tree.size(), 1);
    assert_eq!(edges_of(&tree), Vec::new());
    assert!(!tree.contains(Edge { row: 0, col: 0, is_right: true }));
    assert!(!tree.contains(Edge { row: 0, col: 0, is_right: false }));
}

#[test]
fn an_edge_outside_the_grid_is_not_in_the_tree() {
    let mut rng = StdRng::seed_from_u64(11);
    let tree = spanning_tree(4, &mut rng);
    assert!(!tree.contains(Edge { row: 4, col: 0, is_right: true }));
    assert!(!tree.contains(Edge { row: 0, col: 4, is_right: false }));
}

#[test]
fn a_spanning_tree_has_one_edge_fewer_than_cells() {
    for seed in 0u64..20 {
        let mut rng = StdRng::seed_from_u64(seed);
        let tree = spanning_tree(8, &mut rng);
        assert_eq!(edges_of(&tree).len(), 63);
    }
    let mut rng = StdRng::seed_from_u64(5);
    assert_eq!(edges_of(&spanning_tree(27, &mut rng)).len(), 728);
}

#[test]
fn a_spanning_tree_connects_all_cells() {
    for seed in 0u64..20 {
        let mut rng = StdRng::seed_from_u64(seed);
        let tree = spanning_tree(8, &mut rng);
        assert_eq!(reached_from_first_cell(&tree), 64);
    }
}

#[test]
fn no_edges_of_a_spanning_tree_close_a_cycle() {
    for seed in 0u64..20 {
        let mut rng = StdRng::seed_from_u64(seed);
        let tree = spanning_tree(8, &mut rng);
        let mut sets = DisjointSet::with_len(64);
        for edge in edges_of(&tree) {
            let ends = neighbors_of(Location { row: edge.row, col: edge.col }, edge.is_right, 8);
            assert!(sets.join(ends.0.rank(8), ends.1.rank(8)));
        }
    }
}

#[test]
fn the_same_generator_state_gives_the_same_tree() {
    let mut first = StdRng::seed_from_u64(77);
    let mut second = StdRng::seed_from_u64(77);
    let a = spanning_tree(8, &mut first);
    let b = spanning_tree(8, &mut second);
    assert_eq!(edges_of(&a), edges_of(&b));
    assert_eq!(first, second);
}

#[test]
fn shuffling_changes_the_tree() {
    let plain = edges_of(&grow_tree(8, &lattice_edges(8)));
    let mut rng = StdRng::seed_from_u64(3);
    let shuffled = edges_of(&spanning_tree(8, &mut rng));
    assert_ne!(plain, shuffled);
}

#[test]
fn different_seeds_give_different_trees() {
    let mut first = StdRng::seed_from_u64(1);
    let mut second = StdRng::seed_from_u64(2);
    assert_ne!(edges_of(&spanning_tree(8, &mut first)), edges_of(&spanning_tree(8, &mut second)));
}

#[test]
fn growing_a_tree_draws_from_the_generator() {
    let mut used = StdRng::seed_from_u64(9);
    let fresh = StdRng::seed_from_u64(9);
    let _tree = spanning_tree(8, &mut used);
    assert_ne!(used, fresh);
}

#[test]
fn the_walk_over_a_known_tree() {
    let tree = grow_tree(2, &lattice_edges(2));
    let order = walk(&tree, Location { row: 0, col: 0 });
    assert_eq!(
        order,
        vec![
            Location { row: 0, col: 0 },
            Location { row: 1, col: 0 },
            Location { row: 0, col: 1 },
            Location { row: 1, col: 1 },
        ]
    );
}

#[test]
fn the_walk_tries_up_before_left_before_down_before_right() {
    let order = vec![
        Edge { row: 1, col: 1, is_right: true },
        Edge { row: 1, col: 1, is_right: false },
        Edge { row: 1, col: 0, is_right: true },
        Edge { row: 0, col: 1, is_right: false },
        Edge { row: 0, col: 0, is_right: true },
        Edge { row: 0, col: 2, is_right: false },
        Edge { row: 2, col: 0, is_right: true },
        Edge { row: 2, col: 1, is_right: true },
    ];
    let tree = grow_tree(3, &order);
    let visits = walk(&tree, Location { row: 1, col: 1 });
    assert_eq!(
        visits,
        vec![
            Location { row: 1, col: 1 },
            Location { row: 0, col: 1 },
            Location { row: 0, col: 0 },
            Location { row: 1, col: 0 },
            Location { row: 2, col: 1 },
            Location { row: 2, col: 0 },
            Location { row: 2, col: 2 },
            Location { row: 1, col: 2 },
            Location { row: 0, col: 2 },
        ]
    );
}

#[test]
fn the_walk_starts_at_the_start_cell() {
    let mut rng = StdRng::seed_from_u64(4);
    let tree = spanning_tree(8, &mut rng);
    let order = walk(&tree, Location { row: 5, col: 2 });
    assert_eq!(order[0], Location { row: 5, col: 2 });
}

#[test]
fn the_walk_visits_every_cell_once() {
    for seed in 0u64..20 {
        let mut rng = StdRng::seed_from_u64(seed);
        let tree = spanning_tree(8, &mut rng);
        let start = Location { row: (seed % 8) as usize, col: (seed / 3) as usize };
        let order = walk(&tree, start);
        assert_eq!(order.len(), 64);
        let mut met = vec![false; 64];
        for cell in &order {
            assert!(cell.row < 8 && cell.col < 8);
            assert!(!met[cell.rank(8)]);
            met[cell.rank(8)] = true;
        }
    }
}

#[test]
fn every_visit_but_the_first_follows_a_tree_edge_from_an_earlier_cell() {
    let mut rng = StdRng::seed_from_u64(21);
    let tree = spanning_tree(8, &mut rng);
    let order = walk(&tree, Location { row: 3, col: 3 });
    let edges = edges_of(&tree);
    for (index, cell) in order.iter().enumerate().skip(1) {
        let mut joined = false;
        for edge in &edges {
            let ends = neighbors_of(Location { row: edge.row, col: edge.col }, edge.is_right, 8);
            let other = if ends.0 == *cell {
                ends.1
            } else if ends.1 == *cell {
                ends.0
            } else {
                continue;
            };
            if order[..index].contains(&other) {
                joined = true;
            }
        }
        assert!(joined);
    }
}

#[test]
fn the_walk_of_the_single_cell() {
    let mut rng = StdRng::seed_from_u64(0);
    let tree = spanning_tree(1, &mut rng);
    assert_eq!(walk(&tree, Location { row: 0, col: 0 }), vec![Location { row: 0, col: 0 }]);
}
