use hilbert_maze::lattice::lattice_edges;
use hilbert_maze::lattice::neighbors_of;
use hilbert_maze::lattice::opposite_edge;
use hilbert_maze::lattice::Dir;
use hilbert_maze::lattice::Edge;
use hilbert_maze::lattice::Location;

#[test]
fn rightward_edge_joins_a_cell_to_the_next_column() {
    let ends = neighbors_of(Location { row: 2, col: 3 }, true, 8);
    assert_eq!(ends.0, Location { row: 2, col: 3 });
    assert_eq!(ends.1, Location { row: 2, col: 4 });
}

#[test]
fn downward_edge_joins_a_cell_to_the_next_row() {
    let ends = neighbors_of(Location { row: 2, col: 3 }, false, 8);
    assert_eq!(ends.0, Location { row: 2, col: 3 });
    assert_eq!(ends.1, Location { row: 3, col: 3 });
}

#[test]
fn edges_wrap_around_the_last_column_and_row() {
    let right = neighbors_of(Location { row: 5, col: 7 }, true, 8);
    assert_eq!(right.1, Location { row: 5, col: 0 });
    let down = neighbors_of(Location { row: 7, col: 5 }, false, 8);
    assert_eq!(down.1, Location { row: 0, col: 5 });
}

#[test]
fn both_edges_of_the_single_cell_lead_back_to_it() {
    let cell = Location { row: 0, col: 0 };
    assert_eq!(neighbors_of(cell, true, 1), (cell, cell));
    assert_eq!(neighbors_of(cell, false, 1), (cell, cell));
}

#[test]
fn opposite_edge_is_the_one_that_arrives() {
    let cell = Location { row: 2, col: 3 };
    assert_eq!(opposite_edge(cell, true, 8), Edge { row: 2, col: 2, is_right: true });
    assert_eq!(opposite_edge(cell, false, 8), Edge { row: 1, col: 3, is_right: false });
}

#[test]
fn opposite_edge_wraps_around_the_first_column_and_row() {
    let cell = Location { row: 0, col: 0 };
    assert_eq!(opposite_edge(cell, true, 8), Edge { row: 0, col: 7, is_right: true });
    assert_eq!(opposite_edge(cell, false, 8), Edge { row: 7, col: 0, is_right: false });
}

#[test]
fn the_head_of_the_opposite_edge_is_the_cell() {
    let size: usize = 5;
    for row in 0..size {
        for col in 0..size {
            let cell = Location { row, col };
            for is_right in [true, false] {
                let edge = opposite_edge(cell, is_right, size);
                let ends =
                    neighbors_of(Location { row: edge.row, col: edge.col }, edge.is_right, size);
                assert_eq!(ends.1, cell);
            }
        }
    }
}

#[test]
fn steps_in_the_four_directions() {
    let cell = Location { row: 0, col: 7 };
    assert_eq!(cell.step(Dir::Right, 8), Location { row: 0, col: 0 });
    assert_eq!(cell.step(Dir::Left, 8), Location { row: 0, col: 6 });
    assert_eq!(cell.step(Dir::Down, 8), Location { row: 1, col: 7 });
    assert_eq!(cell.step(Dir::Up, 8), Location { row: 7, col: 7 });
}

#[test]
fn a_step_and_the_step_back_cross_the_same_edge() {
    let size: usize = 4;
    for row in 0..size {
        for col in 0..size {
            let cell = Location { row, col };
            for dir in [Dir::Right, Dir::Down, Dir::Left, Dir::Up] {
                let there = cell.step(dir, size);
                assert_eq!(there.step(dir.reversed(), size), cell);
                assert_eq!(there.edge_toward(dir.reversed(), size), cell.edge_toward(dir, size));
            }
        }
    }
}

#[test]
fn edges_crossed_in_the_four_directions() {
    let cell = Location { row: 3, col: 0 };
    assert_eq!(cell.edge_toward(Dir::Right, 4), Edge { row: 3, col: 0, is_right: true });
    assert_eq!(cell.edge_toward(Dir::Down, 4), Edge { row: 3, col: 0, is_right: false });
    assert_eq!(cell.edge_toward(Dir::Left, 4), Edge { row: 3, col: 3, is_right: true });
    assert_eq!(cell.edge_toward(Dir::Up, 4), Edge { row: 2, col: 0, is_right: false });
}

#[test]
fn rank_reads_the_grid_row_by_row() {
    assert_eq!(Location { row: 0, col: 0 }.rank(8), 0);
    assert_eq!(Location { row: 0, col: 7 }.rank(8), 7);
    assert_eq!(Location { row: 1, col: 0 }.rank(8), 8);
    assert_eq!(Location { row: 7, col: 7 }.rank(8), 63);
}

#[test]
fn reversed_directions() {
    assert_eq!(Dir::Right.reversed(), Dir::Left);
    assert_eq!(Dir::Left.reversed(), Dir::Right);
    assert_eq!(Dir::Up.reversed(), Dir::Down);
    assert_eq!(Dir::Down.reversed(), Dir::Up);
}

#[test]
fn candidate_edges_of_a_two_by_two_grid() {
    let expected = vec![
        Edge { row: 0, col: 0, is_right: true },
        Edge { row: 0, col: 0, is_right: false },
        Edge { row: 0, col: 1, is_right: true },
        Edge { row: 0, col: 1, is_right: false },
        Edge { row: 1, col: 0, is_right: true },
        Edge { row: 1, col: 0, is_right: false },
        Edge { row: 1, col: 1, is_right: true },
        Edge { row: 1, col: 1, is_right: false },
    ];
    assert_eq!(lattice_edges(2), expected);
}

#[test]
fn every_cell_has_two_candidate_edges() {
    assert_eq!(lattice_edges(1).len(), 2);
    assert_eq!(lattice_edges(8).len(), 128);
    assert_eq!(lattice_edges(27).len(), 1458);
    assert_eq!(lattice_edges(0).len(), 0);
}
