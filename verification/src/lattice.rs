//! The toroidal grid: its cells, its candidate edges and the four ways to
//! leave a cell.
//!
//! A grid of side `size` has `size * size` cells. Every cell owns two
//! candidate edges, one to its right-hand neighbour and one to the neighbour
//! below it; the last column wraps to the first and the last row to the
//! first.

use vstd::arithmetic::div_mod::*;
use vstd::arithmetic::mul::*;
use vstd::prelude::*;

verus! {

/// A cell of the grid.
#[derive(Clone, Copy, Debug, PartialEq, Eq, Structural)]
pub struct Location {
    pub row: usize,
    pub col: usize,
}

/// A candidate edge, named by the cell it leaves: rightwards if `is_right`,
/// downwards otherwise.
#[derive(Clone, Copy, Debug, PartialEq, Eq, Structural)]
pub struct Edge {
    pub row: usize,
    pub col: usize,
    pub is_right: bool,
}

/// A direction of travel between neighbouring cells.
#[derive(Clone, Copy, Debug, PartialEq, Eq, Structural)]
pub enum Dir {
    Right,
    Left,
    Up,
    Down,
}

/// `x + 1` modulo `size`, for `0 <= x < size`.
pub open spec fn next_wrapped(x: int, size: int) -> int {
    if x + 1 >= size {
        0
    } else {
        x + 1
    }
}

/// `x - 1` modulo `size`, for `0 <= x < size`.
pub open spec fn prev_wrapped(x: int, size: int) -> int {
    if x <= 0 {
        size - 1
    } else {
        x - 1
    }
}

/// The two wrapped steps are the modular successor and predecessor.
pub proof fn lemma_wrapped_is_modular(x: int, size: int)
    requires
        0 <= x < size,
    ensures
        next_wrapped(x, size) == (x + 1) % size,
        prev_wrapped(x, size) == (x + size - 1) % size,
        0 <= next_wrapped(x, size) < size,
        0 <= prev_wrapped(x, size) < size,
        prev_wrapped(next_wrapped(x, size), size) == x,
        next_wrapped(prev_wrapped(x, size), size) == x,
{
    if x + 1 == size {
        lemma_mod_self_0(size);
    } else {
        lemma_small_mod((x + 1) as nat, size as nat);
    }
    if x == 0 {
        lemma_small_mod((size - 1) as nat, size as nat);
    } else {
        lemma_mod_add_multiples_vanish(x - 1, size);
        lemma_small_mod((x - 1) as nat, size as nat);
    }
}

impl Dir {
    /// The direction that undoes `self`.
    pub open spec fn opposite(self) -> Dir {
        match self {
            Dir::Right => Dir::Left,
            Dir::Left => Dir::Right,
            Dir::Up => Dir::Down,
            Dir::Down => Dir::Up,
        }
    }

    /// The direction that undoes `self`.
    pub fn reversed(self) -> (back: Dir)
        ensures
            back == self.opposite(),
    {
        match self {
            Dir::Right => Dir::Left,
            Dir::Left => Dir::Right,
            Dir::Up => Dir::Down,
            Dir::Down => Dir::Up,
        }
    }
}

impl Location {
    /// The cell lies on a grid of side `size`.
    pub open spec fn in_grid(self, size: usize) -> bool {
        self.row < size && self.col < size
    }

    /// The rank of the cell when the grid is read row by row.
    pub open spec fn index(self, size: usize) -> int {
        self.row * size + self.col
    }

    /// The neighbouring cell in direction `dir`, with wraparound.
    pub open spec fn toward(self, dir: Dir, size: usize) -> Location {
        match dir {
            Dir::Right => Location {
                row: self.row,
                col: next_wrapped(self.col as int, size as int) as usize,
            },
            Dir::Left => Location {
                row: self.row,
                col: prev_wrapped(self.col as int, size as int) as usize,
            },
            Dir::Down => Location {
                row: next_wrapped(self.row as int, size as int) as usize,
                col: self.col,
            },
            Dir::Up => Location {
                row: prev_wrapped(self.row as int, size as int) as usize,
                col: self.col,
            },
        }
    }

    /// The candidate edge crossed when leaving the cell in direction `dir`:
    /// the cell's own edge for right and down, the left-hand or upper
    /// neighbour's edge for left and up.
    pub open spec fn crossing(self, dir: Dir, size: usize) -> Edge {
        match dir {
            Dir::Right => Edge { row: self.row, col: self.col, is_right: true },
            Dir::Down => Edge { row: self.row, col: self.col, is_right: false },
            Dir::Left => Edge {
                row: self.row,
                col: prev_wrapped(self.col as int, size as int) as usize,
                is_right: true,
            },
            Dir::Up => Edge {
                row: prev_wrapped(self.row as int, size as int) as usize,
                col: self.col,
                is_right: false,
            },
        }
    }

    /// Computes the neighbouring cell in direction `dir`.
    pub fn step(self, dir: Dir, size: usize) -> (there: Location)
        requires
            self.in_grid(size),
        ensures
            there == self.toward(dir, size),
            there.in_grid(size),
    {
        match dir {
            Dir::Right => Location { row: self.row, col: wrap_up(self.col, size) },
            Dir::Left => Location { row: self.row, col: wrap_down(self.col, size) },
            Dir::Down => Location { row: wrap_up(self.row, size), col: self.col },
            Dir::Up => Location { row: wrap_down(self.row, size), col: self.col },
        }
    }

    /// Computes the candidate edge crossed when leaving in direction `dir`.
    pub fn edge_toward(self, dir: Dir, size: usize) -> (edge: Edge)
        requires
            self.in_grid(size),
        ensures
            edge == self.crossing(dir, size),
            edge.in_grid(size),
    {
        match dir {
            Dir::Right => Edge { row: self.row, col: self.col, is_right: true },
            Dir::Down => Edge { row: self.row, col: self.col, is_right: false },
            Dir::Left => Edge { row: self.row, col: wrap_down(self.col, size), is_right: true },
            Dir::Up => Edge { row: wrap_down(self.row, size), col: self.col, is_right: false },
        }
    }

    /// Computes the rank of the cell when the grid is read row by row.
    pub fn rank(self, size: usize) -> (rank: usize)
        requires
            self.in_grid(size),
            size * size <= usize::MAX,
        ensures
            rank == self.index(size),
            rank < size * size,
    {
        proof {
            lemma_index_bound(self, size);
            lemma_mul_inequality(self.row as int, size as int - 1, size as int);
        }
        self.row * size + self.col
    }
}

impl Edge {
    /// The edge leaves a cell of a grid of side `size`.
    pub open spec fn in_grid(self, size: usize) -> bool {
        self.row < size && self.col < size
    }

    /// The cell the edge is named after.
    pub open spec fn tail(self) -> Location {
        Location { row: self.row, col: self.col }
    }

    /// The cell at the other end.
    pub open spec fn head(self, size: usize) -> Location {
        if self.is_right {
            self.tail().toward(Dir::Right, size)
        } else {
            self.tail().toward(Dir::Down, size)
        }
    }

    /// The edge has `v` at one of its ends.
    pub open spec fn touches(self, v: Location, size: usize) -> bool {
        self.tail() == v || self.head(size) == v
    }

    /// The end of the edge that is not `v`, for an edge that touches `v`.
    pub open spec fn across(self, v: Location, size: usize) -> Location {
        if self.tail() == v {
            self.head(size)
        } else {
            self.tail()
        }
    }

    /// The rank of the edge in the enumeration of all candidate edges: cells
    /// row by row, each cell's rightward edge before its downward edge.
    pub open spec fn code(self, size: usize) -> int {
        2 * self.tail().index(size) + if self.is_right { 0int } else { 1int }
    }
}

/// The candidate edge of rank `code` on a grid of side `size`.
pub open spec fn edge_of_code(code: int, size: usize) -> Edge {
    Edge {
        row: ((code / 2) / (size as int)) as usize,
        col: ((code / 2) % (size as int)) as usize,
        is_right: code % 2 == 0,
    }
}

/// All candidate edges of the grid, in the order of their ranks.
pub open spec fn candidate_edges(size: usize) -> Seq<Edge> {
    Seq::new((2 * (size * size)) as nat, |code: int| edge_of_code(code, size))
}

/// A cell's rank is below the number of cells.
pub proof fn lemma_index_bound(v: Location, size: usize)
    requires
        v.in_grid(size),
    ensures
        0 <= v.index(size) < size * size,
        v.index(size) / (size as int) == v.row,
        v.index(size) % (size as int) == v.col,
{
    let s = size as int;
    lemma_mul_inequality(v.row as int, s - 1, s);
    lemma_mul_is_commutative(v.row as int, s);
    assert((s - 1) * s == s * s - s) by (nonlinear_arith);
    lemma_fundamental_div_mod_converse(v.index(size), s, v.row as int, v.col as int);
}

/// The cell with rank `k`.
pub open spec fn cell_of_index(k: int, size: usize) -> Location {
    Location { row: (k / (size as int)) as usize, col: (k % (size as int)) as usize }
}

/// Every rank below `size * size` belongs to a cell of the grid.
pub proof fn lemma_index_of_cell(k: int, size: usize)
    requires
        0 <= k < size * size,
    ensures
        cell_of_index(k, size).in_grid(size),
        cell_of_index(k, size).index(size) == k,
{
    let s = size as int;
    assert(s > 0) by (nonlinear_arith)
        requires
            0 <= k < s * s,
            s >= 0,
    ;
    lemma_fundamental_div_mod(k, s);
    lemma_mod_bound(k, s);
    lemma_div_pos_is_pos(k, s);
    assert(k / s < s) by {
        if k / s >= s {
            lemma_mul_inequality(s, k / s, s);
            lemma_mul_is_commutative(s, k / s);
        }
    }
    lemma_mul_is_commutative(s, k / s);
}

fn wrap_up(x: usize, size: usize) -> (next: usize)
    requires
        x < size,
    ensures
        next == next_wrapped(x as int, size as int),
        next < size,
{
    proof {
        lemma_wrapped_is_modular(x as int, size as int);
    }
    (x + 1) % size
}

fn wrap_down(x: usize, size: usize) -> (prev: usize)
    requires
        x < size,
    ensures
        prev == prev_wrapped(x as int, size as int),
        prev < size,
{
    if x == 0 {
        size - 1
    } else {
        x - 1
    }
}

/// Returns the two ends of the candidate edge that leaves `vertex` rightwards
/// (`is_right`) or downwards: `vertex` itself, then its neighbour.
pub fn neighbors_of(vertex: Location, is_right: bool, size: usize) -> (ends: (Location, Location))
    requires
        vertex.in_grid(size),
    ensures
        ends.0 == vertex,
        ends.1 == (Edge { row: vertex.row, col: vertex.col, is_right }).head(size),
        ends.1.in_grid(size),
{
    if is_right {
        (vertex, vertex.step(Dir::Right, size))
    } else {
        (vertex, vertex.step(Dir::Down, size))
    }
}

/// Returns the candidate edge of the same orientation that arrives at
/// `vertex`: the left-hand neighbour's rightward edge, or the upper
/// neighbour's downward edge.
pub fn opposite_edge(vertex: Location, is_right: bool, size: usize) -> (edge: Edge)
    requires
        vertex.in_grid(size),
    ensures
        is_right ==> edge == vertex.crossing(Dir::Left, size),
        !is_right ==> edge == vertex.crossing(Dir::Up, size),
        edge.is_right == is_right,
        edge.in_grid(size),
        edge.head(size) == vertex,
{
    proof {
        lemma_wrapped_is_modular(vertex.row as int, size as int);
        lemma_wrapped_is_modular(vertex.col as int, size as int);
    }
    if is_right {
        vertex.edge_toward(Dir::Left, size)
    } else {
        vertex.edge_toward(Dir::Up, size)
    }
}

/// Leaving `v` in direction `dir` crosses an edge between `v` and the
/// neighbour in that direction, and the way back crosses the same edge.
pub proof fn lemma_crossing(v: Location, dir: Dir, size: usize)
    requires
        v.in_grid(size),
    ensures
        v.crossing(dir, size).in_grid(size),
        v.toward(dir, size).in_grid(size),
        v.crossing(dir, size).touches(v, size),
        v.crossing(dir, size).touches(v.toward(dir, size), size),
        v.crossing(dir, size).across(v, size) == v.toward(dir, size),
        v.crossing(dir, size).across(v.toward(dir, size), size) == v,
        v.toward(dir, size).crossing(dir.opposite(), size) == v.crossing(dir, size),
        v.toward(dir, size).toward(dir.opposite(), size) == v,
{
    lemma_wrapped_is_modular(v.row as int, size as int);
    lemma_wrapped_is_modular(v.col as int, size as int);
}

/// An edge that touches `v` is crossed when leaving `v` in one of the four
/// directions.
pub proof fn lemma_touching(e: Edge, v: Location, size: usize) -> (dir: Dir)
    requires
        e.in_grid(size),
        e.touches(v, size),
    ensures
        v.in_grid(size),
        e == v.crossing(dir, size),
{
    lemma_wrapped_is_modular(e.row as int, size as int);
    lemma_wrapped_is_modular(e.col as int, size as int);
    if e.tail() == v {
        if e.is_right {
            Dir::Right
        } else {
            Dir::Down
        }
    } else {
        if e.is_right {
            Dir::Left
        } else {
            Dir::Up
        }
    }
}

/// Two directions out of `v` cross the same edge only if that edge leads
/// back to `v`.
pub proof fn lemma_crossings_differ(v: Location, first: Dir, second: Dir, size: usize)
    requires
        v.in_grid(size),
        first != second,
        v.crossing(first, size) == v.crossing(second, size),
    ensures
        v.crossing(first, size).tail() == v.crossing(first, size).head(size),
{
    lemma_wrapped_is_modular(v.row as int, size as int);
    lemma_wrapped_is_modular(v.col as int, size as int);
}

/// A candidate edge stands at the position of its rank.
pub proof fn lemma_edge_of_code(e: Edge, size: usize)
    requires
        e.in_grid(size),
    ensures
        0 <= e.code(size) < 2 * (size * size),
        edge_of_code(e.code(size), size) == e,
        candidate_edges(size)[e.code(size)] == e,
{
    lemma_index_bound(e.tail(), size);
}

/// The edge at the position of a rank is a candidate edge with that rank.
pub proof fn lemma_code_of_edge(code: int, size: usize)
    requires
        0 <= code < 2 * (size * size),
    ensures
        edge_of_code(code, size).in_grid(size),
        edge_of_code(code, size).code(size) == code,
{
    lemma_index_of_cell(code / 2, size);
}

/// Lists all candidate edges of the grid: cell by cell, row by row, the
/// rightward edge of a cell before its downward edge.
pub fn lattice_edges(size: usize) -> (edges: Vec<Edge>)
    requires
        2 * (size * size) <= usize::MAX,
    ensures
        edges@ == candidate_edges(size),
{
    let mut edges: Vec<Edge> = Vec::new();
    let mut row: usize = 0;
    while row < size
        invariant
            row <= size,
            2 * (size * size) <= usize::MAX,
            edges@.len() == 2 * (row * size),
            forall|i: int| 0 <= i < edges@.len() ==> #[trigger] edges@[i] == edge_of_code(i, size),
        decreases size - row,
    {
        let mut col: usize = 0;
        while col < size
            invariant
                col <= size,
                row < size,
                2 * (size * size) <= usize::MAX,
                edges@.len() == 2 * (row * size + col),
                forall|i: int|
                    0 <= i < edges@.len() ==> #[trigger] edges@[i] == edge_of_code(i, size),
            decreases size - col,
        {
            proof {
                lemma_edge_of_code(Edge { row, col, is_right: true }, size);
                lemma_edge_of_code(Edge { row, col, is_right: false }, size);
            }
            edges.push(Edge { row, col, is_right: true });
            edges.push(Edge { row, col, is_right: false });
            col += 1;
        }
        proof {
            assert((row + 1) * size == row * size + size) by (nonlinear_arith);
        }
        row += 1;
    }
    proof {
        assert(edges@ =~= candidate_edges(size));
    }
    edges
}

} // verus!
