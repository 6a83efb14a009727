//! Forests on the grid, described by distances.
//!
//! A set of candidate edges is a forest when, inside every connected
//! component and from every cell `r` of it taken as root, the cells can be
//! given a level (their distance from `r`) such that every edge joins two
//! consecutive levels and every cell but the root has exactly one edge to
//! the level above it, its parent edge. Such a labelling survives the
//! addition of an edge between two components, which is all that the
//! spanning-tree construction ever does.

use crate::lattice::Edge;
use crate::lattice::Location;
use crate::lattice::cell_of_index;
use crate::lattice::lemma_index_bound;
use crate::lattice::lemma_index_of_cell;
use crate::lattice::lemma_wrapped_is_modular;
use crate::partition::merged;
use crate::partition::singletons;
use vstd::prelude::*;
use vstd::set_lib::lemma_int_range;
use vstd::set_lib::lemma_len_subset;
use vstd::set_lib::set_int_range;

verus! {

/// Levels and parent edges, for every root `r` and cell `v`: `level(r, v)`
/// and `parent(r, v)`.
pub struct Labels {
    pub level: spec_fn(Location, Location) -> nat,
    pub parent: spec_fn(Location, Location) -> Edge,
}

/// `rel` holds the cells `u` and `v` together.
pub open spec fn linked(rel: Set<(int, int)>, size: usize, u: Location, v: Location) -> bool {
    rel.contains((u.index(size), v.index(size)))
}

/// `rel` is an equivalence relation on `0..n`.
pub open spec fn is_partition(rel: Set<(int, int)>, n: int) -> bool {
    &&& forall|a: int, b: int| #[trigger] rel.contains((a, b)) ==> 0 <= a < n && 0 <= b < n
    &&& forall|a: int| 0 <= a < n ==> #[trigger] rel.contains((a, a))
    &&& forall|a: int, b: int| #[trigger] rel.contains((a, b)) ==> rel.contains((b, a))
    &&& forall|a: int, b: int, c: int|
        #[trigger] rel.contains((a, b)) && #[trigger] rel.contains((b, c)) ==> rel.contains(
            (a, c),
        )
}

/// `rel` holds every two of `0..n` together.
pub open spec fn is_single(rel: Set<(int, int)>, n: int) -> bool {
    forall|a: int, b: int| 0 <= a < n && 0 <= b < n ==> #[trigger] rel.contains((a, b))
}

/// The levels of `u` and `w` from root `r` differ by exactly one.
pub open spec fn level_step(labels: Labels, r: Location, u: Location, w: Location) -> bool {
    (labels.level)(r, w) == (labels.level)(r, u) + 1 || (labels.level)(r, u) == (labels.level)(
        r,
        w,
    ) + 1
}

/// The edge `e` lies inside one component and joins consecutive levels from
/// every root of that component.
pub open spec fn edge_ok(size: usize, rel: Set<(int, int)>, labels: Labels, e: Edge) -> bool {
    &&& e.in_grid(size)
    &&& linked(rel, size, e.tail(), e.head(size))
    &&& forall|r: Location|
        r.in_grid(size) && #[trigger] linked(rel, size, r, e.tail()) ==> level_step(
            labels,
            r,
            e.tail(),
            e.head(size),
        )
}

/// The edge `e` of the forest leads from `v` one level up towards root `r`.
pub open spec fn climbs(size: usize, labels: Labels, r: Location, v: Location, e: Edge) -> bool {
    e.touches(v, size) && (labels.level)(r, e.across(v, size)) + 1 == (labels.level)(r, v)
}

/// Seen from root `r`, the cell `v` is at level zero exactly if it is the
/// root, and otherwise has its parent edge as its one way up.
pub open spec fn cell_ok(
    size: usize,
    edges: Set<Edge>,
    labels: Labels,
    r: Location,
    v: Location,
) -> bool {
    &&& ((labels.level)(r, v) == 0 <==> r == v)
    &&& r != v ==> edges.contains((labels.parent)(r, v)) && climbs(
        size,
        labels,
        r,
        v,
        (labels.parent)(r, v),
    )
    &&& forall|e: Edge| #[trigger]
        edges.contains(e) && climbs(size, labels, r, v, e) ==> e == (labels.parent)(r, v)
}

/// `edges` is a forest whose components are the classes of `rel`, with
/// `labels` as witness.
pub open spec fn forest(size: usize, edges: Set<Edge>, rel: Set<(int, int)>, labels: Labels) -> bool {
    &&& forall|e: Edge| edges.contains(e) ==> #[trigger] edge_ok(size, rel, labels, e)
    &&& forall|r: Location, v: Location|
        r.in_grid(size) && v.in_grid(size) && linked(rel, size, r, v) ==> #[trigger] cell_ok(
            size,
            edges,
            labels,
            r,
            v,
        )
}

/// Labels for a forest without edges.
pub open spec fn bare_labels() -> Labels {
    Labels {
        level: |r: Location, v: Location| 0nat,
        parent: |r: Location, v: Location| Edge { row: 0, col: 0, is_right: true },
    }
}

/// The labels after the edge `e`, which joins two components, is added:
/// inside a component nothing changes, and a path between the two
/// components runs through `e`.
pub open spec fn grown(labels: Labels, rel: Set<(int, int)>, size: usize, e: Edge) -> Labels {
    let a = e.tail();
    let b = e.head(size);
    Labels {
        level: |r: Location, v: Location|
            if linked(rel, size, r, v) {
                (labels.level)(r, v)
            } else if linked(rel, size, r, a) && linked(rel, size, b, v) {
                (labels.level)(r, a) + 1 + (labels.level)(b, v)
            } else {
                (labels.level)(r, b) + 1 + (labels.level)(a, v)
            },
        parent: |r: Location, v: Location|
            if linked(rel, size, r, v) {
                (labels.parent)(r, v)
            } else if linked(rel, size, r, a) && linked(rel, size, b, v) {
                if v == b {
                    e
                } else {
                    (labels.parent)(b, v)
                }
            } else {
                if v == a {
                    e
                } else {
                    (labels.parent)(a, v)
                }
            },
    }
}

/// Cells of the grid with the same rank are the same cell.
pub proof fn lemma_index_injective(u: Location, v: Location, size: usize)
    requires
        u.in_grid(size),
        v.in_grid(size),
        u.index(size) == v.index(size),
    ensures
        u == v,
{
    lemma_index_bound(u, size);
    lemma_index_bound(v, size);
}

/// Both ends of a candidate edge are cells of the grid.
pub proof fn lemma_ends_in_grid(e: Edge, size: usize)
    requires
        e.in_grid(size),
    ensures
        e.tail().in_grid(size),
        e.head(size).in_grid(size),
        0 <= e.tail().index(size) < size * size,
        0 <= e.head(size).index(size) < size * size,
{
    lemma_wrapped_is_modular(e.row as int, size as int);
    lemma_wrapped_is_modular(e.col as int, size as int);
    lemma_index_bound(e.tail(), size);
    lemma_index_bound(e.head(size), size);
}

/// Uniting two classes of an equivalence relation gives an equivalence
/// relation.
pub proof fn lemma_merged_partition(rel: Set<(int, int)>, n: int, a: int, b: int)
    requires
        is_partition(rel, n),
        0 <= a < n,
        0 <= b < n,
    ensures
        is_partition(merged(rel, a, b), n),
        forall|p: (int, int)| rel.contains(p) ==> #[trigger] merged(rel, a, b).contains(p),
        merged(rel, a, b).contains((a, b)),
{
    let m = merged(rel, a, b);
    assert(rel.contains((a, a)) && rel.contains((b, b)));
    assert forall|x: int, y: int, z: int| #[trigger]
        m.contains((x, y)) && #[trigger] m.contains((y, z)) implies m.contains((x, z)) by {
        assert(rel.contains((y, x)) || (rel.contains((y, a)) && rel.contains((b, x))) || (
        rel.contains((y, b)) && rel.contains((a, x))));
    }
}

/// The empty set of edges is a forest in which every cell is alone.
pub proof fn lemma_bare_forest(size: usize)
    ensures
        forest(size, Set::<Edge>::empty(), singletons(size * size), bare_labels()),
{
    let rel = singletons(size * size);
    assert forall|r: Location, v: Location|
        r.in_grid(size) && v.in_grid(size) && linked(rel, size, r, v) implies #[trigger] cell_ok(
        size,
        Set::<Edge>::empty(),
        bare_labels(),
        r,
        v,
    ) by {
        lemma_index_injective(r, v, size);
    }
}

/// An edge of a forest has both ends in one component and in the grid.
pub proof fn lemma_edge_inside(
    size: usize,
    edges: Set<Edge>,
    rel: Set<(int, int)>,
    labels: Labels,
    e: Edge,
)
    requires
        forest(size, edges, rel, labels),
        edges.contains(e),
    ensures
        e.in_grid(size),
        e.tail().in_grid(size),
        e.head(size).in_grid(size),
        linked(rel, size, e.tail(), e.head(size)),
{
    assert(edge_ok(size, rel, labels, e));
    lemma_ends_in_grid(e, size);
}

/// Adding an edge between two components of a forest gives a forest whose
/// components are those of before, with the two united.
pub proof fn lemma_forest_grows(
    size: usize,
    edges: Set<Edge>,
    rel: Set<(int, int)>,
    labels: Labels,
    e0: Edge,
)
    requires
        is_partition(rel, size * size),
        forest(size, edges, rel, labels),
        e0.in_grid(size),
        !linked(rel, size, e0.tail(), e0.head(size)),
    ensures
        forest(
            size,
            edges.insert(e0),
            merged(rel, e0.tail().index(size), e0.head(size).index(size)),
            grown(labels, rel, size, e0),
        ),
{
    let a = e0.tail();
    let b = e0.head(size);
    let wider = merged(rel, a.index(size), b.index(size));
    let more = edges.insert(e0);
    let next = grown(labels, rel, size, e0);
    lemma_ends_in_grid(e0, size);
    assert(linked(rel, size, a, a));
    assert(linked(rel, size, b, b));
    assert(cell_ok(size, edges, labels, a, a));
    assert(cell_ok(size, edges, labels, b, b));
    assert(!edges.contains(e0)) by {
        if edges.contains(e0) {
            assert(edge_ok(size, rel, labels, e0));
        }
    }
    assert forall|e: Edge| more.contains(e) implies #[trigger] edge_ok(size, wider, next, e) by {
        if e == e0 {
            assert forall|r: Location|
                r.in_grid(size) && #[trigger] linked(wider, size, r, a) implies level_step(
                next,
                r,
                a,
                b,
            ) by {
                lemma_index_bound(r, size);
            }
        } else {
            assert(edge_ok(size, rel, labels, e));
            let u = e.tail();
            let w = e.head(size);
            assert forall|r: Location|
                r.in_grid(size) && #[trigger] linked(wider, size, r, u) implies level_step(
                next,
                r,
                u,
                w,
            ) by {
                if linked(rel, size, r, u) {
                    assert(linked(rel, size, r, w));
                } else if linked(rel, size, r, a) && linked(rel, size, b, u) {
                    assert(linked(rel, size, b, w));
                    assert(!linked(rel, size, r, w));
                    assert(level_step(labels, b, u, w));
                } else {
                    assert(linked(rel, size, r, b) && linked(rel, size, a, u));
                    assert(linked(rel, size, a, w));
                    assert(!linked(rel, size, r, w));
                    assert(!(linked(rel, size, r, a) && linked(rel, size, b, w)));
                    assert(level_step(labels, a, u, w));
                }
            }
        }
    }
    assert forall|r: Location, v: Location|
        r.in_grid(size) && v.in_grid(size) && linked(wider, size, r, v) implies #[trigger] cell_ok(
        size,
        more,
        next,
        r,
        v,
    ) by {
        lemma_index_bound(r, size);
        lemma_index_bound(v, size);
        if linked(rel, size, r, v) {
            lemma_cell_kept(size, edges, rel, labels, e0, r, v);
        } else if linked(rel, size, r, a) && linked(rel, size, b, v) {
            lemma_cell_across(size, edges, rel, labels, e0, r, v, true);
        } else {
            assert(linked(rel, size, r, b) && linked(rel, size, a, v));
            lemma_cell_across(size, edges, rel, labels, e0, r, v, false);
        }
    }
}

/// The part of `lemma_forest_grows` for a root and a cell that were in one
/// component already.
proof fn lemma_cell_kept(
    size: usize,
    edges: Set<Edge>,
    rel: Set<(int, int)>,
    labels: Labels,
    e0: Edge,
    r: Location,
    v: Location,
)
    requires
        is_partition(rel, size * size),
        forest(size, edges, rel, labels),
        e0.in_grid(size),
        !linked(rel, size, e0.tail(), e0.head(size)),
        r.in_grid(size),
        v.in_grid(size),
        linked(rel, size, r, v),
    ensures
        cell_ok(size, edges.insert(e0), grown(labels, rel, size, e0), r, v),
{
    let a = e0.tail();
    let b = e0.head(size);
    let more = edges.insert(e0);
    let next = grown(labels, rel, size, e0);
    lemma_ends_in_grid(e0, size);
    assert(linked(rel, size, a, a));
    assert(linked(rel, size, b, b));
    assert(cell_ok(size, edges, labels, a, a));
    assert(cell_ok(size, edges, labels, b, b));
    assert(cell_ok(size, edges, labels, r, v));
    if r != v {
        let p = (labels.parent)(r, v);
        lemma_edge_inside(size, edges, rel, labels, p);
        assert(linked(rel, size, r, p.across(v, size)));
    }
    assert forall|e: Edge| #[trigger] more.contains(e) && climbs(size, next, r, v, e) implies e == (
    next.parent)(r, v) by {
        if e == e0 {
            if v == a {
                assert(!linked(rel, size, r, b));
            } else {
                assert(v == b);
                assert(!linked(rel, size, r, a));
            }
        } else {
            lemma_edge_inside(size, edges, rel, labels, e);
            assert(linked(rel, size, r, e.across(v, size)));
            assert(climbs(size, labels, r, v, e));
        }
    }
}

/// The part of `lemma_forest_grows` for a root and a cell that the new edge
/// brings together: the root on the tail's side (`forward`) or on the
/// head's.
proof fn lemma_cell_across(
    size: usize,
    edges: Set<Edge>,
    rel: Set<(int, int)>,
    labels: Labels,
    e0: Edge,
    r: Location,
    v: Location,
    forward: bool,
)
    requires
        is_partition(rel, size * size),
        forest(size, edges, rel, labels),
        e0.in_grid(size),
        !linked(rel, size, e0.tail(), e0.head(size)),
        r.in_grid(size),
        v.in_grid(size),
        !linked(rel, size, r, v),
        forward ==> linked(rel, size, r, e0.tail()) && linked(rel, size, e0.head(size), v),
        !forward ==> linked(rel, size, r, e0.head(size)) && linked(rel, size, e0.tail(), v),
    ensures
        cell_ok(size, edges.insert(e0), grown(labels, rel, size, e0), r, v),
{
    let a = e0.tail();
    let b = e0.head(size);
    let near = if forward { a } else { b };
    let far = if forward { b } else { a };
    let more = edges.insert(e0);
    let next = grown(labels, rel, size, e0);
    lemma_ends_in_grid(e0, size);
    lemma_index_bound(r, size);
    lemma_index_bound(v, size);
    assert(linked(rel, size, a, a));
    assert(linked(rel, size, b, b));
    assert(linked(rel, size, r, r));
    assert(cell_ok(size, edges, labels, far, far));
    assert(cell_ok(size, edges, labels, far, v));
    assert(!(linked(rel, size, r, far)));
    assert(!(linked(rel, size, near, v)));
    assert((next.level)(r, v) == (labels.level)(r, near) + 1 + (labels.level)(far, v));
    assert((next.level)(r, near) == (labels.level)(r, near));
    if v == far {
        assert((next.parent)(r, v) == e0);
        assert(e0.across(v, size) == near);
    } else {
        let p = (labels.parent)(far, v);
        assert((next.parent)(r, v) == p);
        lemma_edge_inside(size, edges, rel, labels, p);
        let u = p.across(v, size);
        assert(linked(rel, size, far, u));
        assert(!linked(rel, size, r, u));
        assert((next.level)(r, u) == (labels.level)(r, near) + 1 + (labels.level)(far, u));
    }
    assert forall|e: Edge| #[trigger] more.contains(e) && climbs(size, next, r, v, e) implies e == (
    next.parent)(r, v) by {
        if e == e0 {
            assert(v == far);
        } else {
            lemma_edge_inside(size, edges, rel, labels, e);
            let u = e.across(v, size);
            assert(linked(rel, size, far, u));
            assert(!linked(rel, size, r, u));
            assert((next.level)(r, u) == (labels.level)(r, near) + 1 + (labels.level)(far, u));
            assert(climbs(size, labels, far, v, e));
        }
    }
}

/// `edges` is a spanning tree of the grid: a forest with one component.
pub open spec fn spanning_forest(
    size: usize,
    edges: Set<Edge>,
    rel: Set<(int, int)>,
    labels: Labels,
) -> bool {
    &&& size >= 1
    &&& is_partition(rel, size * size)
    &&& is_single(rel, size * size)
    &&& forest(size, edges, rel, labels)
}

/// In a spanning tree, seen from any root, an edge joins two different
/// cells of the grid on consecutive levels.
pub proof fn lemma_tree_edge(
    size: usize,
    edges: Set<Edge>,
    rel: Set<(int, int)>,
    labels: Labels,
    r: Location,
    e: Edge,
)
    requires
        spanning_forest(size, edges, rel, labels),
        r.in_grid(size),
        edges.contains(e),
    ensures
        e.in_grid(size),
        e.tail().in_grid(size),
        e.head(size).in_grid(size),
        e.tail() != e.head(size),
        level_step(labels, r, e.tail(), e.head(size)),
{
    lemma_edge_inside(size, edges, rel, labels, e);
    lemma_index_bound(r, size);
    lemma_index_bound(e.tail(), size);
    assert(edge_ok(size, rel, labels, e));
    assert(linked(rel, size, r, e.tail()));
}

/// In a spanning tree, seen from any root, every cell of the grid has its
/// level and, unless it is the root, its parent edge.
pub proof fn lemma_tree_cell(
    size: usize,
    edges: Set<Edge>,
    rel: Set<(int, int)>,
    labels: Labels,
    r: Location,
    v: Location,
)
    requires
        spanning_forest(size, edges, rel, labels),
        r.in_grid(size),
        v.in_grid(size),
    ensures
        cell_ok(size, edges, labels, r, v),
{
    lemma_index_bound(r, size);
    lemma_index_bound(v, size);
    assert(linked(rel, size, r, v));
}

/// The ranks of the two ends of an edge.
pub open spec fn ends_of(e: Edge, size: usize) -> (int, int) {
    (e.tail().index(size), e.head(size).index(size))
}

/// The first cell of row `row` is connected to the cell at column `col` of
/// that row, if every candidate edge connects its ends.
proof fn lemma_along_row(size: usize, rel: Set<(int, int)>, row: usize, col: usize)
    requires
        is_partition(rel, size * size),
        forall|e: Edge| e.in_grid(size) ==> rel.contains(#[trigger] ends_of(e, size)),
        row < size,
        col < size,
    ensures
        linked(rel, size, (Location { row, col: 0 }), (Location { row, col })),
    decreases col,
{
    lemma_index_bound(Location { row, col: 0 }, size);
    if col > 0 {
        let before = (col - 1) as usize;
        lemma_along_row(size, rel, row, before);
        let e = Edge { row, col: before, is_right: true };
        assert(rel.contains(ends_of(e, size)));
        assert(e.head(size) == Location { row, col });
    }
}

/// The first cell of the grid is connected to the first cell of row `row`,
/// if every candidate edge connects its ends.
proof fn lemma_along_column(size: usize, rel: Set<(int, int)>, row: usize)
    requires
        is_partition(rel, size * size),
        forall|e: Edge| e.in_grid(size) ==> rel.contains(#[trigger] ends_of(e, size)),
        row < size,
    ensures
        linked(rel, size, (Location { row: 0, col: 0 }), (Location { row, col: 0 })),
    decreases row,
{
    lemma_index_bound(Location { row: 0, col: 0 }, size);
    if row > 0 {
        let before = (row - 1) as usize;
        lemma_along_column(size, rel, before);
        let e = Edge { row: before, col: 0, is_right: false };
        assert(rel.contains(ends_of(e, size)));
        assert(e.head(size) == Location { row, col: 0 });
    }
}

/// The grid is connected: a relation that holds the two ends of every
/// candidate edge together holds all cells together.
pub proof fn lemma_grid_connected(size: usize, rel: Set<(int, int)>)
    requires
        is_partition(rel, size * size),
        forall|e: Edge| e.in_grid(size) ==> rel.contains(#[trigger] ends_of(e, size)),
    ensures
        is_single(rel, size * size),
{
    assert forall|a: int, b: int| 0 <= a < size * size && 0 <= b < size * size implies #[trigger]
        rel.contains((a, b)) by {
        lemma_index_of_cell(a, size);
        lemma_index_of_cell(b, size);
        let va = cell_of_index(a, size);
        let vb = cell_of_index(b, size);
        let origin = Location { row: 0, col: 0 };
        lemma_along_row(size, rel, va.row, va.col);
        lemma_along_column(size, rel, va.row);
        lemma_along_row(size, rel, vb.row, vb.col);
        lemma_along_column(size, rel, vb.row);
        assert(linked(rel, size, origin, va));
        assert(linked(rel, size, origin, vb));
    }
}

/// A list of different cells of the grid has at most as many entries as the
/// grid has cells, and exactly as many if every cell is in it.
pub proof fn lemma_distinct_cells(cells: Seq<Location>, size: usize)
    requires
        cells.no_duplicates(),
        forall|i: int| 0 <= i < cells.len() ==> (#[trigger] cells[i]).in_grid(size),
    ensures
        cells.len() <= size * size,
        (forall|v: Location| v.in_grid(size) ==> cells.contains(v)) ==> cells.len() == size * size,
{
    broadcast use vstd::seq_lib::seq_to_set_is_finite;

    let ranks = cells.map_values(|v: Location| v.index(size));
    let n: int = size * size;
    assert(n >= 0) by (nonlinear_arith)
        requires
            n == size * size,
    ;
    assert forall|i: int, j: int| 0 <= i < ranks.len() && 0 <= j < ranks.len() && i != j implies ranks[i]
        != ranks[j] by {
        if ranks[i] == ranks[j] {
            lemma_index_injective(cells[i], cells[j], size);
        }
    }
    ranks.unique_seq_to_set();
    lemma_int_range(0, n);
    assert forall|k: int| ranks.to_set().contains(k) implies set_int_range(0, n).contains(k) by {
        let i = choose|i: int| 0 <= i < ranks.len() && ranks[i] == k;
        lemma_index_bound(cells[i], size);
    }
    lemma_len_subset(ranks.to_set(), set_int_range(0, n));
    if forall|v: Location| v.in_grid(size) ==> cells.contains(v) {
        assert forall|k: int| set_int_range(0, n).contains(k) implies ranks.to_set().contains(
            k,
        ) by {
            lemma_index_of_cell(k, size);
            let v = cell_of_index(k, size);
            assert(cells.contains(v));
            let i = choose|i: int| 0 <= i < cells.len() && cells[i] == v;
            assert(ranks[i] == k);
        }
        lemma_len_subset(set_int_range(0, n), ranks.to_set());
    }
}

/// `path` is a walk through `cells`: edge `i` of `path` is one of `edges`
/// and leads from cell `i` to cell `i + 1`.
pub open spec fn is_walk(size: usize, edges: Set<Edge>, cells: Seq<Location>, path: Seq<Edge>) -> bool {
    &&& cells.len() == path.len() + 1
    &&& cells[0].in_grid(size)
    &&& forall|i: int|
        0 <= i < path.len() ==> edges.contains(#[trigger] path[i]) && path[i].touches(
            cells[i],
            size,
        ) && path[i].across(cells[i], size) == cells[i + 1]
}

/// `path` is a cycle: a walk of at least one edge that ends where it began
/// and uses no edge twice.
pub open spec fn is_cycle(size: usize, edges: Set<Edge>, cells: Seq<Location>, path: Seq<Edge>) -> bool {
    &&& is_walk(size, edges, cells, path)
    &&& path.len() >= 1
    &&& cells.last() == cells[0]
    &&& path.no_duplicates()
}

/// Two cells of one component of a forest are joined by a walk: from `v`
/// up, parent edge by parent edge, to the root `r`.
pub proof fn lemma_forest_connected(
    size: usize,
    edges: Set<Edge>,
    rel: Set<(int, int)>,
    labels: Labels,
    r: Location,
    v: Location,
) -> (way: (Seq<Location>, Seq<Edge>))
    requires
        is_partition(rel, size * size),
        forest(size, edges, rel, labels),
        r.in_grid(size),
        v.in_grid(size),
        linked(rel, size, r, v),
    ensures
        is_walk(size, edges, way.0, way.1),
        way.0[0] == v,
        way.0.last() == r,
        way.1.len() == (labels.level)(r, v),
        forall|i: int|
            0 <= i < way.0.len() ==> (#[trigger] way.0[i]).in_grid(size) && (labels.level)(
                r,
                way.0[i],
            ) + i == (labels.level)(r, v),
    decreases (labels.level)(r, v),
{
    assert(cell_ok(size, edges, labels, r, v));
    if v == r {
        (seq![v], Seq::empty())
    } else {
        let p = (labels.parent)(r, v);
        let u = p.across(v, size);
        lemma_edge_inside(size, edges, rel, labels, p);
        assert(linked(rel, size, r, u));
        let rest = lemma_forest_connected(size, edges, rel, labels, r, u);
        let cells = seq![v] + rest.0;
        let path = seq![p] + rest.1;
        assert forall|i: int| 0 <= i < path.len() implies edges.contains(#[trigger] path[i])
            && path[i].touches(cells[i], size) && path[i].across(cells[i], size) == cells[i
            + 1] by {
            if i > 0 {
                assert(path[i] == rest.1[i - 1]);
                assert(cells[i] == rest.0[i - 1]);
                assert(cells[i + 1] == rest.0[i]);
            } else {
                assert(cells[1] == rest.0[0]);
            }
        }
        assert(cells.last() == rest.0.last());
        assert forall|i: int| 0 <= i < cells.len() implies (#[trigger] cells[i]).in_grid(size) && (
        labels.level)(r, cells[i]) + i == (labels.level)(r, v) by {
            if i > 0 {
                assert(cells[i] == rest.0[i - 1]);
            }
        }
        (cells, path)
    }
}

/// In a forest, a cell's level is below the number of cells: the cells on
/// its way to the root are all different.
pub proof fn lemma_level_bound(
    size: usize,
    edges: Set<Edge>,
    rel: Set<(int, int)>,
    labels: Labels,
    r: Location,
    v: Location,
)
    requires
        is_partition(rel, size * size),
        forest(size, edges, rel, labels),
        r.in_grid(size),
        v.in_grid(size),
        linked(rel, size, r, v),
    ensures
        (labels.level)(r, v) < size * size,
{
    let way = lemma_forest_connected(size, edges, rel, labels, r, v);
    let cells = way.0;
    assert forall|i: int, j: int| 0 <= i < cells.len() && 0 <= j < cells.len() && i != j implies cells[i]
        != cells[j] by {
        assert((labels.level)(r, cells[i]) + i == (labels.level)(r, v));
        assert((labels.level)(r, cells[j]) + j == (labels.level)(r, v));
    }
    lemma_distinct_cells(cells, size);
}

/// Along a walk in a forest, every cell is in the component of the first,
/// and consecutive cells are on consecutive levels from it.
proof fn lemma_along_walk(
    size: usize,
    edges: Set<Edge>,
    rel: Set<(int, int)>,
    labels: Labels,
    cells: Seq<Location>,
    path: Seq<Edge>,
    i: int,
)
    requires
        is_partition(rel, size * size),
        forest(size, edges, rel, labels),
        is_walk(size, edges, cells, path),
        0 <= i <= path.len(),
    ensures
        cells[i].in_grid(size),
        linked(rel, size, cells[0], cells[i]),
        i > 0 ==> path[i - 1].touches(cells[i], size) && path[i - 1].across(cells[i], size) == cells[i
            - 1] && level_step(labels, cells[0], cells[i - 1], cells[i]),
    decreases i,
{
    lemma_index_bound(cells[0], size);
    if i > 0 {
        lemma_along_walk(size, edges, rel, labels, cells, path, i - 1);
        let e = path[i - 1];
        lemma_edge_inside(size, edges, rel, labels, e);
        assert(edge_ok(size, rel, labels, e));
        lemma_index_bound(cells[i - 1], size);
        assert(linked(rel, size, cells[0], e.tail()));
    }
}

/// A place where a sequence of numbers is largest.
proof fn lemma_peak(heights: Seq<nat>) -> (top: int)
    requires
        heights.len() > 0,
    ensures
        0 <= top < heights.len(),
        forall|i: int| 0 <= i < heights.len() ==> heights[i] <= heights[top],
    decreases heights.len(),
{
    if heights.len() == 1 {
        0
    } else {
        let before = lemma_peak(heights.drop_last());
        assert forall|i: int| 0 <= i < heights.len() - 1 implies heights[i] <= heights[before] by {
            assert(heights.drop_last()[i] == heights[i]);
        }
        assert(heights.drop_last()[before] == heights[before]);
        if heights.last() > heights[before] {
            heights.len() - 1
        } else {
            before
        }
    }
}

/// A forest has no cycle: at a cell of a closed walk that is farthest from
/// the walk's first cell, the edge before and the edge after both lead
/// towards that first cell, so they are the same edge.
pub proof fn lemma_forest_acyclic(
    size: usize,
    edges: Set<Edge>,
    rel: Set<(int, int)>,
    labels: Labels,
    cells: Seq<Location>,
    path: Seq<Edge>,
)
    requires
        is_partition(rel, size * size),
        forest(size, edges, rel, labels),
    ensures
        !is_cycle(size, edges, cells, path),
{
    if is_cycle(size, edges, cells, path) {
        let root = cells[0];
        let heights = Seq::new(cells.len(), |i: int| (labels.level)(root, cells[i]));
        let top = lemma_peak(heights);
        let last = path.len() as int;
        lemma_along_walk(size, edges, rel, labels, cells, path, 0);
        lemma_along_walk(size, edges, rel, labels, cells, path, 1);
        assert(cell_ok(size, edges, labels, root, root));
        assert(heights[0] == 0 && heights[last] == 0);
        assert(heights[1] == 1);
        assert(heights[1] <= heights[top]);
        assert(0 < top < last);
        lemma_along_walk(size, edges, rel, labels, cells, path, top);
        lemma_along_walk(size, edges, rel, labels, cells, path, top + 1);
        assert(heights[top - 1] <= heights[top]);
        assert(heights[top + 1] <= heights[top]);
        assert(cell_ok(size, edges, labels, root, cells[top]));
        assert(climbs(size, labels, root, cells[top], path[top - 1]));
        assert(climbs(size, labels, root, cells[top], path[top]));
        assert(path[top - 1] == path[top]);
    }
}

} // verus!
