//! The random spanning tree: candidate edges taken in a given order, each
//! kept if it joins two cells that were not connected yet.

use crate::forest::Labels;
use crate::forest::bare_labels;
use crate::forest::climbs;
use crate::forest::ends_of;
use crate::forest::forest;
use crate::forest::grown;
use crate::forest::is_cycle;
use crate::forest::is_partition;
use crate::forest::is_single;
use crate::forest::is_walk;
use crate::forest::lemma_bare_forest;
use crate::forest::lemma_ends_in_grid;
use crate::forest::lemma_forest_acyclic;
use crate::forest::lemma_forest_connected;
use crate::forest::lemma_forest_grows;
use crate::forest::lemma_grid_connected;
use crate::forest::lemma_index_injective;
use crate::forest::lemma_merged_partition;
use crate::forest::lemma_tree_cell;
use crate::forest::lemma_tree_edge;
use crate::forest::linked;
use crate::lattice::Edge;
use crate::lattice::Location;
use crate::lattice::candidate_edges;
use crate::lattice::cell_of_index;
use crate::lattice::lattice_edges;
use crate::lattice::lemma_code_of_edge;
use crate::lattice::lemma_edge_of_code;
use crate::lattice::lemma_index_bound;
use crate::lattice::lemma_index_of_cell;
use crate::lattice::neighbors_of;
use crate::partition::joined;
use crate::partition::merged;
use crate::partition::singletons;
use crate::random::generator_state;
use crate::random::rearranged;
use crate::random::shuffle_draw;
use crate::random::shuffle_edges;
use disjoint::DisjointSet;
use rand::rngs::StdRng;
use std::collections::HashSet;
use vstd::prelude::*;
use vstd::relations::injective_on;
use vstd::set_lib::lemma_int_range;
use vstd::set_lib::lemma_map_size;
use vstd::set_lib::set_int_range;

verus! {

broadcast use vstd::std_specs::hash::group_hash_axioms;

/// Which elements are held together once the first `k` edges of `order`
/// have each united the sets of its two ends.
pub open spec fn classes_after(size: usize, order: Seq<Edge>, k: nat) -> Set<(int, int)>
    decreases k,
{
    if k == 0 {
        singletons(size * size)
    } else {
        let before = classes_after(size, order, (k - 1) as nat);
        let e = order[k - 1];
        if before.contains((e.tail().index(size), e.head(size).index(size))) {
            before
        } else {
            merged(before, e.tail().index(size), e.head(size).index(size))
        }
    }
}

/// The edge at position `k` of `order` joins two cells that the edges
/// before it have not connected.
pub open spec fn bridges(size: usize, order: Seq<Edge>, k: int) -> bool {
    !classes_after(size, order, k as nat).contains(
        (order[k].tail().index(size), order[k].head(size).index(size)),
    )
}

/// The edges among the first `k` of `order` that were kept.
pub open spec fn chosen(size: usize, order: Seq<Edge>, k: nat) -> Set<Edge>
    decreases k,
{
    if k == 0 {
        Set::empty()
    } else if bridges(size, order, k - 1) {
        chosen(size, order, (k - 1) as nat).insert(order[k - 1])
    } else {
        chosen(size, order, (k - 1) as nat)
    }
}

/// Every candidate edge of the grid occurs in `order`.
pub open spec fn covers(order: Seq<Edge>, size: usize) -> bool {
    forall|e: Edge| e.in_grid(size) ==> order.contains(e)
}

/// The candidate edges of the grid in the order that a shuffle leaves them
/// in, for a generator in `state`.
pub open spec fn shuffled_edges(size: usize, state: Seq<u8>) -> Seq<Edge> {
    rearranged(candidate_edges(size), shuffle_draw(state, (2 * (size * size)) as nat).0)
}

/// The edges whose codes are in `codes`.
pub open spec fn decoded(size: usize, codes: Set<usize>) -> Set<Edge> {
    Set::new(|e: Edge| e.in_grid(size) && codes.contains(e.code(size) as usize))
}

/// A set of edges of the grid, grown by `grow_tree`.
pub struct Tree {
    size: usize,
    members: HashSet<usize>,
    classes: Ghost<Set<(int, int)>>,
    labels: Ghost<Labels>,
}

impl View for Tree {
    type V = Set<Edge>;

    closed spec fn view(&self) -> Set<Edge> {
        decoded(self.size, self.members@)
    }
}

impl Tree {
    /// The side of the grid.
    pub closed spec fn side(&self) -> usize {
        self.size
    }

    /// Which cells the edges connect, as pairs of cell ranks: the state in
    /// which the disjoint-set structure was left.
    pub closed spec fn components(&self) -> Set<(int, int)> {
        self.classes@
    }

    /// Levels and parent edges that show the edges to be a forest.
    pub closed spec fn labels(&self) -> Labels {
        self.labels@
    }

    /// The edges are a forest on the grid and `components` are its
    /// components.
    pub open spec fn wf(&self) -> bool {
        &&& self.side() >= 1
        &&& 2 * (self.side() * self.side()) <= usize::MAX
        &&& self@.finite()
        &&& is_partition(self.components(), self.side() * self.side())
        &&& forest(self.side(), self@, self.components(), self.labels())
    }

    /// The edges are a tree that reaches every cell.
    pub open spec fn spanning(&self) -> bool {
        self.wf() && is_single(self.components(), self.side() * self.side())
    }

    /// The side of the grid.
    pub fn size(&self) -> (size: usize)
        ensures
            size == self.side(),
    {
        self.size
    }

    /// Whether `edge` belongs to the tree.
    pub fn contains(&self, edge: Edge) -> (present: bool)
        requires
            self.wf(),
        ensures
            present == self@.contains(edge),
    {
        if edge.row < self.size && edge.col < self.size {
            let code: usize = edge_code(edge, self.size);
            self.members.contains(&code)
        } else {
            false
        }
    }
}

/// Computes the rank of a candidate edge.
fn edge_code(edge: Edge, size: usize) -> (code: usize)
    requires
        edge.in_grid(size),
        2 * (size * size) <= usize::MAX,
    ensures
        code == edge.code(size),
{
    proof {
        lemma_index_bound(edge.tail(), size);
    }
    let cell = Location { row: edge.row, col: edge.col };
    let rank: usize = cell.rank(size);
    if edge.is_right {
        2 * rank
    } else {
        2 * rank + 1
    }
}

/// Candidate edges with the same rank are the same edge.
pub proof fn lemma_code_injective(e: Edge, f: Edge, size: usize)
    requires
        e.in_grid(size),
        f.in_grid(size),
        e.code(size) == f.code(size),
    ensures
        e == f,
{
    lemma_index_injective(e.tail(), f.tail(), size);
}

/// Grows a forest from the edges of `order`, taken one by one: an edge is
/// kept if its ends were in different sets of a disjoint-set structure over
/// the cells, and the two sets are then united.
pub fn grow_tree(size: usize, order: &Vec<Edge>) -> (tree: Tree)
    requires
        size >= 1,
        8 * (size * size) <= isize::MAX,
        forall|k: int| 0 <= k < order.len() ==> (#[trigger] order[k]).in_grid(size),
    ensures
        tree.wf(),
        tree.side() == size,
        tree@ == chosen(size, order@, order@.len()),
        tree.components() == classes_after(size, order@, order@.len()),
        covers(order@, size) ==> tree.spanning() && tree@.len() == size * size - 1,
{
    proof {
        assert(size * size >= 1) by (nonlinear_arith)
            requires
                size >= 1,
        ;
    }
    let cells: usize = size * size;
    let mut vertices = DisjointSet::with_len(cells);
    let mut members: HashSet<usize> = HashSet::new();
    proof {
        assert(decoded(size, members@) =~= Set::<Edge>::empty());
    }
    let mut k: usize = 0;
    while k < order.len()
        invariant
            k <= order.len(),
            cells == size * size,
            8 * cells <= isize::MAX,
            forall|j: int| 0 <= j < order.len() ==> (#[trigger] order[j]).in_grid(size),
            joined(vertices) == classes_after(size, order@, k as nat),
            decoded(size, members@) == chosen(size, order@, k as nat),
            decoded(size, members@).finite(),
        decreases order.len() - k,
    {
        let edge = order[k];
        let ends = neighbors_of(Location { row: edge.row, col: edge.col }, edge.is_right, size);
        proof {
            lemma_growth(size, order@, k as nat);
            lemma_ends_in_grid(edge, size);
        }
        let first: usize = ends.0.rank(size);
        let second: usize = ends.1.rank(size);
        let ghost kept = decoded(size, members@);
        let were_distinct = vertices.join(first, second);
        if were_distinct {
            let code: usize = edge_code(edge, size);
            members.insert(code);
            proof {
                assert(decoded(size, members@) =~= kept.insert(edge)) by {
                    assert forall|e: Edge| #[trigger]
                        decoded(size, members@).contains(e) <==> kept.insert(edge).contains(
                            e,
                        ) by {
                        if e.in_grid(size) {
                            lemma_index_bound(e.tail(), size);
                            if e.code(size) == edge.code(size) {
                                lemma_code_injective(e, edge, size);
                            }
                        }
                    }
                }
            }
        }
        k += 1;
    }
    proof {
        lemma_growth(size, order@, order@.len());
    }
    let tree = Tree {
        size,
        members,
        classes: Ghost(joined(vertices)),
        labels: Ghost(labels_after(size, order@, order@.len())),
    };
    proof {
        if covers(order@, size) {
            let rel = joined(vertices);
            assert forall|e: Edge| e.in_grid(size) implies rel.contains(
                #[trigger] ends_of(e, size),
            ) by {
                assert(order@.contains(e));
                let j = choose|j: int| 0 <= j < order@.len() && order@[j] == e;
                assert(linked(rel, size, order[j].tail(), order[j].head(size)));
            }
            lemma_grid_connected(size, rel);
            lemma_tree_size(&tree);
        }
    }
    tree
}

/// A grid of side `size` has `size * size` cells.
pub proof fn lemma_count_cells(size: usize)
    ensures
        Set::new(|v: Location| v.in_grid(size)).finite(),
        Set::new(|v: Location| v.in_grid(size)).len() == size * size,
{
    let n: int = size * size;
    assert(n >= 0) by (nonlinear_arith)
        requires
            n == size * size,
    ;
    let ranks = set_int_range(0, n);
    let cells = Set::new(|v: Location| v.in_grid(size));
    let f = |k: int| cell_of_index(k, size);
    lemma_int_range(0, n);
    assert(injective_on(f, ranks)) by {
        assert forall|j: int, k: int|
            ranks.contains(j) && ranks.contains(k) && #[trigger] f(j) == #[trigger] f(
                k,
            ) implies j == k by {
            lemma_index_of_cell(j, size);
            lemma_index_of_cell(k, size);
        }
    }
    assert(ranks.map(f) =~= cells) by {
        assert forall|v: Location| cells.contains(v) implies ranks.map(f).contains(v) by {
            lemma_index_bound(v, size);
            assert(ranks.contains(v.index(size)) && f(v.index(size)) == v);
        }
        assert forall|v: Location| ranks.map(f).contains(v) implies cells.contains(v) by {
            let k = choose|k: int| ranks.contains(k) && v == f(k);
            lemma_index_of_cell(k, size);
        }
    }
    lemma_map_size(ranks, cells, f);
}

/// A spanning tree has one edge fewer than the grid has cells: every cell
/// but one has its own parent edge, and every edge is some cell's.
pub proof fn lemma_tree_size(tree: &Tree)
    requires
        tree.spanning(),
    ensures
        tree@.len() == tree.side() * tree.side() - 1,
{
    let size = tree.side();
    let edges = tree@;
    let rel = tree.components();
    let labels = tree.labels();
    let root = Location { row: 0, col: 0 };
    let cells = Set::new(|v: Location| v.in_grid(size));
    let others = cells.remove(root);
    let f = |v: Location| (labels.parent)(root, v);
    lemma_count_cells(size);
    assert(cells.contains(root));
    assert(injective_on(f, others)) by {
        assert forall|v: Location, w: Location|
            others.contains(v) && others.contains(w) && #[trigger] f(v) == #[trigger] f(
                w,
            ) implies v == w by {
            lemma_tree_cell(size, edges, rel, labels, root, v);
            lemma_tree_cell(size, edges, rel, labels, root, w);
            lemma_tree_edge(size, edges, rel, labels, root, f(v));
        }
    }
    assert(others.map(f) =~= edges) by {
        assert forall|e: Edge| edges.contains(e) implies others.map(f).contains(e) by {
            lemma_tree_edge(size, edges, rel, labels, root, e);
            let deep = if (labels.level)(root, e.head(size)) == (labels.level)(root, e.tail()) + 1 {
                e.head(size)
            } else {
                e.tail()
            };
            lemma_tree_cell(size, edges, rel, labels, root, deep);
            assert(climbs(size, labels, root, deep, e));
            assert(others.contains(deep) && f(deep) == e);
        }
        assert forall|e: Edge| others.map(f).contains(e) implies edges.contains(e) by {
            let v = choose|v: Location| others.contains(v) && e == f(v);
            lemma_tree_cell(size, edges, rel, labels, root, v);
        }
    }
    lemma_map_size(others, edges, f);
}

/// Builds a random spanning tree of the grid of side `size`: all candidate
/// edges, shuffled by `rng`, then grown into a tree in that order.
pub fn spanning_tree(size: usize, rng: &mut StdRng) -> (tree: Tree)
    requires
        size >= 1,
        8 * (size * size) <= isize::MAX,
    ensures
        tree.side() == size,
        tree.spanning(),
        tree@.len() == size * size - 1,
        tree@ == chosen(
            size,
            shuffled_edges(size, generator_state(*old(rng))),
            (2 * (size * size)) as nat,
        ),
        generator_state(*final(rng)) == shuffle_draw(
            generator_state(*old(rng)),
            (2 * (size * size)) as nat,
        ).1,
{
    let mut edges = lattice_edges(size);
    shuffle_edges(&mut edges, rng);
    proof {
        let all = candidate_edges(size);
        broadcast use vstd::seq_lib::group_to_multiset_ensures;

        assert forall|k: int| 0 <= k < edges@.len() implies (#[trigger] edges@[k]).in_grid(
            size,
        ) by {
            assert(edges@.to_multiset().count(edges@[k]) > 0);
            assert(all.contains(edges@[k]));
            let j = choose|j: int| 0 <= j < all.len() && all[j] == edges@[k];
            lemma_code_of_edge(j, size);
        }
        assert forall|e: Edge| e.in_grid(size) implies edges@.contains(e) by {
            lemma_edge_of_code(e, size);
            assert(all.contains(e));
            assert(all.to_multiset().count(e) > 0);
        }
    }
    grow_tree(size, &edges)
}

/// Any two cells of the grid are joined by a walk along edges of a
/// spanning tree.
pub proof fn lemma_tree_connected(tree: &Tree, from: Location, to: Location) -> (way: (
    Seq<Location>,
    Seq<Edge>,
))
    requires
        tree.spanning(),
        from.in_grid(tree.side()),
        to.in_grid(tree.side()),
    ensures
        is_walk(tree.side(), tree@, way.0, way.1),
        way.0[0] == from,
        way.0.last() == to,
{
    lemma_index_bound(from, tree.side());
    lemma_index_bound(to, tree.side());
    lemma_forest_connected(tree.side(), tree@, tree.components(), tree.labels(), to, from)
}

/// No edges of a tree form a cycle.
pub proof fn lemma_tree_acyclic(tree: &Tree, cells: Seq<Location>, path: Seq<Edge>)
    requires
        tree.wf(),
    ensures
        !is_cycle(tree.side(), tree@, cells, path),
{
    lemma_forest_acyclic(tree.side(), tree@, tree.components(), tree.labels(), cells, path);
}

/// The labels that show the edges kept among the first `k` to be a forest.
pub open spec fn labels_after(size: usize, order: Seq<Edge>, k: nat) -> Labels
    decreases k,
{
    if k == 0 {
        bare_labels()
    } else if bridges(size, order, k - 1) {
        grown(
            labels_after(size, order, (k - 1) as nat),
            classes_after(size, order, (k - 1) as nat),
            size,
            order[k - 1],
        )
    } else {
        labels_after(size, order, (k - 1) as nat)
    }
}

/// After any number of edges, the edges kept are a forest whose components
/// are the sets held together, and every edge taken so far, kept or not,
/// has both ends in one set.
pub proof fn lemma_growth(size: usize, order: Seq<Edge>, k: nat)
    requires
        forall|j: int| 0 <= j < order.len() ==> (#[trigger] order[j]).in_grid(size),
        k <= order.len(),
    ensures
        is_partition(classes_after(size, order, k), size * size),
        forest(size, chosen(size, order, k), classes_after(size, order, k), labels_after(size, order, k)),
        forall|j: int|
            0 <= j < k ==> linked(
                classes_after(size, order, k),
                size,
                (#[trigger] order[j]).tail(),
                order[j].head(size),
            ),
        forall|e: Edge|
            chosen(size, order, k).contains(e) ==> exists|j: int| 0 <= j < k && order[j] == e,
    decreases k,
{
    if k == 0 {
        lemma_bare_forest(size);
    } else {
        let before = classes_after(size, order, (k - 1) as nat);
        let edge = order[k - 1];
        lemma_growth(size, order, (k - 1) as nat);
        lemma_ends_in_grid(edge, size);
        lemma_merged_partition(
            before,
            size * size,
            edge.tail().index(size),
            edge.head(size).index(size),
        );
        if bridges(size, order, k - 1) {
            lemma_forest_grows(
                size,
                chosen(size, order, (k - 1) as nat),
                before,
                labels_after(size, order, (k - 1) as nat),
                edge,
            );
        }
        assert forall|e: Edge| chosen(size, order, k).contains(e) implies exists|j: int|
            0 <= j < k && order[j] == e by {
            if chosen(size, order, (k - 1) as nat).contains(e) {
                let j = choose|j: int| 0 <= j < k - 1 && order[j] == e;
                assert(0 <= j < k && order[j] == e);
            } else {
                assert(order[k - 1] == e);
            }
        }
    }
}

/// A walk along edges whose ends are held together stays in one set.
proof fn lemma_walk_stays(
    size: usize,
    edges: Set<Edge>,
    rel: Set<(int, int)>,
    cells: Seq<Location>,
    path: Seq<Edge>,
    i: int,
)
    requires
        is_partition(rel, size * size),
        is_walk(size, edges, cells, path),
        forall|e: Edge| #[trigger]
            edges.contains(e) ==> e.in_grid(size) && rel.contains(ends_of(e, size)),
        0 <= i <= path.len(),
    ensures
        cells[i].in_grid(size),
        linked(rel, size, cells[0], cells[i]),
    decreases i,
{
    lemma_index_bound(cells[0], size);
    if i > 0 {
        lemma_walk_stays(size, edges, rel, cells, path, i - 1);
        let e = path[i - 1];
        assert(rel.contains(ends_of(e, size)));
        lemma_ends_in_grid(e, size);
    }
}

/// The first `k` edges of `order`, as a set.
pub open spec fn taken(order: Seq<Edge>, k: nat) -> Set<Edge> {
    Set::new(|e: Edge| exists|j: int| 0 <= j < k && order[j] == e)
}

/// What the sets mean: after `k` edges, two cells are held together exactly
/// if a walk along those edges joins them, and then a walk along the kept
/// edges does so too.
pub proof fn lemma_classes_are_walks(size: usize, order: Seq<Edge>, k: nat, u: Location, v: Location)
    requires
        forall|j: int| 0 <= j < order.len() ==> (#[trigger] order[j]).in_grid(size),
        k <= order.len(),
        u.in_grid(size),
        v.in_grid(size),
    ensures
        linked(classes_after(size, order, k), size, u, v) <==> exists|
            cells: Seq<Location>,
            path: Seq<Edge>,
        |
            is_walk(size, taken(order, k), cells, path) && cells[0] == u && cells.last() == v,
        linked(classes_after(size, order, k), size, u, v) <==> exists|
            cells: Seq<Location>,
            path: Seq<Edge>,
        |
            is_walk(size, chosen(size, order, k), cells, path) && cells[0] == u && cells.last()
                == v,
{
    let rel = classes_after(size, order, k);
    let kept = chosen(size, order, k);
    let all = taken(order, k);
    lemma_growth(size, order, k);
    if linked(rel, size, u, v) {
        lemma_index_bound(u, size);
        lemma_index_bound(v, size);
        let way = lemma_forest_connected(size, kept, rel, labels_after(size, order, k), v, u);
        assert(is_walk(size, kept, way.0, way.1) && way.0[0] == u && way.0.last() == v);
        assert(is_walk(size, all, way.0, way.1));
    }
    if exists|cells: Seq<Location>, path: Seq<Edge>|
        is_walk(size, kept, cells, path) && cells[0] == u && cells.last() == v {
        let (cells, path) = choose|cells: Seq<Location>, path: Seq<Edge>|
            is_walk(size, kept, cells, path) && cells[0] == u && cells.last() == v;
        assert(is_walk(size, all, cells, path));
    }
    if exists|cells: Seq<Location>, path: Seq<Edge>|
        is_walk(size, all, cells, path) && cells[0] == u && cells.last() == v {
        let (cells, path) = choose|cells: Seq<Location>, path: Seq<Edge>|
            is_walk(size, all, cells, path) && cells[0] == u && cells.last() == v;
        assert forall|e: Edge| #[trigger] all.contains(e) implies e.in_grid(size) && rel.contains(
            ends_of(e, size),
        ) by {
            let j = choose|j: int| 0 <= j < k && order[j] == e;
            assert(linked(rel, size, order[j].tail(), order[j].head(size)));
        }
        lemma_walk_stays(size, all, rel, cells, path, path.len() as int);
    }
}

} // verus!
