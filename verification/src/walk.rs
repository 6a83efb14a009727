//! The walk over the tree: depth first, with an explicit stack, never back
//! over the edge that led to a cell.

use crate::forest::Labels;
use crate::forest::climbs;
use crate::forest::lemma_distinct_cells;
use crate::forest::lemma_tree_cell;
use crate::forest::lemma_tree_edge;
use crate::forest::level_step;
use crate::forest::spanning_forest;
use crate::lattice::Dir;
use crate::lattice::Edge;
use crate::lattice::Location;
use crate::lattice::lemma_crossing;
use crate::lattice::lemma_crossings_differ;
use crate::lattice::lemma_touching;
use crate::preorder::lemma_visit_keeps_order;
use crate::preorder::owed;
use crate::preorder::preorder;
use crate::tree::Tree;
use vstd::prelude::*;

verus! {

/// A cell waiting on the stack, with the direction of the move that reached
/// it; the start cell has none.
pub type Pending = (Location, Option<Dir>);

/// The state of a walk: the stack, its top last, and the cells visited so
/// far in the order of their visits.
pub struct Progress {
    pub stack: Seq<Pending>,
    pub visited: Seq<Location>,
}

/// The state with the given stack and visits.
pub open spec fn progress(stack: Seq<Pending>, visited: Seq<Location>) -> Progress {
    Progress { stack, visited }
}

/// What leaving `v` in direction `dir` puts on the stack: the neighbour, if
/// the edge to it is in the tree and is not the edge that led to `v`.
pub open spec fn branch(
    edges: Set<Edge>,
    size: usize,
    v: Location,
    arrival: Option<Dir>,
    dir: Dir,
) -> Seq<Pending> {
    if edges.contains(v.crossing(dir, size)) && arrival != Some(dir.opposite()) {
        seq![(v.toward(dir, size), Some(dir))]
    } else {
        Seq::empty()
    }
}

/// What a visit of `v` puts on the stack: its branches to the right, down,
/// left and up, in that order.
pub open spec fn branches(
    edges: Set<Edge>,
    size: usize,
    v: Location,
    arrival: Option<Dir>,
) -> Seq<Pending> {
    branch(edges, size, v, arrival, Dir::Right) + branch(edges, size, v, arrival, Dir::Down)
        + branch(edges, size, v, arrival, Dir::Left) + branch(edges, size, v, arrival, Dir::Up)
}

/// One visit: the top of the stack is taken off and visited, and its
/// branches are put on. Nothing happens on an empty stack.
pub open spec fn walk_step(edges: Set<Edge>, size: usize, p: Progress) -> Progress {
    if p.stack.len() == 0 {
        p
    } else {
        Progress {
            stack: p.stack.drop_last() + branches(edges, size, p.stack.last().0, p.stack.last().1),
            visited: p.visited.push(p.stack.last().0),
        }
    }
}

/// The state of the walk from `start` after `steps` visits.
pub open spec fn walk_after(edges: Set<Edge>, size: usize, start: Location, steps: nat) -> Progress
    decreases steps,
{
    if steps == 0 {
        Progress { stack: seq![(start, None)], visited: Seq::empty() }
    } else {
        walk_step(edges, size, walk_after(edges, size, start, (steps - 1) as nat))
    }
}

/// The cell `w` waits on the stack.
pub open spec fn on_stack(stack: Seq<Pending>, w: Location) -> bool {
    exists|i: int| 0 <= i < stack.len() && (#[trigger] stack[i]).0 == w
}

/// The cell `w` has been visited or waits on the stack.
pub open spec fn seen(p: Progress, w: Location) -> bool {
    p.visited.contains(w) || on_stack(p.stack, w)
}

/// A stack entry is a cell of the grid that was reached over its parent
/// edge; only the start cell was reached over none.
pub open spec fn entry_ok(size: usize, labels: Labels, start: Location, entry: Pending) -> bool {
    &&& entry.0.in_grid(size)
    &&& match entry.1 {
        None => entry.0 == start,
        Some(d) => entry.0 != start && (labels.parent)(start, entry.0) == entry.0.crossing(
            d.opposite(),
            size,
        ),
    }
}

/// The part of the walk's invariant that speaks of single cells: stack
/// entries are well formed, no cell is seen twice, whatever is seen has its
/// parent visited, and the start cell is seen.
pub open spec fn cells_inv(size: usize, labels: Labels, start: Location, p: Progress) -> bool {
    &&& forall|i: int| 0 <= i < p.stack.len() ==> entry_ok(size, labels, start, #[trigger] p.stack[i])
    &&& forall|j: int| 0 <= j < p.visited.len() ==> (#[trigger] p.visited[j]).in_grid(size)
    &&& forall|i: int, j: int|
        0 <= i < j < p.stack.len() ==> (#[trigger] p.stack[i]).0 != (#[trigger] p.stack[j]).0
    &&& p.visited.no_duplicates()
    &&& forall|i: int, j: int|
        0 <= i < p.stack.len() && 0 <= j < p.visited.len() ==> (#[trigger] p.stack[i]).0
            != #[trigger] p.visited[j]
    &&& forall|w: Location| #[trigger]
        seen(p, w) && w != start ==> p.visited.contains(
            (labels.parent)(start, w).across(w, size),
        )
    &&& seen(p, start)
}

/// What holds between visits of a walk over a spanning tree: `cells_inv`,
/// and every visited cell has all its children seen.
pub open spec fn walk_inv(
    size: usize,
    edges: Set<Edge>,
    labels: Labels,
    start: Location,
    p: Progress,
) -> bool {
    &&& cells_inv(size, labels, start, p)
    &&& forall|v: Location, e: Edge|
        p.visited.contains(v) && edges.contains(e) && e.touches(v, size) && !#[trigger] climbs(
            size,
            labels,
            start,
            v,
            e,
        ) ==> seen(p, e.across(v, size))
}

/// The place of a direction in the order in which a visit tries them.
pub open spec fn turn(dir: Dir) -> nat {
    match dir {
        Dir::Right => 0,
        Dir::Down => 1,
        Dir::Left => 2,
        Dir::Up => 3,
    }
}

/// The edge `e` is crossed by one of the first `done` directions out of `v`.
pub open spec fn handled(v: Location, e: Edge, size: usize, done: nat) -> bool {
    exists|dir: Dir| turn(dir) < done && e == #[trigger] v.crossing(dir, size)
}

/// What holds during the visit of `entry`, after `done` of the four
/// directions have been tried: as `walk_inv`, but of the visited cell's
/// children only those in the directions tried need be seen, and no others
/// are.
pub open spec fn visit_inv(
    size: usize,
    edges: Set<Edge>,
    labels: Labels,
    start: Location,
    p: Progress,
    entry: Pending,
    done: nat,
) -> bool {
    &&& cells_inv(size, labels, start, p)
    &&& entry_ok(size, labels, start, entry)
    &&& p.visited.len() > 0
    &&& p.visited.last() == entry.0
    &&& forall|w: Location| #[trigger]
        seen(p, w) && w != start && (labels.parent)(start, w).across(w, size) == entry.0
            ==> handled(entry.0, (labels.parent)(start, w), size, done)
    &&& forall|v: Location, e: Edge|
        p.visited.contains(v) && edges.contains(e) && e.touches(v, size) && !#[trigger] climbs(
            size,
            labels,
            start,
            v,
            e,
        ) && (v == entry.0 ==> handled(entry.0, e, size, done)) ==> seen(p, e.across(v, size))
}

/// A branch out of a stack entry leads one level down, to a cell whose
/// parent edge is the edge crossed.
pub proof fn lemma_branch_target(
    size: usize,
    edges: Set<Edge>,
    rel: Set<(int, int)>,
    labels: Labels,
    start: Location,
    entry: Pending,
    dir: Dir,
)
    requires
        spanning_forest(size, edges, rel, labels),
        start.in_grid(size),
        entry_ok(size, labels, start, entry),
        edges.contains(entry.0.crossing(dir, size)),
        entry.1 != Some(dir.opposite()),
    ensures
        entry_ok(size, labels, start, (entry.0.toward(dir, size), Some(dir))),
        entry.0.toward(dir, size) != entry.0,
        (labels.parent)(start, entry.0.toward(dir, size)) == entry.0.crossing(dir, size),
        (labels.parent)(start, entry.0.toward(dir, size)).across(entry.0.toward(dir, size), size)
            == entry.0,
        !climbs(size, labels, start, entry.0, entry.0.crossing(dir, size)),
        (labels.level)(start, entry.0.toward(dir, size)) == (labels.level)(start, entry.0) + 1,
{
    let v = entry.0;
    let e = v.crossing(dir, size);
    let w = v.toward(dir, size);
    lemma_crossing(v, dir, size);
    lemma_tree_edge(size, edges, rel, labels, start, e);
    lemma_tree_cell(size, edges, rel, labels, start, v);
    lemma_tree_cell(size, edges, rel, labels, start, w);
    assert(level_step(labels, start, v, w));
    if climbs(size, labels, start, v, e) {
        assert(e == (labels.parent)(start, v));
        match entry.1 {
            None => {},
            Some(d) => {
                lemma_crossings_differ(v, dir, d.opposite(), size);
            },
        }
    }
    assert(climbs(size, labels, start, w, e));
}

/// A cell waits on a stack with one more entry if it waited before or is
/// the new entry's.
pub proof fn lemma_on_stack_push(stack: Seq<Pending>, entry: Pending, w: Location)
    ensures
        on_stack(stack.push(entry), w) <==> on_stack(stack, w) || entry.0 == w,
{
    let longer = stack.push(entry);
    if on_stack(stack, w) {
        let i = choose|i: int| 0 <= i < stack.len() && (#[trigger] stack[i]).0 == w;
        assert(longer[i].0 == w);
    }
    if entry.0 == w {
        assert(longer[stack.len() as int].0 == w);
    }
    if on_stack(longer, w) {
        let i = choose|i: int| 0 <= i < longer.len() && (#[trigger] longer[i]).0 == w;
        if i < stack.len() {
            assert(stack[i].0 == w);
        }
    }
}

/// Taking the top off the stack and visiting it changes nothing in what
/// has been seen.
pub proof fn lemma_seen_after_pop(p: Progress, w: Location)
    requires
        p.stack.len() > 0,
    ensures
        seen(progress(p.stack.drop_last(), p.visited.push(p.stack.last().0)), w) <==> seen(p, w),
{
    let rest = p.stack.drop_last();
    let top = p.stack.last();
    let more = p.visited.push(top.0);
    assert(p.stack =~= rest.push(top));
    lemma_on_stack_push(rest, top, w);
    if p.visited.contains(w) {
        let j = choose|j: int| 0 <= j < p.visited.len() && p.visited[j] == w;
        assert(more[j] == w);
    }
    if top.0 == w {
        assert(more[p.visited.len() as int] == w);
    }
    if more.contains(w) {
        let j = choose|j: int| 0 <= j < more.len() && more[j] == w;
        if j < p.visited.len() {
            assert(p.visited[j] == w);
        }
    }
}

/// Taking the top off the stack and visiting it starts its visit.
pub proof fn lemma_visit_begins(
    size: usize,
    edges: Set<Edge>,
    rel: Set<(int, int)>,
    labels: Labels,
    start: Location,
    p: Progress,
)
    requires
        spanning_forest(size, edges, rel, labels),
        start.in_grid(size),
        walk_inv(size, edges, labels, start, p),
        p.stack.len() > 0,
    ensures
        visit_inv(
            size,
            edges,
            labels,
            start,
            progress(p.stack.drop_last(), p.visited.push(p.stack.last().0)),
            p.stack.last(),
            0,
        ),
{
    let rest = p.stack.drop_last();
    let top = p.stack.last();
    let v = top.0;
    let more = p.visited.push(v);
    let q = Progress { stack: rest, visited: more };
    assert(!p.visited.contains(v)) by {
        if p.visited.contains(v) {
            let j = choose|j: int| 0 <= j < p.visited.len() && p.visited[j] == v;
            assert(p.stack[p.stack.len() - 1].0 != p.visited[j]);
        }
    }
    assert forall|i: int| 0 <= i < rest.len() implies entry_ok(
        size,
        labels,
        start,
        #[trigger] rest[i],
    ) by {
        assert(rest[i] == p.stack[i]);
    }
    assert forall|i: int, j: int| 0 <= i < j < rest.len() implies (#[trigger] rest[i]).0 != (
    #[trigger] rest[j]).0 by {
        assert(rest[i] == p.stack[i] && rest[j] == p.stack[j]);
    }
    assert forall|i: int, j: int| 0 <= i < rest.len() && 0 <= j < more.len() implies (
    #[trigger] rest[i]).0 != #[trigger] more[j] by {
        assert(rest[i] == p.stack[i]);
        if j < p.visited.len() {
            assert(more[j] == p.visited[j]);
        } else {
            assert(p.stack[p.stack.len() - 1].0 == v);
        }
    }
    assert(more.no_duplicates()) by {
        assert forall|i: int, j: int| 0 <= i < more.len() && 0 <= j < more.len() && i != j implies more[i]
            != more[j] by {
            if i < p.visited.len() && j < p.visited.len() {
                assert(p.visited[i] != p.visited[j]);
            } else if i < p.visited.len() {
                assert(p.visited.contains(p.visited[i]));
            } else {
                assert(p.visited.contains(p.visited[j]));
            }
        }
    }
    assert forall|w: Location| #[trigger] seen(q, w) && w != start implies more.contains(
        (labels.parent)(start, w).across(w, size),
    ) && (labels.parent)(start, w).across(w, size) != v by {
        lemma_seen_after_pop(p, w);
        let u = (labels.parent)(start, w).across(w, size);
        assert(p.visited.contains(u));
        let j = choose|j: int| 0 <= j < p.visited.len() && p.visited[j] == u;
        assert(more[j] == u);
    }
    assert(seen(q, start)) by {
        lemma_seen_after_pop(p, start);
    }
    assert forall|x: Location, e: Edge|
        more.contains(x) && edges.contains(e) && e.touches(x, size) && !#[trigger] climbs(
            size,
            labels,
            start,
            x,
            e,
        ) && (x == v ==> handled(v, e, size, 0)) implies seen(q, e.across(x, size)) by {
        lemma_seen_after_pop(p, e.across(x, size));
        let j = choose|j: int| 0 <= j < more.len() && more[j] == x;
        assert(p.visited[j] == x);
    }
}

/// Trying one more direction during a visit keeps the visit's invariant.
pub proof fn lemma_visit_goes_on(
    size: usize,
    edges: Set<Edge>,
    rel: Set<(int, int)>,
    labels: Labels,
    start: Location,
    p: Progress,
    entry: Pending,
    dir: Dir,
)
    requires
        spanning_forest(size, edges, rel, labels),
        start.in_grid(size),
        visit_inv(size, edges, labels, start, p, entry, turn(dir)),
    ensures
        visit_inv(
            size,
            edges,
            labels,
            start,
            progress(p.stack + branch(edges, size, entry.0, entry.1, dir), p.visited),
            entry,
            turn(dir) + 1,
        ),
{
    let v = entry.0;
    let e = v.crossing(dir, size);
    let w = v.toward(dir, size);
    let done = turn(dir);
    let grown = branch(edges, size, v, entry.1, dir);
    let q = Progress { stack: p.stack + grown, visited: p.visited };
    lemma_crossing(v, dir, size);
    lemma_tree_cell(size, edges, rel, labels, start, v);
    assert(p.visited.contains(v)) by {
        assert(p.visited[p.visited.len() - 1] == v);
    }
    assert forall|f: Edge| handled(v, f, size, done) implies handled(v, f, size, done + 1) by {
        let d = choose|d: Dir| turn(d) < done && f == #[trigger] v.crossing(d, size);
        assert(turn(d) < done + 1 && f == v.crossing(d, size));
    }
    assert(handled(v, e, size, done + 1)) by {
        assert(turn(dir) < done + 1 && e == v.crossing(dir, size));
    }
    assert forall|f: Edge| handled(v, f, size, done + 1) implies handled(v, f, size, done) || f
        == e by {
        let d = choose|d: Dir| turn(d) < done + 1 && f == #[trigger] v.crossing(d, size);
        if d != dir {
            assert(turn(d) < done && f == v.crossing(d, size));
        }
    }
    if grown.len() == 0 {
        assert(q.stack =~= p.stack);
        assert(q == p);
        if edges.contains(e) {
            match entry.1 {
                None => {},
                Some(d) => {
                    assert(e == (labels.parent)(start, v));
                    assert(climbs(size, labels, start, v, e));
                },
            }
        }
    } else {
        let next = (w, Some(dir));
        assert(q.stack =~= p.stack.push(next));
        lemma_branch_target(size, edges, rel, labels, start, entry, dir);
        lemma_tree_edge(size, edges, rel, labels, start, e);
        assert(!seen(p, w)) by {
            if seen(p, w) {
                assert(handled(v, e, size, done));
                let d = choose|d: Dir| turn(d) < done && e == #[trigger] v.crossing(d, size);
                lemma_crossings_differ(v, dir, d, size);
            }
        }
        assert forall|x: Location| seen(q, x) <==> seen(p, x) || x == w by {
            lemma_on_stack_push(p.stack, next, x);
        }
        assert forall|i: int| 0 <= i < q.stack.len() implies entry_ok(
            size,
            labels,
            start,
            #[trigger] q.stack[i],
        ) by {
            if i < p.stack.len() {
                assert(q.stack[i] == p.stack[i]);
            }
        }
        assert forall|i: int, j: int| 0 <= i < j < q.stack.len() implies (#[trigger] q.stack[i]).0
            != (#[trigger] q.stack[j]).0 by {
            assert(q.stack[i] == p.stack[i]);
            if j < p.stack.len() {
                assert(q.stack[j] == p.stack[j]);
            } else {
                assert(on_stack(p.stack, p.stack[i].0));
            }
        }
        assert forall|i: int, j: int| 0 <= i < q.stack.len() && 0 <= j < q.visited.len() implies (
        #[trigger] q.stack[i]).0 != #[trigger] q.visited[j] by {
            if i < p.stack.len() {
                assert(q.stack[i] == p.stack[i]);
            } else {
                assert(p.visited.contains(p.visited[j]));
            }
        }
        assert(seen(q, start));
        assert forall|x: Location| #[trigger] seen(q, x) && x != start implies q.visited.contains(
            (labels.parent)(start, x).across(x, size),
        ) by {
            if x != w {
                assert(seen(p, x));
            }
        }
        assert forall|x: Location| #[trigger]
            seen(q, x) && x != start && (labels.parent)(start, x).across(x, size)
                == v implies handled(v, (labels.parent)(start, x), size, done + 1) by {
            if x != w {
                assert(seen(p, x));
            }
        }
    }
    assert forall|x: Location, f: Edge|
        q.visited.contains(x) && edges.contains(f) && f.touches(x, size) && !#[trigger] climbs(
            size,
            labels,
            start,
            x,
            f,
        ) && (x == v ==> handled(v, f, size, done + 1)) implies seen(q, f.across(x, size)) by {
        if x == v && f == e {
            assert(grown.len() > 0);
            lemma_on_stack_push(p.stack, (w, Some(dir)), w);
        } else {
            assert(seen(p, f.across(x, size)));
            if grown.len() > 0 {
                lemma_on_stack_push(p.stack, (w, Some(dir)), f.across(x, size));
            }
        }
    }
}

/// When all four directions have been tried, the visit is over.
pub proof fn lemma_visit_ends(
    size: usize,
    edges: Set<Edge>,
    rel: Set<(int, int)>,
    labels: Labels,
    start: Location,
    p: Progress,
    entry: Pending,
)
    requires
        spanning_forest(size, edges, rel, labels),
        start.in_grid(size),
        visit_inv(size, edges, labels, start, p, entry, 4),
    ensures
        walk_inv(size, edges, labels, start, p),
{
    assert forall|v: Location, e: Edge|
        p.visited.contains(v) && edges.contains(e) && e.touches(v, size) && !#[trigger] climbs(
            size,
            labels,
            start,
            v,
            e,
        ) implies seen(p, e.across(v, size)) by {
        if v == entry.0 {
            lemma_tree_edge(size, edges, rel, labels, start, e);
            let dir = lemma_touching(e, v, size);
            assert(turn(dir) < 4 && e == v.crossing(dir, size));
        }
    }
}

/// When the stack is empty, every cell of the grid has been visited.
pub proof fn lemma_walk_complete(
    size: usize,
    edges: Set<Edge>,
    rel: Set<(int, int)>,
    labels: Labels,
    start: Location,
    p: Progress,
    v: Location,
)
    requires
        spanning_forest(size, edges, rel, labels),
        start.in_grid(size),
        walk_inv(size, edges, labels, start, p),
        p.stack.len() == 0,
        v.in_grid(size),
    ensures
        p.visited.contains(v),
    decreases (labels.level)(start, v),
{
    lemma_tree_cell(size, edges, rel, labels, start, v);
    if v == start {
        assert(seen(p, start));
    } else {
        let e = (labels.parent)(start, v);
        let u = e.across(v, size);
        lemma_tree_edge(size, edges, rel, labels, start, e);
        lemma_walk_complete(size, edges, rel, labels, start, p, u);
        assert(e.touches(u, size) && e.across(u, size) == v);
        assert(!climbs(size, labels, start, u, e));
        assert(seen(p, v));
    }
}

/// Puts on the stack what leaving `entry` in direction `dir` calls for.
fn push_branch(tree: &Tree, stack: &mut Vec<Pending>, entry: Pending, dir: Dir)
    requires
        tree.wf(),
        entry.0.in_grid(tree.side()),
    ensures
        final(stack)@ == old(stack)@ + branch(tree@, tree.side(), entry.0, entry.1, dir),
{
    let size: usize = tree.size();
    let edge = entry.0.edge_toward(dir, size);
    let came_that_way = match entry.1 {
        Some(d) => d == dir.reversed(),
        None => false,
    };
    if tree.contains(edge) && !came_that_way {
        stack.push((entry.0.step(dir, size), Some(dir)));
        assert(stack@ =~= old(stack)@ + branch(tree@, tree.side(), entry.0, entry.1, dir));
    } else {
        assert(stack@ =~= old(stack)@ + branch(tree@, tree.side(), entry.0, entry.1, dir));
    }
}

/// Walks the spanning tree from `start`, depth first, and returns the cells
/// in the order of their visits: the visits that `walk_after` describes,
/// which reach every cell of the grid exactly once, each cell before all
/// that lies below it, the branches of a cell in the order up, left, down,
/// right.
pub fn walk(tree: &Tree, start: Location) -> (order: Vec<Location>)
    requires
        tree.spanning(),
        start.in_grid(tree.side()),
    ensures
        order@ == walk_after(tree@, tree.side(), start, order@.len()).visited,
        order@ == preorder(tree@, tree.side(), (start, None), order@.len()),
        walk_after(tree@, tree.side(), start, order@.len()).stack.len() == 0,
        order@.len() == tree.side() * tree.side(),
        order@[0] == start,
        order@.no_duplicates(),
        forall|i: int| 0 <= i < order@.len() ==> (#[trigger] order@[i]).in_grid(tree.side()),
        forall|v: Location| v.in_grid(tree.side()) ==> order@.contains(v),
{
    let size: usize = tree.size();
    let ghost edges = tree@;
    let ghost rel = tree.components();
    let ghost labels = tree.labels();
    let mut stack: Vec<Pending> = Vec::new();
    stack.push((start, None));
    let mut order: Vec<Location> = Vec::new();
    proof {
        let p = Progress { stack: stack@, visited: order@ };
        assert(stack@ =~= seq![(start, None)]);
        assert(order@ =~= Seq::<Location>::empty());
        assert(p.stack[0].0 == start);
        assert(seen(p, start));
        assert forall|w: Location| #[trigger] seen(p, w) implies w == start by {
            if on_stack(p.stack, w) {
                let i = choose|i: int| 0 <= i < p.stack.len() && (#[trigger] p.stack[i]).0 == w;
            }
        }
        lemma_distinct_cells(order@, size);
        assert(p.stack.last() == (start, None::<Dir>));
        assert(p.stack.drop_last() =~= Seq::<Pending>::empty());
        assert(owed(edges, size, p.stack.drop_last(), (size * size) as nat) =~= Seq::<
            Location,
        >::empty());
        assert(owed(edges, size, p.stack, (size * size) as nat) =~= preorder(
            edges,
            size,
            (start, None),
            (size * size) as nat,
        ));
        assert(order@ + owed(edges, size, stack@, (size * size) as nat) =~= preorder(
            edges,
            size,
            (start, None),
            (size * size) as nat,
        ));
    }
    while stack.len() > 0
        invariant
            tree.spanning(),
            size == tree.side(),
            edges == tree@,
            rel == tree.components(),
            labels == tree.labels(),
            start.in_grid(size),
            walk_inv(size, edges, labels, start, progress(stack@, order@)),
            progress(stack@, order@) == walk_after(edges, size, start, order@.len()),
            order@.len() <= size * size,
            order@.len() == 0 ==> stack@.len() == 1 && stack@[0].0 == start,
            order@.len() > 0 ==> order@[0] == start,
            order@ + owed(edges, size, stack@, (size * size) as nat) == preorder(
                edges,
                size,
                (start, None),
                (size * size) as nat,
            ),
        decreases size * size - order@.len(),
    {
        let ghost before = Progress { stack: stack@, visited: order@ };
        let entry = stack.pop().unwrap();
        order.push(entry.0);
        let ghost rest = stack@;
        proof {
            assert(entry == before.stack.last());
            assert(rest =~= before.stack.drop_last());
            assert(order@ =~= before.visited.push(entry.0));
            lemma_visit_keeps_order(size, edges, rel, labels, start, before);
            lemma_visit_begins(size, edges, rel, labels, start, before);
            lemma_distinct_cells(order@, size);
        }
        push_branch(tree, &mut stack, entry, Dir::Right);
        proof {
            lemma_visit_goes_on(
                size,
                edges,
                rel,
                labels,
                start,
                Progress { stack: rest, visited: order@ },
                entry,
                Dir::Right,
            );
        }
        let ghost first = stack@;
        push_branch(tree, &mut stack, entry, Dir::Down);
        proof {
            lemma_visit_goes_on(
                size,
                edges,
                rel,
                labels,
                start,
                Progress { stack: first, visited: order@ },
                entry,
                Dir::Down,
            );
        }
        let ghost second = stack@;
        push_branch(tree, &mut stack, entry, Dir::Left);
        proof {
            lemma_visit_goes_on(
                size,
                edges,
                rel,
                labels,
                start,
                Progress { stack: second, visited: order@ },
                entry,
                Dir::Left,
            );
        }
        let ghost third = stack@;
        push_branch(tree, &mut stack, entry, Dir::Up);
        proof {
            lemma_visit_goes_on(
                size,
                edges,
                rel,
                labels,
                start,
                Progress { stack: third, visited: order@ },
                entry,
                Dir::Up,
            );
            lemma_visit_ends(
                size,
                edges,
                rel,
                labels,
                start,
                Progress { stack: stack@, visited: order@ },
                entry,
            );
            assert(stack@ =~= rest + branches(edges, size, entry.0, entry.1));
            assert(Progress { stack: stack@, visited: order@ } == walk_step(edges, size, before));
        }
    }
    proof {
        let p = Progress { stack: stack@, visited: order@ };
        assert forall|v: Location| v.in_grid(size) implies order@.contains(v) by {
            lemma_walk_complete(size, edges, rel, labels, start, p, v);
        }
        lemma_distinct_cells(order@, size);
        assert(order@ + owed(edges, size, stack@, (size * size) as nat) =~= order@);
    }
    order
}

} // verus!
