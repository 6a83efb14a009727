//! The order of the walk, said without a stack: a cell comes before
//! everything below it, and of its branches the one upwards is followed
//! first, then those to the left, downwards and to the right.

use crate::forest::Labels;
use crate::forest::lemma_level_bound;
use crate::forest::spanning_forest;
use crate::lattice::Dir;
use crate::lattice::Edge;
use crate::lattice::Location;
use crate::lattice::lemma_index_bound;
use crate::walk::Pending;
use crate::walk::Progress;
use crate::walk::branch;
use crate::walk::branches;
use crate::walk::entry_ok;
use crate::walk::lemma_branch_target;
use crate::walk::walk_inv;
use crate::walk::walk_step;
use vstd::prelude::*;

verus! {

/// The cell of `entry` and then the cells below it, as far as `depth`
/// levels down: each cell before its branches, the branches in the order up,
/// left, down, right.
pub open spec fn preorder(edges: Set<Edge>, size: usize, entry: Pending, depth: nat) -> Seq<Location>
    decreases depth, 0nat,
{
    if depth == 0 {
        Seq::empty()
    } else {
        seq![entry.0] + branch_order(edges, size, entry, Dir::Up, (depth - 1) as nat)
            + branch_order(edges, size, entry, Dir::Left, (depth - 1) as nat) + branch_order(
            edges,
            size,
            entry,
            Dir::Down,
            (depth - 1) as nat,
        ) + branch_order(edges, size, entry, Dir::Right, (depth - 1) as nat)
    }
}

/// The cells met on the branch that leaves `entry` in direction `dir`, if
/// there is one.
pub open spec fn branch_order(
    edges: Set<Edge>,
    size: usize,
    entry: Pending,
    dir: Dir,
    depth: nat,
) -> Seq<Location>
    decreases depth, 1nat,
{
    if branch(edges, size, entry.0, entry.1, dir).len() == 0 {
        Seq::empty()
    } else {
        preorder(edges, size, branch(edges, size, entry.0, entry.1, dir)[0], depth)
    }
}

/// The visits that a stack still owes: the top entry with all below it,
/// then the entry under the top, and so on.
pub open spec fn owed(edges: Set<Edge>, size: usize, stack: Seq<Pending>, depth: nat) -> Seq<Location>
    decreases stack.len(),
{
    if stack.len() == 0 {
        Seq::empty()
    } else {
        preorder(edges, size, stack.last(), depth) + owed(edges, size, stack.drop_last(), depth)
    }
}

/// A depth that reaches the lowest level is as good as any greater one.
pub proof fn lemma_depth_enough(
    size: usize,
    edges: Set<Edge>,
    rel: Set<(int, int)>,
    labels: Labels,
    start: Location,
    entry: Pending,
    depth: nat,
    deeper: nat,
)
    requires
        spanning_forest(size, edges, rel, labels),
        start.in_grid(size),
        entry_ok(size, labels, start, entry),
        depth + (labels.level)(start, entry.0) >= size * size,
        deeper + (labels.level)(start, entry.0) >= size * size,
    ensures
        preorder(edges, size, entry, depth) == preorder(edges, size, entry, deeper),
    decreases size * size - (labels.level)(start, entry.0),
{
    lemma_index_bound(start, size);
    lemma_index_bound(entry.0, size);
    lemma_level_bound(size, edges, rel, labels, start, entry.0);
    lemma_branch_enough(size, edges, rel, labels, start, entry, Dir::Up, depth, deeper);
    lemma_branch_enough(size, edges, rel, labels, start, entry, Dir::Left, depth, deeper);
    lemma_branch_enough(size, edges, rel, labels, start, entry, Dir::Down, depth, deeper);
    lemma_branch_enough(size, edges, rel, labels, start, entry, Dir::Right, depth, deeper);
}

/// The part of `lemma_depth_enough` for one branch.
proof fn lemma_branch_enough(
    size: usize,
    edges: Set<Edge>,
    rel: Set<(int, int)>,
    labels: Labels,
    start: Location,
    entry: Pending,
    dir: Dir,
    depth: nat,
    deeper: nat,
)
    requires
        spanning_forest(size, edges, rel, labels),
        start.in_grid(size),
        entry_ok(size, labels, start, entry),
        (labels.level)(start, entry.0) < size * size,
        depth + (labels.level)(start, entry.0) >= size * size,
        deeper + (labels.level)(start, entry.0) >= size * size,
    ensures
        branch_order(edges, size, entry, dir, (depth - 1) as nat) == branch_order(
            edges,
            size,
            entry,
            dir,
            (deeper - 1) as nat,
        ),
    decreases size * size - (labels.level)(start, entry.0), 0nat,
{
    let pushed = branch(edges, size, entry.0, entry.1, dir);
    if pushed.len() > 0 {
        lemma_branch_target(size, edges, rel, labels, start, entry, dir);
        lemma_depth_enough(
            size,
            edges,
            rel,
            labels,
            start,
            pushed[0],
            (depth - 1) as nat,
            (deeper - 1) as nat,
        );
    }
}

/// What two stacks owe, one put on top of the other: first what the upper
/// one owes, then what the lower one owes.
pub proof fn lemma_owed_stacked(
    edges: Set<Edge>,
    size: usize,
    lower: Seq<Pending>,
    upper: Seq<Pending>,
    depth: nat,
)
    ensures
        owed(edges, size, lower + upper, depth) == owed(edges, size, upper, depth) + owed(
            edges,
            size,
            lower,
            depth,
        ),
    decreases upper.len(),
{
    if upper.len() == 0 {
        assert(lower + upper =~= lower);
        assert(owed(edges, size, upper, depth) + owed(edges, size, lower, depth) =~= owed(
            edges,
            size,
            lower,
            depth,
        ));
    } else {
        let both = lower + upper;
        assert(both.last() == upper.last());
        assert(both.drop_last() =~= lower + upper.drop_last());
        lemma_owed_stacked(edges, size, lower, upper.drop_last(), depth);
        assert(owed(edges, size, both, depth) =~= owed(edges, size, upper, depth) + owed(
            edges,
            size,
            lower,
            depth,
        ));
    }
}

/// What the entries pushed for one direction owe is that branch's order.
proof fn lemma_owed_branch(edges: Set<Edge>, size: usize, entry: Pending, dir: Dir, depth: nat)
    ensures
        owed(edges, size, branch(edges, size, entry.0, entry.1, dir), depth) == branch_order(
            edges,
            size,
            entry,
            dir,
            depth,
        ),
{
    let pushed = branch(edges, size, entry.0, entry.1, dir);
    if pushed.len() > 0 {
        assert(pushed.last() == pushed[0]);
        assert(pushed.drop_last() =~= Seq::<Pending>::empty());
        assert(owed(edges, size, pushed.drop_last(), depth) =~= Seq::<Location>::empty());
        assert(owed(edges, size, pushed, depth) =~= preorder(edges, size, pushed[0], depth));
    }
}

/// The order below an entry is its cell, then what its branches owe when
/// they lie on a stack.
pub proof fn lemma_entry_order(
    size: usize,
    edges: Set<Edge>,
    rel: Set<(int, int)>,
    labels: Labels,
    start: Location,
    entry: Pending,
)
    requires
        spanning_forest(size, edges, rel, labels),
        start.in_grid(size),
        entry_ok(size, labels, start, entry),
    ensures
        preorder(edges, size, entry, (size * size) as nat) == seq![entry.0] + owed(
            edges,
            size,
            branches(edges, size, entry.0, entry.1),
            (size * size) as nat,
        ),
{
    let n = (size * size) as nat;
    let right = branch(edges, size, entry.0, entry.1, Dir::Right);
    let down = branch(edges, size, entry.0, entry.1, Dir::Down);
    let left = branch(edges, size, entry.0, entry.1, Dir::Left);
    let up = branch(edges, size, entry.0, entry.1, Dir::Up);
    lemma_index_bound(start, size);
    lemma_index_bound(entry.0, size);
    lemma_level_bound(size, edges, rel, labels, start, entry.0);
    lemma_branch_enough(size, edges, rel, labels, start, entry, Dir::Up, n, n + 1);
    lemma_branch_enough(size, edges, rel, labels, start, entry, Dir::Left, n, n + 1);
    lemma_branch_enough(size, edges, rel, labels, start, entry, Dir::Down, n, n + 1);
    lemma_branch_enough(size, edges, rel, labels, start, entry, Dir::Right, n, n + 1);
    lemma_owed_branch(edges, size, entry, Dir::Up, n);
    lemma_owed_branch(edges, size, entry, Dir::Left, n);
    lemma_owed_branch(edges, size, entry, Dir::Down, n);
    lemma_owed_branch(edges, size, entry, Dir::Right, n);
    lemma_owed_stacked(edges, size, right + down + left, up, n);
    lemma_owed_stacked(edges, size, right + down, left, n);
    lemma_owed_stacked(edges, size, right, down, n);
    lemma_sums(
        seq![entry.0],
        owed(edges, size, up, n),
        owed(edges, size, left, n),
        owed(edges, size, down, n),
        owed(edges, size, right, n),
    );
}

/// Five sequences in a row, bracketed from the left or from the right.
proof fn lemma_sums(
    a: Seq<Location>,
    b: Seq<Location>,
    c: Seq<Location>,
    d: Seq<Location>,
    e: Seq<Location>,
)
    ensures
        a + b + c + d + e == a + (b + (c + (d + e))),
{
    assert(a + b + c + d + e =~= a + (b + (c + (d + e))));
}

/// A visit takes from what the stack owes exactly the cell it visits: what
/// has been visited, followed by what the stack owes, stays the same.
pub proof fn lemma_visit_keeps_order(
    size: usize,
    edges: Set<Edge>,
    rel: Set<(int, int)>,
    labels: Labels,
    start: Location,
    p: Progress,
)
    requires
        spanning_forest(size, edges, rel, labels),
        start.in_grid(size),
        walk_inv(size, edges, labels, start, p),
        p.stack.len() > 0,
    ensures
        walk_step(edges, size, p).visited + owed(
            edges,
            size,
            walk_step(edges, size, p).stack,
            (size * size) as nat,
        ) == p.visited + owed(edges, size, p.stack, (size * size) as nat),
{
    let n = (size * size) as nat;
    let top = p.stack.last();
    assert(entry_ok(size, labels, start, p.stack[p.stack.len() - 1]));
    lemma_entry_order(size, edges, rel, labels, start, top);
    lemma_pop_keeps_order(edges, size, p, n);
}

/// The part of `lemma_visit_keeps_order` that rearranges sequences.
proof fn lemma_pop_keeps_order(edges: Set<Edge>, size: usize, p: Progress, n: nat)
    requires
        p.stack.len() > 0,
        preorder(edges, size, p.stack.last(), n) == seq![p.stack.last().0] + owed(
            edges,
            size,
            branches(edges, size, p.stack.last().0, p.stack.last().1),
            n,
        ),
    ensures
        walk_step(edges, size, p).visited + owed(edges, size, walk_step(edges, size, p).stack, n)
            == p.visited + owed(edges, size, p.stack, n),
{
    let top = p.stack.last();
    let rest = p.stack.drop_last();
    let below = owed(edges, size, branches(edges, size, top.0, top.1), n);
    let under = owed(edges, size, rest, n);
    lemma_owed_stacked(edges, size, rest, branches(edges, size, top.0, top.1), n);
    assert(p.visited.push(top.0) + (below + under) =~= p.visited + ((seq![top.0] + below) + under));
}

} // verus!
