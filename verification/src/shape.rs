//! Facts about the tree of [`crate::tree`] on which the algorithm and the laws rest.
use vstd::prelude::*;
use crate::tree::children;
use crate::tree::declared;
use crate::tree::degree_at;
use crate::tree::degree_sum;
use crate::tree::height;
use crate::tree::level;
use crate::tree::levels;
use crate::tree::first_child;
use crate::tree::nodes;
use crate::tree::offspring;
use crate::tree::Path;
use crate::TraceId;

verus! {

/// No trace asks more children of a node than the node has.
pub proof fn lemma_degree_covers(traces: Seq<Seq<TraceId>>, i: int, path: Path)
    requires
        0 <= i < traces.len(),
    ensures
        declared(traces[i], path) <= degree_at(traces, path),
    decreases traces.len(),
{
    if i < traces.len() - 1 {
        lemma_degree_covers(traces.drop_last(), i, path);
    }
}

/// A node with children has a trace that asks for exactly that many.
pub proof fn lemma_degree_witness(traces: Seq<Seq<TraceId>>, path: Path) -> (i: int)
    requires
        degree_at(traces, path) > 0,
    ensures
        0 <= i < traces.len(),
        declared(traces[i], path) == degree_at(traces, path),
    decreases traces.len(),
{
    if declared(traces.last(), path) > degree_at(traces.drop_last(), path) {
        traces.len() - 1
    } else {
        lemma_degree_witness(traces.drop_last(), path)
    }
}

/// A degree is at most one more than the largest index.
pub proof fn lemma_degree_limit(traces: Seq<Seq<TraceId>>, path: Path)
    ensures
        degree_at(traces, path) <= u32::MAX + 1,
    decreases traces.len(),
{
    if traces.len() > 0 {
        lemma_degree_limit(traces.drop_last(), path);
    }
}

/// Taking one more trace into account raises a degree to what that trace asks, if that
/// is more.
pub proof fn lemma_degree_step(traces: Seq<Seq<TraceId>>, k: int, path: Path)
    requires
        0 <= k < traces.len(),
    ensures
        degree_at(traces.take(k + 1), path) == if declared(traces[k], path) > degree_at(
            traces.take(k),
            path,
        ) {
            declared(traces[k], path)
        } else {
            degree_at(traces.take(k), path)
        },
{
    assert(traces.take(k + 1).drop_last() =~= traces.take(k));
}

/// No trace is longer than the height.
pub proof fn lemma_height_covers(traces: Seq<Seq<TraceId>>, i: int)
    requires
        0 <= i < traces.len(),
    ensures
        traces[i].len() <= height(traces),
    decreases traces.len(),
{
    if i < traces.len() - 1 {
        lemma_height_covers(traces.drop_last(), i);
    }
}

/// A positive height is the length of some trace.
pub proof fn lemma_height_witness(traces: Seq<Seq<TraceId>>) -> (i: int)
    requires
        height(traces) > 0,
    ensures
        0 <= i < traces.len(),
        traces[i].len() == height(traces),
    decreases traces.len(),
{
    if traces.last().len() > height(traces.drop_last()) {
        traces.len() - 1
    } else {
        lemma_height_witness(traces.drop_last())
    }
}

/// Only nodes above the deepest level have children.
pub proof fn lemma_degree_within_height(traces: Seq<Seq<TraceId>>, path: Path)
    requires
        degree_at(traces, path) > 0,
    ensures
        path.len() < height(traces),
{
    let i = lemma_degree_witness(traces, path);
    lemma_height_covers(traces, i);
}

/// The degrees of two runs of nodes add up.
pub proof fn lemma_degree_sum_concat(traces: Seq<Seq<TraceId>>, a: Seq<Path>, b: Seq<Path>)
    ensures
        degree_sum(traces, a + b) == degree_sum(traces, a) + degree_sum(traces, b),
    decreases b.len(),
{
    if b.len() == 0 {
        assert(a + b =~= a);
    } else {
        assert((a + b).drop_last() =~= a + b.drop_last());
        lemma_degree_sum_concat(traces, a, b.drop_last());
    }
}

/// The degrees of the nodes before `i`, and of the node `i` itself, are part of the sum.
pub proof fn lemma_degree_sum_take(traces: Seq<Seq<TraceId>>, paths: Seq<Path>, i: int)
    requires
        0 <= i < paths.len(),
    ensures
        degree_sum(traces, paths.take(i + 1)) == degree_sum(traces, paths.take(i)) + degree_at(
            traces,
            paths[i],
        ),
        degree_sum(traces, paths.take(i + 1)) <= degree_sum(traces, paths),
{
    assert(paths.take(i + 1).drop_last() =~= paths.take(i));
    assert(paths =~= paths.take(i + 1) + paths.skip(i + 1));
    lemma_degree_sum_concat(traces, paths.take(i + 1), paths.skip(i + 1));
}

/// There are as many children as the degrees of the parents add up to.
pub proof fn lemma_offspring_len(traces: Seq<Seq<TraceId>>, parents: Seq<Path>)
    ensures
        offspring(traces, parents).len() == degree_sum(traces, parents),
    decreases parents.len(),
{
    if parents.len() > 0 {
        lemma_offspring_len(traces, parents.drop_last());
    }
}

/// Where a child stands among the children of all parents: behind the children of the
/// parents before its own, at its index.
pub proof fn lemma_offspring_child(
    traces: Seq<Seq<TraceId>>,
    parents: Seq<Path>,
    j: int,
    c: TraceId,
)
    requires
        0 <= j < parents.len(),
        c < degree_at(traces, parents[j]),
    ensures
        degree_sum(traces, parents.take(j)) + c < offspring(traces, parents).len(),
        offspring(traces, parents)[degree_sum(traces, parents.take(j)) + c] == parents[j].push(c),
    decreases parents.len(),
{
    let front = parents.drop_last();
    lemma_offspring_len(traces, front);
    if j == parents.len() - 1 {
        assert(parents.take(j) =~= front);
    } else {
        assert(front.take(j) =~= parents.take(j));
        lemma_offspring_child(traces, front, j, c);
    }
}

/// Every one of the children of `parents` is a child of one parent, and its place among
/// them is given by that parent and its index.
pub proof fn lemma_offspring_parent(traces: Seq<Seq<TraceId>>, parents: Seq<Path>, x: int) -> (j:
    int)
    requires
        0 <= x < offspring(traces, parents).len(),
    ensures
        0 <= j < parents.len(),
        offspring(traces, parents)[x].len() > 0,
        offspring(traces, parents)[x].drop_last() == parents[j],
        offspring(traces, parents)[x].last() < degree_at(traces, parents[j]),
        x == degree_sum(traces, parents.take(j)) + offspring(traces, parents)[x].last(),
    decreases parents.len(),
{
    let front = parents.drop_last();
    lemma_offspring_len(traces, front);
    if x < offspring(traces, front).len() {
        let j = lemma_offspring_parent(traces, front, x);
        assert(front.take(j) =~= parents.take(j));
        j
    } else {
        let j = parents.len() - 1;
        let c = x - offspring(traces, front).len();
        lemma_degree_limit(traces, parents.last());
        assert(parents.take(j) =~= front);
        assert(offspring(traces, parents)[x] == parents.last().push(c as TraceId));
        assert(parents.last().push(c as TraceId).drop_last() =~= parents.last());
        j
    }
}

/// The index at which the nodes of level `depth` begin in breadth-first order.
pub open spec fn level_start(traces: Seq<Seq<TraceId>>, depth: nat) -> nat {
    if depth == 0 {
        0
    } else {
        levels(traces, (depth - 1) as nat).len()
    }
}

/// The levels up to `depth` are the levels above it, and then level `depth`.
pub proof fn lemma_levels_split(traces: Seq<Seq<TraceId>>, depth: nat)
    ensures
        levels(traces, depth).len() == level_start(traces, depth) + level(traces, depth).len(),
        level_start(traces, depth + 1) == levels(traces, depth).len(),
        forall|i: int|
            0 <= i < level(traces, depth).len() ==> levels(traces, depth)[level_start(
                traces,
                depth,
            ) + i] == #[trigger] level(traces, depth)[i],
        depth > 0 ==> forall|i: int|
            0 <= i < level_start(traces, depth) ==> #[trigger] levels(traces, depth)[i] == levels(
                traces,
                (depth - 1) as nat,
            )[i],
{
}

/// A level is never empty: it holds at least the root.
pub proof fn lemma_levels_start_with_root(traces: Seq<Seq<TraceId>>, depth: nat)
    ensures
        levels(traces, depth).len() >= 1,
        levels(traces, depth)[0] == Seq::<TraceId>::empty(),
    decreases depth,
{
    if depth > 0 {
        lemma_levels_start_with_root(traces, (depth - 1) as nat);
    }
}

/// The nodes down to a level are the first of the nodes down to any deeper level.
pub proof fn lemma_levels_prefix(traces: Seq<Seq<TraceId>>, shallow: nat, deep: nat)
    requires
        shallow <= deep,
    ensures
        levels(traces, shallow).len() <= levels(traces, deep).len(),
        levels(traces, deep).take(levels(traces, shallow).len() as int) == levels(traces, shallow),
    decreases deep,
{
    if shallow < deep {
        lemma_levels_prefix(traces, shallow, (deep - 1) as nat);
        let above = levels(traces, (deep - 1) as nat);
        assert(above.take(levels(traces, shallow).len() as int) =~= levels(traces, deep).take(
            levels(traces, shallow).len() as int,
        ));
    } else {
        assert(levels(traces, deep).take(levels(traces, deep).len() as int) =~= levels(
            traces,
            deep,
        ));
    }
}

/// A node of level `depth` is `depth` steps away from the root.
pub proof fn lemma_level_lengths(traces: Seq<Seq<TraceId>>, depth: nat, i: int)
    requires
        0 <= i < level(traces, depth).len(),
    ensures
        level(traces, depth)[i].len() == depth,
    decreases depth,
{
    if depth > 0 {
        let parents = level(traces, (depth - 1) as nat);
        let j = lemma_offspring_parent(traces, parents, i);
        lemma_level_lengths(traces, (depth - 1) as nat, j);
    }
}

/// Among the nodes down to level `deep`, those down to level `shallow` are the ones
/// that are at most `shallow` steps away from the root.
pub proof fn lemma_levels_lengths(traces: Seq<Seq<TraceId>>, shallow: nat, deep: nat, i: int)
    requires
        shallow <= deep,
        0 <= i < levels(traces, deep).len(),
    ensures
        levels(traces, deep)[i].len() <= deep,
        i < levels(traces, shallow).len() <==> levels(traces, deep)[i].len() <= shallow,
    decreases deep,
{
    lemma_levels_split(traces, deep);
    lemma_levels_prefix(traces, shallow, deep);
    if deep == 0 {
    } else if i < level_start(traces, deep) {
        if shallow < deep {
            lemma_levels_lengths(traces, shallow, (deep - 1) as nat, i);
        } else {
            lemma_levels_lengths(traces, (deep - 1) as nat, (deep - 1) as nat, i);
        }
    } else {
        lemma_level_lengths(traces, deep, i - level_start(traces, deep));
        if shallow < deep {
            lemma_levels_prefix(traces, shallow, (deep - 1) as nat);
        }
    }
}

/// The nodes down to the next level are the root and the children of the nodes down to
/// this one.
pub proof fn lemma_levels_len(traces: Seq<Seq<TraceId>>, depth: nat)
    ensures
        levels(traces, depth + 1).len() == 1 + degree_sum(traces, levels(traces, depth)),
    decreases depth,
{
    lemma_offspring_len(traces, level(traces, depth));
    if depth == 0 {
        assert(level(traces, 0).drop_last() =~= Seq::<Path>::empty());
    } else {
        lemma_levels_len(traces, (depth - 1) as nat);
        lemma_degree_sum_concat(traces, levels(traces, (depth - 1) as nat), level(traces, depth));
    }
}

/// The number of a child: with the nodes down to level `depth` numbered in breadth-first
/// order, child `c` of node `i` comes `c` places after one plus the degrees of the nodes
/// before `i`.
pub proof fn lemma_levels_child(traces: Seq<Seq<TraceId>>, depth: nat, i: int, c: TraceId)
    requires
        0 <= i < levels(traces, depth).len(),
        c < degree_at(traces, levels(traces, depth)[i]),
    ensures
        1 + degree_sum(traces, levels(traces, depth).take(i)) + c < levels(
            traces,
            depth + 1,
        ).len(),
        levels(traces, depth + 1)[1 + degree_sum(traces, levels(traces, depth).take(i)) + c]
            == levels(traces, depth)[i].push(c),
    decreases depth,
{
    let here = levels(traces, depth);
    let last = level(traces, depth);
    lemma_levels_split(traces, depth);
    lemma_levels_split(traces, depth + 1);
    lemma_offspring_len(traces, last);
    if depth == 0 {
        assert(here.take(0) =~= Seq::<Path>::empty());
        assert(last.take(0) =~= Seq::<Path>::empty());
        lemma_offspring_child(traces, last, 0, c);
    } else if i < level_start(traces, depth) {
        let above = levels(traces, (depth - 1) as nat);
        lemma_levels_child(traces, (depth - 1) as nat, i, c);
        assert(above.take(i) =~= here.take(i));
    } else {
        let above = levels(traces, (depth - 1) as nat);
        let j = i - level_start(traces, depth);
        assert(here.take(i) =~= above + last.take(j));
        lemma_degree_sum_concat(traces, above, last.take(j));
        lemma_levels_len(traces, (depth - 1) as nat);
        lemma_offspring_child(traces, last, j, c);
    }
}

/// No node occurs twice in a level.
pub proof fn lemma_level_distinct(traces: Seq<Seq<TraceId>>, depth: nat)
    ensures
        level(traces, depth).no_duplicates(),
    decreases depth,
{
    if depth > 0 {
        let parents = level(traces, (depth - 1) as nat);
        lemma_level_distinct(traces, (depth - 1) as nat);
        assert forall|x: int, y: int|
            0 <= x < level(traces, depth).len() && 0 <= y < level(traces, depth).len() && x
                != y implies level(traces, depth)[x] != level(traces, depth)[y] by {
            let jx = lemma_offspring_parent(traces, parents, x);
            let jy = lemma_offspring_parent(traces, parents, y);
        }
    }
}

/// No node occurs twice in breadth-first order.
pub proof fn lemma_levels_distinct(traces: Seq<Seq<TraceId>>, depth: nat)
    ensures
        levels(traces, depth).no_duplicates(),
    decreases depth,
{
    lemma_level_distinct(traces, depth);
    lemma_levels_split(traces, depth);
    if depth > 0 {
        lemma_levels_distinct(traces, (depth - 1) as nat);
        assert forall|x: int, y: int|
            0 <= x < levels(traces, depth).len() && 0 <= y < levels(traces, depth).len() && x
                != y implies levels(traces, depth)[x] != levels(traces, depth)[y] by {
            lemma_levels_lengths(traces, (depth - 1) as nat, depth, x);
            lemma_levels_lengths(traces, (depth - 1) as nat, depth, y);
        }
    }
}

/// Where the levels begin among all the nodes: each level begins at the first child of
/// the first node of the level above, and the nodes before it are those of the levels
/// above.
pub proof fn lemma_level_starts(traces: Seq<Seq<TraceId>>, depth: nat)
    requires
        depth <= height(traces),
    ensures
        level_start(traces, depth) <= level_start(traces, depth + 1) <= nodes(traces).len(),
        level_start(traces, depth + 1) == first_child(traces, level_start(traces, depth) as int),
        nodes(traces).take(level_start(traces, depth + 1) as int) == levels(traces, depth),
{
    let all = nodes(traces);
    lemma_levels_prefix(traces, depth, height(traces));
    lemma_levels_start_with_root(traces, depth);
    if depth == 0 {
        assert(all.take(0) =~= Seq::<Path>::empty());
    } else {
        let above = (depth - 1) as nat;
        lemma_levels_prefix(traces, above, height(traces));
        lemma_levels_prefix(traces, above, depth);
        lemma_levels_len(traces, above);
    }
}

/// The levels are told apart by the length of the paths: the nodes from the start of
/// level `depth` on are at least `depth` steps away from the root, those before the
/// start of the next level at most `depth` steps.
pub proof fn lemma_node_depth(traces: Seq<Seq<TraceId>>, depth: nat, i: int)
    requires
        depth <= height(traces),
        0 <= i < nodes(traces).len(),
    ensures
        nodes(traces)[i].len() <= height(traces),
        i < level_start(traces, depth + 1) <==> nodes(traces)[i].len() <= depth,
        i >= level_start(traces, depth) <==> nodes(traces)[i].len() >= depth,
{
    lemma_levels_lengths(traces, depth, height(traces), i);
    if depth > 0 {
        lemma_levels_lengths(traces, (depth - 1) as nat, height(traces), i);
    }
}

/// The number of a child in breadth-first order: child `c` of node `i` is node
/// `first_child(i) + c`.
pub proof fn lemma_child_number(traces: Seq<Seq<TraceId>>, i: int, c: TraceId)
    requires
        0 <= i < nodes(traces).len(),
        c < degree_at(traces, nodes(traces)[i]),
    ensures
        first_child(traces, i) + c < nodes(traces).len(),
        nodes(traces)[first_child(traces, i) + c] == nodes(traces)[i].push(c),
{
    let all = nodes(traces);
    let depth = all[i].len();
    lemma_degree_within_height(traces, all[i]);
    lemma_levels_lengths(traces, depth, height(traces), i);
    lemma_levels_prefix(traces, depth, height(traces));
    lemma_levels_prefix(traces, depth + 1, height(traces));
    assert(levels(traces, depth).take(i) =~= all.take(i));
    lemma_levels_child(traces, depth, i, c);
}

/// No node has two numbers.
pub proof fn lemma_nodes_distinct(traces: Seq<Seq<TraceId>>)
    ensures
        nodes(traces).no_duplicates(),
{
    lemma_levels_distinct(traces, height(traces));
}

/// The number of the parent: every node but the root is a child of an earlier node, at
/// the place that its last index gives it among that node's children.
pub proof fn lemma_parent_number(traces: Seq<Seq<TraceId>>, i: int) -> (parent: int)
    requires
        0 <= i < nodes(traces).len(),
        nodes(traces)[i].len() > 0,
    ensures
        0 <= parent < i,
        nodes(traces)[parent] == nodes(traces)[i].drop_last(),
        nodes(traces)[i].last() < degree_at(traces, nodes(traces)[parent]),
        i == first_child(traces, parent) + nodes(traces)[i].last(),
{
    let all = nodes(traces);
    let depth = all[i].len();
    let above = (depth - 1) as nat;
    lemma_node_depth(traces, 0, i);
    lemma_node_depth(traces, depth, i);
    lemma_level_starts(traces, depth);
    lemma_level_starts(traces, above);
    lemma_levels_split(traces, depth);
    lemma_levels_split(traces, above);
    let x = i - level_start(traces, depth);
    assert(level(traces, depth)[x] == levels(traces, depth)[i]);
    assert(levels(traces, depth)[i] == all[i]);
    let j = lemma_offspring_parent(traces, level(traces, above), x);
    let parent = level_start(traces, above) + j;
    assert(level(traces, above)[j] == levels(traces, above)[parent]);
    assert(levels(traces, above)[parent] == all[parent]);
    let c = all[i].last();
    lemma_child_number(traces, parent, c);
    assert(all[i].drop_last().push(c) =~= all[i]);
    lemma_nodes_distinct(traces);
    parent
}

/// The children of a later node come after all the children of an earlier one.
pub proof fn lemma_first_child_grows(traces: Seq<Seq<TraceId>>, i: int, j: int)
    requires
        0 <= i < j <= nodes(traces).len(),
    ensures
        first_child(traces, i) + degree_at(traces, nodes(traces)[i]) <= first_child(traces, j),
{
    let all = nodes(traces);
    lemma_degree_sum_take(traces, all, i);
    assert(all.take(j) =~= all.take(i + 1) + all.subrange(i + 1, j));
    lemma_degree_sum_concat(traces, all.take(i + 1), all.subrange(i + 1, j));
}

} // verus!
