//! What follows from the definition of the degree array, whatever the traces.
use vstd::prelude::*;
use vstd::seq_lib::to_multiset_contains;
use crate::reconstruct::answers;
use crate::shape::lemma_child_number;
use crate::shape::lemma_degree_covers;
use crate::shape::lemma_degree_witness;
use crate::shape::lemma_height_covers;
use crate::shape::lemma_first_child_grows;
use crate::shape::lemma_height_witness;
use crate::shape::lemma_levels_start_with_root;
use crate::shape::lemma_node_depth;
use crate::shape::lemma_nodes_distinct;
use crate::shape::lemma_parent_number;
use crate::tree::degree_array;
use crate::tree::degree_at;
use crate::tree::first_child;
use crate::tree::fits;
use crate::tree::height;
use crate::tree::level;
use crate::tree::levels;
use crate::tree::nodes;
use crate::tree::offspring;
use crate::tree::widen;
use crate::tree::Path;
use crate::Degree;
use crate::TraceId;

verus! {

/// Every trace of `a` is also a trace of `b`.
pub open spec fn included(a: Seq<Seq<TraceId>>, b: Seq<Seq<TraceId>>) -> bool {
    forall|i: int| 0 <= i < a.len() ==> b.contains(#[trigger] a[i])
}

/// A collection whose traces all occur, as often, in another one is included in it.
pub proof fn lemma_subset_included(a: Seq<Seq<TraceId>>, b: Seq<Seq<TraceId>>)
    requires
        a.to_multiset().subset_of(b.to_multiset()),
    ensures
        included(a, b),
{
    assert forall|i: int| 0 <= i < a.len() implies b.contains(#[trigger] a[i]) by {
        to_multiset_contains(a, a[i]);
        to_multiset_contains(b, a[i]);
        assert(a.contains(a[i]));
    }
}

/// A node has at least as many children in the tree of a collection of traces as in the
/// tree of any collection included in it.
pub proof fn lemma_degree_grows(a: Seq<Seq<TraceId>>, b: Seq<Seq<TraceId>>, path: Path)
    requires
        included(a, b),
    ensures
        degree_at(a, path) <= degree_at(b, path),
{
    if degree_at(a, path) > 0 {
        let i = lemma_degree_witness(a, path);
        assert(b.contains(a[i]));
        let j = choose|j: int| 0 <= j < b.len() && b[j] == a[i];
        lemma_degree_covers(b, j, path);
    }
}

/// The tree of a collection of traces is at least as deep as the tree of any collection
/// included in it.
pub proof fn lemma_height_grows(a: Seq<Seq<TraceId>>, b: Seq<Seq<TraceId>>)
    requires
        included(a, b),
    ensures
        height(a) <= height(b),
{
    if height(a) > 0 {
        let i = lemma_height_witness(a);
        assert(b.contains(a[i]));
        let j = choose|j: int| 0 <= j < b.len() && b[j] == a[i];
        lemma_height_covers(b, j);
    }
}

/// Trees with the same degrees have the same children.
proof fn lemma_offspring_agree(a: Seq<Seq<TraceId>>, b: Seq<Seq<TraceId>>, parents: Seq<Path>)
    requires
        forall|path: Path| #[trigger] degree_at(a, path) == degree_at(b, path),
    ensures
        offspring(a, parents) == offspring(b, parents),
    decreases parents.len(),
{
    if parents.len() > 0 {
        lemma_offspring_agree(a, b, parents.drop_last());
    }
}

/// Trees with the same degrees have the same nodes, level by level.
proof fn lemma_levels_agree(a: Seq<Seq<TraceId>>, b: Seq<Seq<TraceId>>, depth: nat)
    requires
        forall|path: Path| #[trigger] degree_at(a, path) == degree_at(b, path),
    ensures
        level(a, depth) == level(b, depth),
        levels(a, depth) == levels(b, depth),
    decreases depth,
{
    if depth > 0 {
        lemma_levels_agree(a, b, (depth - 1) as nat);
        lemma_offspring_agree(a, b, level(a, (depth - 1) as nat));
    }
}

/// The degree array depends on which traces there are, not on their order nor on how
/// often each occurs.
pub proof fn lemma_same_traces_same_tree(a: Seq<Seq<TraceId>>, b: Seq<Seq<TraceId>>)
    requires
        included(a, b),
        included(b, a),
    ensures
        nodes(a) == nodes(b),
        degree_array(a) == degree_array(b),
        fits(a) == fits(b),
{
    lemma_height_grows(a, b);
    lemma_height_grows(b, a);
    assert forall|path: Path| #[trigger] degree_at(a, path) == degree_at(b, path) by {
        lemma_degree_grows(a, b, path);
        lemma_degree_grows(b, a, path);
    }
    lemma_levels_agree(a, b, height(a));
    assert(degree_array(a) =~= degree_array(b));
}

/// Order independence: the degree array of a permutation of the traces is the degree
/// array of the traces, and the one tree fits exactly when the other does.
pub proof fn lemma_order_independent(a: Seq<Seq<TraceId>>, b: Seq<Seq<TraceId>>)
    requires
        a.to_multiset() == b.to_multiset(),
    ensures
        degree_array(a) == degree_array(b),
        fits(a) == fits(b),
{
    lemma_subset_included(a, b);
    lemma_subset_included(b, a);
    lemma_same_traces_same_tree(a, b);
}

/// Monotonicity, node by node: with more traces no node has fewer children. Here `b`
/// holds the traces of `a` and possibly others, and the node is named by its path.
pub proof fn lemma_degrees_never_shrink(a: Seq<Seq<TraceId>>, b: Seq<Seq<TraceId>>, path: Path)
    requires
        a.to_multiset().subset_of(b.to_multiset()),
    ensures
        degree_at(a, path) <= degree_at(b, path),
{
    lemma_subset_included(a, b);
    lemma_degree_grows(a, b, path);
}

/// A node of the tree of `a` is a node of the tree of any collection that includes `a`.
proof fn lemma_node_survives(a: Seq<Seq<TraceId>>, b: Seq<Seq<TraceId>>, i: int) -> (j: int)
    requires
        included(a, b),
        0 <= i < nodes(a).len(),
    ensures
        0 <= j < nodes(b).len(),
        nodes(b)[j] == nodes(a)[i],
    decreases nodes(a)[i].len(),
{
    let path = nodes(a)[i];
    if path.len() == 0 {
        lemma_levels_start_with_root(b, height(b));
        assert(path =~= Seq::<TraceId>::empty());
        0
    } else {
        let parent = lemma_parent_number(a, i);
        let moved = lemma_node_survives(a, b, parent);
        lemma_degree_grows(a, b, nodes(a)[parent]);
        lemma_child_number(b, moved, path.last());
        assert(path.drop_last().push(path.last()) =~= path);
        first_child(b, moved) + path.last()
    }
}

/// Two nodes of the tree of `a` stand in the same order in the tree of any collection
/// that includes `a`.
proof fn lemma_order_survives(
    a: Seq<Seq<TraceId>>,
    b: Seq<Seq<TraceId>>,
    i1: int,
    i2: int,
    j1: int,
    j2: int,
)
    requires
        included(a, b),
        0 <= i1 < i2 < nodes(a).len(),
        0 <= j1 < nodes(b).len(),
        0 <= j2 < nodes(b).len(),
        nodes(b)[j1] == nodes(a)[i1],
        nodes(b)[j2] == nodes(a)[i2],
    ensures
        j1 < j2,
    decreases nodes(a)[i2].len(),
{
    let first = nodes(a)[i1];
    let second = nodes(a)[i2];
    lemma_node_depth(a, 0, i1);
    lemma_node_depth(a, first.len(), i1);
    lemma_node_depth(a, first.len(), i2);
    lemma_node_depth(b, 0, j2);
    lemma_node_depth(b, second.len(), j1);
    lemma_node_depth(b, second.len(), j2);
    lemma_nodes_distinct(a);
    lemma_nodes_distinct(b);
    if first.len() == second.len() {
        if first.len() == 0 {
            assert(first =~= second);
        } else {
            let p1 = lemma_parent_number(a, i1);
            let p2 = lemma_parent_number(a, i2);
            let q1 = lemma_parent_number(b, j1);
            let q2 = lemma_parent_number(b, j2);
            if p1 < p2 {
                lemma_order_survives(a, b, p1, p2, q1, q2);
                lemma_first_child_grows(b, q1, q2);
            } else if p2 < p1 {
                lemma_first_child_grows(a, p2, p1);
            }
        }
    }
}

/// A node of the tree of `a` has, in the tree of any collection that includes `a`, a
/// number that is at least as large.
proof fn lemma_number_grows(a: Seq<Seq<TraceId>>, b: Seq<Seq<TraceId>>, i: int) -> (j: int)
    requires
        included(a, b),
        0 <= i < nodes(a).len(),
    ensures
        i <= j < nodes(b).len(),
        nodes(b)[j] == nodes(a)[i],
    decreases i,
{
    let j = lemma_node_survives(a, b, i);
    if i > 0 {
        let before = lemma_number_grows(a, b, i - 1);
        lemma_order_survives(a, b, i - 1, i, before, j);
    }
    j
}

/// Monotonicity, entry by entry: with more traces every node is still there, under a
/// number that is no smaller, and with no fewer children. So every entry of the smaller
/// array is matched by an entry of the larger one, at the same index or further right,
/// that is at least as large. Here `b` holds the traces of `a` and possibly others, and
/// the result is the index in the array of `b`.
pub proof fn lemma_entries_never_shrink(a: Seq<Seq<TraceId>>, b: Seq<Seq<TraceId>>, i: int) -> (j:
    int)
    requires
        a.to_multiset().subset_of(b.to_multiset()),
        0 <= i < degree_array(a).len(),
    ensures
        i <= j < degree_array(b).len(),
        nodes(b)[j] == nodes(a)[i],
        degree_array(a)[i] <= degree_array(b)[j],
{
    lemma_subset_included(a, b);
    let j = lemma_number_grows(a, b, i);
    lemma_degree_grows(a, b, nodes(a)[i]);
    j
}

/// Monotonicity at one index: with more traces an entry of the degree array does not
/// get smaller, provided that the index numbers the same node in both trees. Further
/// traces can move a node to a later index; where they have, the entries at one index
/// belong to different nodes and compare either way.
pub proof fn lemma_entry_never_shrinks_in_place(
    a: Seq<Seq<TraceId>>,
    b: Seq<Seq<TraceId>>,
    i: int,
)
    requires
        a.to_multiset().subset_of(b.to_multiset()),
        0 <= i < degree_array(a).len(),
        i < degree_array(b).len(),
        nodes(a)[i] == nodes(b)[i],
    ensures
        degree_array(a)[i] <= degree_array(b)[i],
{
    lemma_degrees_never_shrink(a, b, nodes(a)[i]);
}

/// With more traces the tree has no fewer nodes: the array gets no shorter, and a tree
/// that fits still fits with fewer traces.
pub proof fn lemma_size_never_shrinks(a: Seq<Seq<TraceId>>, b: Seq<Seq<TraceId>>)
    requires
        a.to_multiset().subset_of(b.to_multiset()),
    ensures
        degree_array(a).len() <= degree_array(b).len(),
        fits(b) ==> fits(a),
{
    lemma_subset_included(a, b);
    lemma_levels_start_with_root(a, height(a));
    let j = lemma_number_grows(a, b, nodes(a).len() - 1);
}

/// Traces that do not leave the root imply the root alone: where every trace is empty,
/// and so where there is no trace at all, the degree array is `[0]`.
pub proof fn lemma_root_alone(traces: Seq<Seq<TraceId>>)
    requires
        forall|i: int| 0 <= i < traces.len() ==> (#[trigger] traces[i]).len() == 0,
    ensures
        degree_array(traces) == seq![0nat],
        fits(traces),
{
    let root = Seq::<TraceId>::empty();
    if height(traces) > 0 {
        let i = lemma_height_witness(traces);
    }
    if degree_at(traces, root) > 0 {
        let i = lemma_degree_witness(traces, root);
    }
    assert(degree_array(traces) =~= seq![0nat]);
}

/// An empty trace contributes nothing: the degree array with it is the degree array
/// without it.
pub proof fn lemma_empty_trace_adds_nothing(traces: Seq<Seq<TraceId>>)
    ensures
        degree_array(traces.push(Seq::empty())) == degree_array(traces),
        fits(traces.push(Seq::empty())) == fits(traces),
{
    let more = traces.push(Seq::empty());
    assert(more.drop_last() =~= traces);
    assert forall|path: Path| #[trigger] degree_at(more, path) == degree_at(traces, path) by {}
    lemma_levels_agree(more, traces, height(traces));
    assert(degree_array(more) =~= degree_array(traces));
}

/// Determinism of the array: the traces fix the degree array. Two arrays that both are
/// the degree array of the same traces are equal, entry by entry.
pub proof fn lemma_array_is_unique(
    traces: Seq<Seq<TraceId>>,
    first: Seq<Degree>,
    second: Seq<Degree>,
)
    requires
        widen(first) == degree_array(traces),
        widen(second) == degree_array(traces),
    ensures
        first == second,
{
    assert(first.len() == widen(first).len());
    assert(second.len() == widen(second).len());
    assert forall|i: int| 0 <= i < first.len() implies first[i] == second[i] by {
        assert(widen(first)[i] == first[i] as nat);
        assert(widen(second)[i] == second[i] as nat);
    }
    assert(first =~= second);
}

/// Determinism: the same traces have the same answer every time. Two results that both
/// answer the same traces are both nothing, or both an array with the same entries.
pub proof fn lemma_answer_is_unique(
    traces: Seq<Seq<TraceId>>,
    first: Option<Vec<Degree>>,
    second: Option<Vec<Degree>>,
)
    requires
        answers(traces, first),
        answers(traces, second),
    ensures
        first is Some <==> second is Some,
        first is Some ==> first.unwrap()@ == second.unwrap()@,
{
    if first is Some {
        lemma_array_is_unique(traces, first.unwrap()@, second.unwrap()@);
    }
}

} // verus!
