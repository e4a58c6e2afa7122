//! The call tree that a set of traces implies, as a mathematical object.
//!
//! A trace is a path of sibling indices from the root. A node is named by its path; the
//! root is the empty path. A node has as many children as the largest index that any
//! trace takes below it asks for, so every index up to that one names a child, whether
//! or not a trace runs through it. The degree array lists the degree of every node,
//! level by level and, within a level, parent by parent in the order of the child index.
use vstd::prelude::*;
use crate::TraceId;

verus! {

/// A node of the call tree: the sibling indices on the way down from the root.
pub type Path = Seq<TraceId>;

/// `trace` passes through the node `path` and goes on to one of its children.
pub open spec fn descends(trace: Seq<TraceId>, path: Path) -> bool {
    path.len() < trace.len() && trace.take(path.len() as int) == path
}

/// The number of children that `trace` asks of the node `path`: one more than the index
/// it takes there, or none if it does not go below that node.
pub open spec fn declared(trace: Seq<TraceId>, path: Path) -> nat {
    if descends(trace, path) {
        (trace[path.len() as int] + 1) as nat
    } else {
        0
    }
}

/// The degree of the node `path`: the largest number of children that any trace asks of it.
pub open spec fn degree_at(traces: Seq<Seq<TraceId>>, path: Path) -> nat
    decreases traces.len(),
{
    if traces.len() == 0 {
        0
    } else {
        let before = degree_at(traces.drop_last(), path);
        let asked = declared(traces.last(), path);
        if asked > before {
            asked
        } else {
            before
        }
    }
}

/// The length of the longest trace; zero where there is none.
pub open spec fn height(traces: Seq<Seq<TraceId>>) -> nat
    decreases traces.len(),
{
    if traces.len() == 0 {
        0
    } else {
        let before = height(traces.drop_last());
        if traces.last().len() > before {
            traces.last().len()
        } else {
            before
        }
    }
}

/// The first `count` children of `parent`, in the order of their index.
pub open spec fn children(parent: Path, count: nat) -> Seq<Path> {
    Seq::new(count, |index: int| parent.push(index as TraceId))
}

/// The children of all of `parents`, parent by parent.
pub open spec fn offspring(traces: Seq<Seq<TraceId>>, parents: Seq<Path>) -> Seq<Path>
    decreases parents.len(),
{
    if parents.len() == 0 {
        Seq::empty()
    } else {
        offspring(traces, parents.drop_last()) + children(
            parents.last(),
            degree_at(traces, parents.last()),
        )
    }
}

/// The nodes at distance `depth` from the root, in breadth-first order.
pub open spec fn level(traces: Seq<Seq<TraceId>>, depth: nat) -> Seq<Path>
    decreases depth,
{
    if depth == 0 {
        seq![Seq::empty()]
    } else {
        offspring(traces, level(traces, (depth - 1) as nat))
    }
}

/// The nodes at distance `depth` or less from the root, in breadth-first order.
pub open spec fn levels(traces: Seq<Seq<TraceId>>, depth: nat) -> Seq<Path>
    decreases depth,
{
    if depth == 0 {
        level(traces, 0)
    } else {
        levels(traces, (depth - 1) as nat) + level(traces, depth)
    }
}

/// All nodes of the tree in breadth-first order. The deepest level is the one that the
/// longest trace reaches.
pub open spec fn nodes(traces: Seq<Seq<TraceId>>) -> Seq<Path> {
    levels(traces, height(traces))
}

/// The degree array of the tree: entry `i` is the degree of the `i`-th node in
/// breadth-first order, the root first.
pub open spec fn degree_array(traces: Seq<Seq<TraceId>>) -> Seq<nat> {
    nodes(traces).map_values(|path: Path| degree_at(traces, path))
}

/// The sum of the degrees of `paths`.
pub open spec fn degree_sum(traces: Seq<Seq<TraceId>>, paths: Seq<Path>) -> nat
    decreases paths.len(),
{
    if paths.len() == 0 {
        0
    } else {
        degree_sum(traces, paths.drop_last()) + degree_at(traces, paths.last())
    }
}

/// The index of a node's first child in breadth-first order: one for the root, plus the
/// degrees of all the nodes before it.
pub open spec fn first_child(traces: Seq<Seq<TraceId>>, index: int) -> nat {
    1 + degree_sum(traces, nodes(traces).take(index))
}

/// The tree is small enough for its node numbers to be held in a `u32`.
pub open spec fn fits(traces: Seq<Seq<TraceId>>) -> bool {
    nodes(traces).len() <= u32::MAX
}

/// The numbers of `degrees` as mathematical integers.
pub open spec fn widen(degrees: Seq<crate::Degree>) -> Seq<nat> {
    degrees.map_values(|degree: crate::Degree| degree as nat)
}

} // verus!
