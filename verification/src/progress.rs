//! The state of the level-by-level computation, and why every step keeps it in order.
//!
//! The computation holds three arrays. `degrees` and `offsets` have one entry for each
//! node of the levels reached so far, in breadth-first order. `position` has one entry
//! for each trace: the number of the node that the trace passes at the level at hand.
use vstd::prelude::*;
use crate::shape::lemma_child_number;
use crate::shape::lemma_degree_covers;
use crate::shape::lemma_degree_step;
use crate::shape::lemma_degree_within_height;
use crate::shape::lemma_level_starts;
use crate::shape::lemma_levels_start_with_root;
use crate::shape::lemma_node_depth;
use crate::shape::lemma_nodes_distinct;
use crate::shape::level_start;
use crate::tree::degree_array;
use crate::tree::degree_at;
use crate::tree::degree_sum;
use crate::tree::descends;
use crate::tree::first_child;
use crate::tree::fits;
use crate::tree::height;
use crate::tree::nodes;
use crate::tree::widen;
use crate::tree::Path;
use crate::Degree;
use crate::TraceId;

verus! {

/// The sum of `degrees`.
pub open spec fn total(degrees: Seq<Degree>) -> nat
    decreases degrees.len(),
{
    if degrees.len() == 0 {
        0
    } else {
        total(degrees.drop_last()) + degrees.last() as nat
    }
}

/// The sums of two runs of degrees add up.
pub proof fn lemma_total_concat(a: Seq<Degree>, b: Seq<Degree>)
    ensures
        total(a + b) == total(a) + total(b),
    decreases b.len(),
{
    if b.len() == 0 {
        assert(a + b =~= a);
    } else {
        assert((a + b).drop_last() =~= a + b.drop_last());
        lemma_total_concat(a, b.drop_last());
    }
}

/// The sum of the first entries grows by one entry at a time and stays within the sum
/// of all.
pub proof fn lemma_total_take(degrees: Seq<Degree>, i: int)
    requires
        0 <= i < degrees.len(),
    ensures
        total(degrees.take(i + 1)) == total(degrees.take(i)) + degrees[i],
        total(degrees.take(i + 1)) <= total(degrees),
{
    assert(degrees.take(i + 1).drop_last() =~= degrees.take(i));
    assert(degrees =~= degrees.take(i + 1) + degrees.skip(i + 1));
    lemma_total_concat(degrees.take(i + 1), degrees.skip(i + 1));
}

/// Where the first `count` entries are the degrees of the first `count` paths, their sums
/// agree.
pub proof fn lemma_total_matches(
    traces: Seq<Seq<TraceId>>,
    degrees: Seq<Degree>,
    paths: Seq<Path>,
    count: int,
)
    requires
        0 <= count <= degrees.len(),
        count <= paths.len(),
        forall|j: int| 0 <= j < count ==> #[trigger] degrees[j] == degree_at(traces, paths[j]),
    ensures
        total(degrees.take(count)) == degree_sum(traces, paths.take(count)),
    decreases count,
{
    if count > 0 {
        lemma_total_matches(traces, degrees, paths, count - 1);
        assert(degrees.take(count).drop_last() =~= degrees.take(count - 1));
        assert(paths.take(count).drop_last() =~= paths.take(count - 1));
    }
}

/// `position` is the number of the node that trace `k` passes at `depth`.
pub open spec fn located(traces: Seq<Seq<TraceId>>, k: int, position: usize, depth: nat) -> bool {
    &&& position < nodes(traces).len()
    &&& nodes(traces)[position as int] == traces[k].take(depth as int)
}

/// The level above `depth`; the root's level has none above it and stands for itself.
pub open spec fn prior(depth: nat) -> nat {
    if depth == 0 {
        0
    } else {
        (depth - 1) as nat
    }
}

/// The state before level `depth` is visited. The arrays reach down to that level. The
/// degrees of the levels above are the final ones, those of level `depth` are still zero,
/// and the offsets are the running sums of the degrees, starting at one. Each trace that
/// reaches the level stands at the node that it passes one level above.
pub open spec fn level_ready(
    traces: Seq<Seq<TraceId>>,
    depth: nat,
    position: Seq<usize>,
    degrees: Seq<Degree>,
    offsets: Seq<u32>,
) -> bool {
    &&& depth <= height(traces)
    &&& degrees.len() == level_start(traces, depth + 1)
    &&& offsets.len() == degrees.len()
    &&& degrees.len() <= u32::MAX
    &&& position.len() == traces.len()
    &&& forall|i: int|
        0 <= i < level_start(traces, depth) ==> #[trigger] degrees[i] == degree_at(
            traces,
            nodes(traces)[i],
        )
    &&& forall|i: int| level_start(traces, depth) <= i < degrees.len() ==> #[trigger] degrees[i] == 0
    &&& forall|i: int| 0 <= i < offsets.len() ==> #[trigger] offsets[i] == 1 + total(degrees.take(i))
    &&& forall|k: int|
        0 <= k < traces.len() && traces[k].len() >= depth ==> located(
            traces,
            k,
            #[trigger] position[k],
            prior(depth),
        )
}

/// The state while level `depth` is visited, with the first `done` traces seen. The
/// degrees of level `depth` are those that the traces seen so far ask for. The offsets
/// of the levels above are the numbers of the first children. A trace that goes below
/// the level stands at its node of this level once seen, and one level above until then.
pub open spec fn descending(
    traces: Seq<Seq<TraceId>>,
    depth: nat,
    done: int,
    position: Seq<usize>,
    degrees: Seq<Degree>,
    offsets: Seq<u32>,
) -> bool {
    &&& depth < height(traces)
    &&& 0 <= done <= traces.len()
    &&& degrees.len() == level_start(traces, depth + 1)
    &&& offsets.len() == degrees.len()
    &&& 1 <= degrees.len() <= u32::MAX
    &&& position.len() == traces.len()
    &&& offsets[0] == 1
    &&& forall|i: int|
        0 <= i < level_start(traces, depth) ==> #[trigger] degrees[i] == degree_at(
            traces,
            nodes(traces)[i],
        )
    &&& forall|i: int|
        level_start(traces, depth) <= i < degrees.len() ==> #[trigger] degrees[i] == degree_at(
            traces.take(done),
            nodes(traces)[i],
        )
    &&& forall|i: int|
        0 <= i < level_start(traces, depth) ==> #[trigger] offsets[i] == first_child(traces, i)
    &&& forall|k: int|
        0 <= k < done && traces[k].len() > depth ==> located(
            traces,
            k,
            #[trigger] position[k],
            depth,
        )
    &&& forall|k: int|
        done <= k < traces.len() && traces[k].len() > depth ==> located(
            traces,
            k,
            #[trigger] position[k],
            prior(depth),
        )
}

/// The larger of a degree and what a trace asks for.
pub open spec fn raised(degree: Degree, asked: Degree) -> Degree {
    if degree < asked {
        asked
    } else {
        degree
    }
}

/// At the outset every trace stands at the root, which has no children yet.
pub proof fn lemma_start(
    traces: Seq<Seq<TraceId>>,
    position: Seq<usize>,
    degrees: Seq<Degree>,
    offsets: Seq<u32>,
)
    requires
        position.len() == traces.len(),
        forall|k: int| 0 <= k < position.len() ==> position[k] == 0,
        degrees == seq![0u32],
        offsets == seq![1u32],
    ensures
        level_ready(traces, 0, position, degrees, offsets),
{
    lemma_levels_start_with_root(traces, height(traces));
    assert(degrees.take(0) =~= Seq::<Degree>::empty());
    assert forall|k: int| 0 <= k < traces.len() implies located(
        traces,
        k,
        #[trigger] position[k],
        0,
    ) by {
        assert(traces[k].take(0) =~= Seq::<TraceId>::empty());
    }
}

/// A level that is ready can be visited.
pub proof fn lemma_enter(
    traces: Seq<Seq<TraceId>>,
    depth: nat,
    position: Seq<usize>,
    degrees: Seq<Degree>,
    offsets: Seq<u32>,
)
    requires
        level_ready(traces, depth, position, degrees, offsets),
        depth < height(traces),
    ensures
        descending(traces, depth, 0, position, degrees, offsets),
{
    lemma_level_starts(traces, depth);
    lemma_levels_start_with_root(traces, depth);
    assert(degrees.take(0) =~= Seq::<Degree>::empty());
    assert(traces.take(0).len() == 0);
    assert forall|i: int| 0 <= i < level_start(traces, depth) implies #[trigger] offsets[i]
        == first_child(traces, i) by {
        lemma_total_matches(traces, degrees, nodes(traces), i);
    }
}

/// A trace that ends above the level changes nothing at it.
pub proof fn lemma_skip(
    traces: Seq<Seq<TraceId>>,
    depth: nat,
    done: int,
    position: Seq<usize>,
    degrees: Seq<Degree>,
    offsets: Seq<u32>,
)
    requires
        descending(traces, depth, done, position, degrees, offsets),
        done < traces.len(),
        traces[done].len() <= depth,
    ensures
        descending(traces, depth, done + 1, position, degrees, offsets),
{
    lemma_level_starts(traces, depth);
    assert forall|i: int| level_start(traces, depth) <= i < degrees.len() implies #[trigger] degrees[i]
        == degree_at(traces.take(done + 1), nodes(traces)[i]) by {
        lemma_node_depth(traces, depth, i);
        lemma_degree_step(traces, done, nodes(traces)[i]);
    }
}

/// A trace that goes below the level moves from its node one level above to the child that
/// it names there, whose number is the parent's offset plus the index of the child.
pub proof fn lemma_step_down(
    traces: Seq<Seq<TraceId>>,
    depth: nat,
    done: int,
    position: Seq<usize>,
    degrees: Seq<Degree>,
    offsets: Seq<u32>,
)
    requires
        descending(traces, depth, done, position, degrees, offsets),
        done < traces.len(),
        traces[done].len() > depth,
    ensures
        depth == 0 ==> located(traces, done, position[done], depth),
        depth > 0 ==> position[done] < offsets.len(),
        depth > 0 ==> offsets[position[done] as int] + traces[done][depth - 1] < degrees.len(),
        depth > 0 ==> located(
            traces,
            done,
            (offsets[position[done] as int] + traces[done][depth - 1]) as usize,
            depth,
        ),
{
    if depth > 0 {
        let trace = traces[done];
        let parent = position[done] as int;
        let above = (depth - 1) as nat;
        let c = trace[depth - 1];
        assert(located(traces, done, position[done], above));
        lemma_node_depth(traces, above, parent);
        lemma_level_starts(traces, depth);
        assert(descends(trace, trace.take(above as int)));
        lemma_degree_covers(traces, done, trace.take(above as int));
        lemma_child_number(traces, parent, c);
        assert(trace.take(above as int).push(c) =~= trace.take(depth as int));
        lemma_node_depth(traces, depth, first_child(traces, parent) + c);
    }
}

/// Visiting a trace at its node of the level raises the node's degree to what the trace
/// asks for. An index so large that the degree cannot be held means a tree that does not
/// fit.
pub proof fn lemma_visit(
    traces: Seq<Seq<TraceId>>,
    depth: nat,
    done: int,
    position: Seq<usize>,
    degrees: Seq<Degree>,
    offsets: Seq<u32>,
    node: usize,
)
    requires
        descending(traces, depth, done, position, degrees, offsets),
        done < traces.len(),
        traces[done].len() > depth,
        located(traces, done, node, depth),
    ensures
        node < degrees.len(),
        traces[done][depth as int] == u32::MAX ==> !fits(traces),
        traces[done][depth as int] < u32::MAX ==> descending(
            traces,
            depth,
            done + 1,
            position.update(done, node),
            degrees.update(
                node as int,
                raised(degrees[node as int], (traces[done][depth as int] + 1) as Degree),
            ),
            offsets,
        ),
{
    let trace = traces[done];
    let all = nodes(traces);
    let here = all[node as int];
    let entry = trace[depth as int];
    lemma_node_depth(traces, depth, node as int);
    lemma_level_starts(traces, depth);
    assert(descends(trace, here));
    lemma_degree_covers(traces, done, here);
    if entry == u32::MAX {
        lemma_child_number(traces, node as int, u32::MAX);
    } else {
        let after = degrees.update(node as int, raised(degrees[node as int], (entry + 1) as Degree));
        lemma_nodes_distinct(traces);
        assert forall|i: int| level_start(traces, depth) <= i < after.len() implies #[trigger] after[i]
            == degree_at(traces.take(done + 1), all[i]) by {
            lemma_node_depth(traces, depth, i);
            lemma_degree_step(traces, done, all[i]);
            if i != node {
                assert(all[i] != here);
                assert(!descends(trace, all[i]));
            }
        }
    }
}

/// Once every trace has been seen at a level, the degrees of the level are final, and
/// the nodes down to the next level are the root and the children counted so far.
pub proof fn lemma_level_done(
    traces: Seq<Seq<TraceId>>,
    depth: nat,
    position: Seq<usize>,
    degrees: Seq<Degree>,
    offsets: Seq<u32>,
)
    requires
        descending(traces, depth, traces.len() as int, position, degrees, offsets),
    ensures
        degrees.len() <= 1 + total(degrees),
        1 + total(degrees) == level_start(traces, depth + 2),
        forall|i: int|
            0 <= i < degrees.len() ==> #[trigger] degrees[i] == degree_at(traces, nodes(traces)[i]),
        1 + total(degrees) > u32::MAX ==> !fits(traces),
{
    assert(traces.take(traces.len() as int) =~= traces);
    lemma_level_starts(traces, depth + 1);
    assert(degrees.take(degrees.len() as int) =~= degrees);
    lemma_total_matches(traces, degrees, nodes(traces), degrees.len() as int);
}

/// With a zero for every node of the next level and the running sums as offsets, the
/// next level is ready.
pub proof fn lemma_level_grown(
    traces: Seq<Seq<TraceId>>,
    depth: nat,
    position: Seq<usize>,
    before: Seq<Degree>,
    earlier: Seq<u32>,
    degrees: Seq<Degree>,
    offsets: Seq<u32>,
)
    requires
        descending(traces, depth, traces.len() as int, position, before, earlier),
        degrees.len() == 1 + total(before),
        degrees.len() <= u32::MAX,
        before.len() <= degrees.len(),
        degrees.take(before.len() as int) == before,
        forall|i: int| before.len() <= i < degrees.len() ==> #[trigger] degrees[i] == 0,
        offsets.len() == degrees.len(),
        forall|i: int| 0 <= i < offsets.len() ==> #[trigger] offsets[i] == 1 + total(degrees.take(i)),
    ensures
        level_ready(traces, depth + 1, position, degrees, offsets),
{
    lemma_level_done(traces, depth, position, before, earlier);
    assert forall|i: int| 0 <= i < level_start(traces, depth + 1) implies #[trigger] degrees[i]
        == degree_at(traces, nodes(traces)[i]) by {
        assert(degrees[i] == degrees.take(before.len() as int)[i]);
    }
    assert forall|k: int| 0 <= k < traces.len() && traces[k].len() >= depth + 1 implies located(
        traces,
        k,
        #[trigger] position[k],
        prior(depth + 1),
    ) by {
        assert(located(traces, k, position[k], depth));
    }
}

/// When the deepest level is ready, the degrees are the degree array of the tree.
pub proof fn lemma_finish(
    traces: Seq<Seq<TraceId>>,
    position: Seq<usize>,
    degrees: Seq<Degree>,
    offsets: Seq<u32>,
)
    requires
        level_ready(traces, height(traces), position, degrees, offsets),
    ensures
        fits(traces),
        widen(degrees) == degree_array(traces),
{
    let all = nodes(traces);
    lemma_level_starts(traces, height(traces));
    assert(all.take(all.len() as int) =~= all);
    assert(degrees.len() == all.len());
    assert forall|i: int| 0 <= i < degrees.len() implies #[trigger] degrees[i] as nat == degree_at(
        traces,
        all[i],
    ) by {
        if i >= level_start(traces, height(traces)) {
            lemma_node_depth(traces, height(traces), i);
            if degree_at(traces, all[i]) > 0 {
                lemma_degree_within_height(traces, all[i]);
            }
        }
    }
    assert(widen(degrees) =~= degree_array(traces));
}

} // verus!
