//! The degree array of a session's call tree, computed level by level over flat arrays.
use vstd::prelude::*;
use crate::progress::descending;
use crate::progress::lemma_enter;
use crate::progress::lemma_finish;
use crate::progress::lemma_level_done;
use crate::progress::lemma_level_grown;
use crate::progress::lemma_skip;
use crate::progress::lemma_start;
use crate::progress::lemma_step_down;
use crate::progress::lemma_total_take;
use crate::progress::lemma_visit;
use crate::progress::level_ready;
use crate::progress::total;
use crate::tree::degree_array;
use crate::tree::fits;
use crate::tree::height;
use crate::tree::widen;
use crate::Degree;
use crate::TraceId;

verus! {

/// The traces that `paths` holds.
pub open spec fn traces_of(paths: Seq<Vec<TraceId>>) -> Seq<Seq<TraceId>> {
    paths.map_values(|path: Vec<TraceId>| path@)
}

/// `result` is the answer for `traces`: the degree array of their tree, or nothing
/// where the tree has more nodes than a `u32` can number.
pub open spec fn answers(traces: Seq<Seq<TraceId>>, result: Option<Vec<Degree>>) -> bool {
    match result {
        Some(degrees) => fits(traces) && widen(degrees@) == degree_array(traces),
        None => !fits(traces),
    }
}

/// The length of the longest path, zero where there is none.
fn longest(paths: &Vec<Vec<TraceId>>) -> (length: usize)
    ensures
        length == height(traces_of(paths@)),
{
    let ghost traces = traces_of(paths@);
    let mut length: usize = 0;
    let mut index: usize = 0;
    while index < paths.len()
        invariant
            traces == traces_of(paths@),
            index <= paths.len(),
            length == height(traces.take(index as int)),
        decreases paths.len() - index,
    {
        proof {
            assert(traces.take(index + 1).drop_last() =~= traces.take(index as int));
        }
        if paths[index].len() > length {
            length = paths[index].len();
        }
        index += 1;
    }
    proof {
        assert(traces.take(paths.len() as int) =~= traces);
    }
    length
}

/// The sum of `degrees`.
fn tally(degrees: &Vec<Degree>) -> (sum: u64)
    requires
        degrees.len() <= u32::MAX,
    ensures
        sum == total(degrees@),
{
    let mut sum: u64 = 0;
    let mut index: usize = 0;
    while index < degrees.len()
        invariant
            index <= degrees.len() <= u32::MAX,
            sum == total(degrees@.take(index as int)),
            sum <= index * 0xffff_ffff,
        decreases degrees.len() - index,
    {
        proof {
            lemma_total_take(degrees@, index as int);
        }
        sum = sum + degrees[index] as u64;
        index += 1;
    }
    proof {
        assert(degrees@.take(degrees.len() as int) =~= degrees@);
    }
    sum
}

/// Visits level `depth`: moves every trace that goes below the level to its node of the
/// level and raises the degree of that node to what the trace asks for. Gives up, with
/// `false`, on an index that would need a degree beyond `u32`.
fn descend(
    paths: &Vec<Vec<TraceId>>,
    depth: usize,
    position: &mut Vec<usize>,
    degrees: &mut Vec<Degree>,
    offsets: &Vec<u32>,
) -> (fitted: bool)
    requires
        depth < height(traces_of(paths@)),
        level_ready(traces_of(paths@), depth as nat, old(position)@, old(degrees)@, offsets@),
    ensures
        fitted ==> descending(
            traces_of(paths@),
            depth as nat,
            paths.len() as int,
            final(position)@,
            final(degrees)@,
            offsets@,
        ),
        !fitted ==> !fits(traces_of(paths@)),
{
    let ghost traces = traces_of(paths@);
    proof {
        lemma_enter(traces, depth as nat, position@, degrees@, offsets@);
    }
    let mut index: usize = 0;
    while index < paths.len()
        invariant
            traces == traces_of(paths@),
            index <= paths.len(),
            descending(traces, depth as nat, index as int, position@, degrees@, offsets@),
        decreases paths.len() - index,
    {
        let path = &paths[index];
        if path.len() > depth {
            let ghost stood = position@;
            proof {
                lemma_step_down(traces, depth as nat, index as int, stood, degrees@, offsets@);
            }
            if depth > 0 {
                let parent = position[index];
                let child = (offsets[parent] + path[depth - 1]) as usize;
                position.set(index, child);
            }
            let node = position[index];
            let entry = path[depth];
            proof {
                lemma_visit(traces, depth as nat, index as int, stood, degrees@, offsets@, node);
                assert(position@ =~= stood.update(index as int, node));
            }
            if entry == u32::MAX {
                return false;
            }
            let asked = entry + 1;
            let degree = degrees[node];
            degrees.set(
                node,
                if degree < asked {
                    asked
                } else {
                    degree
                },
            );
        } else {
            proof {
                lemma_skip(traces, depth as nat, index as int, position@, degrees@, offsets@);
            }
        }
        index += 1;
    }
    true
}

/// Makes the next level ready: appends a zero to both arrays for each child counted at
/// the level just visited, and recomputes the offsets as running sums of the degrees.
/// Gives up, with `false`, where the nodes would be more than a `u32` can number.
fn extend(
    Ghost(traces): Ghost<Seq<Seq<TraceId>>>,
    Ghost(depth): Ghost<nat>,
    Ghost(position): Ghost<Seq<usize>>,
    degrees: &mut Vec<Degree>,
    offsets: &mut Vec<u32>,
) -> (fitted: bool)
    requires
        descending(traces, depth, traces.len() as int, position, old(degrees)@, old(offsets)@),
    ensures
        fitted ==> level_ready(traces, depth + 1, position, final(degrees)@, final(offsets)@),
        !fitted ==> !fits(traces),
{
    let ghost before = degrees@;
    let ghost earlier = offsets@;
    proof {
        lemma_level_done(traces, depth, position, before, earlier);
    }
    let last = tally(degrees);
    if last >= 0xffff_ffff {
        return false;
    }
    while degrees.len() <= last as usize
        invariant
            last == total(before),
            last < u32::MAX,
            1 <= before.len() <= degrees.len() <= last + 1,
            offsets.len() == degrees.len(),
            degrees@.take(before.len() as int) == before,
            forall|i: int| before.len() <= i < degrees.len() ==> #[trigger] degrees[i] == 0,
            total(degrees@) == total(before),
            offsets[0] == 1,
        decreases last + 1 - degrees.len(),
    {
        proof {
            assert(degrees@.push(0).drop_last() =~= degrees@);
            assert(degrees@.push(0).take(before.len() as int) =~= degrees@.take(
                before.len() as int,
            ));
        }
        degrees.push(0);
        offsets.push(0);
    }
    let mut index: usize = 1;
    while index < degrees.len()
        invariant
            1 <= index <= degrees.len(),
            offsets.len() == degrees.len(),
            degrees.len() == 1 + total(degrees@),
            degrees.len() <= u32::MAX,
            forall|i: int| 0 <= i < index ==> #[trigger] offsets[i] == 1 + total(degrees@.take(i)),
        decreases degrees.len() - index,
    {
        proof {
            lemma_total_take(degrees@, index - 1);
        }
        let offset = offsets[index - 1] + degrees[index - 1];
        offsets.set(index, offset);
        index += 1;
    }
    proof {
        lemma_level_grown(traces, depth, position, before, earlier, degrees@, offsets@);
    }
    true
}

/// Computes the degree array of the call tree that `paths` imply: for every node of the
/// tree, in breadth-first order and the root first, the number of its children.
///
/// A path lists the sibling indices from the root down to a call. A node has as many
/// children as the largest index taken below it asks for; where two paths disagree, the
/// larger count stands. With no path, or only empty ones, the tree is the root alone and
/// the array is `[0]`.
///
/// Node numbers are held in `u32`, as the degrees are. The result is `None` exactly
/// when the tree has more nodes than that allows.
pub fn reconstruct(paths: &Vec<Vec<TraceId>>) -> (result: Option<Vec<Degree>>)
    ensures
        answers(traces_of(paths@), result),
{
    let ghost traces = traces_of(paths@);
    let mut position: Vec<usize> = vec![0usize; paths.len()];
    let mut degrees: Vec<Degree> = vec![0u32];
    let mut offsets: Vec<u32> = vec![1u32];
    let max_depth = longest(paths);
    proof {
        assert(degrees@ =~= seq![0u32]);
        assert(offsets@ =~= seq![1u32]);
        lemma_start(traces, position@, degrees@, offsets@);
    }
    let mut depth: usize = 0;
    while depth < max_depth
        invariant
            traces == traces_of(paths@),
            max_depth == height(traces),
            depth <= max_depth,
            level_ready(traces, depth as nat, position@, degrees@, offsets@),
        decreases max_depth - depth,
    {
        if !descend(paths, depth, &mut position, &mut degrees, &offsets) {
            return None;
        }
        if !extend(Ghost(traces), Ghost(depth as nat), Ghost(position@), &mut degrees, &mut offsets) {
            return None;
        }
        depth += 1;
    }
    proof {
        lemma_finish(traces, position@, degrees@, offsets@);
    }
    Some(degrees)
}

} // verus!
