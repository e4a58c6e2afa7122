//! The messages of one session, and the call tree that they imply.
use vstd::prelude::*;
use crate::message::SessionizableMessage;
use crate::message::TracedMessage;
use crate::reconstruct::answers;
use crate::reconstruct::reconstruct;
use crate::reconstruct::traces_of;
use crate::tree::degree_array;
use crate::tree::fits;
use crate::tree::widen;
use crate::Degree;
use crate::TraceId;

verus! {

/// All messages of one session, under the session's identifier.
///
/// The identifier is expected to be the one that every message names as its own; nothing
/// here depends on it. The order of the messages carries no meaning.
#[derive(Debug, Clone)]
pub struct MessagesForSession<M: SessionizableMessage> {
    pub session: String,
    pub messages: Vec<M>,
}

impl<M: SessionizableMessage + TracedMessage> MessagesForSession<M> {
    /// Every message states its call trace.
    pub open spec fn traced(&self) -> bool {
        forall|i: int| 0 <= i < self.messages@.len() ==> (#[trigger] self.messages@[i]).trace() is Some
    }

    /// The call traces of the messages, in the order of the messages. It is meant for a
    /// session in which every message states its trace.
    pub open spec fn traces(&self) -> Seq<Seq<TraceId>> {
        self.messages@.map_values(|message: M| message.trace().unwrap())
    }

    /// Asks every message for its call trace.
    fn call_traces(&self) -> (paths: Vec<Vec<TraceId>>)
        ensures
            paths.len() == self.messages.len(),
            self.traced() ==> traces_of(paths@) == self.traces(),
    {
        let mut paths: Vec<Vec<TraceId>> = Vec::new();
        let mut index: usize = 0;
        while index < self.messages.len()
            invariant
                index <= self.messages.len(),
                paths.len() == index,
                forall|i: int|
                    0 <= i < index && self.messages[i].trace() is Some ==> (#[trigger] paths[i])@
                        == self.messages[i].trace().unwrap(),
            decreases self.messages.len() - index,
        {
            paths.push(self.messages[index].call_trace());
            index += 1;
        }
        proof {
            if self.traced() {
                assert(traces_of(paths@) =~= self.traces());
            }
        }
        paths
    }

    /// The degree array of the session's call tree: for every node of the tree that the
    /// call traces imply, in breadth-first order and the root first, the number of its
    /// children.
    ///
    /// The messages must state their traces, and the tree must have no more nodes than a
    /// `u32` can number. Where either is not known beforehand, see
    /// [`try_reconstruct_trace_tree`](Self::try_reconstruct_trace_tree).
    pub fn reconstruct_trace_tree(&self) -> (degrees: Vec<Degree>)
        requires
            self.traced(),
            fits(self.traces()),
        ensures
            widen(degrees@) == degree_array(self.traces()),
    {
        let paths = self.call_traces();
        reconstruct(&paths).unwrap()
    }

    /// The degree array of the session's call tree, or `None` exactly when the tree has
    /// more nodes than a `u32` can number.
    ///
    /// The tree is that of the traces that the messages state. Where they state none, it
    /// is that of the paths that they handed out, one for each message.
    pub fn try_reconstruct_trace_tree(&self) -> (result: Option<Vec<Degree>>)
        ensures
            self.traced() ==> answers(self.traces(), result),
            exists|traces: Seq<Seq<TraceId>>|
                traces.len() == self.messages@.len() && #[trigger] answers(traces, result),
    {
        let paths = self.call_traces();
        let result = reconstruct(&paths);
        proof {
            assert(traces_of(paths@).len() == self.messages@.len());
            assert(answers(traces_of(paths@), result));
        }
        result
    }
}

} // verus!
