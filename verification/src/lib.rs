//! Shape of a session's call tree, rebuilt from the call traces of its messages.
//!
//! Every message of a session carries the path of sibling indices that leads from the
//! session's root call to the call that produced it. From all the paths of a session
//! [`reconstruct`] computes one flat array: the number of children of every node of the
//! implied tree, in breadth-first order. No node objects are built on the way.
//!
//! The module [`tree`] defines the tree and its array mathematically, [`shape`] proves
//! how the nodes are numbered, and [`laws`] what more traces, or the same traces in
//! another order, do to the array. [`reconstruct`](mod@reconstruct) holds the executable
//! algorithm, proved to compute exactly the defined array; [`session`] applies it to the
//! messages of a session, which are described in [`message`].
use vstd::prelude::*;

pub mod laws;
pub mod message;
mod progress;
pub mod reconstruct;
pub mod session;
pub mod shape;
pub mod tree;

pub use message::Record;
pub use message::SessionizableMessage;
pub use message::TracedMessage;
pub use reconstruct::reconstruct;
pub use session::MessagesForSession;

verus! {

/// Logical or wall-clock time of a log record.
pub type Timestamp = u64;

/// Position of a call among its siblings, counted from zero.
pub type TraceId = u32;

/// Number of children of a node of the call tree.
pub type Degree = u32;

} // verus!
