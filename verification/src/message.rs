//! What the library asks of a message.
use vstd::prelude::*;
use crate::Timestamp;
use crate::TraceId;

verus! {

/// A message that can be grouped into a session: it names its session and carries the
/// time of its log record.
pub trait SessionizableMessage {
    /// The time of the log record.
    fn time(&self) -> Timestamp;

    /// The identifier of the session that the message belongs to. It may be empty.
    fn session(&self) -> &str;
}

/// A message that knows where in the call tree of its session it was produced.
pub trait TracedMessage {
    /// The call trace of the message, for a type that states it: the path that
    /// `call_trace` hands out.
    ///
    /// A type that leaves this at `None` states nothing. Its messages can be processed
    /// all the same, but the contracts that speak of a message's trace do not apply.
    open spec fn trace(&self) -> Option<Seq<TraceId>> {
        None
    }

    /// The path from the session's root call to the call that produced the message, as
    /// sibling indices: zero for a first child. It is empty for a message of the root
    /// call itself.
    fn call_trace(&self) -> (path: Vec<TraceId>)
        ensures
            self.trace() matches Some(trace) ==> path@ == trace,
    ;
}

/// A log record reduced to what the library reads of it: the time, the session and the
/// call trace, as plain values. It states its call trace, so that every contract that
/// speaks of traces applies to a session of records.
#[derive(Debug, Clone)]
pub struct Record {
    pub time: Timestamp,
    pub session: String,
    pub path: Vec<TraceId>,
}

impl SessionizableMessage for Record {
    fn time(&self) -> (time: Timestamp)
        ensures
            time == self.time,
    {
        self.time
    }

    fn session(&self) -> (session: &str)
        ensures
            session@ == self.session@,
    {
        self.session.as_str()
    }
}

impl TracedMessage for Record {
    open spec fn trace(&self) -> Option<Seq<TraceId>> {
        Some(self.path@)
    }

    fn call_trace(&self) -> (path: Vec<TraceId>) {
        self.path.clone()
    }
}

} // verus!
