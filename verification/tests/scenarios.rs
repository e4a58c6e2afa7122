use sessionize::reconstruct;
use sessionize::MessagesForSession;
use sessionize::Record;
use sessionize::SessionizableMessage;
use sessionize::TracedMessage;

/// A message type of the caller's own, which states nothing beyond what it returns.
#[derive(Debug, Clone)]
struct Span {
    started: u64,
    request: String,
    calls: Vec<u32>,
}

impl SessionizableMessage for Span {
    fn time(&self) -> u64 {
        self.started
    }

    fn session(&self) -> &str {
        &self.request
    }
}

impl TracedMessage for Span {
    fn call_trace(&self) -> Vec<u32> {
        self.calls.clone()
    }
}

fn session_of(traces: Vec<Vec<u32>>) -> MessagesForSession<Record> {
    let mut messages = Vec::new();
    let mut time = 0;
    for path in traces {
        messages.push(Record { time, session: String::from("checkout"), path });
        time += 10;
    }
    MessagesForSession { session: String::from("checkout"), messages }
}

fn spans_of(traces: Vec<Vec<u32>>) -> MessagesForSession<Span> {
    let mut messages = Vec::new();
    for calls in traces {
        messages.push(Span { started: 7, request: String::from("login"), calls });
    }
    MessagesForSession { session: String::from("login"), messages }
}

#[test]
fn empty_input_is_the_root_alone() {
    assert_eq!(session_of(vec![]).reconstruct_trace_tree(), vec![0]);
    assert_eq!(session_of(vec![]).try_reconstruct_trace_tree(), Some(vec![0]));
    assert_eq!(reconstruct(&vec![]), Some(vec![0]));
}

#[test]
fn root_only_message_is_the_root_alone() {
    assert_eq!(session_of(vec![vec![]]).reconstruct_trace_tree(), vec![0]);
    assert_eq!(reconstruct(&vec![vec![]]), Some(vec![0]));
}

#[test]
fn single_path_gives_the_root_three_children() {
    let degrees = session_of(vec![vec![2]]).reconstruct_trace_tree();
    assert_eq!(degrees[0], 3);
    assert_eq!(degrees, vec![3, 0, 0, 0]);
}

#[test]
fn two_siblings_give_the_root_two_children() {
    let degrees = session_of(vec![vec![0], vec![1]]).reconstruct_trace_tree();
    assert_eq!(degrees[0], 2);
    assert_eq!(degrees, vec![2, 0, 0]);
}

#[test]
fn chain_of_depth_two() {
    let degrees = session_of(vec![vec![1, 0]]).reconstruct_trace_tree();
    assert!(degrees[0] >= 2);
    let first_child_of_root = 1;
    assert_eq!(degrees[first_child_of_root + 1], 1);
    assert_eq!(degrees, vec![2, 0, 1, 0]);
}

#[test]
fn empty_traces_among_others_contribute_nothing() {
    assert_eq!(reconstruct(&vec![vec![], vec![0], vec![]]), Some(vec![1, 0]));
}

#[test]
fn disagreeing_counts_resolve_to_the_largest() {
    assert_eq!(reconstruct(&vec![vec![1], vec![4], vec![1]]), Some(vec![5, 0, 0, 0, 0, 0]));
    assert_eq!(
        reconstruct(&vec![vec![0, 1], vec![0, 4], vec![0, 2]]),
        Some(vec![1, 5, 0, 0, 0, 0, 0])
    );
}

#[test]
fn a_repeated_trace_changes_nothing() {
    assert_eq!(reconstruct(&vec![vec![1, 0], vec![1, 0]]), reconstruct(&vec![vec![1, 0]]));
    assert_eq!(reconstruct(&vec![vec![1, 0], vec![1, 0]]), Some(vec![2, 0, 1, 0]));
}

#[test]
fn children_are_numbered_parent_by_parent() {
    // The root has two children. Both have children of their own: those of the first
    // child come first, then the one of the second.
    assert_eq!(reconstruct(&vec![vec![1, 0], vec![0, 1]]), Some(vec![2, 2, 1, 0, 0, 0]));
}

#[test]
fn a_deeper_tree_in_full() {
    let paths = vec![vec![3, 1, 2], vec![0, 0], vec![3, 0, 0, 1]];
    assert_eq!(reconstruct(&paths), Some(vec![4, 1, 0, 0, 2, 0, 1, 3, 2, 0, 0, 0, 0, 0]));
}

#[test]
fn a_degree_beyond_u32_is_refused() {
    assert_eq!(reconstruct(&vec![vec![u32::MAX]]), None);
    assert_eq!(reconstruct(&vec![vec![0], vec![0, u32::MAX]]), None);
    assert_eq!(session_of(vec![vec![u32::MAX]]).try_reconstruct_trace_tree(), None);
    assert_eq!(spans_of(vec![vec![u32::MAX]]).try_reconstruct_trace_tree(), None);
}

#[test]
fn more_nodes_than_u32_can_number_are_refused() {
    // The root alone would have 2^32 - 1 children: with the root, one node too many.
    assert_eq!(reconstruct(&vec![vec![u32::MAX - 1]]), None);
    assert_eq!(reconstruct(&vec![vec![], vec![u32::MAX - 1], vec![0, 0]]), None);
}

#[test]
fn the_session_is_a_plain_holder_of_its_messages() {
    let session = session_of(vec![vec![0], vec![1, 2]]);
    assert_eq!(session.session, "checkout");
    assert_eq!(session.messages.len(), 2);
    assert_eq!(session.messages[1].time(), 10);
    assert_eq!(session.messages[1].session(), "checkout");
    assert_eq!(session.messages[1].call_trace(), vec![1, 2]);
    let copy = session.clone();
    assert_eq!(copy.session, session.session);
    assert_eq!(copy.reconstruct_trace_tree(), session.reconstruct_trace_tree());
    assert!(format!("{:?}", session).contains("checkout"));
}

#[test]
fn messages_and_plain_paths_give_the_same_array() {
    let traces = vec![vec![0], vec![0, 1], vec![0, 1, 0], vec![2, 0]];
    let session = session_of(traces.clone());
    assert_eq!(session.try_reconstruct_trace_tree(), reconstruct(&traces));
    assert_eq!(Some(session.reconstruct_trace_tree()), reconstruct(&traces));
    assert_eq!(reconstruct(&traces), Some(vec![3, 2, 0, 1, 0, 1, 0, 0]));
}

#[test]
fn the_messages_are_left_as_they_were() {
    let session = session_of(vec![vec![1, 0], vec![0]]);
    let before: Vec<Vec<u32>> = session.messages.iter().map(|m| m.call_trace()).collect();
    let _ = session.reconstruct_trace_tree();
    let after: Vec<Vec<u32>> = session.messages.iter().map(|m| m.call_trace()).collect();
    assert_eq!(before, after);
}

#[test]
fn a_message_type_of_the_callers_own_is_taken_as_it_is() {
    let spans = spans_of(vec![vec![1, 0], vec![0, 1], vec![]]);
    assert_eq!(spans.messages[0].time(), 7);
    assert_eq!(spans.messages[0].session(), "login");
    assert_eq!(spans.try_reconstruct_trace_tree(), Some(vec![2, 2, 1, 0, 0, 0]));
    assert_eq!(spans_of(vec![]).try_reconstruct_trace_tree(), Some(vec![0]));
    assert_eq!(spans_of(vec![vec![2]]).try_reconstruct_trace_tree(), Some(vec![3, 0, 0, 0]));
}

#[test]
fn a_batch_of_small_trees() {
    let cases: Vec<(Vec<Vec<u32>>, Vec<u32>)> = vec![
        (vec![vec![0, 1, 0, 3], vec![1, 2, 0, 3], vec![1], vec![0, 0, 1, 3], vec![2, 1, 1]], vec![3, 2, 3, 2, 2, 1, 0, 0, 1, 0, 2, 0, 4, 4, 4, 0, 0, 0, 0, 0, 0, 0, 0, 0, 0, 0, 0, 0, 0]),
        (vec![vec![], vec![1, 0, 0, 1], vec![0, 2, 1], vec![1]], vec![2, 3, 1, 0, 0, 2, 1, 0, 0, 2, 0, 0]),
        (vec![vec![1], vec![1, 1, 2], vec![3, 2, 2], vec![1]], vec![4, 0, 2, 0, 3, 0, 3, 0, 0, 3, 0, 0, 0, 0, 0, 0]),
        (vec![vec![], vec![3, 3], vec![]], vec![4, 0, 0, 0, 4, 0, 0, 0, 0]),
        (vec![vec![2, 1, 0]], vec![3, 0, 0, 2, 0, 1, 0]),
        (vec![vec![1, 2]], vec![2, 0, 3, 0, 0, 0]),
        (vec![vec![0, 0], vec![3, 3]], vec![4, 1, 0, 0, 4, 0, 0, 0, 0, 0]),
        (vec![vec![3, 2, 1, 2], vec![1, 0, 2, 1], vec![3, 0, 2]], vec![4, 0, 1, 0, 3, 3, 3, 0, 2, 0, 0, 2, 0, 0, 0, 0, 3, 0, 0, 0, 0, 0]),
        (vec![vec![], vec![], vec![], vec![0, 1, 3, 1], vec![2, 3]], vec![3, 2, 0, 4, 0, 4, 0, 0, 0, 0, 0, 0, 0, 2, 0, 0]),
        (vec![vec![2, 1, 3], vec![1], vec![]], vec![3, 0, 0, 2, 0, 4, 0, 0, 0, 0]),
        (vec![vec![0, 0], vec![0, 2, 1]], vec![1, 3, 0, 0, 2, 0, 0]),
        (vec![vec![], vec![3, 1]], vec![4, 0, 0, 0, 2, 0, 0]),
        (vec![vec![0, 0, 0, 2]], vec![1, 1, 1, 3, 0, 0, 0]),
        (vec![vec![3, 3, 2, 1], vec![0]], vec![4, 0, 0, 0, 4, 0, 0, 0, 3, 0, 0, 2, 0, 0]),
        (vec![vec![2, 3, 3, 1], vec![]], vec![3, 0, 0, 4, 0, 0, 0, 4, 0, 0, 0, 2, 0, 0]),
        (vec![vec![], vec![3, 3]], vec![4, 0, 0, 0, 4, 0, 0, 0, 0]),
    ];
    for (paths, expected) in cases {
        assert_eq!(reconstruct(&paths), Some(expected));
    }
}
