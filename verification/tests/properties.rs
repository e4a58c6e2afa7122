use sessionize::reconstruct;

/// The index of a node's first child: one for the root, plus the degrees of the nodes
/// before it.
fn first_child(degrees: &[u32], node: usize) -> usize {
    1 + degrees[..node].iter().map(|&degree| degree as usize).sum::<usize>()
}

/// The index of the node at `path`, if the tree has such a node.
fn node_at(degrees: &[u32], path: &[u32]) -> Option<usize> {
    let mut node = 0;
    for &index in path {
        if index >= degrees[node] {
            return None;
        }
        node = first_child(degrees, node) + index as usize;
    }
    Some(node)
}

fn degrees_of(paths: &[Vec<u32>]) -> Vec<u32> {
    reconstruct(&paths.to_vec()).expect("the tree is small")
}

/// All paths that are one step longer than a prefix of a trace, the prefixes included.
fn paths_near(paths: &[Vec<u32>]) -> Vec<Vec<u32>> {
    let mut near = vec![vec![]];
    for path in paths {
        for end in 0..path.len() {
            for index in 0..=path[end] + 1 {
                let mut other = path[..end].to_vec();
                other.push(index);
                near.push(other);
            }
        }
    }
    near
}

#[test]
fn the_array_has_one_entry_for_the_root_and_one_for_each_child() {
    let inputs = vec![
        vec![],
        vec![vec![]],
        vec![vec![2]],
        vec![vec![1, 4], vec![5]],
        vec![vec![3, 1, 2], vec![0, 0], vec![3, 0, 0, 1]],
    ];
    for paths in inputs {
        let degrees = degrees_of(&paths);
        let children: usize = degrees.iter().map(|&degree| degree as usize).sum();
        assert_eq!(degrees.len(), 1 + children);
        assert_eq!(first_child(&degrees, degrees.len() - 1), degrees.len());
    }
}

#[test]
fn every_trace_ends_at_a_node_of_the_tree() {
    let paths = vec![vec![3, 1, 2], vec![0, 0], vec![3, 0, 0, 1]];
    let degrees = degrees_of(&paths);
    for path in &paths {
        assert!(node_at(&degrees, path).is_some());
    }
    assert_eq!(node_at(&degrees, &[3, 1]), Some(7));
    assert_eq!(degrees[7], 3);
    assert_eq!(node_at(&degrees, &[3, 2]), None);
    assert_eq!(node_at(&degrees, &[4]), None);
}

#[test]
fn more_traces_never_lower_the_degree_of_a_node() {
    let smaller = vec![vec![0, 0, 2], vec![1, 4]];
    let additions = vec![vec![vec![1]], vec![vec![5], vec![0, 0, 7]], vec![vec![0, 3, 1], vec![]]];
    let before = degrees_of(&smaller);
    for extra in additions {
        let mut larger = smaller.clone();
        larger.extend(extra);
        let after = degrees_of(&larger);
        assert!(after.len() >= before.len());
        for path in paths_near(&smaller) {
            if let Some(node) = node_at(&before, &path) {
                let moved = node_at(&after, &path).expect("the node is still there");
                assert!(moved >= node);
                assert!(after[moved] >= before[node]);
            }
        }
    }
}

#[test]
fn entries_never_shrink_while_the_numbering_stays() {
    // The further trace goes deeper below the last node: no node is renumbered.
    let before = degrees_of(&[vec![0], vec![0, 1]]);
    let after = degrees_of(&[vec![0], vec![0, 1], vec![0, 1, 0]]);
    assert_eq!(before, vec![1, 2, 0, 0]);
    assert_eq!(after, vec![1, 2, 0, 1, 0]);
    for index in 0..before.len() {
        assert!(after[index] >= before[index]);
    }
    let before = degrees_of(&[vec![1, 4]]);
    let after = degrees_of(&[vec![1, 4], vec![5]]);
    assert_eq!(before, vec![2, 0, 5, 0, 0, 0, 0, 0]);
    assert_eq!(after, vec![6, 0, 5, 0, 0, 0, 0, 0, 0, 0, 0, 0]);
    for index in 0..before.len() {
        assert!(after[index] >= before[index]);
    }
}

#[test]
fn a_further_sibling_moves_the_nodes_below() {
    // A second child of the root takes the number that a grandchild had.
    let before = degrees_of(&[vec![0, 0, 2]]);
    let after = degrees_of(&[vec![0, 0, 2], vec![1]]);
    assert_eq!(before, vec![1, 1, 3, 0, 0, 0]);
    assert_eq!(after, vec![2, 1, 0, 3, 0, 0, 0]);
    assert_eq!(node_at(&before, &[0, 0]), Some(2));
    assert_eq!(node_at(&after, &[0, 0]), Some(3));
    assert_eq!(node_at(&after, &[1]), Some(2));
    assert!(after[2] < before[2]);
    assert_eq!(after[3], before[2]);
}

#[test]
fn the_order_of_the_traces_does_not_matter() {
    let traces = vec![vec![0], vec![0, 1], vec![0, 1, 0], vec![2, 0]];
    let expected = vec![3, 2, 0, 1, 0, 1, 0, 0];
    let orders: Vec<Vec<usize>> = vec![
        vec![0, 1, 2, 3],
        vec![3, 2, 1, 0],
        vec![1, 3, 0, 2],
        vec![2, 0, 3, 1],
        vec![1, 0, 2, 3],
    ];
    for order in orders {
        let permuted: Vec<Vec<u32>> = order.iter().map(|&i| traces[i].clone()).collect();
        assert_eq!(degrees_of(&permuted), expected);
    }
}

#[test]
fn the_order_does_not_matter_for_a_tree_that_does_not_fit() {
    assert_eq!(reconstruct(&vec![vec![0], vec![u32::MAX], vec![1, 1]]), None);
    assert_eq!(reconstruct(&vec![vec![1, 1], vec![u32::MAX], vec![0]]), None);
    assert_eq!(reconstruct(&vec![vec![u32::MAX], vec![0], vec![1, 1]]), None);
}

#[test]
fn the_same_input_gives_the_same_array_again() {
    let traces = vec![vec![3, 1, 2], vec![0, 0], vec![3, 0, 0, 1]];
    let first = reconstruct(&traces);
    let second = reconstruct(&traces);
    assert_eq!(first, second);
    assert_eq!(traces, vec![vec![3, 1, 2], vec![0, 0], vec![3, 0, 0, 1]]);
}
